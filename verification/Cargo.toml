[package]
name = "wa_proto"
version = "0.1.0"
edition = "2021"
publish = false

[dependencies]
chrono = { version = "0.4", default-features = false, features = ["std"] }
time = { version = "0.3", default-features = false, features = ["std"] }
hashbrown = "0.14"
rustc-hash = "1.1"
syn = "1.0"
quote = "1.0"
proc-macro2 = "1.0"
