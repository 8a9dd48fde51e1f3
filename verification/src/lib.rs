//! Marshaling of structured values across a sandbox boundary whose only
//! channel is a stream of 32-bit words and a byte-addressable memory.
//!
//! [`Wire`] says what the encoding of a type is; [`Incoming`] and
//! [`Outcoming`] are the two roles at the boundary. The codecs for native
//! types live in the modules named after them, the codec for types that are
//! described while the program runs in [`dynamic`], and the compiler from a
//! declaration to such a description in [`schema`].

pub mod atom;
pub mod boxed;
pub mod btree;
pub mod bytes;
pub mod calendar;
pub mod codec;
pub mod described;
pub mod dynamic;
pub mod entries;
pub mod error;
pub mod hash;
pub mod memory;
pub mod option;
pub mod packing;
pub mod scalar;
pub mod schema;
pub mod sequence;
pub mod shape;
pub mod stream;
pub mod text;
pub mod tuple;

pub use bytes::Bytes;
pub use calendar::{time_from_u32, time_into_u32};
pub use codec::{Incoming, Outcoming, Wire};
pub use error::{
    ProtocolError, ARGS_NEXT_ERROR, BYTES_INTO_ARR4_ERROR, BYTES_INTO_ARR8_ERROR,
    ENUM_FROM_U32_ERROR, MAP_INSERT_ERROR, STRING_FROM_BYTES_ERROR, TIME_PARSE_ERROR,
};
pub use memory::{Resident, Staged};
pub use schema::{derive_set_incoming, derive_set_outcoming, get_primitive_name};
pub use stream::Slots;
