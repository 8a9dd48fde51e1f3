//! Text: a byte payload that decoding accepts only where it is UTF-8.

use crate::bytes::{
    bytes_word_count, bytes_words, init_bytes, lemma_parse_bytes_words, parse_bytes, push_bytes,
    read_bytes,
};
use crate::codec::{Incoming, Outcoming, Wire};
use crate::error::{ProtocolError, STRING_FROM_BYTES_ERROR};
use crate::packing::chunk_count;
use crate::scalar::{pass_over, passed_over};
use crate::stream::Slots;
use core::slice::Iter;
use std::string::FromUtf8Error;
use vstd::prelude::*;
use vstd::std_specs::iter::IteratorSpec;
use vstd::utf8::{
    decode_utf8, encode_utf8, encode_utf8_decode_utf8, encode_utf8_valid_utf8, valid_utf8,
};

verus! {

/// The error of `String::from_utf8`; the codec looks at nothing inside it.
#[verifier::external_type_specification]
#[verifier::external_body]
pub struct ExFromUtf8Error(FromUtf8Error);

/// `String::from_utf8` of the standard library: it accepts exactly the byte
/// vectors that are UTF-8, and the string it returns holds the bytes it was
/// given.
pub assume_specification[ String::from_utf8 ](vec: Vec<u8>) -> (r: Result<String, FromUtf8Error>)
    ensures
        r is Ok <==> valid_utf8(vec@),
        r matches Ok(s) ==> encode_utf8(s@) == vec@,
;

impl From<FromUtf8Error> for ProtocolError {
    /// Bytes that are no text are reported as the failure of a text payload.
    fn from(error: FromUtf8Error) -> (e: Self) {
        ProtocolError(STRING_FROM_BYTES_ERROR)
    }
}

impl vstd::std_specs::convert::FromSpecImpl<FromUtf8Error> for ProtocolError {
    open spec fn obeys_from_spec() -> bool {
        true
    }

    open spec fn from_spec(error: FromUtf8Error) -> Self {
        ProtocolError(STRING_FROM_BYTES_ERROR)
    }
}

/// What decoding a text reads: a byte payload, refused where it is not UTF-8.
pub open spec fn parse_text(words: Seq<u32>) -> Result<(Seq<char>, nat), ProtocolError> {
    match parse_bytes(words) {
        Ok((bytes, taken)) => if valid_utf8(bytes) {
            Ok((decode_utf8(bytes), taken))
        } else {
            Err(ProtocolError(STRING_FROM_BYTES_ERROR))
        },
        Err(e) => Err(e),
    }
}

/// Makes a text of a decoded payload, or refuses it.
pub fn text_from_bytes(bytes: Vec<u8>) -> (r: Result<String, ProtocolError>)
    ensures
        valid_utf8(bytes@) ==> (r matches Ok(s) && s@ == decode_utf8(bytes@)),
        !valid_utf8(bytes@) ==> r == Err::<String, ProtocolError>(
            ProtocolError(STRING_FROM_BYTES_ERROR),
        ),
{
    match String::from_utf8(bytes) {
        Ok(s) => {
            proof {
                encode_utf8_decode_utf8(s@);
            }
            Ok(s)
        },
        Err(error) => Err(ProtocolError::from(error)),
    }
}

impl Wire for String {
    open spec fn lawful() -> bool {
        true
    }

    open spec fn words(&self) -> Seq<u32> {
        bytes_words(encode_utf8(self@))
    }

    open spec fn parse(heap: Seq<u8>, words: Seq<u32>) -> Result<(Seq<char>, nat), ProtocolError> {
        parse_text(words)
    }

    open spec fn restorable(&self, heap: Seq<u8>) -> bool {
        encode_utf8(self@).len() <= u32::MAX
    }

    proof fn lemma_parse_bound(heap: Seq<u8>, words: Seq<u32>) {
    }

    proof fn lemma_round_trip(&self, heap: Seq<u8>, rest: Seq<u32>) {
        lemma_parse_bytes_words(encode_utf8(self@), rest);
        encode_utf8_valid_utf8(self@);
        encode_utf8_decode_utf8(self@);
    }
}

impl Outcoming for String {
    const IS_NEED_READ: bool = false;

    open spec fn reads_memory() -> bool {
        false
    }

    proof fn lemma_read_flag() {
    }

    proof fn lemma_read_ignores_memory(h1: Seq<u8>, h2: Seq<u8>, words: Seq<u32>) {
    }

    fn args(&self, args: &mut Vec<u32>) -> (r: Result<(), ProtocolError>) {
        push_bytes(self.as_str().as_bytes(), args);
        Ok(())
    }

    fn read(heap: &[u8], args: &mut Iter<u32>) -> (r: Result<Self, ProtocolError>) {
        let bytes = read_bytes(args)?;
        text_from_bytes(bytes)
    }
}

impl Incoming for String {
    const IS_NEED_INIT_FILL: bool = false;

    open spec fn writes_memory() -> bool {
        false
    }

    proof fn lemma_fill_flag() {
    }

    open spec fn filled(&self, heap: Seq<u8>, words: Seq<u32>) -> Result<Seq<u8>, ProtocolError> {
        passed_over(heap, words, 1 + chunk_count(encode_utf8(self@).len()))
    }

    proof fn lemma_init_ignores_memory(h1: Seq<u8>, h2: Seq<u8>, words: Seq<u32>) {
    }

    proof fn lemma_filled_bound(&self, heap: Seq<u8>, words: Seq<u32>) {
    }

    proof fn lemma_fill_without_memory(&self, heap: Seq<u8>, words: Seq<u32>) {
    }

    fn init(args: &mut Slots) -> (r: Result<(u32, Self), ProtocolError>)
        ensures
            r matches Ok(pair) ==> pair.0 == 0,
    {
        let bytes = init_bytes(args)?;
        let s = text_from_bytes(bytes)?;
        Ok((0, s))
    }

    fn args(&self, args: &mut Vec<u32>) -> (r: Result<(), ProtocolError>) {
        push_bytes(self.as_str().as_bytes(), args);
        Ok(())
    }

    fn fill(&self, heap: &mut [u8], args: &mut Iter<u32>) -> (r: Result<(), ProtocolError>) {
        pass_over(args, bytes_word_count(self.as_str().as_bytes().len()))
    }
}

} // verus!
