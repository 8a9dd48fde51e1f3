//! The codec contracts.
//!
//! [`Wire`] says what the encoding of a type is: the words a value is written
//! as and, as a function of stream and memory, what decoding makes of them.
//! [`Incoming`] and [`Outcoming`] are the two roles a type can play at the
//! boundary; their methods are held to the functions of [`Wire`].

use crate::error::{ProtocolError, ARGS_NEXT_ERROR};
use crate::stream::Slots;
use core::slice::Iter;
use vstd::prelude::*;
use vstd::std_specs::iter::IteratorSpec;

verus! {

/// The encoding of a type, as mathematics.
///
/// A value is modelled by its deep view. Decoding is positional: it reads a
/// prefix of the stream and says how long that prefix was.
pub trait Wire: Sized + DeepView {
    /// What the codec needs of the type itself: that the keys of a map are
    /// compared and hashed as their values say. True of every type without a
    /// map in it.
    spec fn lawful() -> bool;

    /// The words that encode `self`, in stream order.
    spec fn words(&self) -> Seq<u32>;

    /// What decoding reads from the front of `words`, with `heap` as the
    /// sandbox memory: the decoded value and the number of words it took, or
    /// the failure.
    spec fn parse(heap: Seq<u8>, words: Seq<u32>) -> Result<(Self::V, nat), ProtocolError>;

    /// Whether decoding gets `self` back from its own words and `heap`.
    ///
    /// False of a 64-bit scalar whose high word changes when its bytes are
    /// reversed, of a length that does not fit in a word, and of a payload
    /// that `heap` does not hold at its address.
    spec fn restorable(&self, heap: Seq<u8>) -> bool;

    /// Decoding never takes more words than the stream holds.
    proof fn lemma_parse_bound(heap: Seq<u8>, words: Seq<u32>)
        requires
            Self::lawful(),
        ensures
            Self::parse(heap, words) matches Ok((_, n)) ==> n <= words.len(),
    ;

    /// Round trip: decoding the words of a restorable value, whatever follows
    /// them in the stream, yields that value and takes exactly those words.
    proof fn lemma_round_trip(&self, heap: Seq<u8>, rest: Seq<u32>)
        requires
            Self::lawful(),
            self.restorable(heap),
        ensures
            Self::parse(heap, self.words() + rest) == Ok::<(Self::V, nat), ProtocolError>(
                (self.deep_view(), self.words().len()),
            ),
    ;
}

/// A value that can travel out of the sandbox: the sandbox side writes it
/// with `args`, the host side takes it with `read`.
pub trait Outcoming: Wire {
    /// Whether `read` looks into the sandbox memory.
    const IS_NEED_READ: bool = false;

    /// The flag as the structure of the type gives it: on for a payload that
    /// is read in place, and for a composite exactly where it is on for one
    /// of its parts.
    spec fn reads_memory() -> bool;

    /// The constant is the flag that the structure gives.
    proof fn lemma_read_flag()
        ensures
            Self::IS_NEED_READ == Self::reads_memory(),
    ;

    /// A type whose flag is off is decoded from the stream alone.
    proof fn lemma_read_ignores_memory(h1: Seq<u8>, h2: Seq<u8>, words: Seq<u32>)
        requires
            Self::lawful(),
        ensures
            !Self::reads_memory() ==> Self::parse(h1, words) == Self::parse(h2, words),
    ;

    /// Appends the words of `self` to the stream.
    fn args(&self, args: &mut Vec<u32>) -> (r: Result<(), ProtocolError>)
        requires
            Self::lawful(),
        ensures
            r is Ok,
            final(args)@ == old(args)@ + self.words(),
    ;

    /// Decodes a value from the front of the stream, with `heap` as the
    /// sandbox memory, and leaves the stream behind the words it took.
    fn read(heap: &[u8], args: &mut Iter<u32>) -> (r: Result<Self, ProtocolError>)
        requires
            Self::lawful(),
        ensures
            match Self::parse(heap@, (*old(args)).remaining().unref()) {
                Ok((value, taken)) => {
                    &&& r matches Ok(v) && v.deep_view() == value
                    &&& (*final(args)).remaining() == (*old(args)).remaining().skip(taken as int)
                },
                Err(e) => r matches Err(f) && f == e,
            },
    ;
}

/// A value that can travel into the sandbox: the host side writes it with
/// `args`, the sandbox side takes it with `init`, and the host side then
/// completes it in the sandbox memory with `fill`.
pub trait Incoming: Wire {
    /// Whether `fill` writes into the sandbox memory, so that the second
    /// phase cannot be left out.
    const IS_NEED_INIT_FILL: bool = false;

    /// The flag as the structure of the type gives it: on for a payload that
    /// is staged, and for a composite exactly where it is on for one of its
    /// parts.
    spec fn writes_memory() -> bool;

    /// The constant is the flag that the structure gives.
    proof fn lemma_fill_flag()
        ensures
            Self::IS_NEED_INIT_FILL == Self::writes_memory(),
    ;

    /// The sandbox memory after `fill` has run on `heap` with `words` as the
    /// stream that `init` left, or the failure.
    spec fn filled(&self, heap: Seq<u8>, words: Seq<u32>) -> Result<Seq<u8>, ProtocolError>;

    /// `init` has no memory to look into: what it decodes depends on the
    /// stream alone.
    proof fn lemma_init_ignores_memory(h1: Seq<u8>, h2: Seq<u8>, words: Seq<u32>)
        requires
            Self::lawful(),
        ensures
            Self::parse(h1, words) == Self::parse(h2, words),
    ;

    /// Where `fill` succeeds the stream held the words of `self`, and the
    /// memory keeps its size.
    proof fn lemma_filled_bound(&self, heap: Seq<u8>, words: Seq<u32>)
        requires
            Self::lawful(),
        ensures
            self.filled(heap, words) matches Ok(after) ==> self.words().len() <= words.len()
                && after.len() == heap.len(),
    ;

    /// With the flag off `fill` leaves the memory as it is, and fails exactly
    /// where the stream is shorter than the words of `self`.
    proof fn lemma_fill_without_memory(&self, heap: Seq<u8>, words: Seq<u32>)
        requires
            Self::lawful(),
        ensures
            !Self::writes_memory() ==> self.filled(heap, words) == (if self.words().len()
                <= words.len() {
                Ok::<Seq<u8>, ProtocolError>(heap)
            } else {
                Err::<Seq<u8>, ProtocolError>(ProtocolError(ARGS_NEXT_ERROR))
            }),
    ;

    /// Decodes a value from the slots not read yet. Slots outside those it
    /// reads are left alone, and with the flag off so are all of them.
    fn init(args: &mut Slots) -> (r: Result<(u32, Self), ProtocolError>)
        requires
            Self::lawful(),
        ensures
            final(args).words().len() == old(args).words().len(),
            !Self::writes_memory() ==> final(args).words() == old(args).words(),
            match Self::parse(Seq::empty(), old(args).remaining()) {
                Ok((value, taken)) => {
                    &&& r matches Ok(pair) && pair.1.deep_view() == value
                    &&& final(args).position() == old(args).position() + taken
                    &&& final(args).kept_outside(*old(args), taken)
                },
                Err(e) => r matches Err(f) && f == e,
            },
    ;

    /// Appends the words of `self` to the stream.
    fn args(&self, args: &mut Vec<u32>) -> (r: Result<(), ProtocolError>)
        requires
            Self::lawful(),
        ensures
            r is Ok,
            final(args)@ == old(args)@ + self.words(),
    ;

    /// Second phase: walks the stream that `init` left, over the words of
    /// `self`, and writes into the sandbox memory what belongs there.
    fn fill(&self, heap: &mut [u8], args: &mut Iter<u32>) -> (r: Result<(), ProtocolError>)
        requires
            Self::lawful(),
        ensures
            final(heap)@.len() == old(heap)@.len(),
            match self.filled(old(heap)@, (*old(args)).remaining().unref()) {
                Ok(after) => {
                    &&& r is Ok
                    &&& final(heap)@ == after
                    &&& (*final(args)).remaining() == (*old(args)).remaining().skip(
                        self.words().len() as int,
                    )
                },
                Err(e) => r matches Err(f) && f == e,
            },
    ;
}

} // verus!

