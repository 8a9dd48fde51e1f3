//! Exclusively owned indirect values: a box travels as what it holds, with
//! nothing added.

use crate::codec::{Incoming, Outcoming, Wire};
use crate::error::ProtocolError;
use crate::stream::Slots;
use core::slice::Iter;
use vstd::prelude::*;
use vstd::std_specs::iter::IteratorSpec;

verus! {

impl<T: Wire> Wire for Box<T> {
    open spec fn lawful() -> bool {
        T::lawful()
    }

    open spec fn words(&self) -> Seq<u32> {
        (**self).words()
    }

    open spec fn parse(heap: Seq<u8>, words: Seq<u32>) -> Result<(T::V, nat), ProtocolError> {
        T::parse(heap, words)
    }

    open spec fn restorable(&self, heap: Seq<u8>) -> bool {
        (**self).restorable(heap)
    }

    proof fn lemma_parse_bound(heap: Seq<u8>, words: Seq<u32>) {
        T::lemma_parse_bound(heap, words);
    }

    proof fn lemma_round_trip(&self, heap: Seq<u8>, rest: Seq<u32>) {
        (**self).lemma_round_trip(heap, rest);
    }
}

impl<T: Outcoming> Outcoming for Box<T> {
    const IS_NEED_READ: bool = T::IS_NEED_READ;

    open spec fn reads_memory() -> bool {
        T::reads_memory()
    }

    proof fn lemma_read_flag() {
        T::lemma_read_flag();
    }

    proof fn lemma_read_ignores_memory(h1: Seq<u8>, h2: Seq<u8>, words: Seq<u32>) {
        T::lemma_read_ignores_memory(h1, h2, words);
    }

    fn args(&self, args: &mut Vec<u32>) -> (r: Result<(), ProtocolError>) {
        let inner: &T = &**self;
        inner.args(args)?;
        Ok(())
    }

    fn read(heap: &[u8], args: &mut Iter<u32>) -> (r: Result<Self, ProtocolError>) {
        let item = T::read(heap, args)?;
        Ok(Box::new(item))
    }
}

impl<T: Incoming> Incoming for Box<T> {
    const IS_NEED_INIT_FILL: bool = T::IS_NEED_INIT_FILL;

    open spec fn writes_memory() -> bool {
        T::writes_memory()
    }

    proof fn lemma_fill_flag() {
        T::lemma_fill_flag();
    }

    open spec fn filled(&self, heap: Seq<u8>, words: Seq<u32>) -> Result<Seq<u8>, ProtocolError> {
        (**self).filled(heap, words)
    }

    proof fn lemma_init_ignores_memory(h1: Seq<u8>, h2: Seq<u8>, words: Seq<u32>) {
        T::lemma_init_ignores_memory(h1, h2, words);
    }

    proof fn lemma_filled_bound(&self, heap: Seq<u8>, words: Seq<u32>) {
        (**self).lemma_filled_bound(heap, words);
    }

    proof fn lemma_fill_without_memory(&self, heap: Seq<u8>, words: Seq<u32>) {
        (**self).lemma_fill_without_memory(heap, words);
    }

    fn init(args: &mut Slots) -> (r: Result<(u32, Self), ProtocolError>)
        ensures
            r matches Ok(pair) ==> pair.0 == 0,
    {
        let (_, item) = T::init(args)?;
        Ok((0, Box::new(item)))
    }

    fn args(&self, args: &mut Vec<u32>) -> (r: Result<(), ProtocolError>) {
        let inner: &T = &**self;
        inner.args(args)?;
        Ok(())
    }

    fn fill(&self, heap: &mut [u8], args: &mut Iter<u32>) -> (r: Result<(), ProtocolError>) {
        let inner: &T = &**self;
        inner.fill(heap, args)?;
        Ok(())
    }
}

} // verus!
