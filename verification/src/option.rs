//! Optional values: one word that says whether a value follows, then the
//! value where one does.

use crate::codec::{Incoming, Outcoming, Wire};
use crate::error::{ProtocolError, ARGS_NEXT_ERROR};
use crate::scalar::{init_word, pass_over, passed_over, read_word};
use crate::stream::Slots;
use core::slice::Iter;
use vstd::prelude::*;
use vstd::std_specs::iter::IteratorSpec;

verus! {

impl<T: Wire> Wire for Option<T> {
    open spec fn lawful() -> bool {
        T::lawful()
    }

    open spec fn words(&self) -> Seq<u32> {
        match self {
            None => seq![0u32],
            Some(item) => seq![1u32] + item.words(),
        }
    }

    open spec fn parse(heap: Seq<u8>, words: Seq<u32>) -> Result<(Option<T::V>, nat), ProtocolError> {
        if words.len() == 0 {
            Err(ProtocolError(ARGS_NEXT_ERROR))
        } else if words[0] == 0 {
            Ok((None, 1nat))
        } else {
            match T::parse(heap, words.skip(1)) {
                Ok((value, taken)) => Ok((Some(value), 1 + taken)),
                Err(e) => Err(e),
            }
        }
    }

    open spec fn restorable(&self, heap: Seq<u8>) -> bool {
        match self {
            None => true,
            Some(item) => item.restorable(heap),
        }
    }

    proof fn lemma_parse_bound(heap: Seq<u8>, words: Seq<u32>) {
        if words.len() > 0 && words[0] != 0 {
            T::lemma_parse_bound(heap, words.skip(1));
        }
    }

    proof fn lemma_round_trip(&self, heap: Seq<u8>, rest: Seq<u32>) {
        match self {
            None => {},
            Some(item) => {
                item.lemma_round_trip(heap, rest);
                assert((self.words() + rest).skip(1) =~= item.words() + rest);
            },
        }
    }
}

impl<T: Outcoming> Outcoming for Option<T> {
    const IS_NEED_READ: bool = T::IS_NEED_READ;

    open spec fn reads_memory() -> bool {
        T::reads_memory()
    }

    proof fn lemma_read_flag() {
        T::lemma_read_flag();
    }

    proof fn lemma_read_ignores_memory(h1: Seq<u8>, h2: Seq<u8>, words: Seq<u32>) {
        T::lemma_read_ignores_memory(h1, h2, words.skip(1));
    }

    fn args(&self, args: &mut Vec<u32>) -> (r: Result<(), ProtocolError>) {
        match self {
            None => {
                args.push(0);
            },
            Some(item) => {
                args.push(1);
                item.args(args)?;
                assert(args@ =~= old(args)@ + self.words());
            },
        }
        Ok(())
    }

    fn read(heap: &[u8], args: &mut Iter<u32>) -> (r: Result<Self, ProtocolError>) {
        let ghost words = (*old(args)).remaining().unref();
        let is_some: bool = read_word(args)? != 0;
        if !is_some {
            Ok(None)
        } else {
            proof {
                assert((*args).remaining().unref() =~= words.skip(1));
                T::lemma_parse_bound(heap@, words.skip(1));
            }
            let ghost mid = (*args).remaining();
            let item = T::read(heap, args)?;
            proof {
                let taken = T::parse(heap@, words.skip(1))->Ok_0.1;
                assert(mid.skip(taken as int) =~= (*old(args)).remaining().skip(1 + taken as int));
            }
            Ok(Some(item))
        }
    }
}

impl<T: Incoming> Incoming for Option<T> {
    const IS_NEED_INIT_FILL: bool = T::IS_NEED_INIT_FILL;

    open spec fn writes_memory() -> bool {
        T::writes_memory()
    }

    proof fn lemma_fill_flag() {
        T::lemma_fill_flag();
    }

    open spec fn filled(&self, heap: Seq<u8>, words: Seq<u32>) -> Result<Seq<u8>, ProtocolError> {
        match self {
            None => passed_over(heap, words, 1),
            Some(item) => if words.len() == 0 {
                Err(ProtocolError(ARGS_NEXT_ERROR))
            } else {
                item.filled(heap, words.skip(1))
            },
        }
    }

    proof fn lemma_init_ignores_memory(h1: Seq<u8>, h2: Seq<u8>, words: Seq<u32>) {
        T::lemma_init_ignores_memory(h1, h2, words.skip(1));
    }

    proof fn lemma_filled_bound(&self, heap: Seq<u8>, words: Seq<u32>) {
        match self {
            None => {},
            Some(item) => {
                item.lemma_filled_bound(heap, words.skip(1));
            },
        }
    }

    proof fn lemma_fill_without_memory(&self, heap: Seq<u8>, words: Seq<u32>) {
        match self {
            None => {},
            Some(item) => {
                item.lemma_fill_without_memory(heap, words.skip(1));
            },
        }
    }

    fn init(args: &mut Slots) -> (r: Result<(u32, Self), ProtocolError>)
        ensures
            r matches Ok(pair) ==> (pair.1 is None ==> pair.0 == 0),
    {
        let ghost words = old(args).remaining();
        let is_some: bool = init_word(args)? != 0;
        if !is_some {
            Ok((0, None))
        } else {
            proof {
                old(args).lemma_position_bound();
                assert(args.remaining() =~= words.skip(1));
                T::lemma_parse_bound(Seq::empty(), words.skip(1));
            }
            let (ptr, item) = T::init(args)?;
            Ok((ptr, Some(item)))
        }
    }

    fn args(&self, args: &mut Vec<u32>) -> (r: Result<(), ProtocolError>) {
        match self {
            None => {
                args.push(0);
            },
            Some(item) => {
                args.push(1);
                item.args(args)?;
                assert(args@ =~= old(args)@ + self.words());
            },
        }
        Ok(())
    }

    fn fill(&self, heap: &mut [u8], args: &mut Iter<u32>) -> (r: Result<(), ProtocolError>) {
        let ghost words = (*old(args)).remaining().unref();
        pass_over(args, 1)?;
        if let Some(item) = self {
            proof {
                assert((*args).remaining().unref() =~= words.skip(1));
                item.lemma_filled_bound(old(heap)@, words.skip(1));
            }
            let ghost mid = (*args).remaining();
            item.fill(heap, args)?;
            proof {
                assert(mid.skip(item.words().len() as int) =~= (*old(args)).remaining().skip(
                    self.words().len() as int,
                ));
            }
        }
        Ok(())
    }
}

} // verus!
