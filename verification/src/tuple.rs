//! Fixed tuples of two to four components: the encodings of the components
//! one after the other, with nothing between or before them.

use crate::codec::{Incoming, Outcoming, Wire};
use crate::error::ProtocolError;
use crate::stream::Slots;
use core::slice::Iter;
use vstd::prelude::*;
use vstd::std_specs::iter::IteratorSpec;

verus! {

impl<T1: Wire, T2: Wire> Wire for (T1, T2) {
    open spec fn lawful() -> bool {
        T1::lawful() && T2::lawful()
    }

    open spec fn words(&self) -> Seq<u32> {
        self.0.words() + self.1.words()
    }

    open spec fn parse(heap: Seq<u8>, words: Seq<u32>) -> Result<
        ((T1::V, T2::V), nat),
        ProtocolError,
    > {
        match T1::parse(heap, words) {
            Ok((v1, n1)) => {
                match T2::parse(heap, words.skip(n1 as int)) {
                    Ok((v2, n2)) => Ok(((v1, v2), n1 + n2)),
                    Err(e) => Err(e),
                }
            },
            Err(e) => Err(e),
        }
    }

    open spec fn restorable(&self, heap: Seq<u8>) -> bool {
        &&& self.0.restorable(heap)
        &&& self.1.restorable(heap)
    }

    proof fn lemma_parse_bound(heap: Seq<u8>, words: Seq<u32>) {
        T1::lemma_parse_bound(heap, words);
        if let Ok((_, n1)) = T1::parse(heap, words) {
            T2::lemma_parse_bound(heap, words.skip(n1 as int));
        }
    }

    proof fn lemma_round_trip(&self, heap: Seq<u8>, rest: Seq<u32>) {
        let all = self.words() + rest;
        let at1 = self.0.words().len();
        self.0.lemma_round_trip(heap, self.1.words() + rest);
        assert(all =~= self.0.words() + (self.1.words() + rest));
        self.1.lemma_round_trip(heap, rest);
        assert(all.skip(at1 as int) =~= self.1.words() + (rest));
    }
}

impl<T1: Outcoming, T2: Outcoming> Outcoming for (T1, T2) {
    const IS_NEED_READ: bool = T1::IS_NEED_READ || T2::IS_NEED_READ;

    open spec fn reads_memory() -> bool {
        T1::reads_memory() || T2::reads_memory()
    }

    proof fn lemma_read_flag() {
        T1::lemma_read_flag();
        T2::lemma_read_flag();
    }

    proof fn lemma_read_ignores_memory(h1: Seq<u8>, h2: Seq<u8>, words: Seq<u32>) {
        T1::lemma_read_ignores_memory(h1, h2, words);
        if let Ok((_, n1)) = T1::parse(h1, words) {
            T2::lemma_read_ignores_memory(h1, h2, words.skip(n1 as int));
        }
    }

    fn args(&self, args: &mut Vec<u32>) -> (r: Result<(), ProtocolError>) {
        Outcoming::args(&self.0, args)?;
        Outcoming::args(&self.1, args)?;
        assert(args@ =~= old(args)@ + self.words());
        Ok(())
    }

    fn read(heap: &[u8], args: &mut Iter<u32>) -> (r: Result<Self, ProtocolError>) {
        let ghost start = (*old(args)).remaining();
        let ghost words = start.unref();
        let t1 = T1::read(heap, args)?;
        let ghost n1 = T1::parse(heap@, words)->Ok_0.1;
        proof {
            T1::lemma_parse_bound(heap@, words);
            assert((*args).remaining() =~= start.skip(n1 as int));
            assert((*args).remaining().unref() =~= words.skip(n1 as int));
        }
        let t2 = T2::read(heap, args)?;
        let ghost n2 = T2::parse(heap@, words.skip(n1 as int))->Ok_0.1;
        proof {
            T2::lemma_parse_bound(heap@, words.skip(n1 as int));
            assert((*args).remaining() =~= start.skip(n1 + n2 as int));
        }
        Ok((t1, t2))
    }
}

impl<T1: Incoming, T2: Incoming> Incoming for (T1, T2) {
    const IS_NEED_INIT_FILL: bool = T1::IS_NEED_INIT_FILL || T2::IS_NEED_INIT_FILL;

    open spec fn writes_memory() -> bool {
        T1::writes_memory() || T2::writes_memory()
    }

    proof fn lemma_fill_flag() {
        T1::lemma_fill_flag();
        T2::lemma_fill_flag();
    }

    open spec fn filled(&self, heap: Seq<u8>, words: Seq<u32>) -> Result<Seq<u8>, ProtocolError> {
        let at1 = self.0.words().len();
        match self.0.filled(heap, words) {
            Ok(h1) => self.1.filled(h1, words.skip(at1 as int)),
            Err(e) => Err(e),
        }
    }

    proof fn lemma_init_ignores_memory(h1: Seq<u8>, h2: Seq<u8>, words: Seq<u32>) {
        T1::lemma_init_ignores_memory(h1, h2, words);
        if let Ok((_, n1)) = T1::parse(h1, words) {
            T2::lemma_init_ignores_memory(h1, h2, words.skip(n1 as int));
        }
    }

    proof fn lemma_filled_bound(&self, heap: Seq<u8>, words: Seq<u32>) {
        let at1 = self.0.words().len();
        self.0.lemma_filled_bound(heap, words);
        if let Ok(h1) = self.0.filled(heap, words) {
            self.1.lemma_filled_bound(h1, words.skip(at1 as int));
        }
    }

    proof fn lemma_fill_without_memory(&self, heap: Seq<u8>, words: Seq<u32>) {
        let at1 = self.0.words().len();
        self.0.lemma_fill_without_memory(heap, words);
        if let Ok(h1) = self.0.filled(heap, words) {
            self.1.lemma_fill_without_memory(h1, words.skip(at1 as int));
        }
    }

    fn init(args: &mut Slots) -> (r: Result<(u32, Self), ProtocolError>)
        ensures
            r matches Ok(pair) ==> pair.0 == 0,
    {
        let ghost words = old(args).remaining();
        proof {
            old(args).lemma_position_bound();
        }
        let (_, t1) = T1::init(args)?;
        let ghost n1 = T1::parse(Seq::empty(), words)->Ok_0.1;
        proof {
            T1::lemma_parse_bound(Seq::empty(), words);
            assert(args.remaining() =~= words.skip(n1 as int));
        }
        let (_, t2) = T2::init(args)?;
        Ok((0, (t1, t2)))
    }

    fn args(&self, args: &mut Vec<u32>) -> (r: Result<(), ProtocolError>) {
        Incoming::args(&self.0, args)?;
        Incoming::args(&self.1, args)?;
        assert(args@ =~= old(args)@ + self.words());
        Ok(())
    }

    fn fill(&self, heap: &mut [u8], args: &mut Iter<u32>) -> (r: Result<(), ProtocolError>) {
        let ghost start = (*old(args)).remaining();
        let ghost words = start.unref();
        let ghost at1 = self.0.words().len();
        let ghost at2 = at1 + self.1.words().len();
        let ghost h0 = heap@;
        self.0.fill(heap, args)?;
        proof {
            self.0.lemma_filled_bound(h0, words);
            assert((*args).remaining() =~= start.skip(at1 as int));
            assert((*args).remaining().unref() =~= words.skip(at1 as int));
        }
        let ghost h1 = heap@;
        self.1.fill(heap, args)?;
        proof {
            self.1.lemma_filled_bound(h1, words.skip(at1 as int));
            assert((*args).remaining() =~= start.skip(at2 as int));
        }
        Ok(())
    }
}

impl<T1: Wire, T2: Wire, T3: Wire> Wire for (T1, T2, T3) {
    open spec fn lawful() -> bool {
        T1::lawful() && T2::lawful() && T3::lawful()
    }

    open spec fn words(&self) -> Seq<u32> {
        self.0.words() + self.1.words() + self.2.words()
    }

    open spec fn parse(heap: Seq<u8>, words: Seq<u32>) -> Result<
        ((T1::V, T2::V, T3::V), nat),
        ProtocolError,
    > {
        match T1::parse(heap, words) {
            Ok((v1, n1)) => {
                match T2::parse(heap, words.skip(n1 as int)) {
                    Ok((v2, n2)) => {
                        match T3::parse(heap, words.skip(n1 + n2 as int)) {
                            Ok((v3, n3)) => Ok(((v1, v2, v3), n1 + n2 + n3)),
                            Err(e) => Err(e),
                        }
                    },
                    Err(e) => Err(e),
                }
            },
            Err(e) => Err(e),
        }
    }

    open spec fn restorable(&self, heap: Seq<u8>) -> bool {
        &&& self.0.restorable(heap)
        &&& self.1.restorable(heap)
        &&& self.2.restorable(heap)
    }

    proof fn lemma_parse_bound(heap: Seq<u8>, words: Seq<u32>) {
        T1::lemma_parse_bound(heap, words);
        if let Ok((_, n1)) = T1::parse(heap, words) {
            T2::lemma_parse_bound(heap, words.skip(n1 as int));
            if let Ok((_, n2)) = T2::parse(heap, words.skip(n1 as int)) {
                T3::lemma_parse_bound(heap, words.skip(n1 + n2 as int));
            }
        }
    }

    proof fn lemma_round_trip(&self, heap: Seq<u8>, rest: Seq<u32>) {
        let all = self.words() + rest;
        let at1 = self.0.words().len();
        let at2 = self.0.words().len() + self.1.words().len();
        self.0.lemma_round_trip(heap, self.1.words() + self.2.words() + rest);
        assert(all =~= self.0.words() + (self.1.words() + self.2.words() + rest));
        self.1.lemma_round_trip(heap, self.2.words() + rest);
        assert(all.skip(at1 as int) =~= self.1.words() + (self.2.words() + rest));
        self.2.lemma_round_trip(heap, rest);
        assert(all.skip(at2 as int) =~= self.2.words() + (rest));
    }
}

impl<T1: Outcoming, T2: Outcoming, T3: Outcoming> Outcoming for (T1, T2, T3) {
    const IS_NEED_READ: bool = T1::IS_NEED_READ || T2::IS_NEED_READ || T3::IS_NEED_READ;

    open spec fn reads_memory() -> bool {
        T1::reads_memory() || T2::reads_memory() || T3::reads_memory()
    }

    proof fn lemma_read_flag() {
        T1::lemma_read_flag();
        T2::lemma_read_flag();
        T3::lemma_read_flag();
    }

    proof fn lemma_read_ignores_memory(h1: Seq<u8>, h2: Seq<u8>, words: Seq<u32>) {
        T1::lemma_read_ignores_memory(h1, h2, words);
        if let Ok((_, n1)) = T1::parse(h1, words) {
            T2::lemma_read_ignores_memory(h1, h2, words.skip(n1 as int));
            if let Ok((_, n2)) = T2::parse(h1, words.skip(n1 as int)) {
                T3::lemma_read_ignores_memory(h1, h2, words.skip(n1 + n2 as int));
            }
        }
    }

    fn args(&self, args: &mut Vec<u32>) -> (r: Result<(), ProtocolError>) {
        Outcoming::args(&self.0, args)?;
        Outcoming::args(&self.1, args)?;
        Outcoming::args(&self.2, args)?;
        assert(args@ =~= old(args)@ + self.words());
        Ok(())
    }

    fn read(heap: &[u8], args: &mut Iter<u32>) -> (r: Result<Self, ProtocolError>) {
        let ghost start = (*old(args)).remaining();
        let ghost words = start.unref();
        let t1 = T1::read(heap, args)?;
        let ghost n1 = T1::parse(heap@, words)->Ok_0.1;
        proof {
            T1::lemma_parse_bound(heap@, words);
            assert((*args).remaining() =~= start.skip(n1 as int));
            assert((*args).remaining().unref() =~= words.skip(n1 as int));
        }
        let t2 = T2::read(heap, args)?;
        let ghost n2 = T2::parse(heap@, words.skip(n1 as int))->Ok_0.1;
        proof {
            T2::lemma_parse_bound(heap@, words.skip(n1 as int));
            assert((*args).remaining() =~= start.skip(n1 + n2 as int));
            assert((*args).remaining().unref() =~= words.skip(n1 + n2 as int));
        }
        let t3 = T3::read(heap, args)?;
        let ghost n3 = T3::parse(heap@, words.skip(n1 + n2 as int))->Ok_0.1;
        proof {
            T3::lemma_parse_bound(heap@, words.skip(n1 + n2 as int));
            assert((*args).remaining() =~= start.skip(n1 + n2 + n3 as int));
        }
        Ok((t1, t2, t3))
    }
}

impl<T1: Incoming, T2: Incoming, T3: Incoming> Incoming for (T1, T2, T3) {
    const IS_NEED_INIT_FILL: bool = T1::IS_NEED_INIT_FILL
        || T2::IS_NEED_INIT_FILL
        || T3::IS_NEED_INIT_FILL;

    open spec fn writes_memory() -> bool {
        T1::writes_memory() || T2::writes_memory() || T3::writes_memory()
    }

    proof fn lemma_fill_flag() {
        T1::lemma_fill_flag();
        T2::lemma_fill_flag();
        T3::lemma_fill_flag();
    }

    open spec fn filled(&self, heap: Seq<u8>, words: Seq<u32>) -> Result<Seq<u8>, ProtocolError> {
        let at1 = self.0.words().len();
        let at2 = at1 + self.1.words().len();
        match self.0.filled(heap, words) {
            Ok(h1) => {
                match self.1.filled(h1, words.skip(at1 as int)) {
                    Ok(h2) => self.2.filled(h2, words.skip(at2 as int)),
                    Err(e) => Err(e),
                }
            },
            Err(e) => Err(e),
        }
    }

    proof fn lemma_init_ignores_memory(h1: Seq<u8>, h2: Seq<u8>, words: Seq<u32>) {
        T1::lemma_init_ignores_memory(h1, h2, words);
        if let Ok((_, n1)) = T1::parse(h1, words) {
            T2::lemma_init_ignores_memory(h1, h2, words.skip(n1 as int));
            if let Ok((_, n2)) = T2::parse(h1, words.skip(n1 as int)) {
                T3::lemma_init_ignores_memory(h1, h2, words.skip(n1 + n2 as int));
            }
        }
    }

    proof fn lemma_filled_bound(&self, heap: Seq<u8>, words: Seq<u32>) {
        let at1 = self.0.words().len();
        let at2 = at1 + self.1.words().len();
        self.0.lemma_filled_bound(heap, words);
        if let Ok(h1) = self.0.filled(heap, words) {
            self.1.lemma_filled_bound(h1, words.skip(at1 as int));
            if let Ok(h2) = self.1.filled(h1, words.skip(at1 as int)) {
                self.2.lemma_filled_bound(h2, words.skip(at2 as int));
            }
        }
    }

    proof fn lemma_fill_without_memory(&self, heap: Seq<u8>, words: Seq<u32>) {
        let at1 = self.0.words().len();
        let at2 = at1 + self.1.words().len();
        self.0.lemma_fill_without_memory(heap, words);
        if let Ok(h1) = self.0.filled(heap, words) {
            self.1.lemma_fill_without_memory(h1, words.skip(at1 as int));
            if let Ok(h2) = self.1.filled(h1, words.skip(at1 as int)) {
                self.2.lemma_fill_without_memory(h2, words.skip(at2 as int));
            }
        }
    }

    fn init(args: &mut Slots) -> (r: Result<(u32, Self), ProtocolError>)
        ensures
            r matches Ok(pair) ==> pair.0 == 0,
    {
        let ghost words = old(args).remaining();
        proof {
            old(args).lemma_position_bound();
        }
        let (_, t1) = T1::init(args)?;
        let ghost n1 = T1::parse(Seq::empty(), words)->Ok_0.1;
        proof {
            T1::lemma_parse_bound(Seq::empty(), words);
            assert(args.remaining() =~= words.skip(n1 as int));
        }
        let (_, t2) = T2::init(args)?;
        let ghost n2 = T2::parse(Seq::empty(), words.skip(n1 as int))->Ok_0.1;
        proof {
            T2::lemma_parse_bound(Seq::empty(), words.skip(n1 as int));
            assert(args.remaining() =~= words.skip(n1 + n2 as int));
        }
        let (_, t3) = T3::init(args)?;
        Ok((0, (t1, t2, t3)))
    }

    fn args(&self, args: &mut Vec<u32>) -> (r: Result<(), ProtocolError>) {
        Incoming::args(&self.0, args)?;
        Incoming::args(&self.1, args)?;
        Incoming::args(&self.2, args)?;
        assert(args@ =~= old(args)@ + self.words());
        Ok(())
    }

    fn fill(&self, heap: &mut [u8], args: &mut Iter<u32>) -> (r: Result<(), ProtocolError>) {
        let ghost start = (*old(args)).remaining();
        let ghost words = start.unref();
        let ghost at1 = self.0.words().len();
        let ghost at2 = at1 + self.1.words().len();
        let ghost at3 = at2 + self.2.words().len();
        let ghost h0 = heap@;
        self.0.fill(heap, args)?;
        proof {
            self.0.lemma_filled_bound(h0, words);
            assert((*args).remaining() =~= start.skip(at1 as int));
            assert((*args).remaining().unref() =~= words.skip(at1 as int));
        }
        let ghost h1 = heap@;
        self.1.fill(heap, args)?;
        proof {
            self.1.lemma_filled_bound(h1, words.skip(at1 as int));
            assert((*args).remaining() =~= start.skip(at2 as int));
            assert((*args).remaining().unref() =~= words.skip(at2 as int));
        }
        let ghost h2 = heap@;
        self.2.fill(heap, args)?;
        proof {
            self.2.lemma_filled_bound(h2, words.skip(at2 as int));
            assert((*args).remaining() =~= start.skip(at3 as int));
        }
        Ok(())
    }
}

impl<T1: Wire, T2: Wire, T3: Wire, T4: Wire> Wire for (T1, T2, T3, T4) {
    open spec fn lawful() -> bool {
        T1::lawful() && T2::lawful() && T3::lawful() && T4::lawful()
    }

    open spec fn words(&self) -> Seq<u32> {
        self.0.words() + self.1.words() + self.2.words() + self.3.words()
    }

    open spec fn parse(heap: Seq<u8>, words: Seq<u32>) -> Result<
        ((T1::V, T2::V, T3::V, T4::V), nat),
        ProtocolError,
    > {
        match T1::parse(heap, words) {
            Ok((v1, n1)) => {
                match T2::parse(heap, words.skip(n1 as int)) {
                    Ok((v2, n2)) => {
                        match T3::parse(heap, words.skip(n1 + n2 as int)) {
                            Ok((v3, n3)) => {
                                match T4::parse(heap, words.skip(n1 + n2 + n3 as int)) {
                                    Ok((v4, n4)) => Ok(((v1, v2, v3, v4), n1 + n2 + n3 + n4)),
                                    Err(e) => Err(e),
                                }
                            },
                            Err(e) => Err(e),
                        }
                    },
                    Err(e) => Err(e),
                }
            },
            Err(e) => Err(e),
        }
    }

    open spec fn restorable(&self, heap: Seq<u8>) -> bool {
        &&& self.0.restorable(heap)
        &&& self.1.restorable(heap)
        &&& self.2.restorable(heap)
        &&& self.3.restorable(heap)
    }

    proof fn lemma_parse_bound(heap: Seq<u8>, words: Seq<u32>) {
        T1::lemma_parse_bound(heap, words);
        if let Ok((_, n1)) = T1::parse(heap, words) {
            T2::lemma_parse_bound(heap, words.skip(n1 as int));
            if let Ok((_, n2)) = T2::parse(heap, words.skip(n1 as int)) {
                T3::lemma_parse_bound(heap, words.skip(n1 + n2 as int));
                if let Ok((_, n3)) = T3::parse(heap, words.skip(n1 + n2 as int)) {
                    T4::lemma_parse_bound(heap, words.skip(n1 + n2 + n3 as int));
                }
            }
        }
    }

    proof fn lemma_round_trip(&self, heap: Seq<u8>, rest: Seq<u32>) {
        let all = self.words() + rest;
        let at1 = self.0.words().len();
        let at2 = self.0.words().len() + self.1.words().len();
        let at3 = self.0.words().len() + self.1.words().len() + self.2.words().len();
        self.0.lemma_round_trip(heap, self.1.words() + self.2.words() + self.3.words() + rest);
        assert(all =~= self.0.words() + (self.1.words() + self.2.words() + self.3.words() + rest));
        self.1.lemma_round_trip(heap, self.2.words() + self.3.words() + rest);
        assert(all.skip(at1 as int) =~= self.1.words() + (self.2.words() + self.3.words() + rest));
        self.2.lemma_round_trip(heap, self.3.words() + rest);
        assert(all.skip(at2 as int) =~= self.2.words() + (self.3.words() + rest));
        self.3.lemma_round_trip(heap, rest);
        assert(all.skip(at3 as int) =~= self.3.words() + (rest));
    }
}

impl<T1: Outcoming, T2: Outcoming, T3: Outcoming, T4: Outcoming> Outcoming for (T1, T2, T3, T4) {
    const IS_NEED_READ: bool = T1::IS_NEED_READ
        || T2::IS_NEED_READ
        || T3::IS_NEED_READ
        || T4::IS_NEED_READ;

    open spec fn reads_memory() -> bool {
        T1::reads_memory() || T2::reads_memory() || T3::reads_memory() || T4::reads_memory()
    }

    proof fn lemma_read_flag() {
        T1::lemma_read_flag();
        T2::lemma_read_flag();
        T3::lemma_read_flag();
        T4::lemma_read_flag();
    }

    proof fn lemma_read_ignores_memory(h1: Seq<u8>, h2: Seq<u8>, words: Seq<u32>) {
        T1::lemma_read_ignores_memory(h1, h2, words);
        if let Ok((_, n1)) = T1::parse(h1, words) {
            T2::lemma_read_ignores_memory(h1, h2, words.skip(n1 as int));
            if let Ok((_, n2)) = T2::parse(h1, words.skip(n1 as int)) {
                T3::lemma_read_ignores_memory(h1, h2, words.skip(n1 + n2 as int));
                if let Ok((_, n3)) = T3::parse(h1, words.skip(n1 + n2 as int)) {
                    T4::lemma_read_ignores_memory(h1, h2, words.skip(n1 + n2 + n3 as int));
                }
            }
        }
    }

    fn args(&self, args: &mut Vec<u32>) -> (r: Result<(), ProtocolError>) {
        Outcoming::args(&self.0, args)?;
        Outcoming::args(&self.1, args)?;
        Outcoming::args(&self.2, args)?;
        Outcoming::args(&self.3, args)?;
        assert(args@ =~= old(args)@ + self.words());
        Ok(())
    }

    fn read(heap: &[u8], args: &mut Iter<u32>) -> (r: Result<Self, ProtocolError>) {
        let ghost start = (*old(args)).remaining();
        let ghost words = start.unref();
        let t1 = T1::read(heap, args)?;
        let ghost n1 = T1::parse(heap@, words)->Ok_0.1;
        proof {
            T1::lemma_parse_bound(heap@, words);
            assert((*args).remaining() =~= start.skip(n1 as int));
            assert((*args).remaining().unref() =~= words.skip(n1 as int));
        }
        let t2 = T2::read(heap, args)?;
        let ghost n2 = T2::parse(heap@, words.skip(n1 as int))->Ok_0.1;
        proof {
            T2::lemma_parse_bound(heap@, words.skip(n1 as int));
            assert((*args).remaining() =~= start.skip(n1 + n2 as int));
            assert((*args).remaining().unref() =~= words.skip(n1 + n2 as int));
        }
        let t3 = T3::read(heap, args)?;
        let ghost n3 = T3::parse(heap@, words.skip(n1 + n2 as int))->Ok_0.1;
        proof {
            T3::lemma_parse_bound(heap@, words.skip(n1 + n2 as int));
            assert((*args).remaining() =~= start.skip(n1 + n2 + n3 as int));
            assert((*args).remaining().unref() =~= words.skip(n1 + n2 + n3 as int));
        }
        let t4 = T4::read(heap, args)?;
        let ghost n4 = T4::parse(heap@, words.skip(n1 + n2 + n3 as int))->Ok_0.1;
        proof {
            T4::lemma_parse_bound(heap@, words.skip(n1 + n2 + n3 as int));
            assert((*args).remaining() =~= start.skip(n1 + n2 + n3 + n4 as int));
        }
        Ok((t1, t2, t3, t4))
    }
}

impl<T1: Incoming, T2: Incoming, T3: Incoming, T4: Incoming> Incoming for (T1, T2, T3, T4) {
    const IS_NEED_INIT_FILL: bool = T1::IS_NEED_INIT_FILL || T2::IS_NEED_INIT_FILL || T3::IS_NEED_INIT_FILL
        || T4::IS_NEED_INIT_FILL;

    open spec fn writes_memory() -> bool {
        T1::writes_memory() || T2::writes_memory() || T3::writes_memory() || T4::writes_memory()
    }

    proof fn lemma_fill_flag() {
        T1::lemma_fill_flag();
        T2::lemma_fill_flag();
        T3::lemma_fill_flag();
        T4::lemma_fill_flag();
    }

    open spec fn filled(&self, heap: Seq<u8>, words: Seq<u32>) -> Result<Seq<u8>, ProtocolError> {
        let at1 = self.0.words().len();
        let at2 = at1 + self.1.words().len();
        let at3 = at2 + self.2.words().len();
        match self.0.filled(heap, words) {
            Ok(h1) => {
                match self.1.filled(h1, words.skip(at1 as int)) {
                    Ok(h2) => {
                        match self.2.filled(h2, words.skip(at2 as int)) {
                            Ok(h3) => self.3.filled(h3, words.skip(at3 as int)),
                            Err(e) => Err(e),
                        }
                    },
                    Err(e) => Err(e),
                }
            },
            Err(e) => Err(e),
        }
    }

    proof fn lemma_init_ignores_memory(h1: Seq<u8>, h2: Seq<u8>, words: Seq<u32>) {
        T1::lemma_init_ignores_memory(h1, h2, words);
        if let Ok((_, n1)) = T1::parse(h1, words) {
            T2::lemma_init_ignores_memory(h1, h2, words.skip(n1 as int));
            if let Ok((_, n2)) = T2::parse(h1, words.skip(n1 as int)) {
                T3::lemma_init_ignores_memory(h1, h2, words.skip(n1 + n2 as int));
                if let Ok((_, n3)) = T3::parse(h1, words.skip(n1 + n2 as int)) {
                    T4::lemma_init_ignores_memory(h1, h2, words.skip(n1 + n2 + n3 as int));
                }
            }
        }
    }

    proof fn lemma_filled_bound(&self, heap: Seq<u8>, words: Seq<u32>) {
        let at1 = self.0.words().len();
        let at2 = at1 + self.1.words().len();
        let at3 = at2 + self.2.words().len();
        self.0.lemma_filled_bound(heap, words);
        if let Ok(h1) = self.0.filled(heap, words) {
            self.1.lemma_filled_bound(h1, words.skip(at1 as int));
            if let Ok(h2) = self.1.filled(h1, words.skip(at1 as int)) {
                self.2.lemma_filled_bound(h2, words.skip(at2 as int));
                if let Ok(h3) = self.2.filled(h2, words.skip(at2 as int)) {
                    self.3.lemma_filled_bound(h3, words.skip(at3 as int));
                }
            }
        }
    }

    proof fn lemma_fill_without_memory(&self, heap: Seq<u8>, words: Seq<u32>) {
        let at1 = self.0.words().len();
        let at2 = at1 + self.1.words().len();
        let at3 = at2 + self.2.words().len();
        self.0.lemma_fill_without_memory(heap, words);
        if let Ok(h1) = self.0.filled(heap, words) {
            self.1.lemma_fill_without_memory(h1, words.skip(at1 as int));
            if let Ok(h2) = self.1.filled(h1, words.skip(at1 as int)) {
                self.2.lemma_fill_without_memory(h2, words.skip(at2 as int));
                if let Ok(h3) = self.2.filled(h2, words.skip(at2 as int)) {
                    self.3.lemma_fill_without_memory(h3, words.skip(at3 as int));
                }
            }
        }
    }

    fn init(args: &mut Slots) -> (r: Result<(u32, Self), ProtocolError>)
        ensures
            r matches Ok(pair) ==> pair.0 == 0,
    {
        let ghost words = old(args).remaining();
        proof {
            old(args).lemma_position_bound();
        }
        let (_, t1) = T1::init(args)?;
        let ghost n1 = T1::parse(Seq::empty(), words)->Ok_0.1;
        proof {
            T1::lemma_parse_bound(Seq::empty(), words);
            assert(args.remaining() =~= words.skip(n1 as int));
        }
        let (_, t2) = T2::init(args)?;
        let ghost n2 = T2::parse(Seq::empty(), words.skip(n1 as int))->Ok_0.1;
        proof {
            T2::lemma_parse_bound(Seq::empty(), words.skip(n1 as int));
            assert(args.remaining() =~= words.skip(n1 + n2 as int));
        }
        let (_, t3) = T3::init(args)?;
        let ghost n3 = T3::parse(Seq::empty(), words.skip(n1 + n2 as int))->Ok_0.1;
        proof {
            T3::lemma_parse_bound(Seq::empty(), words.skip(n1 + n2 as int));
            assert(args.remaining() =~= words.skip(n1 + n2 + n3 as int));
        }
        let (_, t4) = T4::init(args)?;
        Ok((0, (t1, t2, t3, t4)))
    }

    fn args(&self, args: &mut Vec<u32>) -> (r: Result<(), ProtocolError>) {
        Incoming::args(&self.0, args)?;
        Incoming::args(&self.1, args)?;
        Incoming::args(&self.2, args)?;
        Incoming::args(&self.3, args)?;
        assert(args@ =~= old(args)@ + self.words());
        Ok(())
    }

    fn fill(&self, heap: &mut [u8], args: &mut Iter<u32>) -> (r: Result<(), ProtocolError>) {
        let ghost start = (*old(args)).remaining();
        let ghost words = start.unref();
        let ghost at1 = self.0.words().len();
        let ghost at2 = at1 + self.1.words().len();
        let ghost at3 = at2 + self.2.words().len();
        let ghost at4 = at3 + self.3.words().len();
        let ghost h0 = heap@;
        self.0.fill(heap, args)?;
        proof {
            self.0.lemma_filled_bound(h0, words);
            assert((*args).remaining() =~= start.skip(at1 as int));
            assert((*args).remaining().unref() =~= words.skip(at1 as int));
        }
        let ghost h1 = heap@;
        self.1.fill(heap, args)?;
        proof {
            self.1.lemma_filled_bound(h1, words.skip(at1 as int));
            assert((*args).remaining() =~= start.skip(at2 as int));
            assert((*args).remaining().unref() =~= words.skip(at2 as int));
        }
        let ghost h2 = heap@;
        self.2.fill(heap, args)?;
        proof {
            self.2.lemma_filled_bound(h2, words.skip(at2 as int));
            assert((*args).remaining() =~= start.skip(at3 as int));
            assert((*args).remaining().unref() =~= words.skip(at3 as int));
        }
        let ghost h3 = heap@;
        self.3.fill(heap, args)?;
        proof {
            self.3.lemma_filled_bound(h3, words.skip(at3 as int));
            assert((*args).remaining() =~= start.skip(at4 as int));
        }
        Ok(())
    }
}

} // verus!
