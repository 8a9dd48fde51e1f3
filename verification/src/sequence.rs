//! Ordered sequences: one length word, then the encodings of the items in
//! order.

use crate::codec::{Incoming, Outcoming, Wire};
use crate::error::{ProtocolError, ARGS_NEXT_ERROR};
use crate::scalar::{init_word, pass_over, read_word};
use crate::stream::Slots;
use core::slice::Iter;
use vstd::prelude::*;
use vstd::std_specs::iter::IteratorSpec;

verus! {

/// The encodings of `items`, one after the other.
pub open spec fn seq_words<T: Wire>(items: Seq<T>) -> Seq<u32>
    decreases items.len(),
{
    if items.len() == 0 {
        Seq::empty()
    } else {
        seq_words(items.drop_last()) + items.last().words()
    }
}

/// The models of `items`, in order.
pub open spec fn seq_models<T: Wire>(items: Seq<T>) -> Seq<T::V> {
    Seq::new(items.len(), |i: int| items[i].deep_view())
}

/// What decoding reads for `count` items in a row: the first `count - 1` of
/// them, then one more behind the words those took.
pub open spec fn parse_seq<T: Wire>(heap: Seq<u8>, words: Seq<u32>, count: nat) -> Result<
    (Seq<T::V>, nat),
    ProtocolError,
>
    decreases count,
{
    if count == 0 {
        Ok((Seq::empty(), 0nat))
    } else {
        match parse_seq::<T>(heap, words, (count - 1) as nat) {
            Ok((items, taken)) => match T::parse(heap, words.skip(taken as int)) {
                Ok((value, more)) => Ok((items.push(value), taken + more)),
                Err(e) => Err(e),
            },
            Err(e) => Err(e),
        }
    }
}

/// The memory after `fill` has run for each of `items` in order, each item
/// on the memory that the one before it left and behind the words of those
/// before it.
pub open spec fn fill_seq<T: Incoming>(items: Seq<T>, heap: Seq<u8>, words: Seq<u32>) -> Result<
    Seq<u8>,
    ProtocolError,
>
    decreases items.len(),
{
    if items.len() == 0 {
        Ok(heap)
    } else {
        match fill_seq(items.drop_last(), heap, words) {
            Ok(after) => items.last().filled(
                after,
                words.skip(seq_words(items.drop_last()).len() as int),
            ),
            Err(e) => Err(e),
        }
    }
}

/// Whether decoding gets each of `items` back.
pub open spec fn seq_restorable<T: Wire>(items: Seq<T>, heap: Seq<u8>) -> bool {
    forall|i: int| 0 <= i < items.len() ==> (#[trigger] items[i]).restorable(heap)
}

/// Decoding a row of items yields as many as were asked for and stays inside
/// the stream.
pub proof fn lemma_parse_seq_bound<T: Wire>(heap: Seq<u8>, words: Seq<u32>, count: nat)
    requires
        T::lawful(),
    ensures
        parse_seq::<T>(heap, words, count) matches Ok((items, taken)) ==> items.len() == count
            && taken <= words.len(),
    decreases count,
{
    if count > 0 {
        lemma_parse_seq_bound::<T>(heap, words, (count - 1) as nat);
        if let Ok((items, taken)) = parse_seq::<T>(heap, words, (count - 1) as nat) {
            T::lemma_parse_bound(heap, words.skip(taken as int));
        }
    }
}

/// A row that fails after `count` items fails in the same way for any larger
/// count.
pub proof fn lemma_parse_seq_fails<T: Wire>(
    heap: Seq<u8>,
    words: Seq<u32>,
    count: nat,
    more: nat,
)
    requires
        parse_seq::<T>(heap, words, count) is Err,
        count <= more,
    ensures
        parse_seq::<T>(heap, words, more) == parse_seq::<T>(heap, words, count),
    decreases more - count,
{
    if count < more {
        lemma_parse_seq_fails::<T>(heap, words, count, (more - 1) as nat);
    }
}

/// Round trip for a row: decoding the encodings of restorable items yields
/// their models and takes exactly their words.
pub proof fn lemma_parse_seq_words<T: Wire>(items: Seq<T>, heap: Seq<u8>, rest: Seq<u32>)
    requires
        T::lawful(),
        seq_restorable(items, heap),
    ensures
        parse_seq::<T>(heap, seq_words(items) + rest, items.len()) == Ok::<
            (Seq<T::V>, nat),
            ProtocolError,
        >((seq_models(items), seq_words(items).len())),
    decreases items.len(),
{
    if items.len() == 0 {
        assert(seq_models(items) =~= Seq::<T::V>::empty());
    } else {
        let front = items.drop_last();
        let last = items.last();
        let all = seq_words(items) + rest;
        assert(seq_restorable(front, heap)) by {
            assert forall|i: int| 0 <= i < front.len() implies (#[trigger] front[i]).restorable(
                heap,
            ) by {
                assert(front[i] == items[i]);
            }
        }
        lemma_parse_seq_words(front, heap, last.words() + rest);
        assert(all =~= seq_words(front) + (last.words() + rest));
        last.lemma_round_trip(heap, rest);
        assert(all.skip(seq_words(front).len() as int) =~= last.words() + rest);
        assert(seq_models(items) =~= seq_models(front).push(last.deep_view()));
    }
}

/// A row decoded from the stream alone does not depend on the memory.
pub proof fn lemma_parse_seq_ignores_memory<T: Outcoming>(
    h1: Seq<u8>,
    h2: Seq<u8>,
    words: Seq<u32>,
    count: nat,
)
    requires
        T::lawful(),
        !T::reads_memory(),
    ensures
        parse_seq::<T>(h1, words, count) == parse_seq::<T>(h2, words, count),
    decreases count,
{
    if count > 0 {
        lemma_parse_seq_ignores_memory::<T>(h1, h2, words, (count - 1) as nat);
        if let Ok((items, taken)) = parse_seq::<T>(h1, words, (count - 1) as nat) {
            T::lemma_read_ignores_memory(h1, h2, words.skip(taken as int));
        }
    }
}

/// What `init` decodes for a row does not depend on the memory.
pub proof fn lemma_init_seq_ignores_memory<T: Incoming>(
    h1: Seq<u8>,
    h2: Seq<u8>,
    words: Seq<u32>,
    count: nat,
)
    requires
        T::lawful(),
    ensures
        parse_seq::<T>(h1, words, count) == parse_seq::<T>(h2, words, count),
    decreases count,
{
    if count > 0 {
        lemma_init_seq_ignores_memory::<T>(h1, h2, words, (count - 1) as nat);
        if let Ok((items, taken)) = parse_seq::<T>(h1, words, (count - 1) as nat) {
            T::lemma_init_ignores_memory(h1, h2, words.skip(taken as int));
        }
    }
}

/// Where `fill` succeeds for a row, the stream held the words of its items,
/// and the memory keeps its size.
pub proof fn lemma_fill_seq_bound<T: Incoming>(items: Seq<T>, heap: Seq<u8>, words: Seq<u32>)
    requires
        T::lawful(),
    ensures
        fill_seq(items, heap, words) matches Ok(after) ==> seq_words(items).len() <= words.len()
            && after.len() == heap.len(),
    decreases items.len(),
{
    if items.len() > 0 {
        lemma_fill_seq_bound(items.drop_last(), heap, words);
        if let Ok(after) = fill_seq(items.drop_last(), heap, words) {
            items.last().lemma_filled_bound(
                after,
                words.skip(seq_words(items.drop_last()).len() as int),
            );
        }
    }
}

/// With the flag off, `fill` for a row leaves the memory as it is and fails
/// exactly where the stream is shorter than the words of the items.
pub proof fn lemma_fill_seq_without_memory<T: Incoming>(
    items: Seq<T>,
    heap: Seq<u8>,
    words: Seq<u32>,
)
    requires
        T::lawful(),
        !T::writes_memory(),
    ensures
        fill_seq(items, heap, words) == (if seq_words(items).len() <= words.len() {
            Ok::<Seq<u8>, ProtocolError>(heap)
        } else {
            Err::<Seq<u8>, ProtocolError>(ProtocolError(ARGS_NEXT_ERROR))
        }),
    decreases items.len(),
{
    if items.len() > 0 {
        lemma_fill_seq_without_memory(items.drop_last(), heap, words);
        if let Ok(after) = fill_seq(items.drop_last(), heap, words) {
            items.last().lemma_fill_without_memory(
                after,
                words.skip(seq_words(items.drop_last()).len() as int),
            );
        }
    }
}

/// A row whose first `count` items fail in `fill` fails in the same way as a
/// whole.
pub proof fn lemma_fill_seq_fails<T: Incoming>(
    items: Seq<T>,
    heap: Seq<u8>,
    words: Seq<u32>,
    count: int,
)
    requires
        0 <= count <= items.len(),
        fill_seq(items.take(count), heap, words) is Err,
    ensures
        fill_seq(items, heap, words) == fill_seq(items.take(count), heap, words),
    decreases items.len() - count,
{
    if count < items.len() {
        assert(items.take(count + 1).drop_last() =~= items.take(count));
        lemma_fill_seq_fails(items, heap, words, count + 1);
    } else {
        assert(items.take(count) =~= items);
    }
}

impl<T: Wire> Wire for Vec<T> {
    open spec fn lawful() -> bool {
        T::lawful()
    }

    open spec fn words(&self) -> Seq<u32> {
        seq![self@.len() as u32] + seq_words(self@)
    }

    open spec fn parse(heap: Seq<u8>, words: Seq<u32>) -> Result<(Seq<T::V>, nat), ProtocolError> {
        if words.len() == 0 {
            Err(ProtocolError(ARGS_NEXT_ERROR))
        } else {
            match parse_seq::<T>(heap, words.skip(1), words[0] as nat) {
                Ok((items, taken)) => Ok((items, 1 + taken)),
                Err(e) => Err(e),
            }
        }
    }

    open spec fn restorable(&self, heap: Seq<u8>) -> bool {
        self@.len() <= u32::MAX && seq_restorable(self@, heap)
    }

    proof fn lemma_parse_bound(heap: Seq<u8>, words: Seq<u32>) {
        if words.len() > 0 {
            lemma_parse_seq_bound::<T>(heap, words.skip(1), words[0] as nat);
        }
    }

    proof fn lemma_round_trip(&self, heap: Seq<u8>, rest: Seq<u32>) {
        lemma_parse_seq_words(self@, heap, rest);
        assert((self.words() + rest).skip(1) =~= seq_words(self@) + rest);
        assert(self.deep_view() =~= seq_models(self@));
    }
}

impl<T: Outcoming> Outcoming for Vec<T> {
    const IS_NEED_READ: bool = T::IS_NEED_READ;

    open spec fn reads_memory() -> bool {
        T::reads_memory()
    }

    proof fn lemma_read_flag() {
        T::lemma_read_flag();
    }

    proof fn lemma_read_ignores_memory(h1: Seq<u8>, h2: Seq<u8>, words: Seq<u32>) {
        if words.len() > 0 && !T::reads_memory() {
            lemma_parse_seq_ignores_memory::<T>(h1, h2, words.skip(1), words[0] as nat);
        }
    }

    fn args(&self, args: &mut Vec<u32>) -> (r: Result<(), ProtocolError>) {
        let len: usize = self.len();
        args.push(len as u32);
        let mut i: usize = 0;
        while i < len
            invariant
                T::lawful(),
                len == self@.len(),
                i <= len,
                args@ == old(args)@ + seq![len as u32] + seq_words(self@.take(i as int)),
            decreases len - i,
        {
            self[i].args(args)?;
            proof {
                assert(self@.take(i + 1).drop_last() =~= self@.take(i as int));
                assert(self@.take(i + 1).last() == self@[i as int]);
            }
            i = i + 1;
        }
        proof {
            assert(self@.take(len as int) =~= self@);
        }
        Ok(())
    }

    fn read(heap: &[u8], args: &mut Iter<u32>) -> (r: Result<Self, ProtocolError>) {
        let ghost start = (*old(args)).remaining();
        let ghost words = start.unref();
        let len: usize = read_word(args)? as usize;
        let ghost rest = words.skip(1);
        let mut vec: Vec<T> = Vec::new();
        let mut i: usize = 0;
        proof {
            assert(vec.deep_view() =~= Seq::<T::V>::empty());
        }
        while i < len
            invariant
                T::lawful(),
                start == (*old(args)).remaining(),
                words == start.unref(),
                rest == words.skip(1),
                words.len() >= 1,
                len == words[0],
                i <= len,
                parse_seq::<T>(heap@, rest, i as nat) matches Ok((items, taken)) && {
                    &&& items == vec.deep_view()
                    &&& taken <= rest.len()
                    &&& (*args).remaining() == start.skip(1 + taken as int)
                },
            decreases len - i,
        {
            let ghost taken = parse_seq::<T>(heap@, rest, i as nat)->Ok_0.1;
            proof {
                assert((*args).remaining().unref() =~= rest.skip(taken as int));
                T::lemma_parse_bound(heap@, rest.skip(taken as int));
            }
            let ghost before = vec.deep_view();
            let item = match T::read(heap, args) {
                Ok(item) => item,
                Err(e) => {
                    proof {
                        lemma_parse_seq_fails::<T>(heap@, rest, (i + 1) as nat, len as nat);
                    }
                    return Err(e);
                },
            };
            let ghost more = T::parse(heap@, rest.skip(taken as int))->Ok_0.1;
            vec.push(item);
            proof {
                assert(vec.deep_view() =~= before.push(item.deep_view()));
                assert((*args).remaining() =~= start.skip(1 + taken + more as int));
            }
            i = i + 1;
        }
        Ok(vec)
    }
}

impl<T: Incoming> Incoming for Vec<T> {
    const IS_NEED_INIT_FILL: bool = T::IS_NEED_INIT_FILL;

    open spec fn writes_memory() -> bool {
        T::writes_memory()
    }

    proof fn lemma_fill_flag() {
        T::lemma_fill_flag();
    }

    open spec fn filled(&self, heap: Seq<u8>, words: Seq<u32>) -> Result<Seq<u8>, ProtocolError> {
        if words.len() == 0 {
            Err(ProtocolError(ARGS_NEXT_ERROR))
        } else {
            fill_seq(self@, heap, words.skip(1))
        }
    }

    proof fn lemma_init_ignores_memory(h1: Seq<u8>, h2: Seq<u8>, words: Seq<u32>) {
        if words.len() > 0 {
            lemma_init_seq_ignores_memory::<T>(h1, h2, words.skip(1), words[0] as nat);
        }
    }

    proof fn lemma_filled_bound(&self, heap: Seq<u8>, words: Seq<u32>) {
        if words.len() > 0 {
            lemma_fill_seq_bound(self@, heap, words.skip(1));
        }
    }

    proof fn lemma_fill_without_memory(&self, heap: Seq<u8>, words: Seq<u32>) {
        if words.len() > 0 && !T::writes_memory() {
            lemma_fill_seq_without_memory(self@, heap, words.skip(1));
        }
    }

    fn init(args: &mut Slots) -> (r: Result<(u32, Self), ProtocolError>)
        ensures
            r matches Ok(pair) ==> pair.0 == 0,
    {
        let ghost words = old(args).remaining();
        let ghost base = old(args).position();
        proof {
            old(args).lemma_position_bound();
        }
        let len: usize = init_word(args)? as usize;
        let ghost rest = words.skip(1);
        let mut vec: Vec<T> = Vec::new();
        let mut i: usize = 0;
        proof {
            assert(vec.deep_view() =~= Seq::<T::V>::empty());
        }
        while i < len
            invariant
                T::lawful(),
                words == old(args).remaining(),
                base == old(args).position(),
                base + words.len() == old(args).words().len(),
                rest == words.skip(1),
                words.len() >= 1,
                len == words[0],
                i <= len,
                parse_seq::<T>(Seq::empty(), rest, i as nat) matches Ok((items, taken)) && {
                    &&& items == vec.deep_view()
                    &&& taken <= rest.len()
                    &&& args.position() == base + 1 + taken
                    &&& forall|k: int|
                        0 <= k < old(args).words().len() && !(base <= k < base + 1 + taken)
                            ==> args.words()[k] == old(args).words()[k]
                },
                args.words().len() == old(args).words().len(),
                !T::writes_memory() ==> args.words() == old(args).words(),
            decreases len - i,
        {
            let ghost taken = parse_seq::<T>(Seq::empty(), rest, i as nat)->Ok_0.1;
            proof {
                assert(args.remaining() =~= rest.skip(taken as int));
                T::lemma_parse_bound(Seq::empty(), rest.skip(taken as int));
            }
            let ghost before = vec.deep_view();
            let (_, item) = match T::init(args) {
                Ok(pair) => pair,
                Err(e) => {
                    proof {
                        lemma_parse_seq_fails::<T>(Seq::empty(), rest, (i + 1) as nat, len as nat);
                    }
                    return Err(e);
                },
            };
            let ghost more = T::parse(Seq::empty(), rest.skip(taken as int))->Ok_0.1;
            vec.push(item);
            proof {
                assert(vec.deep_view() =~= before.push(item.deep_view()));
            }
            i = i + 1;
        }
        Ok((0, vec))
    }

    fn args(&self, args: &mut Vec<u32>) -> (r: Result<(), ProtocolError>) {
        let len: usize = self.len();
        args.push(len as u32);
        let mut i: usize = 0;
        while i < len
            invariant
                T::lawful(),
                len == self@.len(),
                i <= len,
                args@ == old(args)@ + seq![len as u32] + seq_words(self@.take(i as int)),
            decreases len - i,
        {
            self[i].args(args)?;
            proof {
                assert(self@.take(i + 1).drop_last() =~= self@.take(i as int));
                assert(self@.take(i + 1).last() == self@[i as int]);
            }
            i = i + 1;
        }
        proof {
            assert(self@.take(len as int) =~= self@);
        }
        Ok(())
    }

    fn fill(&self, heap: &mut [u8], args: &mut Iter<u32>) -> (r: Result<(), ProtocolError>) {
        let ghost start = (*old(args)).remaining();
        let ghost words = start.unref();
        pass_over(args, 1)?;
        let ghost rest = words.skip(1);
        let len: usize = self.len();
        let mut i: usize = 0;
        while i < len
            invariant
                T::lawful(),
                start == (*old(args)).remaining(),
                words == start.unref(),
                rest == words.skip(1),
                words.len() >= 1,
                len == self@.len(),
                i <= len,
                heap@.len() == old(heap)@.len(),
                seq_words(self@.take(i as int)).len() <= rest.len(),
                fill_seq(self@.take(i as int), old(heap)@, rest) == Ok::<Seq<u8>, ProtocolError>(
                    heap@,
                ),
                (*args).remaining() == start.skip(1 + seq_words(self@.take(i as int)).len() as int),
            decreases len - i,
        {
            let ghost done = seq_words(self@.take(i as int)).len();
            proof {
                assert((*args).remaining().unref() =~= rest.skip(done as int));
                assert(self@.take(i + 1).drop_last() =~= self@.take(i as int));
                assert(self@.take(i + 1).last() == self@[i as int]);
                self[i as int].lemma_filled_bound(heap@, rest.skip(done as int));
            }
            match self[i].fill(heap, args) {
                Ok(()) => {},
                Err(e) => {
                    proof {
                        lemma_fill_seq_fails(self@, old(heap)@, rest, i + 1);
                    }
                    return Err(e);
                },
            }
            proof {
                assert((*args).remaining() =~= start.skip(
                    1 + seq_words(self@.take(i + 1)).len() as int,
                ));
            }
            i = i + 1;
        }
        proof {
            assert(self@.take(len as int) =~= self@);
        }
        Ok(())
    }
}

} // verus!
