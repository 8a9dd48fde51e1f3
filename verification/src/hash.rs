//! The hash-indexed map: its entries travel in whatever order the map hands
//! them out, and decoding gets the same map back from any order.

use crate::codec::{Incoming, Outcoming, Wire};
use crate::entries::{
    keys_faithful, lemma_handed_lists, lemma_init_entries_ignores_memory, lemma_listing_model,
    lemma_model_contains, lemma_model_empty, lemma_model_insert, lemma_parse_entries_bound,
    lemma_parse_entries_fails, lemma_parse_entries_ignores_memory, lemma_parse_entries_words,
    lists, map_model, parse_entries, parse_map,
};
use crate::error::{ProtocolError, ARGS_NEXT_ERROR, MAP_INSERT_ERROR};
use crate::scalar::{init_word, pass_over, read_word};
use crate::sequence::{
    fill_seq, lemma_fill_seq_bound, lemma_fill_seq_fails, lemma_fill_seq_without_memory,
    seq_restorable, seq_words,
};
use crate::stream::Slots;
use core::slice::Iter;
use core::hash::{BuildHasher, Hash};
use std::collections::HashMap;
use vstd::prelude::*;
use vstd::std_specs::hash::{
    builds_valid_hashers, hash_map_deep_view_impl, obeys_key_model, spec_hash_map_iter,
};
use vstd::std_specs::iter::IteratorSpec;

verus! {

/// Equal keys hash alike, and the hasher gives one key one hash: what a hash
/// map needs to find again what was put into it.
pub open spec fn keys_hashed<K, S>() -> bool {
    obeys_key_model::<K>() && builds_valid_hashers::<S>()
}

/// The entries of a map in the order in which the map hands them out.
pub open spec fn hash_listing<K, V, S>(m: &HashMap<K, V, S>) -> Seq<(K, V)> {
    vstd::std_specs::hash::into_iter(spec_hash_map_iter(m))
}

/// The model of a map is the model of what it holds.
pub proof fn lemma_hash_model<K: DeepView, V: DeepView, S>(m: HashMap<K, V, S>)
    ensures
        m.deep_view() == map_model(m@),
{
    reveal(hash_map_deep_view_impl);
    assert(m.deep_view() =~= map_model(m@));
}

impl<K: Wire + Eq + Hash, V: Wire, S: BuildHasher + Default> Wire for HashMap<K, V, S> {
    open spec fn lawful() -> bool {
        K::lawful() && V::lawful() && keys_faithful::<K>() && keys_hashed::<K, S>()
    }

    open spec fn words(&self) -> Seq<u32> {
        seq![self@.len() as u32] + seq_words(hash_listing(self))
    }

    open spec fn parse(heap: Seq<u8>, words: Seq<u32>) -> Result<
        (Map<K::V, V::V>, nat),
        ProtocolError,
    > {
        parse_map::<K, V>(heap, words)
    }

    open spec fn restorable(&self, heap: Seq<u8>) -> bool {
        &&& self@.len() <= u32::MAX
        &&& lists(hash_listing(self), self@)
        &&& seq_restorable(hash_listing(self), heap)
    }

    proof fn lemma_parse_bound(heap: Seq<u8>, words: Seq<u32>) {
        if words.len() > 0 {
            lemma_parse_entries_bound::<K, V>(heap, words.skip(1), words[0] as nat);
        }
    }

    proof fn lemma_round_trip(&self, heap: Seq<u8>, rest: Seq<u32>) {
        let listing = hash_listing(self);
        lemma_parse_entries_words(listing, heap, rest);
        lemma_listing_model(listing, self@);
        lemma_hash_model(*self);
        assert((self.words() + rest).skip(1) =~= seq_words(listing) + rest);
    }
}

impl<K: Outcoming + Eq + Hash, V: Outcoming, S: BuildHasher + Default> Outcoming for HashMap<
    K,
    V,
    S,
> {
    const IS_NEED_READ: bool = K::IS_NEED_READ || V::IS_NEED_READ;

    open spec fn reads_memory() -> bool {
        K::reads_memory() || V::reads_memory()
    }

    proof fn lemma_read_flag() {
        K::lemma_read_flag();
        V::lemma_read_flag();
    }

    proof fn lemma_read_ignores_memory(h1: Seq<u8>, h2: Seq<u8>, words: Seq<u32>) {
        if words.len() > 0 && !Self::reads_memory() {
            lemma_parse_entries_ignores_memory::<K, V>(h1, h2, words.skip(1), words[0] as nat);
        }
    }

    /// The entries are written in the order in which the map hands them
    /// out, each entry of the map once.
    fn args(&self, args: &mut Vec<u32>) -> (r: Result<(), ProtocolError>)
        ensures
            lists(hash_listing(self), self@),
    {
        let len: usize = self.len();
        args.push(len as u32);
        let ghost listing = hash_listing(self);
        let entries = self.iter();
        proof {
            lemma_handed_lists(entries.remaining(), self@);
        }
        for entry in it: entries
            invariant
                K::lawful(),
                V::lawful(),
                it.seq().unref() == listing,
                args@ == old(args)@ + seq![len as u32] + seq_words(listing.take(it.index())),
        {
            let (key, value) = entry;
            key.args(args)?;
            value.args(args)?;
            proof {
                let done = it.index();
                assert(listing.take(done + 1).drop_last() =~= listing.take(done));
                assert(listing.take(done + 1).last() == listing[done]);
            }
        }
        proof {
            assert(listing.take(listing.len() as int) =~= listing);
        }
        Ok(())
    }

    fn read(heap: &[u8], args: &mut Iter<u32>) -> (r: Result<Self, ProtocolError>) {
        let ghost start = (*old(args)).remaining();
        let ghost words = start.unref();
        let len: usize = read_word(args)? as usize;
        let ghost rest = words.skip(1);
        let mut map: HashMap<K, V, S> = HashMap::default();
        let mut i: usize = 0;
        proof {
            lemma_model_empty::<K, V>();
        }
        while i < len
            invariant
                K::lawful(),
                V::lawful(),
                keys_faithful::<K>(),
                keys_hashed::<K, S>(),
                start == (*old(args)).remaining(),
                words == start.unref(),
                rest == words.skip(1),
                words.len() >= 1,
                len == words[0],
                i <= len,
                parse_entries::<K, V>(heap@, rest, i as nat) matches Ok((model, taken)) && {
                    &&& model == map_model(map@)
                    &&& taken <= rest.len()
                    &&& (*args).remaining() == start.skip(1 + taken as int)
                },
            decreases len - i,
        {
            let ghost taken = parse_entries::<K, V>(heap@, rest, i as nat)->Ok_0.1;
            proof {
                assert((*args).remaining().unref() =~= rest.skip(taken as int));
                <(K, V)>::lemma_parse_bound(heap@, rest.skip(taken as int));
            }
            let (key, value) = match <(K, V)>::read(heap, args) {
                Ok(entry) => entry,
                Err(e) => {
                    proof {
                        lemma_parse_entries_fails::<K, V>(heap@, rest, (i + 1) as nat, len as nat);
                    }
                    return Err(e);
                },
            };
            let ghost more = <(K, V)>::parse(heap@, rest.skip(taken as int))->Ok_0.1;
            proof {
                lemma_model_contains(map@, key);
                lemma_model_insert(map@, key, value);
                assert((*args).remaining() =~= start.skip(1 + taken + more as int));
            }
            match map.insert(key, value) {
                Some(_) => {
                    proof {
                        lemma_parse_entries_fails::<K, V>(heap@, rest, (i + 1) as nat, len as nat);
                    }
                    return Err(ProtocolError(MAP_INSERT_ERROR));
                },
                None => {},
            }
            i = i + 1;
        }
        proof {
            lemma_hash_model(map);
        }
        Ok(map)
    }
}

impl<K: Incoming + Eq + Hash, V: Incoming, S: BuildHasher + Default> Incoming for HashMap<
    K,
    V,
    S,
> {
    const IS_NEED_INIT_FILL: bool = K::IS_NEED_INIT_FILL || V::IS_NEED_INIT_FILL;

    open spec fn writes_memory() -> bool {
        K::writes_memory() || V::writes_memory()
    }

    proof fn lemma_fill_flag() {
        K::lemma_fill_flag();
        V::lemma_fill_flag();
    }

    open spec fn filled(&self, heap: Seq<u8>, words: Seq<u32>) -> Result<Seq<u8>, ProtocolError> {
        if words.len() == 0 {
            Err(ProtocolError(ARGS_NEXT_ERROR))
        } else {
            fill_seq(hash_listing(self), heap, words.skip(1))
        }
    }

    proof fn lemma_init_ignores_memory(h1: Seq<u8>, h2: Seq<u8>, words: Seq<u32>) {
        if words.len() > 0 {
            lemma_init_entries_ignores_memory::<K, V>(h1, h2, words.skip(1), words[0] as nat);
        }
    }

    proof fn lemma_filled_bound(&self, heap: Seq<u8>, words: Seq<u32>) {
        if words.len() > 0 {
            lemma_fill_seq_bound(hash_listing(self), heap, words.skip(1));
        }
    }

    proof fn lemma_fill_without_memory(&self, heap: Seq<u8>, words: Seq<u32>) {
        if words.len() > 0 && !Self::writes_memory() {
            lemma_fill_seq_without_memory(hash_listing(self), heap, words.skip(1));
        }
    }

    fn init(args: &mut Slots) -> (r: Result<(u32, Self), ProtocolError>)
        ensures
            r matches Ok(pair) ==> pair.0 == 0,
    {
        let ghost words = old(args).remaining();
        let ghost base = old(args).position();
        proof {
            old(args).lemma_position_bound();
        }
        let len: usize = init_word(args)? as usize;
        let ghost rest = words.skip(1);
        let mut map: HashMap<K, V, S> = HashMap::default();
        let mut i: usize = 0;
        proof {
            lemma_model_empty::<K, V>();
        }
        while i < len
            invariant
                K::lawful(),
                V::lawful(),
                keys_faithful::<K>(),
                keys_hashed::<K, S>(),
                
                words == old(args).remaining(),
                base == old(args).position(),
                base + words.len() == old(args).words().len(),
                rest == words.skip(1),
                words.len() >= 1,
                len == words[0],
                i <= len,
                parse_entries::<K, V>(Seq::empty(), rest, i as nat) matches Ok((model, taken)) && {
                    &&& model == map_model(map@)
                    &&& taken <= rest.len()
                    &&& args.position() == base + 1 + taken
                    &&& forall|k: int|
                        0 <= k < old(args).words().len() && !(base <= k < base + 1 + taken)
                            ==> args.words()[k] == old(args).words()[k]
                },
                args.words().len() == old(args).words().len(),
                !Self::writes_memory() ==> args.words() == old(args).words(),
            decreases len - i,
        {
            let ghost taken = parse_entries::<K, V>(Seq::empty(), rest, i as nat)->Ok_0.1;
            proof {
                assert(args.remaining() =~= rest.skip(taken as int));
                <(K, V)>::lemma_parse_bound(Seq::empty(), rest.skip(taken as int));
            }
            let (_, (key, value)) = match <(K, V)>::init(args) {
                Ok(pair) => pair,
                Err(e) => {
                    proof {
                        lemma_parse_entries_fails::<K, V>(
                            Seq::empty(),
                            rest,
                            (i + 1) as nat,
                            len as nat,
                        );
                    }
                    return Err(e);
                },
            };
            proof {
                lemma_model_contains(map@, key);
                lemma_model_insert(map@, key, value);
            }
            match map.insert(key, value) {
                Some(_) => {
                    proof {
                        lemma_parse_entries_fails::<K, V>(
                            Seq::empty(),
                            rest,
                            (i + 1) as nat,
                            len as nat,
                        );
                    }
                    return Err(ProtocolError(MAP_INSERT_ERROR));
                },
                None => {},
            }
            i = i + 1;
        }
        proof {
            lemma_hash_model(map);
        }
        Ok((0, map))
    }

    /// The entries are written in the order in which the map hands them
    /// out, each entry of the map once.
    fn args(&self, args: &mut Vec<u32>) -> (r: Result<(), ProtocolError>)
        ensures
            lists(hash_listing(self), self@),
    {
        let len: usize = self.len();
        args.push(len as u32);
        let ghost listing = hash_listing(self);
        let entries = self.iter();
        proof {
            lemma_handed_lists(entries.remaining(), self@);
        }
        for entry in it: entries
            invariant
                K::lawful(),
                V::lawful(),
                it.seq().unref() == listing,
                args@ == old(args)@ + seq![len as u32] + seq_words(listing.take(it.index())),
        {
            let (key, value) = entry;
            key.args(args)?;
            value.args(args)?;
            proof {
                let done = it.index();
                assert(listing.take(done + 1).drop_last() =~= listing.take(done));
                assert(listing.take(done + 1).last() == listing[done]);
            }
        }
        proof {
            assert(listing.take(listing.len() as int) =~= listing);
        }
        Ok(())
    }

    fn fill(&self, heap: &mut [u8], args: &mut Iter<u32>) -> (r: Result<(), ProtocolError>) {
        let ghost start = (*old(args)).remaining();
        let ghost words = start.unref();
        pass_over(args, 1)?;
        let ghost rest = words.skip(1);
        let ghost listing = hash_listing(self);
        let entries = self.iter();
        for entry in it: entries
            invariant
                K::lawful(),
                V::lawful(),
                it.seq().unref() == listing,
                listing == hash_listing(self),
                start == (*old(args)).remaining(),
                words == start.unref(),
                rest == words.skip(1),
                words.len() >= 1,
                heap@.len() == old(heap)@.len(),
                seq_words(listing.take(it.index())).len() <= rest.len(),
                fill_seq(listing.take(it.index()), old(heap)@, rest) == Ok::<
                    Seq<u8>,
                    ProtocolError,
                >(heap@),
                (*args).remaining() == start.skip(
                    1 + seq_words(listing.take(it.index())).len() as int,
                ),
        {
            let ghost done = it.index();
            let ghost passed = seq_words(listing.take(done)).len();
            let ghost before = heap@;
            proof {
                assert((*args).remaining().unref() =~= rest.skip(passed as int));
                assert(listing.take(done + 1).drop_last() =~= listing.take(done));
                assert(listing.take(done + 1).last() == listing[done]);
                listing[done].lemma_filled_bound(before, rest.skip(passed as int));
            }
            let (key, value) = entry;
            assert(listing[done] == (*key, *value));
            match key.fill(heap, args) {
                Ok(()) => {},
                Err(e) => {
                    proof {
                        lemma_fill_seq_fails(listing, old(heap)@, rest, done + 1);
                    }
                    return Err(e);
                },
            }
            proof {
                key.lemma_filled_bound(before, rest.skip(passed as int));
                assert((*args).remaining().unref() =~= rest.skip(passed as int).skip(
                    key.words().len() as int,
                ));
            }
            match value.fill(heap, args) {
                Ok(()) => {},
                Err(e) => {
                    proof {
                        lemma_fill_seq_fails(listing, old(heap)@, rest, done + 1);
                    }
                    return Err(e);
                },
            }
            proof {
                assert((*args).remaining() =~= start.skip(
                    1 + seq_words(listing.take(done + 1)).len() as int,
                ));
            }
        }
        proof {
            assert(listing.take(listing.len() as int) =~= listing);
        }
        Ok(())
    }
}

} // verus!
