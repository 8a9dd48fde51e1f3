//! The key-ordered map: its entries travel in increasing key order.

use crate::codec::{Incoming, Outcoming, Wire};
use crate::entries::{
    keys_faithful, lemma_handed_lists, lemma_init_entries_ignores_memory, lemma_listing_model,
    lemma_model_contains, lemma_model_empty, lemma_model_insert, lemma_parse_entries_bound,
    lemma_parse_entries_fails, lemma_parse_entries_ignores_memory, lemma_parse_entries_words,
    lists, map_model, parse_entries, parse_map,
};
use crate::error::{ProtocolError, ARGS_NEXT_ERROR, MAP_INSERT_ERROR};
use crate::scalar::{init_word, pass_over, read_word};
use crate::sequence::{
    fill_seq, lemma_fill_seq_bound, lemma_fill_seq_fails, lemma_fill_seq_without_memory,
    seq_restorable, seq_words,
};
use crate::stream::Slots;
use core::slice::Iter;
use std::collections::BTreeMap;
use vstd::prelude::*;
use vstd::std_specs::btree::{btree_map_deep_view_impl, increasing_seq, spec_btree_map_iter};
use vstd::std_specs::iter::IteratorSpec;

verus! {

/// The order of the keys is the one that the map sorts by.
pub open spec fn keys_ordered<K: Ord>() -> bool {
    vstd::laws_cmp::obeys_cmp::<K>()
}

/// The entries of a map in the order in which the map hands them out.
pub open spec fn btree_listing<K, V>(m: &BTreeMap<K, V>) -> Seq<(K, V)> {
    vstd::std_specs::btree::into_iter(spec_btree_map_iter(m))
}

/// The keys of a row of entries, in the order of the row.
pub open spec fn listed_keys<K, V>(entries: Seq<(K, V)>) -> Seq<K> {
    entries.map_values(|e: (K, V)| e.0)
}

/// The model of a map is the model of what it holds.
pub proof fn lemma_btree_model<K: DeepView, V: DeepView>(m: BTreeMap<K, V>)
    ensures
        m.deep_view() == map_model(m@),
{
    reveal(btree_map_deep_view_impl);
    assert(m.deep_view() =~= map_model(m@));
}

impl<K: Wire + Ord, V: Wire> Wire for BTreeMap<K, V> {
    open spec fn lawful() -> bool {
        K::lawful() && V::lawful() && keys_faithful::<K>() && keys_ordered::<K>()
    }

    open spec fn words(&self) -> Seq<u32> {
        seq![self@.len() as u32] + seq_words(btree_listing(self))
    }

    open spec fn parse(heap: Seq<u8>, words: Seq<u32>) -> Result<
        (Map<K::V, V::V>, nat),
        ProtocolError,
    > {
        parse_map::<K, V>(heap, words)
    }

    open spec fn restorable(&self, heap: Seq<u8>) -> bool {
        &&& self@.len() <= u32::MAX
        &&& lists(btree_listing(self), self@)
        &&& seq_restorable(btree_listing(self), heap)
    }

    proof fn lemma_parse_bound(heap: Seq<u8>, words: Seq<u32>) {
        if words.len() > 0 {
            lemma_parse_entries_bound::<K, V>(heap, words.skip(1), words[0] as nat);
        }
    }

    proof fn lemma_round_trip(&self, heap: Seq<u8>, rest: Seq<u32>) {
        let listing = btree_listing(self);
        lemma_parse_entries_words(listing, heap, rest);
        lemma_listing_model(listing, self@);
        lemma_btree_model(*self);
        assert((self.words() + rest).skip(1) =~= seq_words(listing) + rest);
    }
}

impl<K: Outcoming + Ord, V: Outcoming> Outcoming for BTreeMap<K, V> {
    const IS_NEED_READ: bool = K::IS_NEED_READ || V::IS_NEED_READ;

    open spec fn reads_memory() -> bool {
        K::reads_memory() || V::reads_memory()
    }

    proof fn lemma_read_flag() {
        K::lemma_read_flag();
        V::lemma_read_flag();
    }

    proof fn lemma_read_ignores_memory(h1: Seq<u8>, h2: Seq<u8>, words: Seq<u32>) {
        if words.len() > 0 && !Self::reads_memory() {
            lemma_parse_entries_ignores_memory::<K, V>(h1, h2, words.skip(1), words[0] as nat);
        }
    }

    /// The entries are written in increasing key order, each entry of the
    /// map once.
    fn args(&self, args: &mut Vec<u32>) -> (r: Result<(), ProtocolError>)
        ensures
            increasing_seq(listed_keys(btree_listing(self))),
            lists(btree_listing(self), self@),
    {
        let len: usize = self.len();
        args.push(len as u32);
        let ghost listing = btree_listing(self);
        let entries = self.iter();
        proof {
            assert(listed_keys(listing) =~= entries.remaining().map_values(
                |kv: (&K, &V)| *kv.0,
            ));
            lemma_handed_lists(entries.remaining(), self@);
        }
        for entry in it: entries
            invariant
                K::lawful(),
                V::lawful(),
                it.seq().unref() == listing,
                args@ == old(args)@ + seq![len as u32] + seq_words(listing.take(it.index())),
        {
            let (key, value) = entry;
            key.args(args)?;
            value.args(args)?;
            proof {
                let done = it.index();
                assert(listing.take(done + 1).drop_last() =~= listing.take(done));
                assert(listing.take(done + 1).last() == listing[done]);
            }
        }
        proof {
            assert(listing.take(listing.len() as int) =~= listing);
        }
        Ok(())
    }

    fn read(heap: &[u8], args: &mut Iter<u32>) -> (r: Result<Self, ProtocolError>) {
        let ghost start = (*old(args)).remaining();
        let ghost words = start.unref();
        let len: usize = read_word(args)? as usize;
        let ghost rest = words.skip(1);
        let mut map: BTreeMap<K, V> = BTreeMap::new();
        let mut i: usize = 0;
        proof {
            lemma_model_empty::<K, V>();
        }
        while i < len
            invariant
                K::lawful(),
                V::lawful(),
                keys_faithful::<K>(),
                keys_ordered::<K>(),
                start == (*old(args)).remaining(),
                words == start.unref(),
                rest == words.skip(1),
                words.len() >= 1,
                len == words[0],
                i <= len,
                parse_entries::<K, V>(heap@, rest, i as nat) matches Ok((model, taken)) && {
                    &&& model == map_model(map@)
                    &&& taken <= rest.len()
                    &&& (*args).remaining() == start.skip(1 + taken as int)
                },
            decreases len - i,
        {
            let ghost taken = parse_entries::<K, V>(heap@, rest, i as nat)->Ok_0.1;
            proof {
                assert((*args).remaining().unref() =~= rest.skip(taken as int));
                <(K, V)>::lemma_parse_bound(heap@, rest.skip(taken as int));
            }
            let (key, value) = match <(K, V)>::read(heap, args) {
                Ok(entry) => entry,
                Err(e) => {
                    proof {
                        lemma_parse_entries_fails::<K, V>(heap@, rest, (i + 1) as nat, len as nat);
                    }
                    return Err(e);
                },
            };
            let ghost more = <(K, V)>::parse(heap@, rest.skip(taken as int))->Ok_0.1;
            proof {
                lemma_model_contains(map@, key);
                lemma_model_insert(map@, key, value);
                assert((*args).remaining() =~= start.skip(1 + taken + more as int));
            }
            match map.insert(key, value) {
                Some(_) => {
                    proof {
                        lemma_parse_entries_fails::<K, V>(heap@, rest, (i + 1) as nat, len as nat);
                    }
                    return Err(ProtocolError(MAP_INSERT_ERROR));
                },
                None => {},
            }
            i = i + 1;
        }
        proof {
            lemma_btree_model(map);
        }
        Ok(map)
    }
}

impl<K: Incoming + Ord, V: Incoming> Incoming for BTreeMap<K, V> {
    const IS_NEED_INIT_FILL: bool = K::IS_NEED_INIT_FILL || V::IS_NEED_INIT_FILL;

    open spec fn writes_memory() -> bool {
        K::writes_memory() || V::writes_memory()
    }

    proof fn lemma_fill_flag() {
        K::lemma_fill_flag();
        V::lemma_fill_flag();
    }

    open spec fn filled(&self, heap: Seq<u8>, words: Seq<u32>) -> Result<Seq<u8>, ProtocolError> {
        if words.len() == 0 {
            Err(ProtocolError(ARGS_NEXT_ERROR))
        } else {
            fill_seq(btree_listing(self), heap, words.skip(1))
        }
    }

    proof fn lemma_init_ignores_memory(h1: Seq<u8>, h2: Seq<u8>, words: Seq<u32>) {
        if words.len() > 0 {
            lemma_init_entries_ignores_memory::<K, V>(h1, h2, words.skip(1), words[0] as nat);
        }
    }

    proof fn lemma_filled_bound(&self, heap: Seq<u8>, words: Seq<u32>) {
        if words.len() > 0 {
            lemma_fill_seq_bound(btree_listing(self), heap, words.skip(1));
        }
    }

    proof fn lemma_fill_without_memory(&self, heap: Seq<u8>, words: Seq<u32>) {
        if words.len() > 0 && !Self::writes_memory() {
            lemma_fill_seq_without_memory(btree_listing(self), heap, words.skip(1));
        }
    }

    fn init(args: &mut Slots) -> (r: Result<(u32, Self), ProtocolError>)
        ensures
            r matches Ok(pair) ==> pair.0 == 0,
    {
        let ghost words = old(args).remaining();
        let ghost base = old(args).position();
        proof {
            old(args).lemma_position_bound();
        }
        let len: usize = init_word(args)? as usize;
        let ghost rest = words.skip(1);
        let mut map: BTreeMap<K, V> = BTreeMap::new();
        let mut i: usize = 0;
        proof {
            lemma_model_empty::<K, V>();
        }
        while i < len
            invariant
                K::lawful(),
                V::lawful(),
                keys_faithful::<K>(),
                keys_ordered::<K>(),
                
                words == old(args).remaining(),
                base == old(args).position(),
                base + words.len() == old(args).words().len(),
                rest == words.skip(1),
                words.len() >= 1,
                len == words[0],
                i <= len,
                parse_entries::<K, V>(Seq::empty(), rest, i as nat) matches Ok((model, taken)) && {
                    &&& model == map_model(map@)
                    &&& taken <= rest.len()
                    &&& args.position() == base + 1 + taken
                    &&& forall|k: int|
                        0 <= k < old(args).words().len() && !(base <= k < base + 1 + taken)
                            ==> args.words()[k] == old(args).words()[k]
                },
                args.words().len() == old(args).words().len(),
                !Self::writes_memory() ==> args.words() == old(args).words(),
            decreases len - i,
        {
            let ghost taken = parse_entries::<K, V>(Seq::empty(), rest, i as nat)->Ok_0.1;
            proof {
                assert(args.remaining() =~= rest.skip(taken as int));
                <(K, V)>::lemma_parse_bound(Seq::empty(), rest.skip(taken as int));
            }
            let (_, (key, value)) = match <(K, V)>::init(args) {
                Ok(pair) => pair,
                Err(e) => {
                    proof {
                        lemma_parse_entries_fails::<K, V>(
                            Seq::empty(),
                            rest,
                            (i + 1) as nat,
                            len as nat,
                        );
                    }
                    return Err(e);
                },
            };
            proof {
                lemma_model_contains(map@, key);
                lemma_model_insert(map@, key, value);
            }
            match map.insert(key, value) {
                Some(_) => {
                    proof {
                        lemma_parse_entries_fails::<K, V>(
                            Seq::empty(),
                            rest,
                            (i + 1) as nat,
                            len as nat,
                        );
                    }
                    return Err(ProtocolError(MAP_INSERT_ERROR));
                },
                None => {},
            }
            i = i + 1;
        }
        proof {
            lemma_btree_model(map);
        }
        Ok((0, map))
    }

    /// The entries are written in increasing key order, each entry of the
    /// map once.
    fn args(&self, args: &mut Vec<u32>) -> (r: Result<(), ProtocolError>)
        ensures
            increasing_seq(listed_keys(btree_listing(self))),
            lists(btree_listing(self), self@),
    {
        let len: usize = self.len();
        args.push(len as u32);
        let ghost listing = btree_listing(self);
        let entries = self.iter();
        proof {
            assert(listed_keys(listing) =~= entries.remaining().map_values(
                |kv: (&K, &V)| *kv.0,
            ));
            lemma_handed_lists(entries.remaining(), self@);
        }
        for entry in it: entries
            invariant
                K::lawful(),
                V::lawful(),
                it.seq().unref() == listing,
                args@ == old(args)@ + seq![len as u32] + seq_words(listing.take(it.index())),
        {
            let (key, value) = entry;
            key.args(args)?;
            value.args(args)?;
            proof {
                let done = it.index();
                assert(listing.take(done + 1).drop_last() =~= listing.take(done));
                assert(listing.take(done + 1).last() == listing[done]);
            }
        }
        proof {
            assert(listing.take(listing.len() as int) =~= listing);
        }
        Ok(())
    }

    fn fill(&self, heap: &mut [u8], args: &mut Iter<u32>) -> (r: Result<(), ProtocolError>) {
        let ghost start = (*old(args)).remaining();
        let ghost words = start.unref();
        pass_over(args, 1)?;
        let ghost rest = words.skip(1);
        let ghost listing = btree_listing(self);
        let entries = self.iter();
        for entry in it: entries
            invariant
                K::lawful(),
                V::lawful(),
                it.seq().unref() == listing,
                listing == btree_listing(self),
                start == (*old(args)).remaining(),
                words == start.unref(),
                rest == words.skip(1),
                words.len() >= 1,
                heap@.len() == old(heap)@.len(),
                seq_words(listing.take(it.index())).len() <= rest.len(),
                fill_seq(listing.take(it.index()), old(heap)@, rest) == Ok::<
                    Seq<u8>,
                    ProtocolError,
                >(heap@),
                (*args).remaining() == start.skip(
                    1 + seq_words(listing.take(it.index())).len() as int,
                ),
        {
            let ghost done = it.index();
            let ghost passed = seq_words(listing.take(done)).len();
            let ghost before = heap@;
            proof {
                assert((*args).remaining().unref() =~= rest.skip(passed as int));
                assert(listing.take(done + 1).drop_last() =~= listing.take(done));
                assert(listing.take(done + 1).last() == listing[done]);
                listing[done].lemma_filled_bound(before, rest.skip(passed as int));
            }
            let (key, value) = entry;
            assert(listing[done] == (*key, *value));
            match key.fill(heap, args) {
                Ok(()) => {},
                Err(e) => {
                    proof {
                        lemma_fill_seq_fails(listing, old(heap)@, rest, done + 1);
                    }
                    return Err(e);
                },
            }
            proof {
                key.lemma_filled_bound(before, rest.skip(passed as int));
                assert((*args).remaining().unref() =~= rest.skip(passed as int).skip(
                    key.words().len() as int,
                ));
            }
            match value.fill(heap, args) {
                Ok(()) => {},
                Err(e) => {
                    proof {
                        lemma_fill_seq_fails(listing, old(heap)@, rest, done + 1);
                    }
                    return Err(e);
                },
            }
            proof {
                assert((*args).remaining() =~= start.skip(
                    1 + seq_words(listing.take(done + 1)).len() as int,
                ));
            }
        }
        proof {
            assert(listing.take(listing.len() as int) =~= listing);
        }
        Ok(())
    }
}

} // verus!
