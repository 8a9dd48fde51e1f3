//! What the two map codecs share: a map travels as one length word and then
//! its entries, key before value, in the order in which the map lists them.
//! Decoding refuses a key that it has already seen.

use crate::codec::{Incoming, Outcoming, Wire};
use crate::error::{ProtocolError, ARGS_NEXT_ERROR, MAP_INSERT_ERROR};
use crate::sequence::{seq_restorable, seq_words};
use vstd::prelude::*;
use vstd::relations::injective;

verus! {

/// Keys are told apart by their models: two keys with one model are one key.
pub open spec fn keys_faithful<K: DeepView>() -> bool {
    injective(|k: K| k.deep_view())
}

/// The model of a map: the models of its values under the models of its keys.
pub open spec fn map_model<K: DeepView, V: DeepView>(m: Map<K, V>) -> Map<K::V, V::V> {
    Map::new(
        |dk: K::V| exists|k: K| #[trigger] m.contains_key(k) && dk == k.deep_view(),
        |dk: K::V|
            {
                let k = choose|k: K| m.contains_key(k) && #[trigger] k.deep_view() == dk;
                m[k].deep_view()
            },
    )
}

/// No key stands twice in `entries`.
pub open spec fn distinct_keys<K, V>(entries: Seq<(K, V)>) -> bool {
    forall|i: int, j: int|
        0 <= i < j < entries.len() ==> (#[trigger] entries[i]).0 != (#[trigger] entries[j]).0
}

/// `entries` lists the map `m`: each entry of the map once, and nothing else.
pub open spec fn lists<K, V>(entries: Seq<(K, V)>, m: Map<K, V>) -> bool {
    &&& entries.len() == m.len()
    &&& distinct_keys(entries)
    &&& forall|i: int|
        0 <= i < entries.len() ==> m.contains_key((#[trigger] entries[i]).0) && m[entries[i].0]
            == entries[i].1
    &&& forall|k: K| #[trigger]
        m.contains_key(k) ==> exists|i: int| 0 <= i < entries.len() && (#[trigger] entries[i]).0 == k
}

/// The model of the map that holds `entries`, a later entry taking the place
/// of an earlier one under the same key.
pub open spec fn entries_model<K: DeepView, V: DeepView>(entries: Seq<(K, V)>) -> Map<K::V, V::V>
    decreases entries.len(),
{
    if entries.len() == 0 {
        Map::empty()
    } else {
        entries_model(entries.drop_last()).insert(
            entries.last().0.deep_view(),
            entries.last().1.deep_view(),
        )
    }
}

/// What decoding reads for `count` entries in a row: the first `count - 1`,
/// then a key and a value behind them, refused where the key is among those
/// already read.
pub open spec fn parse_entries<K: Wire, V: Wire>(
    heap: Seq<u8>,
    words: Seq<u32>,
    count: nat,
) -> Result<(Map<K::V, V::V>, nat), ProtocolError>
    decreases count,
{
    if count == 0 {
        Ok((Map::empty(), 0nat))
    } else {
        match parse_entries::<K, V>(heap, words, (count - 1) as nat) {
            Ok((map, taken)) => match <(K, V)>::parse(heap, words.skip(taken as int)) {
                Ok((entry, more)) => if map.contains_key(entry.0) {
                    Err(ProtocolError(MAP_INSERT_ERROR))
                } else {
                    Ok((map.insert(entry.0, entry.1), taken + more))
                },
                Err(e) => Err(e),
            },
            Err(e) => Err(e),
        }
    }
}

/// What decoding reads for a map: the length word, then that many entries.
pub open spec fn parse_map<K: Wire, V: Wire>(heap: Seq<u8>, words: Seq<u32>) -> Result<
    (Map<K::V, V::V>, nat),
    ProtocolError,
> {
    if words.len() == 0 {
        Err(ProtocolError(ARGS_NEXT_ERROR))
    } else {
        match parse_entries::<K, V>(heap, words.skip(1), words[0] as nat) {
            Ok((map, taken)) => Ok((map, 1 + taken)),
            Err(e) => Err(e),
        }
    }
}

/// What a map hands out when it is asked for its entries lists the map,
/// where it hands out nothing twice, as many entries as the map holds, each
/// of them one of the map, and each one of the map among them.
pub proof fn lemma_handed_lists<K, V>(handed: Seq<(&K, &V)>, m: Map<K, V>)
    requires
        handed.no_duplicates(),
        handed.len() == m.len(),
        forall|i: int|
            0 <= i < handed.len() ==> m.contains_key(*(#[trigger] handed[i]).0) && m[*handed[i].0]
                == *handed[i].1,
        forall|k: K| #[trigger] m.contains_key(k) ==> handed.contains((&k, &m[k])),
    ensures
        lists(handed.unref(), m),
{
    let listing = handed.unref();
    assert forall|i: int, j: int| 0 <= i < j < listing.len() implies (#[trigger] listing[i]).0 != (
    #[trigger] listing[j]).0 by {
        if listing[i].0 == listing[j].0 {
            assert(m[*handed[i].0] == *handed[i].1);
            assert(m[*handed[j].0] == *handed[j].1);
            assert(handed[i] == handed[j]);
        }
    }
    assert forall|i: int| 0 <= i < listing.len() implies m.contains_key(
        (#[trigger] listing[i]).0,
    ) && m[listing[i].0] == listing[i].1 by {
        assert(m.contains_key(*handed[i].0) && m[*handed[i].0] == *handed[i].1);
    }
    assert forall|k: K| #[trigger] m.contains_key(k) implies exists|i: int|
        0 <= i < listing.len() && (#[trigger] listing[i]).0 == k by {
        assert(handed.contains((&k, &m[k])));
        let i = choose|i: int| 0 <= i < handed.len() && handed[i] == (&k, &m[k]);
        assert(listing[i].0 == k);
    }
}

/// The model of the empty map is empty.
pub proof fn lemma_model_empty<K: DeepView, V: DeepView>()
    ensures
        map_model(Map::<K, V>::empty()) == Map::<K::V, V::V>::empty(),
{
    assert(map_model(Map::<K, V>::empty()) =~= Map::<K::V, V::V>::empty());
}

/// A map holds a key exactly where its model holds the model of the key, and
/// there the model holds the model of the value.
pub proof fn lemma_model_contains<K: DeepView, V: DeepView>(m: Map<K, V>, k: K)
    requires
        keys_faithful::<K>(),
    ensures
        m.contains_key(k) <==> map_model(m).contains_key(k.deep_view()),
        m.contains_key(k) ==> map_model(m)[k.deep_view()] == m[k].deep_view(),
{
    let key_model = |k: K| k.deep_view();
    if map_model(m).contains_key(k.deep_view()) {
        let other = choose|other: K| #[trigger] m.contains_key(other) && k.deep_view() == other.deep_view();
        assert(key_model(other) == key_model(k));
    }
    if m.contains_key(k) {
        let chosen = choose|c: K| m.contains_key(c) && #[trigger] c.deep_view() == k.deep_view();
        assert(key_model(chosen) == key_model(k));
    }
}

/// Putting an entry into a map puts its model into the model of the map.
pub proof fn lemma_model_insert<K: DeepView, V: DeepView>(m: Map<K, V>, k: K, v: V)
    requires
        keys_faithful::<K>(),
    ensures
        map_model(m.insert(k, v)) == map_model(m).insert(k.deep_view(), v.deep_view()),
{
    let key_model = |k: K| k.deep_view();
    let after = m.insert(k, v);
    let left = map_model(after);
    let right = map_model(m).insert(k.deep_view(), v.deep_view());
    assert forall|dk: K::V| left.contains_key(dk) <==> right.contains_key(dk) by {
        if left.contains_key(dk) {
            let w = choose|w: K| #[trigger] after.contains_key(w) && dk == w.deep_view();
            if w != k {
                assert(m.contains_key(w));
            }
        }
        if right.contains_key(dk) {
            if dk == k.deep_view() {
                assert(after.contains_key(k));
            } else {
                let w = choose|w: K| #[trigger] m.contains_key(w) && dk == w.deep_view();
                assert(after.contains_key(w));
            }
        }
    }
    assert forall|dk: K::V| left.contains_key(dk) implies left[dk] == right[dk] by {
        let w = choose|w: K| #[trigger] after.contains_key(w) && dk == w.deep_view();
        lemma_model_contains(after, w);
        if w == k {
        } else {
            assert(key_model(w) != key_model(k));
            assert(m.contains_key(w));
            lemma_model_contains(m, w);
        }
    }
    assert(left =~= right);
}

/// The model of a row of entries holds exactly the models of their keys.
pub proof fn lemma_entries_model_keys<K: DeepView, V: DeepView>(entries: Seq<(K, V)>, dk: K::V)
    ensures
        entries_model(entries).contains_key(dk) <==> exists|i: int|
            0 <= i < entries.len() && (#[trigger] entries[i]).0.deep_view() == dk,
    decreases entries.len(),
{
    if entries.len() > 0 {
        let front = entries.drop_last();
        lemma_entries_model_keys(front, dk);
        if entries_model(entries).contains_key(dk) {
            if dk == entries.last().0.deep_view() {
                assert(entries[entries.len() - 1].0.deep_view() == dk);
            } else {
                let i = choose|i: int| 0 <= i < front.len() && (#[trigger] front[i]).0.deep_view() == dk;
                assert(entries[i].0.deep_view() == dk);
            }
        }
        if exists|i: int| 0 <= i < entries.len() && (#[trigger] entries[i]).0.deep_view() == dk {
            let i = choose|i: int| 0 <= i < entries.len() && (#[trigger] entries[i]).0.deep_view() == dk;
            if i < entries.len() - 1 {
                assert(front[i].0.deep_view() == dk);
            }
        }
    }
}

/// Under distinct keys the model of a row holds the model of each value
/// under the model of its key.
pub proof fn lemma_entries_model_value<K: DeepView, V: DeepView>(entries: Seq<(K, V)>, i: int)
    requires
        keys_faithful::<K>(),
        distinct_keys(entries),
        0 <= i < entries.len(),
    ensures
        entries_model(entries).contains_key(entries[i].0.deep_view()),
        entries_model(entries)[entries[i].0.deep_view()] == entries[i].1.deep_view(),
    decreases entries.len(),
{
    let key_model = |k: K| k.deep_view();
    let front = entries.drop_last();
    if i < entries.len() - 1 {
        assert(distinct_keys(front)) by {
            assert forall|a: int, b: int| 0 <= a < b < front.len() implies (#[trigger] front[a]).0 != (
            #[trigger] front[b]).0 by {
                assert(entries[a].0 != entries[b].0);
            }
        }
        lemma_entries_model_value(front, i);
        assert(front[i] == entries[i]);
        assert(entries[i].0 != entries[entries.len() - 1].0);
        assert(key_model(entries[i].0) != key_model(entries.last().0));
    }
}

/// The model of a row that lists a map is the model of the map.
pub proof fn lemma_listing_model<K: DeepView, V: DeepView>(entries: Seq<(K, V)>, m: Map<K, V>)
    requires
        keys_faithful::<K>(),
        lists(entries, m),
    ensures
        entries_model(entries) == map_model(m),
{
    let left = entries_model(entries);
    let right = map_model(m);
    assert forall|dk: K::V| left.contains_key(dk) <==> right.contains_key(dk) by {
        lemma_entries_model_keys(entries, dk);
        if left.contains_key(dk) {
            let i = choose|i: int| 0 <= i < entries.len() && (#[trigger] entries[i]).0.deep_view() == dk;
            assert(m.contains_key(entries[i].0));
        }
        if right.contains_key(dk) {
            let k = choose|k: K| #[trigger] m.contains_key(k) && dk == k.deep_view();
            let i = choose|i: int| 0 <= i < entries.len() && (#[trigger] entries[i]).0 == k;
            assert(entries[i].0.deep_view() == dk);
        }
    }
    assert forall|dk: K::V| left.contains_key(dk) implies left[dk] == right[dk] by {
        lemma_entries_model_keys(entries, dk);
        let i = choose|i: int| 0 <= i < entries.len() && (#[trigger] entries[i]).0.deep_view() == dk;
        lemma_entries_model_value(entries, i);
        assert(m.contains_key(entries[i].0));
        lemma_model_contains(m, entries[i].0);
    }
    assert(left =~= right);
}

/// Decoding a row of entries stays inside the stream.
pub proof fn lemma_parse_entries_bound<K: Wire, V: Wire>(
    heap: Seq<u8>,
    words: Seq<u32>,
    count: nat,
)
    requires
        K::lawful(),
        V::lawful(),
    ensures
        parse_entries::<K, V>(heap, words, count) matches Ok((_, taken)) ==> taken <= words.len(),
    decreases count,
{
    if count > 0 {
        lemma_parse_entries_bound::<K, V>(heap, words, (count - 1) as nat);
        if let Ok((_, taken)) = parse_entries::<K, V>(heap, words, (count - 1) as nat) {
            <(K, V)>::lemma_parse_bound(heap, words.skip(taken as int));
        }
    }
}

/// A row of entries that fails after `count` of them fails in the same way
/// for any larger count.
pub proof fn lemma_parse_entries_fails<K: Wire, V: Wire>(
    heap: Seq<u8>,
    words: Seq<u32>,
    count: nat,
    more: nat,
)
    requires
        parse_entries::<K, V>(heap, words, count) is Err,
        count <= more,
    ensures
        parse_entries::<K, V>(heap, words, more) == parse_entries::<K, V>(heap, words, count),
    decreases more - count,
{
    if count < more {
        lemma_parse_entries_fails::<K, V>(heap, words, count, (more - 1) as nat);
    }
}

/// Round trip for a row of entries with distinct keys: decoding their words
/// yields the model of the row and takes exactly those words.
pub proof fn lemma_parse_entries_words<K: Wire, V: Wire>(
    entries: Seq<(K, V)>,
    heap: Seq<u8>,
    rest: Seq<u32>,
)
    requires
        K::lawful(),
        V::lawful(),
        keys_faithful::<K>(),
        distinct_keys(entries),
        seq_restorable(entries, heap),
    ensures
        parse_entries::<K, V>(heap, seq_words(entries) + rest, entries.len()) == Ok::<
            (Map<K::V, V::V>, nat),
            ProtocolError,
        >((entries_model(entries), seq_words(entries).len())),
    decreases entries.len(),
{
    let key_model = |k: K| k.deep_view();
    if entries.len() > 0 {
        let front = entries.drop_last();
        let last = entries.last();
        let all = seq_words(entries) + rest;
        assert(seq_restorable(front, heap)) by {
            assert forall|i: int| 0 <= i < front.len() implies (#[trigger] front[i]).restorable(
                heap,
            ) by {
                assert(front[i] == entries[i]);
            }
        }
        assert(distinct_keys(front)) by {
            assert forall|a: int, b: int| 0 <= a < b < front.len() implies (#[trigger] front[a]).0 != (
            #[trigger] front[b]).0 by {
                assert(entries[a].0 != entries[b].0);
            }
        }
        lemma_parse_entries_words(front, heap, last.words() + rest);
        assert(all =~= seq_words(front) + (last.words() + rest));
        assert(entries[entries.len() - 1].restorable(heap));
        last.lemma_round_trip(heap, rest);
        assert(all.skip(seq_words(front).len() as int) =~= last.words() + rest);
        assert(!entries_model(front).contains_key(last.0.deep_view())) by {
            lemma_entries_model_keys(front, last.0.deep_view());
            if entries_model(front).contains_key(last.0.deep_view()) {
                let i = choose|i: int|
                    0 <= i < front.len() && (#[trigger] front[i]).0.deep_view()
                        == last.0.deep_view();
                assert(entries[i].0 != entries[entries.len() - 1].0);
                assert(key_model(entries[i].0) == key_model(last.0));
            }
        }
    }
}

/// Decoding refuses a repeated key: where the entry behind the first `count`
/// entries has a key that is among them, the row fails as a map that has the
/// key already, however many entries were announced.
pub proof fn lemma_repeated_key_refused<K: Wire, V: Wire>(
    heap: Seq<u8>,
    words: Seq<u32>,
    count: nat,
    announced: nat,
)
    requires
        count < announced,
        parse_entries::<K, V>(heap, words, count) matches Ok((map, taken)) && (<(K, V)>::parse(
            heap,
            words.skip(taken as int),
        ) matches Ok((entry, _)) && map.contains_key(entry.0)),
    ensures
        parse_entries::<K, V>(heap, words, announced) == Err::<
            (Map<K::V, V::V>, nat),
            ProtocolError,
        >(ProtocolError(MAP_INSERT_ERROR)),
{
    lemma_parse_entries_fails::<K, V>(heap, words, count + 1, announced);
}

/// A map travels in any order: whichever way its entries are listed, as long
/// as each stands once, decoding their words yields the map.
pub proof fn lemma_any_order_round_trips<K: Wire, V: Wire>(
    entries: Seq<(K, V)>,
    m: Map<K, V>,
    heap: Seq<u8>,
    rest: Seq<u32>,
)
    requires
        K::lawful(),
        V::lawful(),
        keys_faithful::<K>(),
        lists(entries, m),
        entries.len() <= u32::MAX,
        seq_restorable(entries, heap),
    ensures
        parse_map::<K, V>(heap, seq![entries.len() as u32] + seq_words(entries) + rest) == Ok::<
            (Map<K::V, V::V>, nat),
            ProtocolError,
        >((map_model(m), 1 + seq_words(entries).len())),
{
    let all = seq![entries.len() as u32] + seq_words(entries) + rest;
    lemma_parse_entries_words(entries, heap, rest);
    lemma_listing_model(entries, m);
    assert(all.skip(1) =~= seq_words(entries) + rest);
}

/// A row of entries decoded from the stream alone does not depend on the
/// memory.
pub proof fn lemma_parse_entries_ignores_memory<K: Outcoming, V: Outcoming>(
    h1: Seq<u8>,
    h2: Seq<u8>,
    words: Seq<u32>,
    count: nat,
)
    requires
        K::lawful(),
        V::lawful(),
        !K::reads_memory(),
        !V::reads_memory(),
    ensures
        parse_entries::<K, V>(h1, words, count) == parse_entries::<K, V>(h2, words, count),
    decreases count,
{
    if count > 0 {
        lemma_parse_entries_ignores_memory::<K, V>(h1, h2, words, (count - 1) as nat);
        if let Ok((_, taken)) = parse_entries::<K, V>(h1, words, (count - 1) as nat) {
            let entry = words.skip(taken as int);
            K::lemma_read_ignores_memory(h1, h2, entry);
            if let Ok((_, key_words)) = K::parse(h1, entry) {
                V::lemma_read_ignores_memory(h1, h2, entry.skip(key_words as int));
            }
        }
    }
}

/// What `init` decodes for a row of entries does not depend on the memory.
pub proof fn lemma_init_entries_ignores_memory<K: Incoming, V: Incoming>(
    h1: Seq<u8>,
    h2: Seq<u8>,
    words: Seq<u32>,
    count: nat,
)
    requires
        K::lawful(),
        V::lawful(),
    ensures
        parse_entries::<K, V>(h1, words, count) == parse_entries::<K, V>(h2, words, count),
    decreases count,
{
    if count > 0 {
        lemma_init_entries_ignores_memory::<K, V>(h1, h2, words, (count - 1) as nat);
        if let Ok((_, taken)) = parse_entries::<K, V>(h1, words, (count - 1) as nat) {
            <(K, V)>::lemma_init_ignores_memory(h1, h2, words.skip(taken as int));
        }
    }
}

} // verus!
