//! What holds of the codec for described types: round trip, the meaning of
//! the two flags, and that a decoded value belongs to the shape it was
//! decoded for.

use crate::atom::{
    lemma_atom_fill_without_memory, lemma_atom_ignores_memory, lemma_atom_parse_bound,
    lemma_atom_round_trip,
};
use crate::error::ProtocolError;
use crate::scalar::passed_over;
use crate::shape::{
    conforms, entries_filled, entry_words, filled, has_key, keys_distinct, parse, parse_entries,
    parse_entry, parse_fields, parse_items, reads_memory, restorable, row_filled, row_words,
    words_of, writes_memory, Model, Shape,
};
use vstd::prelude::*;

verus! {

/// A decoded value belongs to the shape it was decoded for, and decoding
/// stays inside the stream.
pub proof fn lemma_parse_conforms(shape: Shape, heap: Seq<u8>, words: Seq<u32>)
    ensures
        parse(shape, heap, words) matches Ok((m, taken)) ==> conforms(m, shape) && taken
            <= words.len(),
    decreases shape, 1nat, 0nat,
{
    match shape {
        Shape::Atom(kind) => {
            lemma_atom_parse_bound(kind, heap, words);
        },
        Shape::Optional(inner) => {
            if words.len() > 0 && words[0] != 0 {
                lemma_parse_conforms(*inner, heap, words.skip(1));
            }
        },
        Shape::Sequence(inner) => {
            if words.len() > 0 {
                lemma_parse_items_conform(*inner, heap, words.skip(1), words[0] as nat);
            }
        },
        Shape::Mapping(_, _) => {
            if words.len() > 0 {
                lemma_parse_entries_conform(shape, heap, words.skip(1), words[0] as nat);
            }
        },
        Shape::Record(fields) => {
            lemma_parse_fields_conform(fields@, heap, words, fields@.len());
        },
        Shape::Union(variants) => {
            if words.len() > 0 && words[0] < variants@.len() {
                if let Some(payload) = variants@[words[0] as int] {
                    lemma_parse_conforms(payload, heap, words.skip(1));
                }
            }
        },
    }
}

/// Each value of a decoded row belongs to the shape of the row.
pub proof fn lemma_parse_items_conform(inner: Shape, heap: Seq<u8>, words: Seq<u32>, count: nat)
    ensures
        parse_items(inner, heap, words, count) matches Ok((items, taken)) ==> {
            &&& items.len() == count
            &&& taken <= words.len()
            &&& forall|i: int| 0 <= i < count ==> conforms(#[trigger] items[i], inner)
        },
    decreases inner, 2nat, count,
{
    if count > 0 {
        lemma_parse_items_conform(inner, heap, words, (count - 1) as nat);
        if let Ok((items, taken)) = parse_items(inner, heap, words, (count - 1) as nat) {
            lemma_parse_conforms(inner, heap, words.skip(taken as int));
        }
    }
}

/// The key and the value of a decoded entry belong to their shapes.
pub proof fn lemma_parse_entry_conforms(shape: Shape, heap: Seq<u8>, words: Seq<u32>)
    requires
        shape is Mapping,
    ensures
        parse_entry(shape, heap, words) matches Ok((entry, taken)) ==> {
            &&& taken <= words.len()
            &&& conforms(entry.0, *shape->Mapping_0)
            &&& conforms(entry.1, *shape->Mapping_1)
        },
    decreases shape, 0nat, 0nat,
{
    lemma_parse_conforms(*shape->Mapping_0, heap, words);
    if let Ok((key, taken)) = parse(*shape->Mapping_0, heap, words) {
        lemma_parse_conforms(*shape->Mapping_1, heap, words.skip(taken as int));
    }
}

/// Each key and value of a decoded map belongs to its shape, and no key
/// stands twice.
pub proof fn lemma_parse_entries_conform(shape: Shape, heap: Seq<u8>, words: Seq<u32>, count: nat)
    requires
        shape is Mapping,
    ensures
        parse_entries(shape, heap, words, count) matches Ok((entries, taken)) ==> {
            &&& entries.len() == count
            &&& taken <= words.len()
            &&& keys_distinct(entries)
            &&& forall|i: int|
                0 <= i < count ==> conforms((#[trigger] entries[i]).0, *shape->Mapping_0)
                    && conforms(entries[i].1, *shape->Mapping_1)
        },
    decreases shape, 0nat, count,
{
    if count > 0 {
        lemma_parse_entries_conform(shape, heap, words, (count - 1) as nat);
        if let Ok((entries, taken)) = parse_entries(shape, heap, words, (count - 1) as nat) {
            let entry = words.skip(taken as int);
            lemma_parse_entry_conforms(shape, heap, entry);
        }
    }
}

/// Each decoded field belongs to the shape of its field.
pub proof fn lemma_parse_fields_conform(
    fields: Seq<Shape>,
    heap: Seq<u8>,
    words: Seq<u32>,
    upto: nat,
)
    requires
        upto <= fields.len(),
    ensures
        parse_fields(fields, heap, words, upto) matches Ok((items, taken)) ==> {
            &&& items.len() == upto
            &&& taken <= words.len()
            &&& forall|i: int| 0 <= i < upto ==> conforms(#[trigger] items[i], fields[i])
        },
    decreases fields, 2nat, upto,
{
    if upto > 0 {
        lemma_parse_fields_conform(fields, heap, words, (upto - 1) as nat);
        if let Ok((items, taken)) = parse_fields(fields, heap, words, (upto - 1) as nat) {
            lemma_parse_conforms(fields[upto - 1], heap, words.skip(taken as int));
        }
    }
}

/// Round trip: decoding the words of a restorable value of a shape, whatever
/// follows them in the stream, yields that value and takes exactly those
/// words.
pub proof fn lemma_round_trip(m: Model, shape: Shape, heap: Seq<u8>, rest: Seq<u32>)
    requires
        conforms(m, shape),
        restorable(m, heap),
    ensures
        parse(shape, heap, words_of(m) + rest) == Ok::<(Model, nat), ProtocolError>(
            (m, words_of(m).len()),
        ),
    decreases shape, 1nat, 0nat,
{
    let all = words_of(m) + rest;
    match shape {
        Shape::Atom(kind) => {
            lemma_atom_round_trip(m->Atom_0, heap, rest);
        },
        Shape::Optional(inner) => {
            match m->Optional_0 {
                None => {},
                Some(held) => {
                    lemma_round_trip(*held, *inner, heap, rest);
                    assert(all.skip(1) =~= words_of(*held) + rest);
                },
            }
        },
        Shape::Sequence(inner) => {
            let items = m->Sequence_0;
            lemma_items_round_trip(items, *inner, heap, rest, items.len());
            assert(all.skip(1) =~= row_words(items, items.len()) + rest);
            assert(items.take(items.len() as int) =~= items);
        },
        Shape::Mapping(_, _) => {
            let entries = m->Mapping_0;
            lemma_entries_round_trip(entries, shape, heap, rest, entries.len());
            assert(all.skip(1) =~= entry_words(entries, entries.len()) + rest);
            assert(entries.take(entries.len() as int) =~= entries);
        },
        Shape::Record(fields) => {
            let items = m->Record_0;
            lemma_fields_round_trip(items, fields@, heap, rest, items.len());
            assert(items.take(items.len() as int) =~= items);
        },
        Shape::Union(variants) => {
            match m->Variant_1 {
                None => {},
                Some(held) => {
                    let payload = variants@[m->Variant_0 as int]->Some_0;
                    lemma_round_trip(*held, payload, heap, rest);
                    assert(all.skip(1) =~= words_of(*held) + rest);
                },
            }
        },
    }
}

/// Round trip for the first `upto` values of a row of one shape.
pub proof fn lemma_items_round_trip(
    items: Seq<Model>,
    inner: Shape,
    heap: Seq<u8>,
    rest: Seq<u32>,
    upto: nat,
)
    requires
        upto <= items.len(),
        forall|i: int| 0 <= i < items.len() ==> conforms(#[trigger] items[i], inner),
        forall|i: int| 0 <= i < items.len() ==> restorable(#[trigger] items[i], heap),
    ensures
        parse_items(inner, heap, row_words(items, upto) + rest, upto) == Ok::<
            (Seq<Model>, nat),
            ProtocolError,
        >((items.take(upto as int), row_words(items, upto).len())),
    decreases inner, 2nat, upto,
{
    if upto == 0 {
        assert(items.take(0) =~= Seq::<Model>::empty());
    } else {
        let last = items[upto - 1];
        let front = row_words(items, (upto - 1) as nat);
        let all = row_words(items, upto) + rest;
        lemma_items_round_trip(items, inner, heap, words_of(last) + rest, (upto - 1) as nat);
        assert(all =~= front + (words_of(last) + rest));
        lemma_round_trip(last, inner, heap, rest);
        assert(all.skip(front.len() as int) =~= words_of(last) + rest);
        assert(items.take(upto as int) =~= items.take(upto - 1).push(last));
    }
}

/// Round trip for the first `upto` entries of a map.
pub proof fn lemma_entries_round_trip(
    entries: Seq<(Model, Model)>,
    shape: Shape,
    heap: Seq<u8>,
    rest: Seq<u32>,
    upto: nat,
)
    requires
        shape is Mapping,
        upto <= entries.len(),
        keys_distinct(entries),
        forall|i: int|
            0 <= i < entries.len() ==> conforms((#[trigger] entries[i]).0, *shape->Mapping_0)
                && conforms(entries[i].1, *shape->Mapping_1),
        forall|i: int|
            0 <= i < entries.len() ==> restorable((#[trigger] entries[i]).0, heap) && restorable(
                entries[i].1,
                heap,
            ),
    ensures
        parse_entries(shape, heap, entry_words(entries, upto) + rest, upto) == Ok::<
            (Seq<(Model, Model)>, nat),
            ProtocolError,
        >((entries.take(upto as int), entry_words(entries, upto).len())),
    decreases shape, 0nat, upto,
{
    if upto == 0 {
        assert(entries.take(0) =~= Seq::<(Model, Model)>::empty());
    } else {
        let last = entries[upto - 1];
        let front = entry_words(entries, (upto - 1) as nat);
        let all = entry_words(entries, upto) + rest;
        lemma_entries_round_trip(
            entries,
            shape,
            heap,
            words_of(last.0) + words_of(last.1) + rest,
            (upto - 1) as nat,
        );
        assert(all =~= front + (words_of(last.0) + words_of(last.1) + rest));
        let entry = all.skip(front.len() as int);
        lemma_round_trip(last.0, *shape->Mapping_0, heap, words_of(last.1) + rest);
        assert(entry =~= words_of(last.0) + (words_of(last.1) + rest));
        lemma_round_trip(last.1, *shape->Mapping_1, heap, rest);
        assert(entry.skip(words_of(last.0).len() as int) =~= words_of(last.1) + rest);
        assert(parse_entry(shape, heap, entry) == Ok::<((Model, Model), nat), ProtocolError>(
            (last, words_of(last.0).len() + words_of(last.1).len()),
        ));
        assert(!has_key(entries.take(upto - 1), last.0)) by {
            if has_key(entries.take(upto - 1), last.0) {
                let i = choose|i: int|
                    0 <= i < entries.take(upto - 1).len() && (#[trigger] entries.take(
                        upto - 1,
                    )[i]).0 == last.0;
                assert(entries[i].0 != entries[upto - 1].0);
            }
        }
        assert(entries.take(upto as int) =~= entries.take(upto - 1).push(last));
    }
}

/// Round trip for the first `upto` fields of a record.
pub proof fn lemma_fields_round_trip(
    items: Seq<Model>,
    fields: Seq<Shape>,
    heap: Seq<u8>,
    rest: Seq<u32>,
    upto: nat,
)
    requires
        upto <= items.len(),
        items.len() == fields.len(),
        forall|i: int| 0 <= i < fields.len() ==> conforms(#[trigger] items[i], fields[i]),
        forall|i: int| 0 <= i < items.len() ==> restorable(#[trigger] items[i], heap),
    ensures
        parse_fields(fields, heap, row_words(items, upto) + rest, upto) == Ok::<
            (Seq<Model>, nat),
            ProtocolError,
        >((items.take(upto as int), row_words(items, upto).len())),
    decreases fields, 2nat, upto,
{
    if upto == 0 {
        assert(items.take(0) =~= Seq::<Model>::empty());
    } else {
        let last = items[upto - 1];
        let front = row_words(items, (upto - 1) as nat);
        let all = row_words(items, upto) + rest;
        lemma_fields_round_trip(items, fields, heap, words_of(last) + rest, (upto - 1) as nat);
        assert(all =~= front + (words_of(last) + rest));
        lemma_round_trip(last, fields[upto - 1], heap, rest);
        assert(all.skip(front.len() as int) =~= words_of(last) + rest);
        assert(items.take(upto as int) =~= items.take(upto - 1).push(last));
    }
}

/// A shape whose needs-read flag is off is decoded from the stream alone.
pub proof fn lemma_ignores_memory(shape: Shape, h1: Seq<u8>, h2: Seq<u8>, words: Seq<u32>)
    requires
        !reads_memory(shape),
    ensures
        parse(shape, h1, words) == parse(shape, h2, words),
    decreases shape, 1nat, 0nat,
{
    match shape {
        Shape::Atom(kind) => {
            lemma_atom_ignores_memory(kind, h1, h2, words);
        },
        Shape::Optional(inner) => {
            lemma_ignores_memory(*inner, h1, h2, words.skip(1));
        },
        Shape::Sequence(inner) => {
            if words.len() > 0 {
                lemma_items_ignore_memory(*inner, h1, h2, words.skip(1), words[0] as nat);
            }
        },
        Shape::Mapping(_, _) => {
            if words.len() > 0 {
                lemma_entries_ignore_memory(shape, h1, h2, words.skip(1), words[0] as nat);
            }
        },
        Shape::Record(fields) => {
            lemma_fields_ignore_memory(fields@, h1, h2, words, fields@.len());
        },
        Shape::Union(variants) => {
            if words.len() > 0 && words[0] < variants@.len() {
                if let Some(payload) = variants@[words[0] as int] {
                    lemma_ignores_memory(payload, h1, h2, words.skip(1));
                }
            }
        },
    }
}

/// A row of a shape whose needs-read flag is off is decoded from the stream
/// alone.
pub proof fn lemma_items_ignore_memory(
    inner: Shape,
    h1: Seq<u8>,
    h2: Seq<u8>,
    words: Seq<u32>,
    count: nat,
)
    requires
        !reads_memory(inner),
    ensures
        parse_items(inner, h1, words, count) == parse_items(inner, h2, words, count),
    decreases inner, 2nat, count,
{
    if count > 0 {
        lemma_items_ignore_memory(inner, h1, h2, words, (count - 1) as nat);
        if let Ok((_, taken)) = parse_items(inner, h1, words, (count - 1) as nat) {
            lemma_ignores_memory(inner, h1, h2, words.skip(taken as int));
        }
    }
}

/// An entry of a map whose needs-read flag is off is decoded from the stream
/// alone.
pub proof fn lemma_entry_ignores_memory(shape: Shape, h1: Seq<u8>, h2: Seq<u8>, words: Seq<u32>)
    requires
        shape is Mapping,
        !reads_memory(shape),
    ensures
        parse_entry(shape, h1, words) == parse_entry(shape, h2, words),
    decreases shape, 0nat, 0nat,
{
    lemma_ignores_memory(*shape->Mapping_0, h1, h2, words);
    if let Ok((_, taken)) = parse(*shape->Mapping_0, h1, words) {
        lemma_ignores_memory(*shape->Mapping_1, h1, h2, words.skip(taken as int));
    }
}

/// The entries of a map whose needs-read flag is off are decoded from the
/// stream alone.
pub proof fn lemma_entries_ignore_memory(
    shape: Shape,
    h1: Seq<u8>,
    h2: Seq<u8>,
    words: Seq<u32>,
    count: nat,
)
    requires
        shape is Mapping,
        !reads_memory(shape),
    ensures
        parse_entries(shape, h1, words, count) == parse_entries(shape, h2, words, count),
    decreases shape, 0nat, count,
{
    if count > 0 {
        lemma_entries_ignore_memory(shape, h1, h2, words, (count - 1) as nat);
        if let Ok((_, taken)) = parse_entries(shape, h1, words, (count - 1) as nat) {
            let entry = words.skip(taken as int);
            lemma_entry_ignores_memory(shape, h1, h2, entry);
        }
    }
}

/// Fields whose needs-read flags are off are decoded from the stream alone.
pub proof fn lemma_fields_ignore_memory(
    fields: Seq<Shape>,
    h1: Seq<u8>,
    h2: Seq<u8>,
    words: Seq<u32>,
    upto: nat,
)
    requires
        upto <= fields.len(),
        forall|i: int| 0 <= i < fields.len() ==> !reads_memory(#[trigger] fields[i]),
    ensures
        parse_fields(fields, h1, words, upto) == parse_fields(fields, h2, words, upto),
    decreases fields, 2nat, upto,
{
    if upto > 0 {
        lemma_fields_ignore_memory(fields, h1, h2, words, (upto - 1) as nat);
        if let Ok((_, taken)) = parse_fields(fields, h1, words, (upto - 1) as nat) {
            lemma_ignores_memory(fields[upto - 1], h1, h2, words.skip(taken as int));
        }
    }
}

/// For a value of a shape whose needs-fill flag is off the second phase
/// leaves the memory as it is, and fails exactly where the stream is shorter
/// than the words of the value.
pub proof fn lemma_fill_without_memory(m: Model, shape: Shape, heap: Seq<u8>, words: Seq<u32>)
    requires
        conforms(m, shape),
        !writes_memory(shape),
    ensures
        filled(m, heap, words) == passed_over(heap, words, words_of(m).len()),
    decreases m, 0nat,
{
    match m {
        Model::Atom(atom) => {
            lemma_atom_fill_without_memory(atom, heap, words);
        },
        Model::Optional(None) => {},
        Model::Optional(Some(held)) => {
            lemma_fill_without_memory(*held, *shape->Optional_0, heap, words.skip(1));
        },
        Model::Sequence(items) => {
            let inner = *shape->Sequence_0;
            lemma_row_fill_without_memory(
                items,
                Seq::new(items.len(), |i: int| inner),
                heap,
                words.skip(1),
                items.len(),
            );
        },
        Model::Mapping(entries) => {
            lemma_entries_fill_without_memory(entries, shape, heap, words.skip(1), entries.len());
        },
        Model::Record(items) => {
            lemma_row_fill_without_memory(items, shape->Record_0@, heap, words, items.len());
        },
        Model::Variant(_, None) => {},
        Model::Variant(ordinal, Some(held)) => {
            let payload = shape->Union_0@[ordinal as int]->Some_0;
            lemma_fill_without_memory(*held, payload, heap, words.skip(1));
        },
    }
}

/// The same for the first `upto` values of a row, each of a shape whose
/// needs-fill flag is off.
pub proof fn lemma_row_fill_without_memory(
    items: Seq<Model>,
    shapes: Seq<Shape>,
    heap: Seq<u8>,
    words: Seq<u32>,
    upto: nat,
)
    requires
        upto <= items.len(),
        items.len() == shapes.len(),
        forall|i: int| 0 <= i < items.len() ==> conforms(#[trigger] items[i], shapes[i]),
        forall|i: int| 0 <= i < shapes.len() ==> !writes_memory(#[trigger] shapes[i]),
    ensures
        row_filled(items, heap, words, upto) == passed_over(heap, words, row_words(items, upto).len()),
    decreases items, upto,
{
    if upto > 0 {
        lemma_row_fill_without_memory(items, shapes, heap, words, (upto - 1) as nat);
        let front = row_words(items, (upto - 1) as nat).len();
        assert(conforms(items[upto - 1], shapes[upto - 1]));
        lemma_fill_without_memory(items[upto - 1], shapes[upto - 1], heap, words.skip(front as int));
    }
}

/// The same for the first `upto` entries of a map whose needs-fill flag is
/// off.
pub proof fn lemma_entries_fill_without_memory(
    entries: Seq<(Model, Model)>,
    shape: Shape,
    heap: Seq<u8>,
    words: Seq<u32>,
    upto: nat,
)
    requires
        shape is Mapping,
        upto <= entries.len(),
        !writes_memory(shape),
        forall|i: int|
            0 <= i < entries.len() ==> conforms((#[trigger] entries[i]).0, *shape->Mapping_0)
                && conforms(entries[i].1, *shape->Mapping_1),
    ensures
        entries_filled(entries, heap, words, upto) == passed_over(
            heap,
            words,
            entry_words(entries, upto).len(),
        ),
    decreases entries, upto,
{
    if upto > 0 {
        lemma_entries_fill_without_memory(entries, shape, heap, words, (upto - 1) as nat);
        let front = entry_words(entries, (upto - 1) as nat).len();
        let last = entries[upto - 1];
        assert(conforms(last.0, *shape->Mapping_0) && conforms(last.1, *shape->Mapping_1));
        lemma_fill_without_memory(last.0, *shape->Mapping_0, heap, words.skip(front as int));
        lemma_fill_without_memory(
            last.1,
            *shape->Mapping_1,
            heap,
            words.skip(front + words_of(last.0).len() as int),
        );
    }
}

} // verus!
