//! The codec for described types: what the codecs for native types do, with
//! the type given as a [`Shape`] while the program runs.

use crate::atom::{lemma_atom_filled_bound, lemma_atom_parse_bound, Atom};
use crate::error::{ProtocolError, ENUM_FROM_U32_ERROR, MAP_INSERT_ERROR};
use crate::scalar::{init_word, pass_over, read_word};
use crate::shape::{
    entries_filled, entry_models_of, entry_words, filled, has_key, model_of, models_of, parse,
    parse_entries, parse_entry, parse_fields, parse_items, reads_memory, row_filled, row_words,
    words_of, writes_memory, Model, Shape, Value,
};
use crate::stream::Slots;
use core::slice::Iter;
use vstd::prelude::*;
use vstd::std_specs::iter::IteratorSpec;

verus! {

/// A row of values of one shape that fails after `count` of them fails in
/// the same way for any larger count.
pub proof fn lemma_parse_items_fails(
    inner: Shape,
    heap: Seq<u8>,
    words: Seq<u32>,
    count: nat,
    more: nat,
)
    requires
        parse_items(inner, heap, words, count) is Err,
        count <= more,
    ensures
        parse_items(inner, heap, words, more) == parse_items(inner, heap, words, count),
    decreases more - count,
{
    if count < more {
        lemma_parse_items_fails(inner, heap, words, count, (more - 1) as nat);
    }
}

/// A record whose first `upto` fields fail fails in the same way as a whole.
pub proof fn lemma_parse_fields_fails(
    fields: Seq<Shape>,
    heap: Seq<u8>,
    words: Seq<u32>,
    upto: nat,
    more: nat,
)
    requires
        parse_fields(fields, heap, words, upto) is Err,
        upto <= more <= fields.len(),
    ensures
        parse_fields(fields, heap, words, more) == parse_fields(fields, heap, words, upto),
    decreases more - upto,
{
    if upto < more {
        lemma_parse_fields_fails(fields, heap, words, upto, (more - 1) as nat);
    }
}

/// A map that fails after `count` entries fails in the same way for any
/// larger count.
pub proof fn lemma_parse_entries_fails(
    shape: Shape,
    heap: Seq<u8>,
    words: Seq<u32>,
    count: nat,
    more: nat,
)
    requires
        parse_entries(shape, heap, words, count) is Err,
        count <= more,
    ensures
        parse_entries(shape, heap, words, more) == parse_entries(shape, heap, words, count),
    decreases more - count,
{
    if count < more {
        lemma_parse_entries_fails(shape, heap, words, count, (more - 1) as nat);
    }
}

/// A row of entries whose first `upto` fail in the second phase fails in the
/// same way as a whole.
pub proof fn lemma_entries_filled_fails(
    entries: Seq<(Model, Model)>,
    heap: Seq<u8>,
    words: Seq<u32>,
    upto: nat,
    more: nat,
)
    requires
        entries_filled(entries, heap, words, upto) is Err,
        upto <= more <= entries.len(),
    ensures
        entries_filled(entries, heap, words, more) == entries_filled(entries, heap, words, upto),
    decreases more - upto,
{
    if upto < more {
        lemma_entries_filled_fails(entries, heap, words, upto, (more - 1) as nat);
    }
}

/// A row whose first `upto` values fail in the second phase fails in the
/// same way as a whole.
pub proof fn lemma_row_filled_fails(
    items: Seq<Model>,
    heap: Seq<u8>,
    words: Seq<u32>,
    upto: nat,
    more: nat,
)
    requires
        row_filled(items, heap, words, upto) is Err,
        upto <= more <= items.len(),
    ensures
        row_filled(items, heap, words, more) == row_filled(items, heap, words, upto),
    decreases more - upto,
{
    if upto < more {
        lemma_row_filled_fails(items, heap, words, upto, (more - 1) as nat);
    }
}

/// Where the second phase succeeds for a value, the stream held its words
/// and the memory keeps its size.
pub proof fn lemma_filled_bound(m: Model, heap: Seq<u8>, words: Seq<u32>)
    ensures
        filled(m, heap, words) matches Ok(after) ==> words_of(m).len() <= words.len()
            && after.len() == heap.len(),
    decreases m, 0nat,
{
    match m {
        Model::Atom(atom) => lemma_atom_filled_bound(atom, heap, words),
        Model::Optional(None) => {},
        Model::Optional(Some(inner)) => {
            if words.len() > 0 {
                lemma_filled_bound(*inner, heap, words.skip(1));
            }
        },
        Model::Sequence(items) => {
            if words.len() > 0 {
                lemma_row_filled_bound(items, heap, words.skip(1), items.len());
            }
        },
        Model::Mapping(entries) => {
            if words.len() > 0 {
                lemma_entries_filled_bound(entries, heap, words.skip(1), entries.len());
            }
        },
        Model::Record(items) => lemma_row_filled_bound(items, heap, words, items.len()),
        Model::Variant(_, None) => {},
        Model::Variant(_, Some(inner)) => {
            if words.len() > 0 {
                lemma_filled_bound(*inner, heap, words.skip(1));
            }
        },
    }
}

/// Where the second phase succeeds for the first values of a row, the
/// stream held their words and the memory keeps its size.
pub proof fn lemma_row_filled_bound(items: Seq<Model>, heap: Seq<u8>, words: Seq<u32>, upto: nat)
    ensures
        row_filled(items, heap, words, upto) matches Ok(after) ==> row_words(items, upto).len()
            <= words.len() && after.len() == heap.len(),
    decreases items, upto,
{
    if upto > 0 && upto <= items.len() {
        lemma_row_filled_bound(items, heap, words, (upto - 1) as nat);
        if let Ok(after) = row_filled(items, heap, words, (upto - 1) as nat) {
            lemma_filled_bound(
                items[upto - 1],
                after,
                words.skip(row_words(items, (upto - 1) as nat).len() as int),
            );
        }
    }
}

/// Where the second phase succeeds for the first entries of a row, the
/// stream held their words and the memory keeps its size.
pub proof fn lemma_entries_filled_bound(
    entries: Seq<(Model, Model)>,
    heap: Seq<u8>,
    words: Seq<u32>,
    upto: nat,
)
    ensures
        entries_filled(entries, heap, words, upto) matches Ok(after) ==> entry_words(
            entries,
            upto,
        ).len() <= words.len() && after.len() == heap.len(),
    decreases entries, upto,
{
    if upto > 0 && upto <= entries.len() {
        lemma_entries_filled_bound(entries, heap, words, (upto - 1) as nat);
        let passed = entry_words(entries, (upto - 1) as nat).len();
        if let Ok(after) = entries_filled(entries, heap, words, (upto - 1) as nat) {
            lemma_filled_bound(entries[upto - 1].0, after, words.skip(passed as int));
            if let Ok(then) = filled(entries[upto - 1].0, after, words.skip(passed as int)) {
                lemma_filled_bound(
                    entries[upto - 1].1,
                    then,
                    words.skip(passed + words_of(entries[upto - 1].0).len() as int),
                );
            }
        }
    }
}

/// Whether two byte rows hold the same bytes.
pub fn same_bytes(first: &[u8], second: &[u8]) -> (same: bool)
    ensures
        same == (first@ == second@),
{
    if first.len() != second.len() {
        return false;
    }
    let mut i: usize = 0;
    while i < first.len()
        invariant
            first@.len() == second@.len(),
            i <= first@.len(),
            forall|k: int| 0 <= k < i ==> first@[k] == second@[k],
        decreases first.len() - i,
    {
        if first[i] != second[i] {
            return false;
        }
        i = i + 1;
    }
    assert(first@ =~= second@);
    true
}

/// Whether two leaves are the same leaf.
pub fn same_atom(first: &Atom, second: &Atom) -> (same: bool)
    ensures
        same == (first.deep_view() == second.deep_view()),
{
    match (first, second) {
        (Atom::Bool(a), Atom::Bool(b)) => *a == *b,
        (Atom::U8(a), Atom::U8(b)) => *a == *b,
        (Atom::I32(a), Atom::I32(b)) => *a == *b,
        (Atom::U32(a), Atom::U32(b)) => *a == *b,
        (Atom::I64(a), Atom::I64(b)) => *a == *b,
        (Atom::U64(a), Atom::U64(b)) => *a == *b,
        (Atom::Usize(a), Atom::Usize(b)) => *a == *b,
        (Atom::Isize(a), Atom::Isize(b)) => *a == *b,
        (Atom::Bytes(a), Atom::Bytes(b)) => same_bytes(a.as_slice(), b.as_slice()),
        (Atom::Text(a), Atom::Text(b)) => *a == *b,
        (Atom::Resident(a), Atom::Resident(b)) => a.address() == b.address() && same_bytes(
            a.as_slice(),
            b.as_slice(),
        ),
        (Atom::Staged(a), Atom::Staged(b)) => same_bytes(a.as_slice(), b.as_slice()),
        _ => false,
    }
}

/// Whether two values are the same value.
pub fn same_value(first: &Value, second: &Value) -> (same: bool)
    ensures
        same == (model_of(*first) == model_of(*second)),
    decreases first,
{
    match (first, second) {
        (Value::Atom(a), Value::Atom(b)) => same_atom(a, b),
        (Value::Optional(None), Value::Optional(None)) => true,
        (Value::Optional(Some(a)), Value::Optional(Some(b))) => same_value(a, b),
        (Value::Sequence(a), Value::Sequence(b)) => same_row(a, b),
        (Value::Mapping(a), Value::Mapping(b)) => same_entries(a, b),
        (Value::Record(a), Value::Record(b)) => same_row(a, b),
        (Value::Variant(m, None), Value::Variant(n, None)) => *m == *n,
        (Value::Variant(m, Some(a)), Value::Variant(n, Some(b))) => *m == *n && same_value(a, b),
        _ => false,
    }
}

/// Whether two rows hold the same values in the same order.
pub fn same_row(first: &Vec<Value>, second: &Vec<Value>) -> (same: bool)
    ensures
        same == (models_of(first@) == models_of(second@)),
    decreases first,
{
    if first.len() != second.len() {
        assert(models_of(first@).len() != models_of(second@).len());
        return false;
    }
    let mut i: usize = 0;
    while i < first.len()
        invariant
            first@.len() == second@.len(),
            i <= first@.len(),
            forall|k: int| 0 <= k < i ==> model_of(first@[k]) == model_of(second@[k]),
        decreases first.len() - i,
    {
        if !same_value(&first[i], &second[i]) {
            assert(models_of(first@)[i as int] != models_of(second@)[i as int]);
            return false;
        }
        i = i + 1;
    }
    assert(models_of(first@) =~= models_of(second@));
    true
}

/// Whether two rows hold the same entries in the same order.
pub fn same_entries(first: &Vec<(Value, Value)>, second: &Vec<(Value, Value)>) -> (same: bool)
    ensures
        same == (entry_models_of(first@) == entry_models_of(second@)),
    decreases first,
{
    if first.len() != second.len() {
        assert(entry_models_of(first@).len() != entry_models_of(second@).len());
        return false;
    }
    let mut i: usize = 0;
    while i < first.len()
        invariant
            first@.len() == second@.len(),
            i <= first@.len(),
            forall|k: int|
                0 <= k < i ==> model_of(first@[k].0) == model_of(second@[k].0) && model_of(
                    first@[k].1,
                ) == model_of(second@[k].1),
        decreases first.len() - i,
    {
        if !same_value(&first[i].0, &second[i].0) || !same_value(&first[i].1, &second[i].1) {
            assert(entry_models_of(first@)[i as int] != entry_models_of(second@)[i as int]);
            return false;
        }
        i = i + 1;
    }
    assert(entry_models_of(first@) =~= entry_models_of(second@));
    true
}

/// Whether a key is among the keys of a row of entries.
pub fn holds_key(entries: &Vec<(Value, Value)>, key: &Value) -> (found: bool)
    ensures
        found == has_key(entry_models_of(entries@), model_of(*key)),
{
    let ghost models = entry_models_of(entries@);
    let mut i: usize = 0;
    while i < entries.len()
        invariant
            i <= entries@.len(),
            models == entry_models_of(entries@),
            forall|k: int| 0 <= k < i ==> (#[trigger] models[k]).0 != model_of(*key),
        decreases entries.len() - i,
    {
        if same_value(&entries[i].0, key) {
            assert(models[i as int].0 == model_of(*key));
            return true;
        }
        i = i + 1;
    }
    false
}

/// Appends the words of a value to the stream.
pub fn encode(value: &Value, args: &mut Vec<u32>)
    ensures
        final(args)@ == old(args)@ + words_of(model_of(*value)),
    decreases value,
{
    match value {
        Value::Atom(atom) => {
            atom.args(args);
        },
        Value::Optional(None) => {
            args.push(0);
        },
        Value::Optional(Some(inner)) => {
            args.push(1);
            encode(inner, args);
            assert(args@ =~= old(args)@ + words_of(model_of(*value)));
        },
        Value::Sequence(items) => {
            args.push(items.len() as u32);
            encode_row(items, args);
            assert(args@ =~= old(args)@ + words_of(model_of(*value)));
        },
        Value::Mapping(entries) => {
            args.push(entries.len() as u32);
            encode_entries(entries, args);
            assert(args@ =~= old(args)@ + words_of(model_of(*value)));
        },
        Value::Record(items) => {
            encode_row(items, args);
        },
        Value::Variant(ordinal, None) => {
            args.push(*ordinal);
        },
        Value::Variant(ordinal, Some(inner)) => {
            args.push(*ordinal);
            encode(inner, args);
            assert(args@ =~= old(args)@ + words_of(model_of(*value)));
        },
    }
}

/// Appends the words of a row of values to the stream, one value after the
/// other.
pub fn encode_row(items: &Vec<Value>, args: &mut Vec<u32>)
    ensures
        final(args)@ == old(args)@ + row_words(models_of(items@), items@.len()),
    decreases items,
{
    let ghost models = models_of(items@);
    let mut i: usize = 0;
    assert(args@ =~= old(args)@ + row_words(models, 0));
    while i < items.len()
        invariant
            i <= items.len(),
            models == models_of(items@),
            args@ == old(args)@ + row_words(models, i as nat),
        decreases items.len() - i,
    {
        encode(&items[i], args);
        assert(models[i as int] == model_of(items@[i as int]));
        i = i + 1;
    }
}

/// Appends the words of a row of entries to the stream, key before value.
pub fn encode_entries(entries: &Vec<(Value, Value)>, args: &mut Vec<u32>)
    ensures
        final(args)@ == old(args)@ + entry_words(entry_models_of(entries@), entries@.len()),
    decreases entries,
{
    let ghost models = entry_models_of(entries@);
    let mut i: usize = 0;
    assert(args@ =~= old(args)@ + entry_words(models, 0));
    while i < entries.len()
        invariant
            i <= entries.len(),
            models == entry_models_of(entries@),
            args@ == old(args)@ + entry_words(models, i as nat),
        decreases entries.len() - i,
    {
        encode(&entries[i].0, args);
        encode(&entries[i].1, args);
        assert(models[i as int] == (model_of(entries@[i as int].0), model_of(entries@[i as int].1)));
        assert(args@ =~= old(args)@ + entry_words(models, (i + 1) as nat));
        i = i + 1;
    }
}

/// Decodes one entry of a map of the given shape on the host side.
fn decode_entry(shape: &Shape, heap: &[u8], args: &mut Iter<u32>) -> (r: Result<
    (Value, Value),
    ProtocolError,
>)
    requires
        *shape is Mapping,
    ensures
        match parse_entry(*shape, heap@, (*old(args)).remaining().unref()) {
            Ok((entry, taken)) => {
                &&& r matches Ok(pair) && (model_of(pair.0), model_of(pair.1)) == entry
                &&& taken <= (*old(args)).remaining().len()
                &&& (*final(args)).remaining() == (*old(args)).remaining().skip(taken as int)
            },
            Err(e) => r matches Err(f) && f == e,
        },
    decreases shape, 0nat,
{
    let ghost start = (*old(args)).remaining();
    let ghost words = start.unref();
    match shape {
        Shape::Mapping(key_shape, value_shape) => {
            let key = decode(key_shape, heap, args)?;
            let ghost taken = parse(**key_shape, heap@, words)->Ok_0.1;
            proof {
                assert((*args).remaining().unref() =~= words.skip(taken as int));
            }
            let value = decode(value_shape, heap, args)?;
            let ghost more = parse(**value_shape, heap@, words.skip(taken as int))->Ok_0.1;
            proof {
                assert((*args).remaining() =~= start.skip(taken + more as int));
            }
            Ok((key, value))
        },
        _ => Err(ProtocolError(0)),
    }
}

/// Decodes a value of the given shape on the host side, with `heap` as the
/// sandbox memory.
pub fn decode(shape: &Shape, heap: &[u8], args: &mut Iter<u32>) -> (r: Result<
    Value,
    ProtocolError,
>)
    ensures
        match parse(*shape, heap@, (*old(args)).remaining().unref()) {
            Ok((m, taken)) => {
                &&& r matches Ok(v) && model_of(v) == m
                &&& taken <= (*old(args)).remaining().len()
                &&& (*final(args)).remaining() == (*old(args)).remaining().skip(taken as int)
            },
            Err(e) => r matches Err(f) && f == e,
        },
    decreases shape, 1nat,
{
    let ghost start = (*old(args)).remaining();
    let ghost words = start.unref();
    match shape {
        Shape::Atom(kind) => {
            proof {
                lemma_atom_parse_bound(*kind, heap@, words);
            }
            let atom = Atom::read(*kind, heap, args)?;
            Ok(Value::Atom(atom))
        },
        Shape::Optional(inner) => {
            let present: bool = read_word(args)? != 0;
            if !present {
                Ok(Value::Optional(None))
            } else {
                proof {
                    assert((*args).remaining().unref() =~= words.skip(1));
                }
                let ghost mid = (*args).remaining();
                let held = decode(inner, heap, args)?;
                proof {
                    let taken = parse(**inner, heap@, words.skip(1))->Ok_0.1;
                    assert(mid.skip(taken as int) =~= start.skip(1 + taken as int));
                }
                Ok(Value::Optional(Some(Box::new(held))))
            }
        },
        Shape::Sequence(inner) => {
            let len: usize = read_word(args)? as usize;
            let ghost rest = words.skip(1);
            let mut items: Vec<Value> = Vec::new();
            let mut i: usize = 0;
            proof {
                assert(models_of(items@) =~= Seq::<Model>::empty());
            }
            while i < len
                invariant
                    *shape is Sequence,
                    (*shape)->Sequence_0 == *inner,
                    start == (*old(args)).remaining(),
                    words == start.unref(),
                    rest == words.skip(1),
                    words.len() >= 1,
                    len == words[0],
                    i <= len,
                    parse_items(**inner, heap@, rest, i as nat) matches Ok((models, taken)) && {
                        &&& models == models_of(items@)
                        &&& taken <= rest.len()
                        &&& (*args).remaining() == start.skip(1 + taken as int)
                    },
                decreases len - i,
            {
                let ghost taken = parse_items(**inner, heap@, rest, i as nat)->Ok_0.1;
                proof {
                    assert((*args).remaining().unref() =~= rest.skip(taken as int));
                }
                let ghost before = items@;
                let item = match decode(inner, heap, args) {
                    Ok(item) => item,
                    Err(e) => {
                        proof {
                            lemma_parse_items_fails(**inner, heap@, rest, (i + 1) as nat, len as nat);
                        }
                        return Err(e);
                    },
                };
                let ghost more = parse(**inner, heap@, rest.skip(taken as int))->Ok_0.1;
                items.push(item);
                proof {
                    assert(models_of(items@) =~= models_of(before).push(model_of(item)));
                    assert((*args).remaining() =~= start.skip(1 + taken + more as int));
                }
                i = i + 1;
            }
            Ok(Value::Sequence(items))
        },
        Shape::Mapping(_, _) => {
            let len: usize = read_word(args)? as usize;
            let ghost rest = words.skip(1);
            let mut entries: Vec<(Value, Value)> = Vec::new();
            let mut i: usize = 0;
            proof {
                assert(entry_models_of(entries@) =~= Seq::<(Model, Model)>::empty());
            }
            while i < len
                invariant
                    *shape is Mapping,
                    start == (*old(args)).remaining(),
                    words == start.unref(),
                    rest == words.skip(1),
                    words.len() >= 1,
                    len == words[0],
                    i <= len,
                    parse_entries(*shape, heap@, rest, i as nat) matches Ok((models, taken)) && {
                        &&& models == entry_models_of(entries@)
                        &&& taken <= rest.len()
                        &&& (*args).remaining() == start.skip(1 + taken as int)
                    },
                decreases len - i,
            {
                let ghost taken = parse_entries(*shape, heap@, rest, i as nat)->Ok_0.1;
                proof {
                    assert((*args).remaining().unref() =~= rest.skip(taken as int));
                }
                let ghost before = entries@;
                let (key, value) = match decode_entry(shape, heap, args) {
                    Ok(entry) => entry,
                    Err(e) => {
                        proof {
                            lemma_parse_entries_fails(*shape, heap@, rest, (i + 1) as nat, len as nat);
                        }
                        return Err(e);
                    },
                };
                let ghost more = parse_entry(*shape, heap@, rest.skip(taken as int))->Ok_0.1;
                if holds_key(&entries, &key) {
                    proof {
                        lemma_parse_entries_fails(*shape, heap@, rest, (i + 1) as nat, len as nat);
                    }
                    return Err(ProtocolError(MAP_INSERT_ERROR));
                }
                entries.push((key, value));
                proof {
                    assert(entry_models_of(entries@) =~= entry_models_of(before).push(
                        (model_of(key), model_of(value)),
                    ));
                    assert((*args).remaining() =~= start.skip(1 + taken + more as int));
                }
                i = i + 1;
            }
            Ok(Value::Mapping(entries))
        },
        Shape::Record(fields) => {
            let count: usize = fields.len();
            let mut items: Vec<Value> = Vec::new();
            let mut i: usize = 0;
            proof {
                assert(models_of(items@) =~= Seq::<Model>::empty());
                assert(start.skip(0) =~= start);
            }
            while i < count
                invariant
                    *shape is Record,
                    (*shape)->Record_0 == *fields,
                    start == (*old(args)).remaining(),
                    words == start.unref(),
                    count == fields@.len(),
                    i <= count,
                    parse_fields(fields@, heap@, words, i as nat) matches Ok((models, taken)) && {
                        &&& models == models_of(items@)
                        &&& taken <= words.len()
                        &&& (*args).remaining() == start.skip(taken as int)
                    },
                decreases count - i,
            {
                let ghost taken = parse_fields(fields@, heap@, words, i as nat)->Ok_0.1;
                proof {
                    assert((*args).remaining().unref() =~= words.skip(taken as int));
                }
                let ghost before = items@;
                let item = match decode(&fields[i], heap, args) {
                    Ok(item) => item,
                    Err(e) => {
                        proof {
                            lemma_parse_fields_fails(
                                fields@,
                                heap@,
                                words,
                                (i + 1) as nat,
                                count as nat,
                            );
                        }
                        return Err(e);
                    },
                };
                let ghost more = parse(fields@[i as int], heap@, words.skip(taken as int))->Ok_0.1;
                items.push(item);
                proof {
                    assert(models_of(items@) =~= models_of(before).push(model_of(item)));
                    assert((*args).remaining() =~= start.skip(taken + more as int));
                }
                i = i + 1;
            }
            Ok(Value::Record(items))
        },
        Shape::Union(variants) => {
            let ordinal: u32 = read_word(args)?;
            if ordinal as usize >= variants.len() {
                return Err(ProtocolError(ENUM_FROM_U32_ERROR));
            }
            match &variants[ordinal as usize] {
                None => Ok(Value::Variant(ordinal, None)),
                Some(payload) => {
                    proof {
                        assert((*args).remaining().unref() =~= words.skip(1));
                    }
                    let ghost mid = (*args).remaining();
                    let held = decode(payload, heap, args)?;
                    proof {
                        let taken = parse(*payload, heap@, words.skip(1))->Ok_0.1;
                        assert(mid.skip(taken as int) =~= start.skip(1 + taken as int));
                    }
                    Ok(Value::Variant(ordinal, Some(Box::new(held))))
                },
            }
        },
    }
}

/// Decodes one entry of a map of the given shape on the sandbox side.
fn init_entry(shape: &Shape, args: &mut Slots) -> (r: Result<(Value, Value), ProtocolError>)
    requires
        *shape is Mapping,
    ensures
        final(args).words().len() == old(args).words().len(),
        !writes_memory(*shape) ==> final(args).words() == old(args).words(),
        match parse_entry(*shape, Seq::empty(), old(args).remaining()) {
            Ok((entry, taken)) => {
                &&& r matches Ok(pair) && (model_of(pair.0), model_of(pair.1)) == entry
                &&& old(args).position() + taken <= old(args).words().len()
                &&& final(args).position() == old(args).position() + taken
                &&& final(args).kept_outside(*old(args), taken)
            },
            Err(e) => r matches Err(f) && f == e,
        },
    decreases shape, 0nat,
{
    let ghost words = old(args).remaining();
    proof {
        old(args).lemma_position_bound();
    }
    match shape {
        Shape::Mapping(key_shape, value_shape) => {
            let key = init(key_shape, args)?;
            let ghost taken = parse(**key_shape, Seq::empty(), words)->Ok_0.1;
            proof {
                assert(args.remaining() =~= words.skip(taken as int));
            }
            let value = init(value_shape, args)?;
            Ok((key, value))
        },
        _ => Err(ProtocolError(0)),
    }
}

/// Decodes a value of the given shape on the sandbox side. Slots outside
/// those it reads are left alone, and with the needs-fill flag off so are
/// all of them.
pub fn init(shape: &Shape, args: &mut Slots) -> (r: Result<Value, ProtocolError>)
    ensures
        final(args).words().len() == old(args).words().len(),
        !writes_memory(*shape) ==> final(args).words() == old(args).words(),
        match parse(*shape, Seq::empty(), old(args).remaining()) {
            Ok((m, taken)) => {
                &&& r matches Ok(v) && model_of(v) == m
                &&& old(args).position() + taken <= old(args).words().len()
                &&& final(args).position() == old(args).position() + taken
                &&& final(args).kept_outside(*old(args), taken)
            },
            Err(e) => r matches Err(f) && f == e,
        },
    decreases shape, 1nat,
{
    let ghost words = old(args).remaining();
    let ghost base = old(args).position();
    let ghost empty = Seq::<u8>::empty();
    proof {
        old(args).lemma_position_bound();
    }
    match shape {
        Shape::Atom(kind) => {
            proof {
                lemma_atom_parse_bound(*kind, empty, words);
            }
            let atom = Atom::init(*kind, args)?;
            Ok(Value::Atom(atom))
        },
        Shape::Optional(inner) => {
            let present: bool = init_word(args)? != 0;
            if !present {
                Ok(Value::Optional(None))
            } else {
                proof {
                    assert(args.remaining() =~= words.skip(1));
                }
                let held = init(inner, args)?;
                Ok(Value::Optional(Some(Box::new(held))))
            }
        },
        Shape::Sequence(inner) => {
            let len: usize = init_word(args)? as usize;
            let ghost rest = words.skip(1);
            let mut items: Vec<Value> = Vec::new();
            let mut i: usize = 0;
            proof {
                assert(models_of(items@) =~= Seq::<Model>::empty());
            }
            while i < len
                invariant
                    *shape is Sequence,
                    (*shape)->Sequence_0 == *inner,
                    empty == Seq::<u8>::empty(),
                    words == old(args).remaining(),
                    base == old(args).position(),
                    base + words.len() == old(args).words().len(),
                    rest == words.skip(1),
                    words.len() >= 1,
                    len == words[0],
                    i <= len,
                    parse_items(**inner, empty, rest, i as nat) matches Ok((models, taken)) && {
                        &&& models == models_of(items@)
                        &&& taken <= rest.len()
                        &&& args.position() == base + 1 + taken
                        &&& forall|k: int|
                            0 <= k < old(args).words().len() && !(base <= k < base + 1 + taken)
                                ==> args.words()[k] == old(args).words()[k]
                    },
                    args.words().len() == old(args).words().len(),
                    !writes_memory(*shape) ==> args.words() == old(args).words(),
                decreases len - i,
            {
                let ghost taken = parse_items(**inner, empty, rest, i as nat)->Ok_0.1;
                proof {
                    assert(args.remaining() =~= rest.skip(taken as int));
                }
                let ghost before = items@;
                let item = match init(inner, args) {
                    Ok(item) => item,
                    Err(e) => {
                        proof {
                            lemma_parse_items_fails(**inner, empty, rest, (i + 1) as nat, len as nat);
                        }
                        return Err(e);
                    },
                };
                items.push(item);
                proof {
                    assert(models_of(items@) =~= models_of(before).push(model_of(item)));
                }
                i = i + 1;
            }
            Ok(Value::Sequence(items))
        },
        Shape::Mapping(_, _) => {
            let len: usize = init_word(args)? as usize;
            let ghost rest = words.skip(1);
            let mut entries: Vec<(Value, Value)> = Vec::new();
            let mut i: usize = 0;
            proof {
                assert(entry_models_of(entries@) =~= Seq::<(Model, Model)>::empty());
            }
            while i < len
                invariant
                    *shape is Mapping,
                    empty == Seq::<u8>::empty(),
                    words == old(args).remaining(),
                    base == old(args).position(),
                    base + words.len() == old(args).words().len(),
                    rest == words.skip(1),
                    words.len() >= 1,
                    len == words[0],
                    i <= len,
                    parse_entries(*shape, empty, rest, i as nat) matches Ok((models, taken)) && {
                        &&& models == entry_models_of(entries@)
                        &&& taken <= rest.len()
                        &&& args.position() == base + 1 + taken
                        &&& forall|k: int|
                            0 <= k < old(args).words().len() && !(base <= k < base + 1 + taken)
                                ==> args.words()[k] == old(args).words()[k]
                    },
                    args.words().len() == old(args).words().len(),
                    !writes_memory(*shape) ==> args.words() == old(args).words(),
                decreases len - i,
            {
                let ghost taken = parse_entries(*shape, empty, rest, i as nat)->Ok_0.1;
                proof {
                    assert(args.remaining() =~= rest.skip(taken as int));
                }
                let ghost before = entries@;
                let (key, value) = match init_entry(shape, args) {
                    Ok(entry) => entry,
                    Err(e) => {
                        proof {
                            lemma_parse_entries_fails(*shape, empty, rest, (i + 1) as nat, len as nat);
                        }
                        return Err(e);
                    },
                };
                if holds_key(&entries, &key) {
                    proof {
                        lemma_parse_entries_fails(*shape, empty, rest, (i + 1) as nat, len as nat);
                    }
                    return Err(ProtocolError(MAP_INSERT_ERROR));
                }
                entries.push((key, value));
                proof {
                    assert(entry_models_of(entries@) =~= entry_models_of(before).push(
                        (model_of(key), model_of(value)),
                    ));
                }
                i = i + 1;
            }
            Ok(Value::Mapping(entries))
        },
        Shape::Record(fields) => {
            let count: usize = fields.len();
            let mut items: Vec<Value> = Vec::new();
            let mut i: usize = 0;
            proof {
                assert(models_of(items@) =~= Seq::<Model>::empty());
            }
            while i < count
                invariant
                    *shape is Record,
                    (*shape)->Record_0 == *fields,
                    empty == Seq::<u8>::empty(),
                    words == old(args).remaining(),
                    base == old(args).position(),
                    base + words.len() == old(args).words().len(),
                    count == fields@.len(),
                    i <= count,
                    parse_fields(fields@, empty, words, i as nat) matches Ok((models, taken)) && {
                        &&& models == models_of(items@)
                        &&& taken <= words.len()
                        &&& args.position() == base + taken
                        &&& forall|k: int|
                            0 <= k < old(args).words().len() && !(base <= k < base + taken)
                                ==> args.words()[k] == old(args).words()[k]
                    },
                    args.words().len() == old(args).words().len(),
                    !writes_memory(*shape) ==> args.words() == old(args).words(),
                decreases count - i,
            {
                let ghost taken = parse_fields(fields@, empty, words, i as nat)->Ok_0.1;
                proof {
                    assert(args.remaining() =~= words.skip(taken as int));
                }
                let ghost before = items@;
                let item = match init(&fields[i], args) {
                    Ok(item) => item,
                    Err(e) => {
                        proof {
                            lemma_parse_fields_fails(
                                fields@,
                                empty,
                                words,
                                (i + 1) as nat,
                                count as nat,
                            );
                        }
                        return Err(e);
                    },
                };
                items.push(item);
                proof {
                    assert(models_of(items@) =~= models_of(before).push(model_of(item)));
                }
                i = i + 1;
            }
            Ok(Value::Record(items))
        },
        Shape::Union(variants) => {
            let ordinal: u32 = init_word(args)?;
            if ordinal as usize >= variants.len() {
                return Err(ProtocolError(ENUM_FROM_U32_ERROR));
            }
            match &variants[ordinal as usize] {
                None => Ok(Value::Variant(ordinal, None)),
                Some(payload) => {
                    proof {
                        assert(args.remaining() =~= words.skip(1));
                    }
                    let held = init(payload, args)?;
                    Ok(Value::Variant(ordinal, Some(Box::new(held))))
                },
            }
        },
    }
}

/// Second phase for a value on the host side: walks the stream that `init`
/// left, over the words of the value, and writes into the sandbox memory
/// what belongs there.
pub fn fill(value: &Value, heap: &mut [u8], args: &mut Iter<u32>) -> (r: Result<(), ProtocolError>)
    ensures
        final(heap)@.len() == old(heap)@.len(),
        match filled(model_of(*value), old(heap)@, (*old(args)).remaining().unref()) {
            Ok(after) => {
                &&& r is Ok
                &&& final(heap)@ == after
                &&& words_of(model_of(*value)).len() <= (*old(args)).remaining().len()
                &&& (*final(args)).remaining() == (*old(args)).remaining().skip(
                    words_of(model_of(*value)).len() as int,
                )
            },
            Err(e) => r matches Err(f) && f == e,
        },
    decreases value,
{
    let ghost start = (*old(args)).remaining();
    let ghost words = start.unref();
    proof {
        lemma_filled_bound(model_of(*value), old(heap)@, words);
    }
    match value {
        Value::Atom(atom) => atom.fill(heap, args),
        Value::Optional(None) => pass_over(args, 1),
        Value::Optional(Some(inner)) => {
            pass_over(args, 1)?;
            proof {
                assert((*args).remaining().unref() =~= words.skip(1));
            }
            let ghost mid = (*args).remaining();
            fill(inner, heap, args)?;
            proof {
                assert(mid.skip(words_of(model_of(**inner)).len() as int) =~= start.skip(
                    1 + words_of(model_of(**inner)).len() as int,
                ));
            }
            Ok(())
        },
        Value::Sequence(items) => {
            pass_over(args, 1)?;
            proof {
                assert((*args).remaining().unref() =~= words.skip(1));
            }
            let ghost mid = (*args).remaining();
            fill_row(items, heap, args)?;
            proof {
                let passed = row_words(models_of(items@), items@.len()).len();
                assert(mid.skip(passed as int) =~= start.skip(1 + passed as int));
            }
            Ok(())
        },
        Value::Mapping(entries) => {
            pass_over(args, 1)?;
            proof {
                assert((*args).remaining().unref() =~= words.skip(1));
            }
            let ghost mid = (*args).remaining();
            fill_entries(entries, heap, args)?;
            proof {
                let passed = entry_words(entry_models_of(entries@), entries@.len()).len();
                assert(mid.skip(passed as int) =~= start.skip(1 + passed as int));
            }
            Ok(())
        },
        Value::Record(items) => fill_row(items, heap, args),
        Value::Variant(_, None) => pass_over(args, 1),
        Value::Variant(_, Some(inner)) => {
            pass_over(args, 1)?;
            proof {
                assert((*args).remaining().unref() =~= words.skip(1));
            }
            let ghost mid = (*args).remaining();
            fill(inner, heap, args)?;
            proof {
                assert(mid.skip(words_of(model_of(**inner)).len() as int) =~= start.skip(
                    1 + words_of(model_of(**inner)).len() as int,
                ));
            }
            Ok(())
        },
    }
}

/// Second phase for a row of values, one after the other.
pub fn fill_row(items: &Vec<Value>, heap: &mut [u8], args: &mut Iter<u32>) -> (r: Result<
    (),
    ProtocolError,
>)
    ensures
        final(heap)@.len() == old(heap)@.len(),
        match row_filled(
            models_of(items@),
            old(heap)@,
            (*old(args)).remaining().unref(),
            items@.len(),
        ) {
            Ok(after) => {
                &&& r is Ok
                &&& final(heap)@ == after
                &&& row_words(models_of(items@), items@.len()).len() <= (*old(args)).remaining().len()
                &&& (*final(args)).remaining() == (*old(args)).remaining().skip(
                    row_words(models_of(items@), items@.len()).len() as int,
                )
            },
            Err(e) => r matches Err(f) && f == e,
        },
    decreases items,
{
    let ghost start = (*old(args)).remaining();
    let ghost words = start.unref();
    let ghost models = models_of(items@);
    let count: usize = items.len();
    let mut i: usize = 0;
    proof {
        assert(start.skip(0) =~= start);
    }
    while i < count
        invariant
            start == (*old(args)).remaining(),
            words == start.unref(),
            models == models_of(items@),
            count == items@.len(),
            i <= count,
            heap@.len() == old(heap)@.len(),
            row_words(models, i as nat).len() <= words.len(),
            row_filled(models, old(heap)@, words, i as nat) == Ok::<Seq<u8>, ProtocolError>(heap@),
            (*args).remaining() == start.skip(row_words(models, i as nat).len() as int),
        decreases count - i,
    {
        let ghost passed = row_words(models, i as nat).len();
        proof {
            assert((*args).remaining().unref() =~= words.skip(passed as int));
            assert(models[i as int] == model_of(items@[i as int]));
        }
        match fill(&items[i], heap, args) {
            Ok(()) => {},
            Err(e) => {
                proof {
                    lemma_row_filled_fails(models, old(heap)@, words, (i + 1) as nat, count as nat);
                }
                return Err(e);
            },
        }
        proof {
            assert((*args).remaining() =~= start.skip(row_words(models, (i + 1) as nat).len() as int));
        }
        i = i + 1;
    }
    Ok(())
}

/// Second phase for a row of entries, key before value.
pub fn fill_entries(entries: &Vec<(Value, Value)>, heap: &mut [u8], args: &mut Iter<u32>) -> (r:
    Result<(), ProtocolError>)
    ensures
        final(heap)@.len() == old(heap)@.len(),
        match entries_filled(
            entry_models_of(entries@),
            old(heap)@,
            (*old(args)).remaining().unref(),
            entries@.len(),
        ) {
            Ok(after) => {
                &&& r is Ok
                &&& final(heap)@ == after
                &&& entry_words(entry_models_of(entries@), entries@.len()).len() <= (*old(args)).remaining().len()
                &&& (*final(args)).remaining() == (*old(args)).remaining().skip(
                    entry_words(entry_models_of(entries@), entries@.len()).len() as int,
                )
            },
            Err(e) => r matches Err(f) && f == e,
        },
    decreases entries,
{
    let ghost start = (*old(args)).remaining();
    let ghost words = start.unref();
    let ghost models = entry_models_of(entries@);
    let count: usize = entries.len();
    let mut i: usize = 0;
    proof {
        assert(start.skip(0) =~= start);
    }
    while i < count
        invariant
            start == (*old(args)).remaining(),
            words == start.unref(),
            models == entry_models_of(entries@),
            count == entries@.len(),
            i <= count,
            heap@.len() == old(heap)@.len(),
            entry_words(models, i as nat).len() <= words.len(),
            entries_filled(models, old(heap)@, words, i as nat) == Ok::<Seq<u8>, ProtocolError>(
                heap@,
            ),
            (*args).remaining() == start.skip(entry_words(models, i as nat).len() as int),
        decreases count - i,
    {
        let ghost passed = entry_words(models, i as nat).len();
        let ghost key_words = words_of(models[i as int].0).len();
        proof {
            assert((*args).remaining().unref() =~= words.skip(passed as int));
            assert(models[i as int] == (model_of(entries@[i as int].0), model_of(entries@[i as int].1)));
        }
        match fill(&entries[i].0, heap, args) {
            Ok(()) => {},
            Err(e) => {
                proof {
                    lemma_entries_filled_fails(models, old(heap)@, words, (i + 1) as nat, count as nat);
                }
                return Err(e);
            },
        }
        proof {
            assert((*args).remaining() =~= start.skip(passed + key_words as int));
            assert((*args).remaining().unref() =~= words.skip(passed + key_words as int));
        }
        match fill(&entries[i].1, heap, args) {
            Ok(()) => {},
            Err(e) => {
                proof {
                    lemma_entries_filled_fails(models, old(heap)@, words, (i + 1) as nat, count as nat);
                }
                return Err(e);
            },
        }
        proof {
            assert((*args).remaining() =~= start.skip(
                entry_words(models, (i + 1) as nat).len() as int,
            ));
        }
        i = i + 1;
    }
    Ok(())
}

/// Computes the needs-read flag of a shape from its structure.
pub fn is_need_read(shape: &Shape) -> (flag: bool)
    ensures
        flag == reads_memory(*shape),
    decreases shape,
{
    match shape {
        Shape::Atom(kind) => kind.is_need_read(),
        Shape::Optional(inner) => is_need_read(inner),
        Shape::Sequence(inner) => is_need_read(inner),
        Shape::Mapping(key, value) => {
            let in_key: bool = is_need_read(key);
            let in_value: bool = is_need_read(value);
            in_key || in_value
        },
        Shape::Record(fields) => {
            let count: usize = fields.len();
            let mut found: bool = false;
            let mut i: usize = 0;
            while i < count
                invariant
                    *shape is Record,
                    (*shape)->Record_0 == *fields,
                    count == fields@.len(),
                    i <= count,
                    found == exists|k: int| 0 <= k < i && reads_memory(#[trigger] fields@[k]),
                decreases count - i,
            {
                let here: bool = is_need_read(&fields[i]);
                found = found || here;
                i = i + 1;
            }
            found
        },
        Shape::Union(variants) => {
            let count: usize = variants.len();
            let mut found: bool = false;
            let mut i: usize = 0;
            while i < count
                invariant
                    *shape is Union,
                    (*shape)->Union_0 == *variants,
                    count == variants@.len(),
                    i <= count,
                    found == exists|k: int|
                        0 <= k < i && (#[trigger] variants@[k] matches Some(payload)
                            && reads_memory(payload)),
                decreases count - i,
            {
                let here: bool = match &variants[i] {
                    Some(payload) => is_need_read(payload),
                    None => false,
                };
                found = found || here;
                i = i + 1;
            }
            found
        },
    }
}

/// Computes the needs-fill flag of a shape from its structure.
pub fn is_need_init_fill(shape: &Shape) -> (flag: bool)
    ensures
        flag == writes_memory(*shape),
    decreases shape,
{
    match shape {
        Shape::Atom(kind) => kind.is_need_init_fill(),
        Shape::Optional(inner) => is_need_init_fill(inner),
        Shape::Sequence(inner) => is_need_init_fill(inner),
        Shape::Mapping(key, value) => {
            let in_key: bool = is_need_init_fill(key);
            let in_value: bool = is_need_init_fill(value);
            in_key || in_value
        },
        Shape::Record(fields) => {
            let count: usize = fields.len();
            let mut found: bool = false;
            let mut i: usize = 0;
            while i < count
                invariant
                    *shape is Record,
                    (*shape)->Record_0 == *fields,
                    count == fields@.len(),
                    i <= count,
                    found == exists|k: int| 0 <= k < i && writes_memory(#[trigger] fields@[k]),
                decreases count - i,
            {
                let here: bool = is_need_init_fill(&fields[i]);
                found = found || here;
                i = i + 1;
            }
            found
        },
        Shape::Union(variants) => {
            let count: usize = variants.len();
            let mut found: bool = false;
            let mut i: usize = 0;
            while i < count
                invariant
                    *shape is Union,
                    (*shape)->Union_0 == *variants,
                    count == variants@.len(),
                    i <= count,
                    found == exists|k: int|
                        0 <= k < i && (#[trigger] variants@[k] matches Some(payload)
                            && writes_memory(payload)),
                decreases count - i,
            {
                let here: bool = match &variants[i] {
                    Some(payload) => is_need_init_fill(payload),
                    None => false,
                };
                found = found || here;
                i = i + 1;
            }
            found
        },
    }
}

} // verus!
