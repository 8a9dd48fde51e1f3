//! Described types and the values that belong to them.
//!
//! A [`Shape`] describes a type while the program runs: a leaf, an optional
//! value, a sequence, a map, a record of fields in declared order, or a
//! tagged union whose variants carry one payload or none. A [`Value`] is a value of
//! some shape. Their encoding is that of the codecs for native types: the
//! same words, the same failures.

use crate::atom::{Atom, AtomKind, AtomModel};
use crate::error::{ProtocolError, ARGS_NEXT_ERROR, ENUM_FROM_U32_ERROR, MAP_INSERT_ERROR};
use crate::scalar::passed_over;
use vstd::prelude::*;

verus! {

/// A described type.
#[derive(Debug, PartialEq, Eq)]
pub enum Shape {
    /// A leaf of the given kind.
    Atom(AtomKind),
    /// A value that may be absent.
    Optional(Box<Shape>),
    /// Any number of values of one shape.
    Sequence(Box<Shape>),
    /// Any number of entries, keys of one shape and values of another, no key
    /// twice.
    Mapping(Box<Shape>, Box<Shape>),
    /// One value for each field, in declared order.
    Record(Vec<Shape>),
    /// One of the variants, each with its payload shape or without payload;
    /// the ordinal of a variant is its place in the list.
    Union(Vec<Option<Shape>>),
}

/// A value of a described type.
#[derive(Debug, PartialEq, Eq)]
pub enum Value {
    /// A leaf.
    Atom(Atom),
    /// An optional value.
    Optional(Option<Box<Value>>),
    /// A sequence of values.
    Sequence(Vec<Value>),
    /// The entries of a map, key beside value, in the order in which they
    /// travel.
    Mapping(Vec<(Value, Value)>),
    /// The values of the fields of a record, in declared order.
    Record(Vec<Value>),
    /// The variant with the given ordinal, and its payload if it has one.
    Variant(u32, Option<Box<Value>>),
}

/// The model of a value.
pub enum Model {
    Atom(AtomModel),
    Optional(Option<Box<Model>>),
    Sequence(Seq<Model>),
    Mapping(Seq<(Model, Model)>),
    Record(Seq<Model>),
    Variant(u32, Option<Box<Model>>),
}

/// The model of a value: its leaves replaced by their models, its vectors by
/// sequences.
pub open spec fn model_of(value: Value) -> Model
    decreases value,
{
    match value {
        Value::Atom(atom) => Model::Atom(atom.deep_view()),
        Value::Optional(None) => Model::Optional(None),
        Value::Optional(Some(inner)) => Model::Optional(Some(Box::new(model_of(*inner)))),
        Value::Sequence(items) => Model::Sequence(models_of(items@)),
        Value::Mapping(entries) => Model::Mapping(entry_models_of(entries@)),
        Value::Record(items) => Model::Record(models_of(items@)),
        Value::Variant(ordinal, None) => Model::Variant(ordinal, None),
        Value::Variant(ordinal, Some(inner)) => Model::Variant(
            ordinal,
            Some(Box::new(model_of(*inner))),
        ),
    }
}

/// The models of a row of values.
pub open spec fn models_of(items: Seq<Value>) -> Seq<Model>
    decreases items,
{
    Seq::new(
        items.len(),
        |i: int|
            if 0 <= i < items.len() {
                model_of(items[i])
            } else {
                Model::Optional(None)
            },
    )
}

/// The models of a row of entries.
pub open spec fn entry_models_of(entries: Seq<(Value, Value)>) -> Seq<(Model, Model)>
    decreases entries,
{
    Seq::new(
        entries.len(),
        |i: int|
            if 0 <= i < entries.len() {
                (model_of(entries[i].0), model_of(entries[i].1))
            } else {
                (Model::Optional(None), Model::Optional(None))
            },
    )
}

impl DeepView for Value {
    type V = Model;

    open spec fn deep_view(&self) -> Model {
        model_of(*self)
    }
}

/// The words that encode a value.
pub open spec fn words_of(m: Model) -> Seq<u32>
    decreases m, 0nat,
{
    match m {
        Model::Atom(atom) => atom.words(),
        Model::Optional(None) => seq![0u32],
        Model::Optional(Some(inner)) => seq![1u32] + words_of(*inner),
        Model::Sequence(items) => seq![items.len() as u32] + row_words(items, items.len()),
        Model::Mapping(entries) => seq![entries.len() as u32] + entry_words(
            entries,
            entries.len(),
        ),
        Model::Record(items) => row_words(items, items.len()),
        Model::Variant(ordinal, None) => seq![ordinal],
        Model::Variant(ordinal, Some(inner)) => seq![ordinal] + words_of(*inner),
    }
}

/// The words that encode the first `upto` values of a row, one after the
/// other.
pub open spec fn row_words(items: Seq<Model>, upto: nat) -> Seq<u32>
    decreases items, upto,
{
    if upto == 0 || upto > items.len() {
        Seq::empty()
    } else {
        row_words(items, (upto - 1) as nat) + words_of(items[upto - 1])
    }
}

/// The words that encode the first `upto` entries of a row, key before
/// value.
pub open spec fn entry_words(entries: Seq<(Model, Model)>, upto: nat) -> Seq<u32>
    decreases entries, upto,
{
    if upto == 0 || upto > entries.len() {
        Seq::empty()
    } else {
        entry_words(entries, (upto - 1) as nat) + words_of(entries[upto - 1].0) + words_of(
            entries[upto - 1].1,
        )
    }
}

/// Whether a key is among the keys of a row of entries.
pub open spec fn has_key(entries: Seq<(Model, Model)>, key: Model) -> bool {
    exists|i: int| 0 <= i < entries.len() && (#[trigger] entries[i]).0 == key
}

/// No key stands twice in a row of entries.
pub open spec fn keys_distinct(entries: Seq<(Model, Model)>) -> bool {
    forall|i: int, j: int|
        0 <= i < j < entries.len() ==> (#[trigger] entries[i]).0 != (#[trigger] entries[j]).0
}

/// What decoding reads for a value of the given shape.
pub open spec fn parse(shape: Shape, heap: Seq<u8>, words: Seq<u32>) -> Result<
    (Model, nat),
    ProtocolError,
>
    decreases shape, 1nat, 0nat,
{
    match shape {
        Shape::Atom(kind) => match kind.parse(heap, words) {
            Ok((atom, taken)) => Ok((Model::Atom(atom), taken)),
            Err(e) => Err(e),
        },
        Shape::Optional(inner) => if words.len() == 0 {
            Err(ProtocolError(ARGS_NEXT_ERROR))
        } else if words[0] == 0 {
            Ok((Model::Optional(None), 1nat))
        } else {
            match parse(*inner, heap, words.skip(1)) {
                Ok((m, taken)) => Ok((Model::Optional(Some(Box::new(m))), 1 + taken)),
                Err(e) => Err(e),
            }
        },
        Shape::Sequence(inner) => if words.len() == 0 {
            Err(ProtocolError(ARGS_NEXT_ERROR))
        } else {
            match parse_items(*inner, heap, words.skip(1), words[0] as nat) {
                Ok((items, taken)) => Ok((Model::Sequence(items), 1 + taken)),
                Err(e) => Err(e),
            }
        },
        Shape::Mapping(_, _) => if words.len() == 0 {
            Err(ProtocolError(ARGS_NEXT_ERROR))
        } else {
            match parse_entries(shape, heap, words.skip(1), words[0] as nat) {
                Ok((entries, taken)) => Ok((Model::Mapping(entries), 1 + taken)),
                Err(e) => Err(e),
            }
        },
        Shape::Record(fields) => match parse_fields(fields@, heap, words, fields@.len()) {
            Ok((items, taken)) => Ok((Model::Record(items), taken)),
            Err(e) => Err(e),
        },
        Shape::Union(variants) => if words.len() == 0 {
            Err(ProtocolError(ARGS_NEXT_ERROR))
        } else if words[0] >= variants@.len() {
            Err(ProtocolError(ENUM_FROM_U32_ERROR))
        } else {
            match variants@[words[0] as int] {
                None => Ok((Model::Variant(words[0], None), 1nat)),
                Some(payload) => match parse(payload, heap, words.skip(1)) {
                    Ok((m, taken)) => Ok((Model::Variant(words[0], Some(Box::new(m))), 1 + taken)),
                    Err(e) => Err(e),
                },
            }
        },
    }
}

/// What decoding reads for `count` values of one shape in a row.
pub open spec fn parse_items(inner: Shape, heap: Seq<u8>, words: Seq<u32>, count: nat) -> Result<
    (Seq<Model>, nat),
    ProtocolError,
>
    decreases inner, 2nat, count,
{
    if count == 0 {
        Ok((Seq::empty(), 0nat))
    } else {
        match parse_items(inner, heap, words, (count - 1) as nat) {
            Ok((items, taken)) => match parse(inner, heap, words.skip(taken as int)) {
                Ok((m, more)) => Ok((items.push(m), taken + more)),
                Err(e) => Err(e),
            },
            Err(e) => Err(e),
        }
    }
}

/// What decoding reads for the first `upto` fields of a record.
pub open spec fn parse_fields(fields: Seq<Shape>, heap: Seq<u8>, words: Seq<u32>, upto: nat) -> Result<
    (Seq<Model>, nat),
    ProtocolError,
>
    decreases fields, 2nat, upto,
{
    if upto == 0 || upto > fields.len() {
        Ok((Seq::empty(), 0nat))
    } else {
        match parse_fields(fields, heap, words, (upto - 1) as nat) {
            Ok((items, taken)) => match parse(fields[upto - 1], heap, words.skip(taken as int)) {
                Ok((m, more)) => Ok((items.push(m), taken + more)),
                Err(e) => Err(e),
            },
            Err(e) => Err(e),
        }
    }
}

/// What decoding reads for one entry of a map of the given shape: a key,
/// then a value behind it.
pub open spec fn parse_entry(shape: Shape, heap: Seq<u8>, words: Seq<u32>) -> Result<
    ((Model, Model), nat),
    ProtocolError,
>
    decreases shape, 0nat, 0nat,
{
    if !(shape is Mapping) {
        Err(ProtocolError(ARGS_NEXT_ERROR))
    } else {
        match parse(*shape->Mapping_0, heap, words) {
            Ok((key, taken)) => match parse(*shape->Mapping_1, heap, words.skip(taken as int)) {
                Ok((value, more)) => Ok(((key, value), taken + more)),
                Err(e) => Err(e),
            },
            Err(e) => Err(e),
        }
    }
}

/// What decoding reads for `count` entries of a map of the given shape: the
/// first `count - 1`, then one more entry behind them, refused where its key
/// is among those already read.
pub open spec fn parse_entries(shape: Shape, heap: Seq<u8>, words: Seq<u32>, count: nat) -> Result<
    (Seq<(Model, Model)>, nat),
    ProtocolError,
>
    decreases shape, 0nat, count,
{
    if count == 0 {
        Ok((Seq::empty(), 0nat))
    } else {
        match parse_entries(shape, heap, words, (count - 1) as nat) {
            Ok((entries, taken)) => match parse_entry(shape, heap, words.skip(taken as int)) {
                Ok((entry, more)) => if has_key(entries, entry.0) {
                    Err(ProtocolError(MAP_INSERT_ERROR))
                } else {
                    Ok((entries.push(entry), taken + more))
                },
                Err(e) => Err(e),
            },
            Err(e) => Err(e),
        }
    }
}

/// Whether a value belongs to a shape.
pub open spec fn conforms(m: Model, shape: Shape) -> bool
    decreases shape,
{
    match shape {
        Shape::Atom(kind) => m matches Model::Atom(atom) && atom.kind() == kind,
        Shape::Optional(inner) => m matches Model::Optional(held) && (held matches Some(v)
            ==> conforms(*v, *inner)),
        Shape::Sequence(inner) => m matches Model::Sequence(items) && forall|i: int|
            0 <= i < items.len() ==> conforms(#[trigger] items[i], *inner),
        Shape::Mapping(key, value) => m matches Model::Mapping(entries) && forall|i: int|
            0 <= i < entries.len() ==> conforms((#[trigger] entries[i]).0, *key) && conforms(
                entries[i].1,
                *value,
            ),
        Shape::Record(fields) => m matches Model::Record(items) && items.len() == fields@.len()
            && forall|i: int|
            0 <= i < fields@.len() ==> conforms(#[trigger] items[i], fields@[i]),
        Shape::Union(variants) => m matches Model::Variant(ordinal, payload) && ordinal
            < variants@.len() && (match variants@[ordinal as int] {
            None => payload is None,
            Some(inner) => payload matches Some(v) && conforms(*v, inner),
        }),
    }
}

/// Whether decoding gets a value back from its own words and `heap`.
pub open spec fn restorable(m: Model, heap: Seq<u8>) -> bool
    decreases m,
{
    match m {
        Model::Atom(atom) => atom.restorable(heap),
        Model::Optional(None) => true,
        Model::Optional(Some(inner)) => restorable(*inner, heap),
        Model::Sequence(items) => items.len() <= u32::MAX && forall|i: int|
            0 <= i < items.len() ==> restorable(#[trigger] items[i], heap),
        Model::Mapping(entries) => entries.len() <= u32::MAX && keys_distinct(entries)
            && forall|i: int|
            0 <= i < entries.len() ==> restorable((#[trigger] entries[i]).0, heap) && restorable(
                entries[i].1,
                heap,
            ),
        Model::Record(items) => forall|i: int|
            0 <= i < items.len() ==> restorable(#[trigger] items[i], heap),
        Model::Variant(_, None) => true,
        Model::Variant(_, Some(inner)) => restorable(*inner, heap),
    }
}

/// The memory after the second phase has run for a value.
pub open spec fn filled(m: Model, heap: Seq<u8>, words: Seq<u32>) -> Result<Seq<u8>, ProtocolError>
    decreases m, 0nat,
{
    match m {
        Model::Atom(atom) => atom.filled(heap, words),
        Model::Optional(None) => passed_over(heap, words, 1),
        Model::Optional(Some(inner)) => if words.len() == 0 {
            Err(ProtocolError(ARGS_NEXT_ERROR))
        } else {
            filled(*inner, heap, words.skip(1))
        },
        Model::Sequence(items) => if words.len() == 0 {
            Err(ProtocolError(ARGS_NEXT_ERROR))
        } else {
            row_filled(items, heap, words.skip(1), items.len())
        },
        Model::Mapping(entries) => if words.len() == 0 {
            Err(ProtocolError(ARGS_NEXT_ERROR))
        } else {
            entries_filled(entries, heap, words.skip(1), entries.len())
        },
        Model::Record(items) => row_filled(items, heap, words, items.len()),
        Model::Variant(_, None) => passed_over(heap, words, 1),
        Model::Variant(_, Some(inner)) => if words.len() == 0 {
            Err(ProtocolError(ARGS_NEXT_ERROR))
        } else {
            filled(*inner, heap, words.skip(1))
        },
    }
}

/// The memory after the second phase has run for the first `upto` values of
/// a row, each on the memory that the one before it left and behind the
/// words of those before it.
pub open spec fn row_filled(items: Seq<Model>, heap: Seq<u8>, words: Seq<u32>, upto: nat) -> Result<
    Seq<u8>,
    ProtocolError,
>
    decreases items, upto,
{
    if upto == 0 || upto > items.len() {
        Ok(heap)
    } else {
        match row_filled(items, heap, words, (upto - 1) as nat) {
            Ok(after) => filled(
                items[upto - 1],
                after,
                words.skip(row_words(items, (upto - 1) as nat).len() as int),
            ),
            Err(e) => Err(e),
        }
    }
}

/// The memory after the second phase has run for the first `upto` entries of
/// a row, key before value.
pub open spec fn entries_filled(
    entries: Seq<(Model, Model)>,
    heap: Seq<u8>,
    words: Seq<u32>,
    upto: nat,
) -> Result<Seq<u8>, ProtocolError>
    decreases entries, upto,
{
    if upto == 0 || upto > entries.len() {
        Ok(heap)
    } else {
        let passed = entry_words(entries, (upto - 1) as nat).len();
        match entries_filled(entries, heap, words, (upto - 1) as nat) {
            Ok(after) => match filled(entries[upto - 1].0, after, words.skip(passed as int)) {
                Ok(then) => filled(
                    entries[upto - 1].1,
                    then,
                    words.skip(passed + words_of(entries[upto - 1].0).len() as int),
                ),
                Err(e) => Err(e),
            },
            Err(e) => Err(e),
        }
    }
}

/// The needs-read flag of a shape: on for a leaf that is read in place, and
/// for a composite exactly where it is on for one of its parts.
pub open spec fn reads_memory(shape: Shape) -> bool
    decreases shape,
{
    match shape {
        Shape::Atom(kind) => kind.reads_memory(),
        Shape::Optional(inner) => reads_memory(*inner),
        Shape::Sequence(inner) => reads_memory(*inner),
        Shape::Mapping(key, value) => reads_memory(*key) || reads_memory(*value),
        Shape::Record(fields) => exists|i: int|
            0 <= i < fields@.len() && reads_memory(#[trigger] fields@[i]),
        Shape::Union(variants) => exists|i: int|
            0 <= i < variants@.len() && (#[trigger] variants@[i] matches Some(payload)
                && reads_memory(payload)),
    }
}

/// The needs-fill flag of a shape: on for a leaf that is staged, and for a
/// composite exactly where it is on for one of its parts.
pub open spec fn writes_memory(shape: Shape) -> bool
    decreases shape,
{
    match shape {
        Shape::Atom(kind) => kind.writes_memory(),
        Shape::Optional(inner) => writes_memory(*inner),
        Shape::Sequence(inner) => writes_memory(*inner),
        Shape::Mapping(key, value) => writes_memory(*key) || writes_memory(*value),
        Shape::Record(fields) => exists|i: int|
            0 <= i < fields@.len() && writes_memory(#[trigger] fields@[i]),
        Shape::Union(variants) => exists|i: int|
            0 <= i < variants@.len() && (#[trigger] variants@[i] matches Some(payload)
                && writes_memory(payload)),
    }
}

} // verus!
