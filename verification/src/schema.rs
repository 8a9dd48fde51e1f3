//! The schema compiler: from the description of a record or of a tagged
//! union to the plan of its codec.
//!
//! A description says what a type declaration says: its name, its
//! attributes, and its fields or variants in declared order. Compiling it
//! finds out which kind of codec the type gets, refuses what no codec can be
//! made for, and keeps what the codec is made from. Nothing here runs a
//! codec: a plan over shapes becomes a [`Shape`], and the codec for
//! described types does the rest.

use crate::shape::Shape;
use vstd::prelude::*;

verus! {

/// A literal in an attribute.
#[derive(Debug, PartialEq, Eq)]
pub enum Lit {
    /// A string literal, with its text.
    Str(String),
    /// Any other literal.
    Other,
}

/// What stands between the brackets of an attribute.
#[derive(Debug, PartialEq, Eq)]
pub enum Meta {
    /// `path = literal`.
    NameValue { path: String, lit: Lit },
    /// A path alone, or a list.
    Other,
    /// Nothing that reads as one of these.
    Unparsable,
}

/// An attribute of a declaration: its path and what it holds.
#[derive(Debug, PartialEq, Eq)]
pub struct Attribute {
    pub path: String,
    pub meta: Meta,
}

/// A named field with its element type.
#[derive(Debug, PartialEq, Eq)]
pub struct Field<T> {
    pub name: String,
    pub ty: T,
}

/// The fields of a record or of a variant, in declared order.
#[derive(Debug, PartialEq, Eq)]
pub enum Fields<T> {
    Named(Vec<Field<T>>),
    Unnamed(Vec<T>),
    Unit,
}

/// A variant of a tagged union.
#[derive(Debug, PartialEq, Eq)]
pub struct Variant<T> {
    pub name: String,
    pub fields: Fields<T>,
    /// Whether the declaration gives the variant an ordinal of its own.
    pub has_discriminant: bool,
}

/// The body of a declaration.
#[derive(Debug, PartialEq, Eq)]
pub enum Data<T> {
    Struct(Fields<T>),
    Enum(Vec<Variant<T>>),
    Union,
}

/// The description of a type, with `T` for the element types of its fields.
#[derive(Debug, PartialEq, Eq)]
pub struct DeriveInput<T> {
    pub ident: String,
    pub attrs: Vec<Attribute>,
    pub data: Data<T>,
}

/// Why a description has no codec.
#[derive(Debug, Clone, Copy, PartialEq, Eq, Structural)]
pub enum SchemaError {
    /// The description is of an untagged union.
    UnionNotSupported,
    /// A union with payloads does not name its discriminant enumeration.
    MissingPrimitive,
    /// The name given for the discriminant enumeration is no identifier.
    InvalidPrimitive,
    /// The variant at this place has an ordinal of its own.
    ExplicitOrdinal(usize),
    /// The variant at this place has unnamed fields, but not exactly one.
    PayloadFieldCount(usize),
    /// The variant at this place has named fields.
    NamedPayload(usize),
}

/// Which codec a plan is for.
#[derive(Debug, Clone, Copy, PartialEq, Eq, Structural)]
pub enum Role {
    Incoming,
    Outcoming,
}

/// The kind of codec that a description gets.
#[derive(Debug, Clone, Copy, PartialEq, Eq, Structural)]
pub enum Kind {
    /// A record with named fields.
    NamedRecord,
    /// A record with fields that are told apart by position.
    TupleRecord,
    /// A record without fields: no word at all.
    UnitRecord,
    /// A union without payloads: one word, the ordinal of the variant.
    Enumeration,
    /// A union with payloads: the ordinal, then the payload where the
    /// variant has one.
    TaggedUnion,
}

/// The plan of a codec: the description it was compiled from, the kind of
/// codec, and the name of the discriminant enumeration where there is one.
#[derive(Debug, PartialEq, Eq)]
pub struct Plan<T> {
    pub role: Role,
    pub kind: Kind,
    pub primitive: Option<String>,
    pub input: DeriveInput<T>,
}

/// Whether a text reads as one identifier, as `syn` parses identifiers.
pub uninterp spec fn parses_as_identifier(text: Seq<char>) -> bool;

/// `syn::parse_str` for `syn::Ident`: whether the text parses as one
/// identifier. The answer depends on the text alone.
#[verifier::external_body]
fn is_identifier(text: &str) -> (ok: bool)
    ensures
        ok == parses_as_identifier(text@),
{
    syn::parse_str::<syn::Ident>(text).is_ok()
}

impl<T> Fields<T> {
    /// Number of fields.
    pub open spec fn count(self) -> nat {
        match self {
            Fields::Named(fields) => fields@.len(),
            Fields::Unnamed(fields) => fields@.len(),
            Fields::Unit => 0,
        }
    }

    /// The element types of the fields, in declared order.
    pub open spec fn types(self) -> Seq<T> {
        match self {
            Fields::Named(fields) => Seq::new(fields@.len(), |i: int| fields@[i].ty),
            Fields::Unnamed(fields) => fields@,
            Fields::Unit => Seq::empty(),
        }
    }

    /// Counts the fields.
    pub fn len(&self) -> (n: usize)
        ensures
            n == self.count(),
    {
        match self {
            Fields::Named(fields) => fields.len(),
            Fields::Unnamed(fields) => fields.len(),
            Fields::Unit => 0,
        }
    }
}

/// Whether an attribute names the discriminant enumeration: it reads
/// `coming(primitive = "...")`.
pub open spec fn names_primitive(attr: Attribute) -> bool {
    &&& attr.path@ == "coming"@
    &&& attr.meta matches Meta::NameValue { path, lit }
    &&& path@ == "primitive"@
    &&& lit is Str
}

/// The text that the first attribute naming the discriminant enumeration
/// gives for it.
pub open spec fn find_primitive(attrs: Seq<Attribute>) -> Option<Seq<char>>
    decreases attrs.len(),
{
    if attrs.len() == 0 {
        None
    } else if names_primitive(attrs[0]) {
        Some(attrs[0].meta->lit->Str_0@)
    } else {
        find_primitive(attrs.drop_first())
    }
}

/// Whether no variant has a field.
pub open spec fn payload_free<T>(variants: Seq<Variant<T>>) -> bool {
    forall|i: int| 0 <= i < variants.len() ==> (#[trigger] variants[i]).fields.count() == 0
}

/// What is wrong with the variant at place `index`, if anything: an ordinal
/// of its own, and in a union with payloads also unnamed fields other than
/// exactly one, or named fields.
pub open spec fn offence<T>(variant: Variant<T>, index: usize, simple: bool) -> Option<
    SchemaError,
> {
    if variant.has_discriminant {
        Some(SchemaError::ExplicitOrdinal(index))
    } else if simple {
        None
    } else {
        match variant.fields {
            Fields::Unit => None,
            Fields::Unnamed(fields) => if fields@.len() == 1 {
                None
            } else {
                Some(SchemaError::PayloadFieldCount(index))
            },
            Fields::Named(_) => Some(SchemaError::NamedPayload(index)),
        }
    }
}

/// What is wrong with the first of the first `upto` variants that has
/// anything wrong with it.
pub open spec fn first_offence<T>(variants: Seq<Variant<T>>, simple: bool, upto: nat) -> Option<
    SchemaError,
>
    decreases upto,
{
    if upto == 0 || upto > variants.len() {
        None
    } else {
        match first_offence(variants, simple, (upto - 1) as nat) {
            Some(e) => Some(e),
            None => offence(variants[upto - 1], (upto - 1) as usize, simple),
        }
    }
}

/// What compiling a description comes to: the kind of codec, or why there is
/// none.
pub open spec fn compiled<T>(input: DeriveInput<T>) -> Result<Kind, SchemaError> {
    match input.data {
        Data::Struct(Fields::Named(_)) => Ok(Kind::NamedRecord),
        Data::Struct(Fields::Unnamed(_)) => Ok(Kind::TupleRecord),
        Data::Struct(Fields::Unit) => Ok(Kind::UnitRecord),
        Data::Enum(variants) => if payload_free(variants@) {
            match first_offence(variants@, true, variants@.len()) {
                Some(e) => Err(e),
                None => Ok(Kind::Enumeration),
            }
        } else {
            match find_primitive(input.attrs@) {
                None => Err(SchemaError::MissingPrimitive),
                Some(text) => if !parses_as_identifier(text) {
                    Err(SchemaError::InvalidPrimitive)
                } else {
                    match first_offence(variants@, false, variants@.len()) {
                        Some(e) => Err(e),
                        None => Ok(Kind::TaggedUnion),
                    }
                },
            }
        },
        Data::Union => Err(SchemaError::UnionNotSupported),
    }
}

/// The payload of a variant of a compiled union: the element type of its
/// one field, or none.
pub open spec fn payload_of<T>(variant: Variant<T>) -> Option<T> {
    if variant.fields.count() == 1 {
        Some(variant.fields.types()[0])
    } else {
        None
    }
}

/// The payloads of the first `upto` variants, in declared order.
pub open spec fn payloads<T>(variants: Seq<Variant<T>>, upto: nat) -> Seq<T>
    decreases upto,
{
    if upto == 0 || upto > variants.len() {
        Seq::empty()
    } else {
        match payload_of(variants[upto - 1]) {
            Some(ty) => payloads(variants, (upto - 1) as nat).push(ty),
            None => payloads(variants, (upto - 1) as nat),
        }
    }
}

impl<T> Plan<T> {
    /// The element types whose flags, joined by "or", make the flag of the
    /// codec: those of the fields of a record, those of the payloads of a
    /// union.
    pub open spec fn flag_terms(self) -> Seq<T> {
        match self.input.data {
            Data::Struct(fields) => fields.types(),
            Data::Enum(variants) => payloads(variants@, variants@.len()),
            Data::Union => Seq::empty(),
        }
    }

    /// Whether the plan is what compiling its description gives.
    pub open spec fn wf(self) -> bool {
        &&& compiled(self.input) == Ok::<Kind, SchemaError>(self.kind)
        &&& self.kind == Kind::TaggedUnion ==> (self.primitive matches Some(name) && Some(name@)
            == find_primitive(self.input.attrs@))
        &&& self.kind != Kind::TaggedUnion ==> self.primitive is None
    }

    /// Lists the element types whose flags make the flag of the codec.
    pub fn terms(&self) -> (r: Vec<&T>)
        ensures
            r@.len() == self.flag_terms().len(),
            forall|i: int| 0 <= i < r@.len() ==> *(#[trigger] r@[i]) == self.flag_terms()[i],
    {
        let mut out: Vec<&T> = Vec::new();
        match &self.input.data {
            Data::Struct(Fields::Named(fields)) => {
                let mut i: usize = 0;
                while i < fields.len()
                    invariant
                        i <= fields.len(),
                        out@.len() == i,
                        forall|k: int| 0 <= k < i ==> *(#[trigger] out@[k]) == fields@[k].ty,
                    decreases fields.len() - i,
                {
                    out.push(&fields[i].ty);
                    i = i + 1;
                }
            },
            Data::Struct(Fields::Unnamed(fields)) => {
                let mut i: usize = 0;
                while i < fields.len()
                    invariant
                        i <= fields.len(),
                        out@.len() == i,
                        forall|k: int| 0 <= k < i ==> *(#[trigger] out@[k]) == fields@[k],
                    decreases fields.len() - i,
                {
                    out.push(&fields[i]);
                    i = i + 1;
                }
            },
            Data::Struct(Fields::Unit) => {},
            Data::Enum(variants) => {
                let mut i: usize = 0;
                while i < variants.len()
                    invariant
                        i <= variants.len(),
                        out@.len() == payloads(variants@, i as nat).len(),
                        forall|k: int|
                            0 <= k < out@.len() ==> *(#[trigger] out@[k]) == payloads(
                                variants@,
                                i as nat,
                            )[k],
                    decreases variants.len() - i,
                {
                    match &variants[i].fields {
                        Fields::Named(fields) => {
                            if fields.len() == 1 {
                                out.push(&fields[0].ty);
                            }
                        },
                        Fields::Unnamed(fields) => {
                            if fields.len() == 1 {
                                out.push(&fields[0]);
                            }
                        },
                        Fields::Unit => {},
                    }
                    i = i + 1;
                }
            },
            Data::Union => {},
        }
        out
    }
}

/// The shapes of the payloads of the variants, none where a variant has no
/// payload.
pub open spec fn variant_shapes(variants: Seq<Variant<Shape>>) -> Seq<Option<Shape>> {
    Seq::new(variants.len(), |i: int| payload_of(variants[i]))
}

impl Plan<Shape> {
    /// The shape of the planned type: a record of the shapes of its fields,
    /// or a union of the shapes of its payloads, the ordinal of a variant
    /// being its place in the declaration. An untagged union has no shape.
    pub fn into_shape(self) -> (r: Option<Shape>)
        ensures
            match self.input.data {
                Data::Struct(fields) => r matches Some(Shape::Record(shapes)) && shapes@
                    == fields.types(),
                Data::Enum(variants) => r matches Some(Shape::Union(shapes)) && shapes@
                    == variant_shapes(variants@),
                Data::Union => r is None,
            },
    {
        match self.input.data {
            Data::Struct(Fields::Named(fields)) => {
                let mut shapes: Vec<Shape> = Vec::new();
                let ghost all = fields@;
                for field in it: fields
                    invariant
                        it.seq() == all,
                        shapes@.len() == it.index(),
                        forall|k: int| 0 <= k < it.index() ==> shapes@[k] == all[k].ty,
                {
                    shapes.push(field.ty);
                }
                assert(shapes@ =~= Fields::Named(fields).types());
                Some(Shape::Record(shapes))
            },
            Data::Struct(Fields::Unnamed(fields)) => Some(Shape::Record(fields)),
            Data::Struct(Fields::Unit) => Some(Shape::Record(Vec::new())),
            Data::Enum(variants) => {
                let mut shapes: Vec<Option<Shape>> = Vec::new();
                let ghost all = variants@;
                for variant in it: variants
                    invariant
                        it.seq() == all,
                        shapes@.len() == it.index(),
                        forall|k: int| 0 <= k < it.index() ==> shapes@[k] == payload_of(all[k]),
                {
                    let payload: Option<Shape> = match variant.fields {
                        Fields::Named(fields) => take_only_field(fields),
                        Fields::Unnamed(fields) => take_only(fields),
                        Fields::Unit => None,
                    };
                    shapes.push(payload);
                }
                assert(shapes@ =~= variant_shapes(all));
                Some(Shape::Union(shapes))
            },
            Data::Union => None,
        }
    }
}

/// The one element of a vector, or none where it holds another number.
fn take_only<T>(items: Vec<T>) -> (r: Option<T>)
    ensures
        items@.len() == 1 ==> r == Some(items@[0]),
        items@.len() != 1 ==> r is None,
{
    let mut items = items;
    if items.len() == 1 {
        items.pop()
    } else {
        None
    }
}

/// The element type of the one field of a vector of fields, or none where it
/// holds another number.
fn take_only_field<T>(fields: Vec<Field<T>>) -> (r: Option<T>)
    ensures
        fields@.len() == 1 ==> r == Some(fields@[0].ty),
        fields@.len() != 1 ==> r is None,
{
    match take_only(fields) {
        Some(field) => Some(field.ty),
        None => None,
    }
}

/// Whether an attribute names the discriminant enumeration.
fn attribute_names_primitive(attr: &Attribute) -> (yes: bool)
    ensures
        yes == names_primitive(*attr),
{
    let coming = "coming".to_string();
    let primitive = "primitive".to_string();
    if attr.path != coming {
        return false;
    }
    match &attr.meta {
        Meta::NameValue { path, lit } => {
            if *path != primitive {
                return false;
            }
            match lit {
                Lit::Str(_) => true,
                Lit::Other => false,
            }
        },
        Meta::Other => false,
        Meta::Unparsable => false,
    }
}

/// Finds the name of the discriminant enumeration among the attributes of a
/// description: the text of the first `coming(primitive = "...")`, which has
/// to read as an identifier.
pub fn get_primitive_name<T>(input: &DeriveInput<T>) -> (r: Result<String, SchemaError>)
    ensures
        match find_primitive(input.attrs@) {
            Some(text) => if parses_as_identifier(text) {
                r matches Ok(name) && name@ == text
            } else {
                r == Err::<String, SchemaError>(SchemaError::InvalidPrimitive)
            },
            None => r == Err::<String, SchemaError>(SchemaError::MissingPrimitive),
        },
{
    let mut i: usize = 0;
    assert(input.attrs@.skip(0) =~= input.attrs@);
    while i < input.attrs.len()
        invariant
            i <= input.attrs@.len(),
            find_primitive(input.attrs@) == find_primitive(input.attrs@.skip(i as int)),
        decreases input.attrs.len() - i,
    {
        let attr = &input.attrs[i];
        proof {
            assert(input.attrs@.skip(i as int)[0] == input.attrs@[i as int]);
            assert(input.attrs@.skip(i as int).drop_first() =~= input.attrs@.skip(i + 1));
        }
        if attribute_names_primitive(attr) {
            match &attr.meta {
                Meta::NameValue { path, lit } => match lit {
                    Lit::Str(text) => {
                        if is_identifier(text.as_str()) {
                            return Ok(text.clone());
                        } else {
                            return Err(SchemaError::InvalidPrimitive);
                        }
                    },
                    Lit::Other => {},
                },
                Meta::Other => {},
                Meta::Unparsable => {},
            }
        }
        i = i + 1;
    }
    Err(SchemaError::MissingPrimitive)
}

/// Whether no variant has a field.
fn is_payload_free<T>(variants: &Vec<Variant<T>>) -> (yes: bool)
    ensures
        yes == payload_free(variants@),
{
    let mut i: usize = 0;
    while i < variants.len()
        invariant
            i <= variants.len(),
            forall|k: int| 0 <= k < i ==> (#[trigger] variants@[k]).fields.count() == 0,
        decreases variants.len() - i,
    {
        if variants[i].fields.len() != 0 {
            return false;
        }
        i = i + 1;
    }
    true
}

/// Looks for the first variant that has something wrong with it.
fn find_offence<T>(variants: &Vec<Variant<T>>, simple: bool) -> (r: Option<SchemaError>)
    ensures
        r == first_offence(variants@, simple, variants@.len()),
{
    let mut i: usize = 0;
    while i < variants.len()
        invariant
            i <= variants.len(),
            first_offence(variants@, simple, i as nat) is None,
        decreases variants.len() - i,
    {
        let variant = &variants[i];
        let found: Option<SchemaError> = if variant.has_discriminant {
            Some(SchemaError::ExplicitOrdinal(i))
        } else if simple {
            None
        } else {
            match &variant.fields {
                Fields::Unit => None,
                Fields::Unnamed(fields) => if fields.len() == 1 {
                    None
                } else {
                    Some(SchemaError::PayloadFieldCount(i))
                },
                Fields::Named(_) => Some(SchemaError::NamedPayload(i)),
            }
        };
        if found.is_some() {
            proof {
                lemma_offence_stays(variants@, simple, (i + 1) as nat, variants@.len());
            }
            return found;
        }
        i = i + 1;
    }
    None
}

/// Once a variant has been found wrong, looking further finds the same one.
proof fn lemma_offence_stays<T>(variants: Seq<Variant<T>>, simple: bool, upto: nat, more: nat)
    requires
        first_offence(variants, simple, upto) is Some,
        upto <= more <= variants.len(),
    ensures
        first_offence(variants, simple, more) == first_offence(variants, simple, upto),
    decreases more - upto,
{
    if upto < more {
        lemma_offence_stays(variants, simple, upto, (more - 1) as nat);
    }
}

/// Compiles a description into the plan of a codec of the given role.
fn compile<T>(input: DeriveInput<T>, role: Role) -> (r: Result<Plan<T>, SchemaError>)
    ensures
        match compiled(input) {
            Ok(kind) => r matches Ok(plan) && plan.role == role && plan.kind == kind && plan.input
                == input && plan.wf(),
            Err(e) => r matches Err(f) && f == e,
        },
{
    let (kind, primitive): (Kind, Option<String>) = match &input.data {
        Data::Struct(Fields::Named(_)) => (Kind::NamedRecord, None),
        Data::Struct(Fields::Unnamed(_)) => (Kind::TupleRecord, None),
        Data::Struct(Fields::Unit) => (Kind::UnitRecord, None),
        Data::Enum(variants) => {
            if is_payload_free(variants) {
                match find_offence(variants, true) {
                    Some(e) => {
                        return Err(e);
                    },
                    None => (Kind::Enumeration, None),
                }
            } else {
                let name = match get_primitive_name(&input) {
                    Ok(name) => name,
                    Err(e) => {
                        return Err(e);
                    },
                };
                match find_offence(variants, false) {
                    Some(e) => {
                        return Err(e);
                    },
                    None => (Kind::TaggedUnion, Some(name)),
                }
            }
        },
        Data::Union => {
            return Err(SchemaError::UnionNotSupported);
        },
    };
    Ok(Plan { role, kind, primitive, input })
}

/// Compiles a description into the plan of the codec for values that travel
/// into the sandbox.
pub fn derive_set_incoming<T>(input: DeriveInput<T>) -> (r: Result<Plan<T>, SchemaError>)
    ensures
        match compiled(input) {
            Ok(kind) => r matches Ok(plan) && plan.role == Role::Incoming && plan.kind == kind
                && plan.input == input && plan.wf(),
            Err(e) => r matches Err(f) && f == e,
        },
{
    compile(input, Role::Incoming)
}

/// Compiles a description into the plan of the codec for values that travel
/// out of the sandbox.
pub fn derive_set_outcoming<T>(input: DeriveInput<T>) -> (r: Result<Plan<T>, SchemaError>)
    ensures
        match compiled(input) {
            Ok(kind) => r matches Ok(plan) && plan.role == Role::Outcoming && plan.kind == kind
                && plan.input == input && plan.wf(),
            Err(e) => r matches Err(f) && f == e,
        },
{
    compile(input, Role::Outcoming)
}

impl SchemaError {
    /// The words in which each refusal is reported.
    pub open spec fn message_of(self) -> Seq<char> {
        match self {
            SchemaError::UnionNotSupported => {
                "unions not supported, use enums instead"@
            },
            SchemaError::MissingPrimitive => {
                "complex enums must include primitive type name!"@
            },
            SchemaError::InvalidPrimitive => {
                "primitive type name is not an identifier"@
            },
            SchemaError::ExplicitOrdinal(_) => {
                "enums variants with discriminant not support in current moment"@
            },
            SchemaError::PayloadFieldCount(_) => {
                "enums variants is currently support only with 1 unnamed fields"@
            },
            SchemaError::NamedPayload(_) => {
                "enums named variants is currently not support"@
            },
        }
    }

    /// The words in which the refusal is reported.
    pub fn message(&self) -> (s: String)
        ensures
            s@ == self.message_of(),
    {
        match self {
            SchemaError::UnionNotSupported => {
                "unions not supported, use enums instead".to_string()
            },
            SchemaError::MissingPrimitive => {
                "complex enums must include primitive type name!".to_string()
            },
            SchemaError::InvalidPrimitive => {
                "primitive type name is not an identifier".to_string()
            },
            SchemaError::ExplicitOrdinal(_) => {
                "enums variants with discriminant not support in current moment".to_string()
            },
            SchemaError::PayloadFieldCount(_) => {
                "enums variants is currently support only with 1 unnamed fields".to_string()
            },
            SchemaError::NamedPayload(_) => {
                "enums named variants is currently not support".to_string()
            },
        }
    }
}

} // verus!
