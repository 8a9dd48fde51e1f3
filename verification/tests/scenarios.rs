use wa_proto::atom::{Atom, AtomKind};
use wa_proto::dynamic::{decode, encode};
use wa_proto::packing::pack_word;
use wa_proto::schema::{
    derive_set_outcoming, Attribute, Data, DeriveInput, Fields, Kind, Lit, Meta, Variant,
};
use wa_proto::shape::{Shape, Value};
use wa_proto::{Incoming, Outcoming};

fn out_words<T: Outcoming>(value: &T) -> Vec<u32> {
    let mut args: Vec<u32> = Vec::new();
    Outcoming::args(value, &mut args).unwrap();
    args
}

fn in_words<T: Incoming>(value: &T) -> Vec<u32> {
    let mut args: Vec<u32> = Vec::new();
    Incoming::args(value, &mut args).unwrap();
    args
}

fn read_all<T: Outcoming>(words: &[u32]) -> T {
    let heap: Vec<u8> = Vec::new();
    let mut it = words.iter();
    let value = <T as Outcoming>::read(&heap, &mut it).unwrap();
    assert!(it.next().is_none());
    value
}

#[test]
fn true_is_the_word_one() {
    assert_eq!(out_words(&true), vec![1]);
    assert_eq!(in_words(&true), vec![1]);
    assert_eq!(read_all::<bool>(&[1]), true);
}

#[test]
fn text_ab_is_length_and_one_padded_word() {
    let text = "ab".to_string();
    let expected = vec![2, pack_word(b'a', b'b', 0, 0)];
    assert_eq!(expected[1], 0x0000_6261);
    assert_eq!(out_words(&text), expected);
    assert_eq!(in_words(&text), expected);
}

#[test]
fn absent_optional_is_zero() {
    let absent: Option<u32> = None;
    assert_eq!(out_words(&absent), vec![0]);
    assert_eq!(in_words(&absent), vec![0]);
}

#[test]
fn present_optional_is_one_then_the_value() {
    assert_eq!(out_words(&Some(5u32)), vec![1, 5]);
    assert_eq!(in_words(&Some(5u32)), vec![1, 5]);
}

#[test]
fn sequence_is_length_then_items() {
    let items: Vec<u32> = vec![1, 2, 3];
    assert_eq!(out_words(&items), vec![3, 1, 2, 3]);
    assert_eq!(in_words(&items), vec![3, 1, 2, 3]);
}

fn two_variant_union() -> Shape {
    let input = DeriveInput {
        ident: "Message".to_string(),
        attrs: vec![Attribute {
            path: "coming".to_string(),
            meta: Meta::NameValue {
                path: "primitive".to_string(),
                lit: Lit::Str("MessageKind".to_string()),
            },
        }],
        data: Data::Enum(vec![
            Variant { name: "A".to_string(), fields: Fields::Unit, has_discriminant: false },
            Variant {
                name: "B".to_string(),
                fields: Fields::Unnamed(vec![Shape::Atom(AtomKind::U32)]),
                has_discriminant: false,
            },
        ]),
    };
    let plan = derive_set_outcoming(input).unwrap();
    assert_eq!(plan.kind, Kind::TaggedUnion);
    assert_eq!(plan.primitive, Some("MessageKind".to_string()));
    plan.into_shape().unwrap()
}

#[test]
fn union_variant_without_payload_is_its_ordinal() {
    let shape = two_variant_union();
    assert_eq!(shape, Shape::Union(vec![None, Some(Shape::Atom(AtomKind::U32))]));
    let mut args: Vec<u32> = Vec::new();
    encode(&Value::Variant(0, None), &mut args);
    assert_eq!(args, vec![0]);
    let heap: Vec<u8> = Vec::new();
    let mut it = args.iter();
    assert_eq!(decode(&shape, &heap, &mut it), Ok(Value::Variant(0, None)));
}

#[test]
fn union_variant_with_payload_is_ordinal_then_payload() {
    let shape = two_variant_union();
    let value = Value::Variant(1, Some(Box::new(Value::Atom(Atom::U32(7)))));
    let mut args: Vec<u32> = Vec::new();
    encode(&value, &mut args);
    assert_eq!(args, vec![1, 7]);
    let heap: Vec<u8> = Vec::new();
    let mut it = args.iter();
    assert_eq!(decode(&shape, &heap, &mut it), Ok(value));
    assert!(it.next().is_none());
}
