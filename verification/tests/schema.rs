use wa_proto::atom::{Atom, AtomKind};
use wa_proto::dynamic::{decode, encode, fill, init, is_need_init_fill, is_need_read};
use wa_proto::schema::{
    derive_set_incoming, derive_set_outcoming, get_primitive_name, Attribute, Data, DeriveInput,
    Field, Fields, Kind, Lit, Meta, Role, SchemaError, Variant,
};
use wa_proto::shape::{Shape, Value};
use wa_proto::{
    Bytes, ProtocolError, Resident, Slots, Staged, ARGS_NEXT_ERROR, BYTES_INTO_ARR4_ERROR,
    ENUM_FROM_U32_ERROR, STRING_FROM_BYTES_ERROR,
};

fn primitive(name: &str) -> Attribute {
    Attribute {
        path: "coming".to_string(),
        meta: Meta::NameValue { path: "primitive".to_string(), lit: Lit::Str(name.to_string()) },
    }
}

fn unit(name: &str) -> Variant<Shape> {
    Variant { name: name.to_string(), fields: Fields::Unit, has_discriminant: false }
}

fn carrying(name: &str, payload: Shape) -> Variant<Shape> {
    Variant { name: name.to_string(), fields: Fields::Unnamed(vec![payload]), has_discriminant: false }
}

fn input(attrs: Vec<Attribute>, data: Data<Shape>) -> DeriveInput<Shape> {
    DeriveInput { ident: "T".to_string(), attrs, data }
}

fn atom(kind: AtomKind) -> Shape {
    Shape::Atom(kind)
}

fn encoded(value: &Value) -> Vec<u32> {
    let mut args: Vec<u32> = Vec::new();
    encode(value, &mut args);
    args
}

fn decoded(shape: &Shape, words: &[u32]) -> Result<Value, ProtocolError> {
    let heap: Vec<u8> = Vec::new();
    let mut it = words.iter();
    decode(shape, &heap, &mut it)
}

#[test]
fn record_with_named_fields_compiles() {
    let data = Data::Struct(Fields::Named(vec![
        Field { name: "id".to_string(), ty: atom(AtomKind::U32) },
        Field { name: "name".to_string(), ty: atom(AtomKind::Text) },
    ]));
    let plan = derive_set_incoming(input(vec![], data)).unwrap();
    assert_eq!(plan.role, Role::Incoming);
    assert_eq!(plan.kind, Kind::NamedRecord);
    assert_eq!(plan.primitive, None);
    assert_eq!(plan.terms(), vec![&atom(AtomKind::U32), &atom(AtomKind::Text)]);
    assert_eq!(
        plan.into_shape(),
        Some(Shape::Record(vec![atom(AtomKind::U32), atom(AtomKind::Text)]))
    );
}

#[test]
fn record_with_positional_fields_compiles() {
    let data = Data::Struct(Fields::Unnamed(vec![atom(AtomKind::Bool), atom(AtomKind::U64)]));
    let plan = derive_set_outcoming(input(vec![], data)).unwrap();
    assert_eq!(plan.role, Role::Outcoming);
    assert_eq!(plan.kind, Kind::TupleRecord);
    assert_eq!(
        plan.into_shape(),
        Some(Shape::Record(vec![atom(AtomKind::Bool), atom(AtomKind::U64)]))
    );
}

#[test]
fn record_without_fields_takes_no_word() {
    let plan = derive_set_outcoming(input(vec![], Data::Struct(Fields::Unit))).unwrap();
    assert_eq!(plan.kind, Kind::UnitRecord);
    assert!(plan.terms().is_empty());
    let shape = plan.into_shape().unwrap();
    assert_eq!(shape, Shape::Record(vec![]));
    assert_eq!(encoded(&Value::Record(vec![])), Vec::<u32>::new());
    assert_eq!(decoded(&shape, &[]), Ok(Value::Record(vec![])));
}

#[test]
fn enumeration_compiles_without_a_primitive_name() {
    let data = Data::Enum(vec![unit("A"), unit("B"), unit("C")]);
    let plan = derive_set_incoming(input(vec![], data)).unwrap();
    assert_eq!(plan.kind, Kind::Enumeration);
    assert_eq!(plan.primitive, None);
    let shape = plan.into_shape().unwrap();
    assert_eq!(shape, Shape::Union(vec![None, None, None]));
    assert_eq!(encoded(&Value::Variant(2, None)), vec![2]);
    assert_eq!(decoded(&shape, &[2]), Ok(Value::Variant(2, None)));
    assert_eq!(decoded(&shape, &[3]), Err(ProtocolError(ENUM_FROM_U32_ERROR)));
    assert_eq!(decoded(&shape, &[]), Err(ProtocolError(ARGS_NEXT_ERROR)));
}

#[test]
fn union_with_payloads_needs_its_primitive_name() {
    let data = || Data::Enum(vec![unit("A"), carrying("B", atom(AtomKind::U32))]);
    assert_eq!(derive_set_incoming(input(vec![], data())), Err(SchemaError::MissingPrimitive));
    assert_eq!(derive_set_outcoming(input(vec![], data())), Err(SchemaError::MissingPrimitive));
    let plan = derive_set_incoming(input(vec![primitive("Kind")], data())).unwrap();
    assert_eq!(plan.kind, Kind::TaggedUnion);
    assert_eq!(plan.primitive, Some("Kind".to_string()));
    assert_eq!(plan.terms(), vec![&atom(AtomKind::U32)]);
}

#[test]
fn primitive_name_is_the_first_attribute_that_gives_one() {
    let other = Attribute { path: "derive".to_string(), meta: Meta::Other };
    let list = Attribute { path: "coming".to_string(), meta: Meta::Other };
    let broken = Attribute { path: "coming".to_string(), meta: Meta::Unparsable };
    let number = Attribute {
        path: "coming".to_string(),
        meta: Meta::NameValue { path: "primitive".to_string(), lit: Lit::Other },
    };
    let elsewhere = Attribute {
        path: "going".to_string(),
        meta: Meta::NameValue { path: "primitive".to_string(), lit: Lit::Str("X".to_string()) },
    };
    let renamed = Attribute {
        path: "coming".to_string(),
        meta: Meta::NameValue { path: "primary".to_string(), lit: Lit::Str("Y".to_string()) },
    };
    let attrs =
        vec![other, list, broken, number, elsewhere, renamed, primitive("First"), primitive("Second")];
    let described = input(attrs, Data::Struct(Fields::Unit));
    assert_eq!(get_primitive_name(&described), Ok("First".to_string()));
    let none = input(vec![], Data::Struct(Fields::Unit));
    assert_eq!(get_primitive_name(&none), Err(SchemaError::MissingPrimitive));
}

#[test]
fn primitive_name_has_to_be_an_identifier() {
    for text in ["not an identifier", "", "1abc", "a-b", "struct"] {
        let described = input(vec![primitive(text)], Data::Struct(Fields::Unit));
        assert_eq!(get_primitive_name(&described), Err(SchemaError::InvalidPrimitive));
    }
    for text in ["Kind", "_kind", "kind_2"] {
        let described = input(vec![primitive(text)], Data::Struct(Fields::Unit));
        assert_eq!(get_primitive_name(&described), Ok(text.to_string()));
    }
    let data = Data::Enum(vec![carrying("B", atom(AtomKind::U32))]);
    assert_eq!(
        derive_set_incoming(input(vec![primitive("no good")], data)),
        Err(SchemaError::InvalidPrimitive)
    );
}

#[test]
fn variant_with_an_ordinal_of_its_own_is_refused() {
    let mut second = carrying("B", atom(AtomKind::U32));
    second.has_discriminant = true;
    let data = Data::Enum(vec![unit("A"), second, unit("C")]);
    assert_eq!(
        derive_set_incoming(input(vec![primitive("Kind")], data)),
        Err(SchemaError::ExplicitOrdinal(1))
    );
    let mut first = unit("A");
    first.has_discriminant = true;
    let data = Data::Enum(vec![first, unit("B")]);
    assert_eq!(derive_set_outcoming(input(vec![], data)), Err(SchemaError::ExplicitOrdinal(0)));
}

#[test]
fn variant_with_more_than_one_payload_field_is_refused() {
    let two = Variant {
        name: "B".to_string(),
        fields: Fields::Unnamed(vec![atom(AtomKind::U32), atom(AtomKind::U32)]),
        has_discriminant: false,
    };
    let data = Data::Enum(vec![unit("A"), two]);
    assert_eq!(
        derive_set_incoming(input(vec![primitive("Kind")], data)),
        Err(SchemaError::PayloadFieldCount(1))
    );
    let none = Variant { name: "C".to_string(), fields: Fields::Unnamed(vec![]), has_discriminant: false };
    let data = Data::Enum(vec![carrying("B", atom(AtomKind::U8)), none]);
    assert_eq!(
        derive_set_outcoming(input(vec![primitive("Kind")], data)),
        Err(SchemaError::PayloadFieldCount(1))
    );
}

#[test]
fn variant_with_named_fields_is_refused() {
    let named = Variant {
        name: "B".to_string(),
        fields: Fields::Named(vec![Field { name: "x".to_string(), ty: atom(AtomKind::U32) }]),
        has_discriminant: false,
    };
    let data = Data::Enum(vec![named, unit("A")]);
    assert_eq!(
        derive_set_incoming(input(vec![primitive("Kind")], data)),
        Err(SchemaError::NamedPayload(0))
    );
}

#[test]
fn the_first_refusal_in_declared_order_is_reported() {
    let named = Variant {
        name: "B".to_string(),
        fields: Fields::Named(vec![Field { name: "x".to_string(), ty: atom(AtomKind::U32) }]),
        has_discriminant: false,
    };
    let mut numbered = unit("C");
    numbered.has_discriminant = true;
    let data = Data::Enum(vec![unit("A"), named, numbered]);
    assert_eq!(
        derive_set_incoming(input(vec![primitive("Kind")], data)),
        Err(SchemaError::NamedPayload(1))
    );
    let named = Variant {
        name: "B".to_string(),
        fields: Fields::Named(vec![Field { name: "x".to_string(), ty: atom(AtomKind::U32) }]),
        has_discriminant: false,
    };
    let data = Data::Enum(vec![named]);
    assert_eq!(derive_set_incoming(input(vec![], data)), Err(SchemaError::MissingPrimitive));
}

#[test]
fn untagged_union_is_refused() {
    assert_eq!(
        derive_set_incoming(input(vec![], Data::Union)),
        Err(SchemaError::UnionNotSupported)
    );
    assert_eq!(
        derive_set_outcoming(input(vec![primitive("Kind")], Data::Union)),
        Err(SchemaError::UnionNotSupported)
    );
}

#[test]
fn every_refusal_has_its_words() {
    assert!(SchemaError::UnionNotSupported.message().contains("unions not supported"));
    assert!(SchemaError::MissingPrimitive.message().contains("primitive type name"));
    assert!(SchemaError::InvalidPrimitive.message().contains("identifier"));
    assert!(SchemaError::ExplicitOrdinal(0).message().contains("discriminant"));
    assert!(SchemaError::PayloadFieldCount(0).message().contains("1 unnamed"));
    assert!(SchemaError::NamedPayload(0).message().contains("named variants"));
}

#[test]
fn the_description_is_generic_in_its_element_types() {
    let data: Data<&str> = Data::Enum(vec![
        Variant { name: "A".to_string(), fields: Fields::Unnamed(vec!["Vec<u8>"]), has_discriminant: false },
        Variant { name: "B".to_string(), fields: Fields::Unit, has_discriminant: false },
        Variant { name: "C".to_string(), fields: Fields::Unnamed(vec!["String"]), has_discriminant: false },
    ]);
    let described = DeriveInput { ident: "T".to_string(), attrs: vec![primitive("TKind")], data };
    let plan = derive_set_outcoming(described).unwrap();
    assert_eq!(plan.kind, Kind::TaggedUnion);
    assert_eq!(plan.terms(), vec![&"Vec<u8>", &"String"]);
}

fn person() -> Shape {
    Shape::Record(vec![
        atom(AtomKind::U32),
        atom(AtomKind::Text),
        Shape::Optional(Box::new(atom(AtomKind::I64))),
        Shape::Sequence(Box::new(Shape::Union(vec![None, Some(atom(AtomKind::Bytes))]))),
    ])
}

fn alice() -> Value {
    Value::Record(vec![
        Value::Atom(Atom::U32(7)),
        Value::Atom(Atom::Text("al".to_string())),
        Value::Optional(Some(Box::new(Value::Atom(Atom::I64(-1))))),
        Value::Sequence(vec![
            Value::Variant(0, None),
            Value::Variant(1, Some(Box::new(Value::Atom(Atom::Bytes(Bytes::new(vec![1, 2, 3, 4, 5])))))),
        ]),
    ])
}

#[test]
fn record_is_its_fields_in_declared_order() {
    let words = encoded(&alice());
    assert_eq!(
        words,
        vec![7, 2, 0x6c61, 1, u32::MAX, u32::MAX, 2, 0, 1, 5, 0x0403_0201, 5]
    );
    assert_eq!(decoded(&person(), &words), Ok(alice()));
    let mut slots = Slots::new(words.clone());
    assert_eq!(init(&person(), &mut slots), Ok(alice()));
    assert_eq!(slots.consumed(), words.len());
    assert_eq!(slots.into_words(), words);
}

#[test]
fn described_values_use_the_words_of_the_native_codecs() {
    let native: (u32, String, Option<i64>) = (7, "al".to_string(), Some(-1));
    let mut expected: Vec<u32> = Vec::new();
    wa_proto::Outcoming::args(&native, &mut expected).unwrap();
    let value = Value::Record(vec![
        Value::Atom(Atom::U32(7)),
        Value::Atom(Atom::Text("al".to_string())),
        Value::Optional(Some(Box::new(Value::Atom(Atom::I64(-1))))),
    ]);
    assert_eq!(encoded(&value), expected);
}

#[test]
fn decode_fails_as_the_field_that_fails() {
    assert_eq!(decoded(&person(), &[7, 2, 0x6c61]), Err(ProtocolError(ARGS_NEXT_ERROR)));
    assert_eq!(decoded(&person(), &[7, 1, 0xff]), Err(ProtocolError(STRING_FROM_BYTES_ERROR)));
    assert_eq!(
        decoded(&person(), &[7, 0, 0, 1, 2]),
        Err(ProtocolError(ENUM_FROM_U32_ERROR))
    );
    assert_eq!(decoded(&person(), &[7, 0, 0, 1, 1, 9]), Err(ProtocolError(ARGS_NEXT_ERROR)));
}

#[test]
fn every_leaf_kind_round_trips() {
    let cases: Vec<(AtomKind, Atom)> = vec![
        (AtomKind::Bool, Atom::Bool(true)),
        (AtomKind::U8, Atom::U8(200)),
        (AtomKind::I32, Atom::I32(-5)),
        (AtomKind::U32, Atom::U32(5)),
        (AtomKind::I64, Atom::I64(-5)),
        (AtomKind::U64, Atom::U64(5)),
        (AtomKind::Usize, Atom::Usize(5)),
        (AtomKind::Isize, Atom::Isize(5)),
        (AtomKind::Bytes, Atom::Bytes(Bytes::new(vec![1, 2, 3]))),
        (AtomKind::Text, Atom::Text("xyz".to_string())),
    ];
    for (kind, leaf) in cases {
        assert_eq!(leaf.kind(), kind);
        let value = Value::Atom(leaf);
        let words = encoded(&value);
        assert_eq!(decoded(&atom(kind), &words), Ok(value));
    }
}

#[test]
fn flags_are_the_or_over_the_parts() {
    assert!(!is_need_read(&person()));
    assert!(!is_need_init_fill(&person()));
    let reading = Shape::Record(vec![atom(AtomKind::U32), Shape::Optional(Box::new(atom(AtomKind::Resident)))]);
    assert!(is_need_read(&reading));
    assert!(!is_need_init_fill(&reading));
    let writing = Shape::Union(vec![None, Some(Shape::Sequence(Box::new(atom(AtomKind::Staged))))]);
    assert!(is_need_init_fill(&writing));
    assert!(!is_need_read(&writing));
    assert!(!is_need_read(&Shape::Union(vec![None, None])));
    assert!(!is_need_read(&Shape::Record(vec![])));
    assert!(AtomKind::Resident.is_need_read());
    assert!(AtomKind::Staged.is_need_init_fill());
    assert!(!AtomKind::Text.is_need_read());
    assert!(!AtomKind::Bytes.is_need_init_fill());
}

#[test]
fn resident_leaf_is_read_from_the_memory() {
    let shape = Shape::Record(vec![atom(AtomKind::U32), atom(AtomKind::Resident)]);
    let heap: Vec<u8> = vec![0, 0, 7, 8, 9];
    let words: Vec<u32> = vec![1, 3, 2];
    let mut it = words.iter();
    let expected = Value::Record(vec![
        Value::Atom(Atom::U32(1)),
        Value::Atom(Atom::Resident(Resident::at(2, vec![7, 8, 9]))),
    ]);
    assert_eq!(decode(&shape, &heap, &mut it), Ok(expected));
    assert_eq!(encoded(&Value::Atom(Atom::Resident(Resident::at(2, vec![7, 8, 9])))), vec![3, 2]);
    let mut it = words.iter();
    assert_eq!(decode(&shape, &[0u8; 4], &mut it), Err(ProtocolError(BYTES_INTO_ARR4_ERROR)));
}

#[test]
fn staged_leaf_goes_through_both_phases() {
    let shape = Shape::Record(vec![atom(AtomKind::Staged), atom(AtomKind::U32)]);
    let value = Value::Record(vec![
        Value::Atom(Atom::Staged(Staged::new(vec![4, 5, 6]))),
        Value::Atom(Atom::U32(9)),
    ]);
    let words = encoded(&value);
    assert_eq!(words, vec![3, 9]);
    let mut slots = Slots::new(words);
    let made = init(&shape, &mut slots).unwrap();
    let address = match &made {
        Value::Record(fields) => match &fields[0] {
            Value::Atom(Atom::Staged(room)) => {
                assert_eq!(room.as_slice(), &[0, 0, 0]);
                room.address()
            },
            _ => panic!("the first field is staged"),
        },
        _ => panic!("a record was asked for"),
    };
    assert_eq!(slots.into_words(), vec![address, 9]);
    let mut heap: Vec<u8> = vec![0; 8];
    let addressed: Vec<u32> = vec![1, 9, 55];
    let mut it = addressed.iter();
    assert_eq!(fill(&value, &mut heap, &mut it), Ok(()));
    assert_eq!(heap, vec![0, 4, 5, 6, 0, 0, 0, 0]);
    assert_eq!(it.next(), Some(&55));
}

#[test]
fn fill_passes_over_the_words_of_a_value_that_lives_in_the_stream() {
    let value = alice();
    let mut words = encoded(&value);
    words.push(99);
    let mut heap: Vec<u8> = vec![3; 4];
    let mut it = words.iter();
    assert_eq!(fill(&value, &mut heap, &mut it), Ok(()));
    assert_eq!(it.next(), Some(&99));
    assert_eq!(heap, vec![3; 4]);
    let mut it = words[..5].iter();
    assert_eq!(fill(&value, &mut heap, &mut it), Err(ProtocolError(ARGS_NEXT_ERROR)));
}

#[test]
fn leaves_of_the_other_direction_have_their_fixed_reading() {
    let mut it = [3u32].iter();
    assert_eq!(
        decode(&atom(AtomKind::Staged), &[], &mut it),
        Ok(Value::Atom(Atom::Staged(Staged::new(vec![0, 0, 0]))))
    );
    let mut slots = Slots::new(vec![0, 0]);
    assert_eq!(
        init(&atom(AtomKind::Resident), &mut slots),
        Ok(Value::Atom(Atom::Resident(Resident::at(0, vec![]))))
    );
    let mut slots = Slots::new(vec![1, 0]);
    assert_eq!(
        init(&atom(AtomKind::Resident), &mut slots),
        Err(ProtocolError(BYTES_INTO_ARR4_ERROR))
    );
    let resident = Value::Atom(Atom::Resident(Resident::at(2, vec![7])));
    let mut heap: Vec<u8> = vec![0; 4];
    let mut it = [1u32, 2, 5].iter();
    assert_eq!(fill(&resident, &mut heap, &mut it), Ok(()));
    assert_eq!(it.next(), Some(&5));
    assert_eq!(heap, vec![0; 4]);
}
