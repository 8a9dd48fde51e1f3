use std::collections::BTreeMap;
use wa_proto::atom::{Atom, AtomKind};
use wa_proto::dynamic::{
    decode, encode, fill, holds_key, init, is_need_init_fill, is_need_read, same_atom, same_bytes,
    same_value,
};
use wa_proto::shape::{Shape, Value};
use wa_proto::{
    Bytes, Outcoming, ProtocolError, Resident, Slots, Staged, ARGS_NEXT_ERROR, MAP_INSERT_ERROR,
};

fn word(n: u32) -> Value {
    Value::Atom(Atom::U32(n))
}

fn text(s: &str) -> Value {
    Value::Atom(Atom::Text(s.to_string()))
}

fn names() -> Shape {
    Shape::Mapping(Box::new(Shape::Atom(AtomKind::U32)), Box::new(Shape::Atom(AtomKind::Text)))
}

fn encoded(value: &Value) -> Vec<u32> {
    let mut args: Vec<u32> = Vec::new();
    encode(value, &mut args);
    args
}

fn decoded(shape: &Shape, words: &[u32]) -> Result<Value, ProtocolError> {
    let heap: Vec<u8> = Vec::new();
    let mut it = words.iter();
    decode(shape, &heap, &mut it)
}

#[test]
fn described_map_is_length_then_entries() {
    let value = Value::Mapping(vec![(word(2), text("b")), (word(1), text("a"))]);
    let words = encoded(&value);
    assert_eq!(words, vec![2, 2, 1, 0x62, 1, 1, 0x61]);
    assert_eq!(decoded(&names(), &words), Ok(value));
    assert_eq!(decoded(&names(), &[0]), Ok(Value::Mapping(vec![])));
}

#[test]
fn described_map_uses_the_words_of_the_native_map() {
    let mut native: BTreeMap<u32, String> = BTreeMap::new();
    native.insert(1, "a".to_string());
    native.insert(2, "b".to_string());
    let mut expected: Vec<u32> = Vec::new();
    Outcoming::args(&native, &mut expected).unwrap();
    let value = Value::Mapping(vec![(word(1), text("a")), (word(2), text("b"))]);
    assert_eq!(encoded(&value), expected);
}

#[test]
fn described_map_refuses_a_repeated_key() {
    let repeated = ProtocolError(MAP_INSERT_ERROR);
    assert_eq!(decoded(&names(), &[2, 1, 0, 1, 0]), Err(repeated));
    assert_eq!(decoded(&names(), &[3, 1, 0, 2, 0, 1, 1, 0x61]), Err(repeated));
    let mut slots = Slots::new(vec![2, 1, 0, 1, 0]);
    assert_eq!(init(&names(), &mut slots), Err(repeated));
    assert_eq!(decoded(&names(), &[2, 1, 0, 1]), Err(ProtocolError(ARGS_NEXT_ERROR)));
    assert_eq!(decoded(&names(), &[2, 1, 0]), Err(ProtocolError(ARGS_NEXT_ERROR)));
}

#[test]
fn described_map_goes_through_init_and_fill() {
    let value = Value::Mapping(vec![(word(7), text("seven")), (word(8), text(""))]);
    let words = encoded(&value);
    let mut slots = Slots::new(words.clone());
    assert_eq!(init(&names(), &mut slots), Ok(value));
    assert_eq!(slots.into_words(), words);
    let value = Value::Mapping(vec![(word(7), text("seven")), (word(8), text(""))]);
    let mut heap: Vec<u8> = vec![1; 4];
    let mut with_more = words.clone();
    with_more.push(42);
    let mut it = with_more.iter();
    assert_eq!(fill(&value, &mut heap, &mut it), Ok(()));
    assert_eq!(it.next(), Some(&42));
    assert_eq!(heap, vec![1; 4]);
    let mut it = words[..3].iter();
    assert_eq!(fill(&value, &mut heap, &mut it), Err(ProtocolError(ARGS_NEXT_ERROR)));
}

#[test]
fn described_map_of_staged_values_is_filled_entry_by_entry() {
    let value = Value::Mapping(vec![
        (word(1), Value::Atom(Atom::Staged(Staged::new(vec![5, 6])))),
        (word(2), Value::Atom(Atom::Staged(Staged::new(vec![7])))),
    ]);
    assert_eq!(encoded(&value), vec![2, 1, 2, 2, 1]);
    let mut heap: Vec<u8> = vec![0; 6];
    let addressed: Vec<u32> = vec![2, 1, 3, 2, 0];
    let mut it = addressed.iter();
    assert_eq!(fill(&value, &mut heap, &mut it), Ok(()));
    assert_eq!(heap, vec![7, 0, 0, 5, 6, 0]);
}

#[test]
fn described_map_flags_are_those_of_key_and_value() {
    assert!(!is_need_read(&names()));
    assert!(!is_need_init_fill(&names()));
    let reading = Shape::Mapping(
        Box::new(Shape::Atom(AtomKind::U32)),
        Box::new(Shape::Atom(AtomKind::Resident)),
    );
    assert!(is_need_read(&reading));
    let writing = Shape::Mapping(
        Box::new(Shape::Atom(AtomKind::Staged)),
        Box::new(Shape::Atom(AtomKind::U32)),
    );
    assert!(is_need_init_fill(&writing));
    assert!(!is_need_read(&writing));
}

#[test]
fn keys_are_compared_as_values() {
    let entries = vec![
        (Value::Sequence(vec![word(1), word(2)]), word(0)),
        (Value::Optional(None), word(0)),
    ];
    assert!(holds_key(&entries, &Value::Sequence(vec![word(1), word(2)])));
    assert!(holds_key(&entries, &Value::Optional(None)));
    assert!(!holds_key(&entries, &Value::Sequence(vec![word(2), word(1)])));
    assert!(!holds_key(&entries, &Value::Sequence(vec![word(1)])));
    assert!(!holds_key(&entries, &Value::Optional(Some(Box::new(word(1))))));
    assert!(!holds_key(&vec![], &word(1)));
}

#[test]
fn values_are_the_same_where_they_hold_the_same() {
    assert!(same_bytes(&[1, 2], &[1, 2]));
    assert!(!same_bytes(&[1, 2], &[1, 3]));
    assert!(!same_bytes(&[1, 2], &[1]));
    assert!(same_atom(&Atom::Bytes(Bytes::new(vec![1])), &Atom::Bytes(Bytes::new(vec![1]))));
    assert!(!same_atom(&Atom::U32(1), &Atom::I32(1)));
    assert!(!same_atom(&Atom::U64(1), &Atom::U64(2)));
    assert!(same_atom(
        &Atom::Resident(Resident::at(1, vec![2])),
        &Atom::Resident(Resident::at(1, vec![2]))
    ));
    assert!(!same_atom(
        &Atom::Resident(Resident::at(1, vec![2])),
        &Atom::Resident(Resident::at(3, vec![2]))
    ));
    let record = |n: u32| {
        Value::Record(vec![
            word(n),
            Value::Variant(1, Some(Box::new(text("x")))),
            Value::Mapping(vec![(word(1), Value::Variant(0, None))]),
        ])
    };
    assert!(same_value(&record(1), &record(1)));
    assert!(!same_value(&record(1), &record(2)));
    assert!(!same_value(&Value::Variant(0, None), &Value::Variant(1, None)));
    assert!(!same_value(&Value::Variant(0, None), &Value::Variant(0, Some(Box::new(word(1))))));
    assert!(!same_value(&Value::Sequence(vec![]), &Value::Record(vec![])));
    assert!(!same_value(
        &Value::Mapping(vec![(word(1), word(2))]),
        &Value::Mapping(vec![(word(1), word(3))])
    ));
}
