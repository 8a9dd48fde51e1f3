use std::collections::{BTreeMap, HashMap};
use std::hash::BuildHasherDefault;
use wa_proto::{
    Bytes, Incoming, Outcoming, ProtocolError, Slots, ARGS_NEXT_ERROR, MAP_INSERT_ERROR,
    STRING_FROM_BYTES_ERROR,
};

fn out_words<T: Outcoming>(value: &T) -> Vec<u32> {
    let mut args: Vec<u32> = Vec::new();
    Outcoming::args(value, &mut args).unwrap();
    args
}

fn in_words<T: Incoming>(value: &T) -> Vec<u32> {
    let mut args: Vec<u32> = Vec::new();
    Incoming::args(value, &mut args).unwrap();
    args
}

fn read_from<T: Outcoming>(words: &[u32]) -> Result<T, ProtocolError> {
    let heap: Vec<u8> = Vec::new();
    let mut it = words.iter();
    <T as Outcoming>::read(&heap, &mut it)
}

fn init_from<T: Incoming>(words: &[u32]) -> Result<(u32, T), ProtocolError> {
    let mut slots = Slots::new(words.to_vec());
    <T as Incoming>::init(&mut slots)
}

fn fill_over<T: Incoming>(value: &T, words: &[u32]) -> Result<usize, ProtocolError> {
    let mut heap: Vec<u8> = vec![7; 8];
    let mut it = words.iter();
    value.fill(&mut heap, &mut it)?;
    assert_eq!(heap, vec![7; 8]);
    Ok(it.count())
}

#[test]
fn optional_round_trips() {
    let present: Option<u64> = Some(9);
    let absent: Option<u64> = None;
    assert_eq!(out_words(&present), vec![1, 9, 0]);
    assert_eq!(read_from::<Option<u64>>(&[1, 9, 0]), Ok(present));
    assert_eq!(read_from::<Option<u64>>(&[0, 9, 0]), Ok(absent));
    assert_eq!(read_from::<Option<u64>>(&[42, 9, 0]), Ok(present));
    assert_eq!(init_from::<Option<u32>>(&[1, 9]), Ok((9, Some(9))));
    assert_eq!(init_from::<Option<u32>>(&[0]), Ok((0, None)));
}

#[test]
fn optional_fails_where_the_stream_ends() {
    let ended = ProtocolError(ARGS_NEXT_ERROR);
    assert_eq!(read_from::<Option<u32>>(&[]), Err(ended));
    assert_eq!(read_from::<Option<u32>>(&[1]), Err(ended));
    assert_eq!(read_from::<Option<u64>>(&[1, 2]), Err(ended));
}

#[test]
fn sequence_round_trips() {
    let items: Vec<u64> = vec![1, 2];
    assert_eq!(out_words(&items), vec![2, 1, 0, 2, 0]);
    assert_eq!(read_from::<Vec<u64>>(&[2, 1, 0, 2, 0]), Ok(items.clone()));
    assert_eq!(init_from::<Vec<u64>>(&[2, 1, 0, 2, 0]), Ok((0, items)));
    let empty: Vec<u32> = Vec::new();
    assert_eq!(out_words(&empty), vec![0]);
    assert_eq!(read_from::<Vec<u32>>(&[0]), Ok(empty));
}

#[test]
fn sequence_fails_where_an_item_is_missing() {
    let ended = ProtocolError(ARGS_NEXT_ERROR);
    assert_eq!(read_from::<Vec<u32>>(&[]), Err(ended));
    assert_eq!(read_from::<Vec<u32>>(&[3, 1, 2]), Err(ended));
    assert_eq!(read_from::<Vec<u32>>(&[u32::MAX]), Err(ended));
    assert_eq!(init_from::<Vec<u32>>(&[2, 1]).err(), Some(ended));
}

#[test]
fn sequence_passes_on_the_failure_of_an_item() {
    assert_eq!(
        read_from::<Vec<String>>(&[2, 1, 0x61, 1, 0xff]),
        Err(ProtocolError(STRING_FROM_BYTES_ERROR))
    );
}

#[test]
fn tuples_are_their_components_in_order() {
    let pair: (u32, bool) = (7, true);
    assert_eq!(out_words(&pair), vec![7, 1]);
    assert_eq!(in_words(&pair), vec![7, 1]);
    assert_eq!(read_from::<(u32, bool)>(&[7, 1]), Ok(pair));
    let triple: (u8, u64, String) = (1, 2, "a".to_string());
    assert_eq!(out_words(&triple), vec![1, 2, 0, 1, 0x61]);
    assert_eq!(read_from::<(u8, u64, String)>(&[1, 2, 0, 1, 0x61]), Ok(triple.clone()));
    assert_eq!(init_from::<(u8, u64, String)>(&[1, 2, 0, 1, 0x61]), Ok((0, triple)));
    let four: (bool, bool, u32, Option<u32>) = (false, true, 3, Some(4));
    assert_eq!(out_words(&four), vec![0, 1, 3, 1, 4]);
    assert_eq!(read_from::<(bool, bool, u32, Option<u32>)>(&[0, 1, 3, 1, 4]), Ok(four));
}

#[test]
fn tuple_fails_at_the_first_component_that_fails() {
    assert_eq!(read_from::<(u32, u32)>(&[1]), Err(ProtocolError(ARGS_NEXT_ERROR)));
    assert_eq!(
        read_from::<(String, u32)>(&[1, 0xff]),
        Err(ProtocolError(STRING_FROM_BYTES_ERROR))
    );
}

#[test]
fn boxed_value_adds_nothing() {
    let boxed: Box<u32> = Box::new(5);
    assert_eq!(out_words(&boxed), vec![5]);
    assert_eq!(in_words(&boxed), vec![5]);
    assert_eq!(read_from::<Box<u32>>(&[5]), Ok(boxed.clone()));
    assert_eq!(init_from::<Box<u32>>(&[5]), Ok((0, boxed)));
}

#[test]
fn nesting_goes_to_any_depth() {
    let value: Vec<Option<(String, Vec<u8>)>> =
        vec![None, Some(("ab".to_string(), vec![1, 2, 3])), Some((String::new(), vec![]))];
    let words = out_words(&value);
    assert_eq!(words, vec![3, 0, 1, 2, 0x6261, 3, 1, 2, 3, 1, 0, 0]);
    assert_eq!(in_words(&value), words);
    assert_eq!(read_from::<Vec<Option<(String, Vec<u8>)>>>(&words), Ok(value.clone()));
    assert_eq!(init_from::<Vec<Option<(String, Vec<u8>)>>>(&words), Ok((0, value.clone())));
    assert_eq!(fill_over(&value, &words), Ok(0));
    let deep: Box<Vec<Vec<Option<Box<u64>>>>> = Box::new(vec![vec![Some(Box::new(3))], vec![]]);
    let words = out_words(&deep);
    assert_eq!(words, vec![2, 1, 1, 3, 0, 0]);
    assert_eq!(read_from::<Box<Vec<Vec<Option<Box<u64>>>>>>(&words), Ok(deep));
}

#[test]
fn fill_passes_over_exactly_the_words_of_the_value() {
    let value: (Vec<u64>, Option<Bytes>) = (vec![1, 2], Some(Bytes::new(vec![1, 2, 3, 4, 5])));
    let mut words = in_words(&value);
    assert_eq!(words.len(), 5 + 1 + 3);
    words.push(99);
    assert_eq!(fill_over(&value, &words), Ok(1));
    words.truncate(4);
    assert_eq!(fill_over(&value, &words), Err(ProtocolError(ARGS_NEXT_ERROR)));
}

#[test]
fn ordered_map_lists_its_entries_by_key() {
    let mut map: BTreeMap<u32, String> = BTreeMap::new();
    map.insert(30, "c".to_string());
    map.insert(10, "a".to_string());
    map.insert(20, "b".to_string());
    let words = out_words(&map);
    assert_eq!(words, vec![3, 10, 1, 0x61, 20, 1, 0x62, 30, 1, 0x63]);
    assert_eq!(in_words(&map), words);
    assert_eq!(read_from::<BTreeMap<u32, String>>(&words), Ok(map.clone()));
    assert_eq!(init_from::<BTreeMap<u32, String>>(&words), Ok((0, map.clone())));
    assert_eq!(fill_over(&map, &words), Ok(0));
}

#[test]
fn ordered_map_is_decoded_from_any_order() {
    let mut map: BTreeMap<u32, u32> = BTreeMap::new();
    map.insert(1, 10);
    map.insert(2, 20);
    assert_eq!(read_from::<BTreeMap<u32, u32>>(&[2, 2, 20, 1, 10]), Ok(map.clone()));
    assert_eq!(read_from::<BTreeMap<u32, u32>>(&[2, 1, 10, 2, 20]), Ok(map));
    assert_eq!(read_from::<BTreeMap<u32, u32>>(&[0]), Ok(BTreeMap::new()));
}

#[test]
fn map_refuses_a_repeated_key() {
    let repeated = ProtocolError(MAP_INSERT_ERROR);
    assert_eq!(read_from::<BTreeMap<u32, u32>>(&[2, 1, 10, 1, 20]), Err(repeated));
    assert_eq!(read_from::<HashMap<u32, u32>>(&[2, 1, 10, 1, 20]), Err(repeated));
    assert_eq!(read_from::<BTreeMap<u32, u32>>(&[3, 1, 10, 2, 20, 1, 10]), Err(repeated));
    assert_eq!(init_from::<BTreeMap<u32, u32>>(&[2, 1, 10, 1, 10]).err(), Some(repeated));
    assert_eq!(init_from::<HashMap<u32, u32>>(&[2, 1, 10, 1, 10]).err(), Some(repeated));
}

#[test]
fn map_fails_before_it_looks_at_a_later_repeated_key() {
    let ended = ProtocolError(ARGS_NEXT_ERROR);
    assert_eq!(read_from::<BTreeMap<u32, u32>>(&[]), Err(ended));
    assert_eq!(read_from::<BTreeMap<u32, u32>>(&[2, 1, 10, 1]), Err(ended));
    assert_eq!(read_from::<HashMap<u32, u32>>(&[1, 1]), Err(ended));
}

#[test]
fn hashed_map_round_trips_in_whatever_order_it_lists() {
    let mut map: HashMap<u32, Vec<u8>> = HashMap::new();
    for key in 0..40u32 {
        map.insert(key * 7919, vec![key as u8; (key % 5) as usize]);
    }
    let words = out_words(&map);
    assert_eq!(words[0], 40);
    assert_eq!(in_words(&map), words);
    assert_eq!(read_from::<HashMap<u32, Vec<u8>>>(&words), Ok(map.clone()));
    assert_eq!(init_from::<HashMap<u32, Vec<u8>>>(&words), Ok((0, map.clone())));
    assert_eq!(fill_over(&map, &words), Ok(0));
}

#[test]
fn hashed_map_is_decoded_from_any_order() {
    let mut map: HashMap<u64, bool> = HashMap::new();
    map.insert(1, true);
    map.insert(2, false);
    assert_eq!(read_from::<HashMap<u64, bool>>(&[2, 2, 0, 0, 1, 0, 1]), Ok(map.clone()));
    assert_eq!(read_from::<HashMap<u64, bool>>(&[2, 1, 0, 1, 2, 0, 0]), Ok(map));
}

#[test]
fn hashed_map_takes_any_hashing_strategy() {
    type FxHashMap<K, V> = HashMap<K, V, BuildHasherDefault<rustc_hash::FxHasher>>;
    let mut map: FxHashMap<u32, u32> = FxHashMap::default();
    map.insert(5, 50);
    map.insert(6, 60);
    map.insert(7, 70);
    let words = out_words(&map);
    assert_eq!(words.len(), 7);
    assert_eq!(read_from::<FxHashMap<u32, u32>>(&words), Ok(map.clone()));
    assert_eq!(init_from::<FxHashMap<u32, u32>>(&words), Ok((0, map)));
    assert_eq!(
        read_from::<FxHashMap<u32, u32>>(&[2, 5, 50, 5, 51]),
        Err(ProtocolError(MAP_INSERT_ERROR))
    );
}

#[test]
fn container_flags_are_those_of_their_parts() {
    assert!(!<Option<u32> as Outcoming>::IS_NEED_READ);
    assert!(!<Vec<String> as Incoming>::IS_NEED_INIT_FILL);
    assert!(!<(u32, String) as Outcoming>::IS_NEED_READ);
    assert!(!<BTreeMap<u32, u32> as Incoming>::IS_NEED_INIT_FILL);
    assert!(<Vec<wa_proto::Resident> as Outcoming>::IS_NEED_READ);
    assert!(<Option<wa_proto::Staged> as Incoming>::IS_NEED_INIT_FILL);
    assert!(<(u32, wa_proto::Resident) as Outcoming>::IS_NEED_READ);
    assert!(<(u32, u8, wa_proto::Staged) as Incoming>::IS_NEED_INIT_FILL);
    assert!(<(u32, u8, bool, wa_proto::Resident) as Outcoming>::IS_NEED_READ);
    assert!(<Box<wa_proto::Staged> as Incoming>::IS_NEED_INIT_FILL);
    assert!(<HashMap<u32, wa_proto::Resident> as Outcoming>::IS_NEED_READ);
    assert!(<BTreeMap<u32, wa_proto::Staged> as Incoming>::IS_NEED_INIT_FILL);
}
