use wa_proto::packing::{join_u64, pack_word, split_u64, swap_word, word_byte};
use wa_proto::{Incoming, Outcoming, ProtocolError, Slots, ARGS_NEXT_ERROR};

fn out_words<T: Outcoming>(value: &T) -> Vec<u32> {
    let mut args: Vec<u32> = Vec::new();
    Outcoming::args(value, &mut args).unwrap();
    args
}

fn in_words<T: Incoming>(value: &T) -> Vec<u32> {
    let mut args: Vec<u32> = Vec::new();
    Incoming::args(value, &mut args).unwrap();
    args
}

fn read_from<T: Outcoming>(words: &[u32]) -> Result<T, ProtocolError> {
    let heap: Vec<u8> = Vec::new();
    let mut it = words.iter();
    <T as Outcoming>::read(&heap, &mut it)
}

fn init_from<T: Incoming>(words: &[u32]) -> Result<(u32, T), ProtocolError> {
    let mut slots = Slots::new(words.to_vec());
    <T as Incoming>::init(&mut slots)
}

#[test]
fn pack_puts_the_first_byte_lowest() {
    assert_eq!(pack_word(0x11, 0x22, 0x33, 0x44), 0x4433_2211);
    assert_eq!(pack_word(1, 2, 3, 4), u32::from_le_bytes([1, 2, 3, 4]));
    assert_eq!(word_byte(0x4433_2211, 0), 0x11);
    assert_eq!(word_byte(0x4433_2211, 1), 0x22);
    assert_eq!(word_byte(0x4433_2211, 2), 0x33);
    assert_eq!(word_byte(0x4433_2211, 3), 0x44);
    assert_eq!(word_byte(0x4433_2211, 9), 0x44);
}

#[test]
fn swap_reverses_the_bytes() {
    assert_eq!(swap_word(0x0102_0304), 0x0403_0201);
    assert_eq!(swap_word(0x0102_0304), 0x0102_0304u32.swap_bytes());
    assert_eq!(swap_word(swap_word(0xdead_beef)), 0xdead_beef);
}

#[test]
fn split_and_join_are_inverse() {
    assert_eq!(split_u64(0x0102_0304_0506_0708), (0x0506_0708, 0x0102_0304));
    assert_eq!(join_u64(0x0506_0708, 0x0102_0304), 0x0102_0304_0506_0708);
}

#[test]
fn bool_words() {
    assert_eq!(out_words(&false), vec![0]);
    assert_eq!(out_words(&true), vec![1]);
    assert_eq!(in_words(&false), vec![0]);
}

#[test]
fn any_nonzero_word_is_true() {
    assert_eq!(read_from::<bool>(&[0]), Ok(false));
    assert_eq!(read_from::<bool>(&[1]), Ok(true));
    assert_eq!(read_from::<bool>(&[2]), Ok(true));
    assert_eq!(read_from::<bool>(&[u32::MAX]), Ok(true));
}

#[test]
fn u8_takes_the_low_byte() {
    assert_eq!(out_words(&0xabu8), vec![0xab]);
    assert_eq!(read_from::<u8>(&[0xab]), Ok(0xab));
    assert_eq!(read_from::<u8>(&[0x1ff]), Ok(0xff));
}

#[test]
fn i32_travels_as_its_bits() {
    assert_eq!(out_words(&-1i32), vec![u32::MAX]);
    assert_eq!(out_words(&i32::MIN), vec![0x8000_0000]);
    assert_eq!(read_from::<i32>(&[u32::MAX]), Ok(-1));
    assert_eq!(read_from::<i32>(&[0x8000_0000]), Ok(i32::MIN));
    assert_eq!(read_from::<i32>(&[7]), Ok(7));
}

#[test]
fn u32_travels_as_itself() {
    assert_eq!(out_words(&0xdead_beefu32), vec![0xdead_beef]);
    assert_eq!(read_from::<u32>(&[0xdead_beef]), Ok(0xdead_beef));
}

#[test]
fn u64_is_low_word_then_high_word() {
    assert_eq!(out_words(&0x0102_0304_0506_0708u64), vec![0x0506_0708, 0x0102_0304]);
    assert_eq!(in_words(&0x0102_0304_0506_0708u64), vec![0x0506_0708, 0x0102_0304]);
    assert_eq!(out_words(&5u64), vec![5, 0]);
}

#[test]
fn u64_decode_reverses_the_bytes_of_the_high_word() {
    assert_eq!(read_from::<u64>(&[0x0506_0708, 0x0102_0304]), Ok(0x0403_0201_0506_0708));
    assert_eq!(read_from::<u64>(&[0, 1]), Ok(0x0100_0000_0000_0000));
    let (_, sandbox) = init_from::<u64>(&[0x0506_0708, 0x0102_0304]).unwrap();
    assert_eq!(sandbox, 0x0403_0201_0506_0708);
}

#[test]
fn u64_round_trips_where_the_high_word_is_symmetric() {
    for value in [0u64, 7, u32::MAX as u64, 0x0102_0201_0000_0007, u64::MAX] {
        let words = out_words(&value);
        assert_eq!(read_from::<u64>(&words), Ok(value));
    }
    let lost = 1u64 << 32;
    assert_ne!(read_from::<u64>(&out_words(&lost)), Ok(lost));
}

#[test]
fn i64_travels_as_its_bits() {
    assert_eq!(out_words(&-1i64), vec![u32::MAX, u32::MAX]);
    assert_eq!(out_words(&-2i64), vec![0xffff_fffe, u32::MAX]);
    assert_eq!(read_from::<i64>(&[0xffff_fffe, u32::MAX]), Ok(-2));
    assert_eq!(read_from::<i64>(&[5, 0]), Ok(5));
    assert_eq!(read_from::<i64>(&[0, 0x80]), Ok(i64::MIN));
}

#[test]
fn usize_and_isize_take_one_word() {
    assert_eq!(out_words(&9usize), vec![9]);
    assert_eq!(read_from::<usize>(&[9]), Ok(9));
    assert_eq!(out_words(&9isize), vec![9]);
    assert_eq!(read_from::<isize>(&[9]), Ok(9));
    assert_eq!(out_words(&-1isize), vec![u32::MAX]);
}

#[test]
fn scalars_fail_on_a_stream_that_has_ended() {
    let ended = ProtocolError(ARGS_NEXT_ERROR);
    assert_eq!(read_from::<bool>(&[]), Err(ended));
    assert_eq!(read_from::<u8>(&[]), Err(ended));
    assert_eq!(read_from::<i32>(&[]), Err(ended));
    assert_eq!(read_from::<u32>(&[]), Err(ended));
    assert_eq!(read_from::<usize>(&[]), Err(ended));
    assert_eq!(read_from::<isize>(&[]), Err(ended));
    assert_eq!(read_from::<u64>(&[]), Err(ended));
    assert_eq!(read_from::<u64>(&[1]), Err(ended));
    assert_eq!(read_from::<i64>(&[1]), Err(ended));
    assert_eq!(init_from::<u32>(&[]).err(), Some(ended));
    assert_eq!(init_from::<i64>(&[1]).err(), Some(ended));
}

#[test]
fn decode_takes_exactly_its_words() {
    let heap: Vec<u8> = Vec::new();
    let words: Vec<u32> = vec![1, 2, 3, 4];
    let mut it = words.iter();
    assert_eq!(<u32 as Outcoming>::read(&heap, &mut it), Ok(1));
    assert_eq!(<u64 as Outcoming>::read(&heap, &mut it), Ok(2 | (0x0300_0000u64 << 32)));
    assert_eq!(it.next(), Some(&4));
}

#[test]
fn init_hands_back_the_word_for_small_scalars() {
    assert_eq!(init_from::<bool>(&[3]), Ok((3, true)));
    assert_eq!(init_from::<u8>(&[0x1ff]), Ok((0x1ff, 0xff)));
    assert_eq!(init_from::<i32>(&[u32::MAX]), Ok((u32::MAX, -1)));
    assert_eq!(init_from::<u32>(&[8]), Ok((8, 8)));
    assert_eq!(init_from::<usize>(&[8]), Ok((0, 8)));
    assert_eq!(init_from::<isize>(&[8]), Ok((0, 8)));
    assert_eq!(init_from::<i64>(&[8, 0]), Ok((0, 8)));
}

#[test]
fn init_leaves_the_slots_and_moves_the_cursor() {
    let mut slots = Slots::new(vec![1, 2, 3]);
    assert_eq!(<u32 as Incoming>::init(&mut slots), Ok((1, 1)));
    assert_eq!(slots.consumed(), 1);
    assert_eq!(<u64 as Incoming>::init(&mut slots), Ok((0, 2 | (0x0300_0000u64 << 32))));
    assert_eq!(slots.consumed(), 3);
    assert_eq!(slots.into_words(), vec![1, 2, 3]);
}

#[test]
fn fill_passes_over_the_words_of_a_scalar() {
    let mut heap: Vec<u8> = vec![9, 9];
    let words: Vec<u32> = vec![1, 2, 3, 4];
    let mut it = words.iter();
    assert_eq!(true.fill(&mut heap, &mut it), Ok(()));
    assert_eq!(7u64.fill(&mut heap, &mut it), Ok(()));
    assert_eq!(it.next(), Some(&4));
    assert_eq!(7u64.fill(&mut heap, &mut it), Err(ProtocolError(ARGS_NEXT_ERROR)));
    assert_eq!(heap, vec![9, 9]);
}

#[test]
fn scalar_flags_are_off() {
    assert!(!<bool as Incoming>::IS_NEED_INIT_FILL);
    assert!(!<u64 as Incoming>::IS_NEED_INIT_FILL);
    assert!(!<i32 as Outcoming>::IS_NEED_READ);
    assert!(!<usize as Outcoming>::IS_NEED_READ);
}
