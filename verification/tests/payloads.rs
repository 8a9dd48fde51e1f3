use wa_proto::bytes::{bytes_word_count, push_bytes, read_bytes};
use wa_proto::packing::chunk_words;
use wa_proto::{
    Bytes, Incoming, Outcoming, ProtocolError, Slots, ARGS_NEXT_ERROR, STRING_FROM_BYTES_ERROR,
};

fn words_of(bytes: &[u8]) -> Vec<u32> {
    let mut args: Vec<u32> = Vec::new();
    push_bytes(bytes, &mut args);
    args
}

fn bytes_from(words: &[u32]) -> Result<Vec<u8>, ProtocolError> {
    let mut it = words.iter();
    read_bytes(&mut it)
}

#[test]
fn empty_payload_is_the_length_word_alone() {
    assert_eq!(words_of(&[]), vec![0]);
    assert_eq!(bytes_from(&[0]), Ok(vec![]));
    assert_eq!(chunk_words(0), 0);
    assert_eq!(bytes_word_count(0), 1);
}

#[test]
fn multiple_of_four_has_no_partial_word() {
    assert_eq!(words_of(&[1, 2, 3, 4]), vec![4, 0x0403_0201]);
    assert_eq!(
        words_of(&[1, 2, 3, 4, 5, 6, 7, 8]),
        vec![8, 0x0403_0201, 0x0807_0605]
    );
    assert_eq!(chunk_words(4), 1);
    assert_eq!(chunk_words(8), 2);
}

#[test]
fn other_lengths_have_one_partial_word_padded_with_zero() {
    assert_eq!(words_of(&[1]), vec![1, 0x0000_0001]);
    assert_eq!(words_of(&[1, 2]), vec![2, 0x0000_0201]);
    assert_eq!(words_of(&[1, 2, 3]), vec![3, 0x0003_0201]);
    assert_eq!(words_of(&[1, 2, 3, 4, 5]), vec![5, 0x0403_0201, 0x0000_0005]);
    assert_eq!(words_of(&[1, 2, 3, 4, 5, 6]), vec![6, 0x0403_0201, 0x0000_0605]);
    assert_eq!(words_of(&[1, 2, 3, 4, 5, 6, 7]), vec![7, 0x0403_0201, 0x0007_0605]);
    assert_eq!(chunk_words(1), 1);
    assert_eq!(chunk_words(5), 2);
    assert_eq!(chunk_words(7), 2);
}

#[test]
fn payload_round_trips_at_every_length_up_to_twenty() {
    for len in 0..=20usize {
        let bytes: Vec<u8> = (0..len).map(|i| (i as u8).wrapping_mul(37).wrapping_add(1)).collect();
        let words = words_of(&bytes);
        assert_eq!(words.len(), 1 + (len + 3) / 4);
        assert_eq!(words[0], len as u32);
        assert_eq!(bytes_from(&words), Ok(bytes));
    }
}

#[test]
fn equal_lengths_have_equal_layout() {
    let first = words_of(&[1, 2, 3, 4, 5]);
    let second = words_of(&[9, 8, 7, 6, 5]);
    assert_eq!(first.len(), second.len());
    assert_eq!(first[0], second[0]);
}

#[test]
fn padding_is_ignored_on_decode() {
    assert_eq!(bytes_from(&[1, 0xffff_ff07]), Ok(vec![7]));
    assert_eq!(bytes_from(&[2, 0xffff_0807]), Ok(vec![7, 8]));
    assert_eq!(bytes_from(&[3, 0xff09_0807]), Ok(vec![7, 8, 9]));
    assert_eq!(bytes_from(&[5, 0x0403_0201, 0xaabb_cc05]), Ok(vec![1, 2, 3, 4, 5]));
}

#[test]
fn payload_fails_where_the_stream_ends_early() {
    let ended = ProtocolError(ARGS_NEXT_ERROR);
    assert_eq!(bytes_from(&[]), Err(ended));
    assert_eq!(bytes_from(&[1]), Err(ended));
    assert_eq!(bytes_from(&[4]), Err(ended));
    assert_eq!(bytes_from(&[5, 1]), Err(ended));
    assert_eq!(bytes_from(&[u32::MAX, 1, 2, 3]), Err(ended));
}

#[test]
fn decode_leaves_what_follows_the_payload() {
    let words: Vec<u32> = vec![2, 0x0201, 77];
    let mut it = words.iter();
    assert_eq!(read_bytes(&mut it), Ok(vec![1, 2]));
    assert_eq!(it.next(), Some(&77));
}

#[test]
fn bytes_value_travels_both_ways() {
    let payload = Bytes::new(vec![1, 2, 3, 4, 5]);
    assert_eq!(payload.len(), 5);
    assert_eq!(payload.as_slice(), &[1, 2, 3, 4, 5]);
    let mut out: Vec<u32> = Vec::new();
    Outcoming::args(&payload, &mut out).unwrap();
    assert_eq!(out, vec![5, 0x0403_0201, 5]);
    let mut host: Vec<u32> = Vec::new();
    Incoming::args(&payload, &mut host).unwrap();
    assert_eq!(host, out);
    let heap: Vec<u8> = Vec::new();
    let mut it = out.iter();
    assert_eq!(<Bytes as Outcoming>::read(&heap, &mut it), Ok(payload.clone()));
    let mut slots = Slots::new(out.clone());
    assert_eq!(<Bytes as Incoming>::init(&mut slots), Ok((0, payload.clone())));
    assert_eq!(slots.into_words(), out);
    assert_eq!(payload.into_vec(), vec![1, 2, 3, 4, 5]);
    assert_eq!(Bytes::default().len(), 0);
}

#[test]
fn fill_passes_over_the_words_of_a_payload() {
    let payload = Bytes::new(vec![1, 2, 3, 4, 5]);
    let mut heap: Vec<u8> = vec![0; 4];
    let words: Vec<u32> = vec![5, 0, 0, 99];
    let mut it = words.iter();
    assert_eq!(payload.fill(&mut heap, &mut it), Ok(()));
    assert_eq!(it.next(), Some(&99));
    let short: Vec<u32> = vec![5, 0];
    let mut it = short.iter();
    assert_eq!(payload.fill(&mut heap, &mut it), Err(ProtocolError(ARGS_NEXT_ERROR)));
    assert_eq!(heap, vec![0; 4]);
}

#[test]
fn text_travels_as_its_utf8_bytes() {
    let text = "héllo".to_string();
    let mut out: Vec<u32> = Vec::new();
    Outcoming::args(&text, &mut out).unwrap();
    assert_eq!(out[0], 6);
    assert_eq!(out, words_of(text.as_bytes()));
    let heap: Vec<u8> = Vec::new();
    let mut it = out.iter();
    assert_eq!(<String as Outcoming>::read(&heap, &mut it), Ok(text.clone()));
    let mut slots = Slots::new(out);
    assert_eq!(<String as Incoming>::init(&mut slots), Ok((0, text)));
}

#[test]
fn empty_text_is_the_word_zero() {
    let mut out: Vec<u32> = Vec::new();
    Outcoming::args(&String::new(), &mut out).unwrap();
    assert_eq!(out, vec![0]);
}

#[test]
fn text_that_is_not_utf8_is_refused() {
    let invalid = ProtocolError(STRING_FROM_BYTES_ERROR);
    let heap: Vec<u8> = Vec::new();
    let words: Vec<u32> = vec![1, 0xff];
    let mut it = words.iter();
    assert_eq!(<String as Outcoming>::read(&heap, &mut it), Err(invalid));
    let words: Vec<u32> = vec![2, 0x80c3 ^ 0x4000];
    let mut slots = Slots::new(words);
    assert_eq!(<String as Incoming>::init(&mut slots).err(), Some(invalid));
    let truncated: Vec<u32> = vec![1, 0xc3];
    let mut it = truncated.iter();
    assert_eq!(<String as Outcoming>::read(&heap, &mut it), Err(invalid));
}

#[test]
fn text_fails_where_the_stream_ends_before_it_is_checked() {
    let heap: Vec<u8> = Vec::new();
    let words: Vec<u32> = vec![8, 0xffff_ffff];
    let mut it = words.iter();
    assert_eq!(
        <String as Outcoming>::read(&heap, &mut it),
        Err(ProtocolError(ARGS_NEXT_ERROR))
    );
}

#[test]
fn payload_flags_are_off() {
    assert!(!<Bytes as Incoming>::IS_NEED_INIT_FILL);
    assert!(!<Bytes as Outcoming>::IS_NEED_READ);
    assert!(!<String as Incoming>::IS_NEED_INIT_FILL);
    assert!(!<String as Outcoming>::IS_NEED_READ);
}
