use wa_proto::memory::{copy_bytes, copy_region, fits, write_region, zeroed};
use wa_proto::{
    Incoming, Outcoming, ProtocolError, Resident, Slots, Staged, ARGS_NEXT_ERROR,
    BYTES_INTO_ARR4_ERROR,
};

#[test]
fn region_helpers_copy_and_write() {
    let mut heap: Vec<u8> = vec![0, 1, 2, 3, 4, 5, 6, 7];
    assert_eq!(copy_region(&heap, 2, 3), Some(vec![2, 3, 4]));
    assert_eq!(copy_region(&heap, 8, 0), Some(Vec::<u8>::new()));
    assert_eq!(copy_region(&heap, 6, 3), None);
    assert_eq!(copy_region(&heap, usize::MAX, 2), None);
    assert!(write_region(&mut heap, 5, &[9, 9]));
    assert_eq!(heap, vec![0, 1, 2, 3, 4, 9, 9, 7]);
    assert!(!write_region(&mut heap, 7, &[1, 1]));
    assert_eq!(heap, vec![0, 1, 2, 3, 4, 9, 9, 7]);
    assert_eq!(zeroed(3), vec![0, 0, 0]);
    assert_eq!(copy_bytes(&[4, 5]), vec![4, 5]);
    assert!(fits(&heap, 0, 8));
    assert!(fits(&heap, 8, 0));
    assert!(!fits(&heap, 1, 8));
    assert!(!fits(&heap, 9, 0));
    assert!(!fits(&heap, usize::MAX, 2));
}

#[test]
fn resident_sends_length_and_address() {
    let payload = Resident::at(0x100, vec![1, 2, 3]);
    assert_eq!(payload.address(), 0x100);
    assert_eq!(payload.as_slice(), &[1, 2, 3]);
    let mut args: Vec<u32> = Vec::new();
    Outcoming::args(&payload, &mut args).unwrap();
    assert_eq!(args, vec![3, 0x100]);
}

#[test]
fn resident_is_read_where_it_lies() {
    let heap: Vec<u8> = vec![10, 11, 12, 13, 14, 15];
    let words: Vec<u32> = vec![3, 2, 99];
    let mut it = words.iter();
    let payload = <Resident as Outcoming>::read(&heap, &mut it).unwrap();
    assert_eq!(payload, Resident::at(2, vec![12, 13, 14]));
    assert_eq!(it.next(), Some(&99));
    assert_eq!(payload.into_vec(), vec![12, 13, 14]);
}

#[test]
fn resident_round_trips_through_the_memory_that_holds_it() {
    let heap: Vec<u8> = vec![0, 0, 5, 6, 7, 0];
    let payload = Resident::at(2, vec![5, 6, 7]);
    let mut args: Vec<u32> = Vec::new();
    Outcoming::args(&payload, &mut args).unwrap();
    let mut it = args.iter();
    assert_eq!(<Resident as Outcoming>::read(&heap, &mut it), Ok(payload));
}

#[test]
fn resident_depends_on_the_memory() {
    let words: Vec<u32> = vec![1, 0];
    let mut it = words.iter();
    let first = <Resident as Outcoming>::read(&[0u8], &mut it).unwrap();
    let mut it = words.iter();
    let second = <Resident as Outcoming>::read(&[1u8], &mut it).unwrap();
    assert_ne!(first, second);
}

#[test]
fn resident_outside_the_memory_is_refused() {
    let heap: Vec<u8> = vec![0; 4];
    let outside = ProtocolError(BYTES_INTO_ARR4_ERROR);
    for words in [vec![5u32, 0], vec![1, 4], vec![4, 1], vec![0, 5], vec![u32::MAX, u32::MAX]] {
        let mut it = words.iter();
        assert_eq!(<Resident as Outcoming>::read(&heap, &mut it), Err(outside));
    }
    let mut it = [4u32, 0].iter();
    assert!(<Resident as Outcoming>::read(&heap, &mut it).is_ok());
    let mut it = [0u32, 4].iter();
    assert!(<Resident as Outcoming>::read(&heap, &mut it).is_ok());
}

#[test]
fn resident_fails_where_the_stream_ends() {
    let heap: Vec<u8> = vec![0; 4];
    let mut it = [1u32].iter();
    assert_eq!(
        <Resident as Outcoming>::read(&heap, &mut it),
        Err(ProtocolError(ARGS_NEXT_ERROR))
    );
}

#[test]
fn staged_sends_its_length_alone() {
    let payload = Staged::new(vec![1, 2, 3, 4, 5]);
    assert_eq!(payload.address(), 0);
    assert_eq!(payload.as_slice(), &[1, 2, 3, 4, 5]);
    let mut args: Vec<u32> = Vec::new();
    Incoming::args(&payload, &mut args).unwrap();
    assert_eq!(args, vec![5]);
}

#[test]
fn init_makes_zeroed_room_and_reports_its_address() {
    let mut slots = Slots::new(vec![7, 3, 9]);
    assert_eq!(slots.next(), Some(7));
    let (address, room) = <Staged as Incoming>::init(&mut slots).unwrap();
    assert_eq!(room.as_slice(), &[0, 0, 0]);
    assert_eq!(room.address(), address);
    assert_eq!(slots.consumed(), 2);
    assert_eq!(slots.into_words(), vec![7, address, 9]);
}

#[test]
fn fill_writes_the_payload_at_the_reported_address() {
    let payload = Staged::new(vec![1, 2, 3]);
    let mut heap: Vec<u8> = vec![9; 8];
    let words: Vec<u32> = vec![4, 77];
    let mut it = words.iter();
    assert_eq!(payload.fill(&mut heap, &mut it), Ok(()));
    assert_eq!(heap, vec![9, 9, 9, 9, 1, 2, 3, 9]);
    assert_eq!(it.next(), Some(&77));
    assert_eq!(payload.into_vec(), vec![1, 2, 3]);
}

#[test]
fn fill_outside_the_memory_is_refused_and_writes_nothing() {
    let payload = Staged::new(vec![1, 2, 3]);
    let mut heap: Vec<u8> = vec![9; 4];
    let mut it = [2u32].iter();
    assert_eq!(payload.fill(&mut heap, &mut it), Err(ProtocolError(BYTES_INTO_ARR4_ERROR)));
    assert_eq!(heap, vec![9; 4]);
    let mut it = [].iter();
    assert_eq!(payload.fill(&mut heap, &mut it), Err(ProtocolError(ARGS_NEXT_ERROR)));
}

#[test]
fn two_phases_then_reading_in_place_give_the_payload_back() {
    let payload = Staged::new(vec![21, 22, 23, 24, 25]);
    let mut stream: Vec<u32> = Vec::new();
    Incoming::args(&payload, &mut stream).unwrap();
    let mut slots = Slots::new(stream);
    let (_, room) = <Staged as Incoming>::init(&mut slots).unwrap();
    assert_eq!(room.as_slice().len(), 5);
    let mut heap: Vec<u8> = vec![0; 16];
    let reported: Vec<u32> = vec![6];
    let mut it = reported.iter();
    payload.fill(&mut heap, &mut it).unwrap();
    let exposed = Resident::at(6, vec![21, 22, 23, 24, 25]);
    let mut back: Vec<u32> = Vec::new();
    Outcoming::args(&exposed, &mut back).unwrap();
    assert_eq!(back, vec![5, 6]);
    let mut it = back.iter();
    assert_eq!(<Resident as Outcoming>::read(&heap, &mut it), Ok(exposed));
}

#[test]
fn staged_payloads_inside_a_sequence_are_filled_in_order() {
    let items: Vec<Staged> = vec![Staged::new(vec![1, 2]), Staged::new(vec![3])];
    let mut stream: Vec<u32> = Vec::new();
    Incoming::args(&items, &mut stream).unwrap();
    assert_eq!(stream, vec![2, 2, 1]);
    let mut slots = Slots::new(stream);
    let (_, rooms) = <Vec<Staged> as Incoming>::init(&mut slots).unwrap();
    assert_eq!(rooms.len(), 2);
    let after = slots.into_words();
    assert_eq!(after[0], 2);
    assert_eq!(after[1], rooms[0].address());
    assert_eq!(after[2], rooms[1].address());
    let mut heap: Vec<u8> = vec![0; 8];
    let addressed: Vec<u32> = vec![2, 4, 1];
    let mut it = addressed.iter();
    assert_eq!(items.fill(&mut heap, &mut it), Ok(()));
    assert_eq!(heap, vec![0, 3, 0, 0, 1, 2, 0, 0]);
}

#[test]
fn text_can_lie_in_the_memory() {
    let exposed = Resident::of_text(3, "hé");
    assert_eq!(exposed, Resident::at(3, vec![b'h', 0xc3, 0xa9]));
    assert_eq!(exposed.into_text(), Ok("hé".to_string()));
    assert_eq!(
        Resident::at(0, vec![0xff]).into_text(),
        Err(ProtocolError(wa_proto::STRING_FROM_BYTES_ERROR))
    );
    let sent = Staged::of_text("hé");
    assert_eq!(sent.as_slice(), "hé".as_bytes());
    assert_eq!(sent.address(), 0);
}

#[test]
fn reporting_before_any_slot_is_read_changes_nothing() {
    let mut slots = Slots::new(vec![1, 2]);
    slots.report(9);
    assert_eq!(slots.consumed(), 0);
    assert_eq!(slots.into_words(), vec![1, 2]);
}

#[test]
fn memory_flags_are_on() {
    assert!(<Resident as Outcoming>::IS_NEED_READ);
    assert!(<Staged as Incoming>::IS_NEED_INIT_FILL);
}

#[test]
fn slots_are_read_in_order_and_written_behind_the_cursor() {
    let mut slots = Slots::new(vec![1, 2]);
    assert_eq!(slots.consumed(), 0);
    assert_eq!(slots.next(), Some(1));
    slots.report(10);
    assert_eq!(slots.next(), Some(2));
    slots.report(20);
    assert_eq!(slots.next(), None);
    assert_eq!(slots.consumed(), 2);
    assert_eq!(slots.into_words(), vec![10, 20]);
}
