use chrono::Datelike;
use wa_proto::calendar::{
    ChronoDate, ChronoDateTime, ChronoDuration, TimeDate, TimeDateTime, TimeDuration, TimeOfDay,
};
use wa_proto::{
    time_from_u32, time_into_u32, Incoming, Outcoming, ProtocolError, Slots, ARGS_NEXT_ERROR,
    TIME_PARSE_ERROR,
};

fn out_words<T: Outcoming>(value: &T) -> Vec<u32> {
    let mut args: Vec<u32> = Vec::new();
    Outcoming::args(value, &mut args).unwrap();
    args
}

fn in_words<T: Incoming>(value: &T) -> Vec<u32> {
    let mut args: Vec<u32> = Vec::new();
    Incoming::args(value, &mut args).unwrap();
    args
}

fn read_from<T: Outcoming>(words: &[u32]) -> Result<T, ProtocolError> {
    let heap: Vec<u8> = Vec::new();
    let mut it = words.iter();
    <T as Outcoming>::read(&heap, &mut it)
}

fn init_from<T: Incoming>(words: &[u32]) -> Result<(u32, T), ProtocolError> {
    let mut slots = Slots::new(words.to_vec());
    <T as Incoming>::init(&mut slots)
}

#[test]
fn time_of_day_is_hour_minute_second_in_the_low_bytes() {
    let time = TimeOfDay::from_hms(1, 2, 3).unwrap();
    assert_eq!((time.hour(), time.minute(), time.second()), (1, 2, 3));
    assert_eq!(time_into_u32(&time), u32::from_le_bytes([1, 2, 3, 0]));
    assert_eq!(time_into_u32(&time), 0x0003_0201);
    assert_eq!(time_from_u32(0x0003_0201), Ok(time));
    assert_eq!(time_from_u32(0xff03_0201), Ok(time));
    assert_eq!(out_words(&time), vec![0x0003_0201]);
    assert_eq!(in_words(&time), vec![0x0003_0201]);
    assert_eq!(read_from::<TimeOfDay>(&[0x0003_0201]), Ok(time));
    assert_eq!(init_from::<TimeOfDay>(&[0x0003_0201]), Ok((0, time)));
}

#[test]
fn time_of_day_agrees_with_the_time_crate() {
    for (hour, minute, second) in [(0, 0, 0), (23, 59, 59), (24, 0, 0), (0, 60, 0), (0, 0, 60), (255, 255, 255)] {
        let theirs = time::Time::from_hms(hour, minute, second);
        let ours = TimeOfDay::from_hms(hour, minute, second);
        assert_eq!(theirs.is_ok(), ours.is_some());
        if let (Ok(theirs), Some(ours)) = (theirs, ours) {
            assert_eq!((theirs.hour(), theirs.minute(), theirs.second()), (ours.hour(), ours.minute(), ours.second()));
        }
    }
}

#[test]
fn a_word_that_is_no_time_of_day_is_refused() {
    let refused = ProtocolError(TIME_PARSE_ERROR);
    assert_eq!(time_from_u32(24), Err(refused));
    assert_eq!(time_from_u32(60 << 8), Err(refused));
    assert_eq!(time_from_u32(60 << 16), Err(refused));
    assert_eq!(read_from::<TimeOfDay>(&[24]), Err(refused));
    assert_eq!(init_from::<TimeOfDay>(&[60 << 8]).err(), Some(refused));
    assert_eq!(read_from::<TimeOfDay>(&[]), Err(ProtocolError(ARGS_NEXT_ERROR)));
    assert!(TimeOfDay::from_hms(24, 0, 0).is_none());
}

#[test]
fn chrono_duration_is_its_milliseconds() {
    let duration = ChronoDuration::new(1500).unwrap();
    assert_eq!(duration.num_milliseconds(), 1500);
    assert_eq!(duration.num_milliseconds(), chrono::Duration::milliseconds(1500).num_milliseconds());
    assert_eq!(out_words(&duration), vec![1500, 0]);
    assert_eq!(in_words(&duration), vec![1500, 0]);
    assert_eq!(read_from::<ChronoDuration>(&[1500, 0]), Ok(duration));
    assert_eq!(init_from::<ChronoDuration>(&[1500, 0]), Ok((0, duration)));
    let negative = ChronoDuration::new(-1).unwrap();
    assert_eq!(read_from::<ChronoDuration>(&out_words(&negative)), Ok(negative));
}

#[test]
fn chrono_duration_has_no_value_for_the_least_number() {
    assert!(ChronoDuration::new(i64::MIN).is_none());
    assert!(chrono::TimeDelta::try_milliseconds(i64::MIN).is_none());
    assert!(ChronoDuration::new(i64::MIN + 1).is_some());
    assert!(ChronoDuration::new(i64::MAX).is_some());
    assert_eq!(read_from::<ChronoDuration>(&[0, 0x80]), Err(ProtocolError(TIME_PARSE_ERROR)));
    assert_eq!(read_from::<ChronoDuration>(&[0]), Err(ProtocolError(ARGS_NEXT_ERROR)));
}

#[test]
fn chrono_instant_is_its_seconds_since_the_epoch() {
    let instant = ChronoDateTime::new(1_431_648_000).unwrap();
    assert_eq!(instant.timestamp(), 1_431_648_000);
    assert_eq!(
        chrono::DateTime::from_timestamp(instant.timestamp(), 0).unwrap().timestamp(),
        1_431_648_000
    );
    let words = out_words(&instant);
    assert_eq!(words, vec![1_431_648_000, 0]);
    assert_eq!(read_from::<ChronoDateTime>(&words), Ok(instant));
    assert_eq!(init_from::<ChronoDateTime>(&words), Ok((0, instant)));
}

#[test]
fn chrono_instant_out_of_range_is_refused() {
    assert!(ChronoDateTime::new(i64::MAX).is_none());
    assert!(chrono::DateTime::from_timestamp(i64::MAX, 0).is_none());
    assert!(ChronoDateTime::new(i64::MIN).is_none());
    assert_eq!(
        read_from::<ChronoDateTime>(&[u32::MAX, 0xffff_ff7f]),
        Err(ProtocolError(TIME_PARSE_ERROR))
    );
}

#[test]
fn chrono_date_is_its_days_from_the_common_era() {
    let date = ChronoDate::new(730_000).unwrap();
    assert_eq!(date.num_days_from_ce(), 730_000);
    assert_eq!(
        chrono::NaiveDate::from_num_days_from_ce_opt(730_000).unwrap().num_days_from_ce(),
        730_000
    );
    assert_eq!(out_words(&date), vec![730_000]);
    assert_eq!(read_from::<ChronoDate>(&[730_000]), Ok(date));
    assert_eq!(init_from::<ChronoDate>(&[730_000]), Ok((0, date)));
    let early = ChronoDate::new(-1).unwrap();
    assert_eq!(out_words(&early), vec![u32::MAX]);
    assert_eq!(read_from::<ChronoDate>(&[u32::MAX]), Ok(early));
}

#[test]
fn chrono_date_out_of_range_is_refused() {
    assert!(ChronoDate::new(100_000_000).is_none());
    assert!(ChronoDate::new(-100_000_000).is_none());
    assert_eq!(read_from::<ChronoDate>(&[100_000_000]), Err(ProtocolError(TIME_PARSE_ERROR)));
    assert_eq!(read_from::<ChronoDate>(&[]), Err(ProtocolError(ARGS_NEXT_ERROR)));
}

#[test]
fn time_duration_is_its_whole_seconds() {
    let duration = TimeDuration::new(-90).unwrap();
    assert_eq!(duration.whole_seconds(), time::Duration::seconds(-90).whole_seconds());
    let words = out_words(&duration);
    assert_eq!(words, vec![(-90i32) as u32, u32::MAX]);
    assert_eq!(read_from::<TimeDuration>(&words), Ok(duration));
    assert_eq!(init_from::<TimeDuration>(&words), Ok((0, duration)));
    assert!(TimeDuration::new(i64::MIN).is_some());
}

#[test]
fn time_instant_is_its_seconds_since_the_epoch() {
    let instant = TimeDateTime::new(1_546_300_800).unwrap();
    assert_eq!(
        time::OffsetDateTime::from_unix_timestamp(instant.unix_timestamp()).unwrap().unix_timestamp(),
        1_546_300_800
    );
    let words = out_words(&instant);
    assert_eq!(words, vec![1_546_300_800, 0]);
    assert_eq!(read_from::<TimeDateTime>(&words), Ok(instant));
    assert_eq!(init_from::<TimeDateTime>(&words), Ok((0, instant)));
}

#[test]
fn time_instant_out_of_range_is_refused() {
    assert!(TimeDateTime::new(i64::MAX).is_none());
    assert!(time::OffsetDateTime::from_unix_timestamp(i64::MAX).is_err());
    assert_eq!(
        read_from::<TimeDateTime>(&[u32::MAX, 0xffff_ff7f]),
        Err(ProtocolError(TIME_PARSE_ERROR))
    );
}

#[test]
fn time_date_is_its_julian_day() {
    let date = TimeDate::new(2_451_545).unwrap();
    assert_eq!(date.to_julian_day(), 2_451_545);
    assert_eq!(time::Date::from_julian_day(2_451_545).unwrap().to_julian_day(), 2_451_545);
    assert_eq!(out_words(&date), vec![2_451_545]);
    assert_eq!(in_words(&date), vec![2_451_545]);
    assert_eq!(read_from::<TimeDate>(&[2_451_545]), Ok(date));
    assert_eq!(init_from::<TimeDate>(&[2_451_545]), Ok((0, date)));
}

#[test]
fn time_date_out_of_range_is_refused() {
    assert!(TimeDate::new(i32::MAX).is_none());
    assert!(time::Date::from_julian_day(i32::MAX).is_err());
    assert_eq!(read_from::<TimeDate>(&[i32::MAX as u32]), Err(ProtocolError(TIME_PARSE_ERROR)));
}

#[test]
fn calendar_values_take_the_words_of_their_number_in_fill() {
    let mut heap: Vec<u8> = vec![1; 2];
    let words: Vec<u32> = vec![1, 2, 3, 4, 5];
    let mut it = words.iter();
    assert_eq!(ChronoDuration::new(5).unwrap().fill(&mut heap, &mut it), Ok(()));
    assert_eq!(TimeDate::new(2_451_545).unwrap().fill(&mut heap, &mut it), Ok(()));
    assert_eq!(TimeOfDay::from_hms(1, 1, 1).unwrap().fill(&mut heap, &mut it), Ok(()));
    assert_eq!(it.next(), Some(&5));
    assert_eq!(heap, vec![1; 2]);
}
