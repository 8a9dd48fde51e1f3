//! Calendar and clock values as scalars: a duration, an instant or a day
//! travels as the one number that stands for it, and decoding accepts the
//! number only where the `chrono` or `time` crate has a value for it.

use crate::codec::{Incoming, Outcoming, Wire};
use crate::error::{ProtocolError, TIME_PARSE_ERROR};
use crate::packing::{byte_of, lemma_byte_of_pack, pack, pack_word, word_byte};
use crate::scalar::passed_over;
use crate::stream::Slots;
use core::slice::Iter;
use time::error::ComponentRange;
use vstd::prelude::*;

verus! {

/// Whether there is a time of day with the given hour, minute and second.
pub open spec fn clock_valid(clock: (u8, u8, u8)) -> bool {
    clock.0 < 24 && clock.1 < 60 && clock.2 < 60
}

/// The error of the range checks of the `time` crate; the codec looks at
/// nothing inside it.
#[verifier::external_type_specification]
#[verifier::external_body]
pub struct ExComponentRange(ComponentRange);

impl From<ComponentRange> for ProtocolError {
    /// A number that `time` has no value for is reported as the failure of a
    /// calendar value.
    fn from(error: ComponentRange) -> (e: Self) {
        ProtocolError(TIME_PARSE_ERROR)
    }
}

impl vstd::std_specs::convert::FromSpecImpl<ComponentRange> for ProtocolError {
    open spec fn obeys_from_spec() -> bool {
        true
    }

    open spec fn from_spec(error: ComponentRange) -> Self {
        ProtocolError(TIME_PARSE_ERROR)
    }
}

/// Whether `chrono` has an instant for a number of seconds since the epoch.
pub uninterp spec fn chrono_has_timestamp(secs: i64) -> bool;

/// Whether `chrono` has a date for a number of days since the first day of
/// the common era.
pub uninterp spec fn chrono_has_day(days: i32) -> bool;

/// Whether `time` has an instant for a number of seconds since the epoch.
pub uninterp spec fn time_has_timestamp(secs: i64) -> bool;

/// Whether `time` has a date for a Julian day number.
pub uninterp spec fn time_has_julian_day(day: i32) -> bool;

/// `chrono::TimeDelta::try_milliseconds`: it has a duration for every number
/// of milliseconds but the least one.
#[verifier::external_body]
fn chrono_accepts_millis(millis: i64) -> (ok: bool)
    ensures
        ok == (millis > i64::MIN),
{
    chrono::TimeDelta::try_milliseconds(millis).is_some()
}

/// `chrono::DateTime::from_timestamp` with no nanoseconds: whether there is
/// an instant for the seconds. The answer depends on the number alone.
#[verifier::external_body]
fn chrono_accepts_timestamp(secs: i64) -> (ok: bool)
    ensures
        ok == chrono_has_timestamp(secs),
{
    chrono::DateTime::from_timestamp(secs, 0).is_some()
}

/// `chrono::NaiveDate::from_num_days_from_ce_opt`: whether there is a date
/// for the day number. The answer depends on the number alone.
#[verifier::external_body]
fn chrono_accepts_day(days: i32) -> (ok: bool)
    ensures
        ok == chrono_has_day(days),
{
    chrono::NaiveDate::from_num_days_from_ce_opt(days).is_some()
}

/// `time::OffsetDateTime::from_unix_timestamp`: it fails exactly where there
/// is no instant for the seconds, which depends on the number alone.
#[verifier::external_body]
fn time_checks_timestamp(secs: i64) -> (r: Result<(), ComponentRange>)
    ensures
        r is Ok <==> time_has_timestamp(secs),
{
    match time::OffsetDateTime::from_unix_timestamp(secs) {
        Ok(_) => Ok(()),
        Err(e) => Err(e),
    }
}

/// `time::Date::from_julian_day`: it fails exactly where there is no date
/// for the day number, which depends on the number alone.
#[verifier::external_body]
fn time_checks_julian_day(day: i32) -> (r: Result<(), ComponentRange>)
    ensures
        r is Ok <==> time_has_julian_day(day),
{
    match time::Date::from_julian_day(day) {
        Ok(_) => Ok(()),
        Err(e) => Err(e),
    }
}

/// `time::Time::from_hms`: it fails exactly where the hour is not below 24,
/// the minute not below 60 or the second not below 60.
#[verifier::external_body]
fn time_checks_hms(hour: u8, minute: u8, second: u8) -> (r: Result<(), ComponentRange>)
    ensures
        r is Ok <==> clock_valid((hour, minute, second)),
{
    match time::Time::from_hms(hour, minute, second) {
        Ok(_) => Ok(()),
        Err(e) => Err(e),
    }
}

/// A `chrono` duration, to the whole millisecond: it travels as its number of
/// milliseconds.
#[derive(Debug, Clone, Copy, PartialEq, Eq)]
pub struct ChronoDuration {
    millis: i64,
}

impl View for ChronoDuration {
    type V = i64;

    closed spec fn view(&self) -> i64 {
        self.millis
    }
}

impl DeepView for ChronoDuration {
    type V = i64;

    open spec fn deep_view(&self) -> i64 {
        self@
    }
}

impl ChronoDuration {
    /// Whether there is a duration for the number.
    pub open spec fn valid(millis: i64) -> bool {
        millis > i64::MIN
    }

    /// The duration of the given number of milliseconds, where `chrono` has one.
    pub fn new(millis: i64) -> (r: Option<Self>)
        ensures
            Self::valid(millis) ==> (r matches Some(v) && v@ == millis),
            !Self::valid(millis) ==> r is None,
    {
        if chrono_accepts_millis(millis) {
            Some(ChronoDuration { millis })
        } else {
            None
        }
    }

    /// The number of whole milliseconds.
    pub fn num_milliseconds(&self) -> (n: i64)
        ensures
            n == self@,
    {
        self.millis
    }

    /// Turns a decoded number into a value, or into the failure of a number
    /// that stands for none.
    fn checked(millis: i64) -> (r: Result<Self, ProtocolError>)
        ensures
            Self::valid(millis) ==> (r matches Ok(v) && v@ == millis),
            !Self::valid(millis) ==> r == Err::<Self, ProtocolError>(
                ProtocolError(TIME_PARSE_ERROR),
            ),
    {
        match Self::new(millis) {
            Some(v) => Ok(v),
            None => Err(ProtocolError(TIME_PARSE_ERROR)),
        }
    }
}

impl Wire for ChronoDuration {
    open spec fn lawful() -> bool {
        true
    }

    open spec fn words(&self) -> Seq<u32> {
        self@.words()
    }

    open spec fn parse(heap: Seq<u8>, words: Seq<u32>) -> Result<(i64, nat), ProtocolError> {
        match i64::parse(heap, words) {
            Ok((n, taken)) => if Self::valid(n) {
                Ok((n, taken))
            } else {
                Err(ProtocolError(TIME_PARSE_ERROR))
            },
            Err(e) => Err(e),
        }
    }

    open spec fn restorable(&self, heap: Seq<u8>) -> bool {
        self@.restorable(heap) && Self::valid(self@)
    }

    proof fn lemma_parse_bound(heap: Seq<u8>, words: Seq<u32>) {
        i64::lemma_parse_bound(heap, words);
    }

    proof fn lemma_round_trip(&self, heap: Seq<u8>, rest: Seq<u32>) {
        self@.lemma_round_trip(heap, rest);
    }
}

impl Outcoming for ChronoDuration {
    const IS_NEED_READ: bool = false;

    open spec fn reads_memory() -> bool {
        false
    }

    proof fn lemma_read_flag() {
    }

    proof fn lemma_read_ignores_memory(h1: Seq<u8>, h2: Seq<u8>, words: Seq<u32>) {
    }

    fn args(&self, args: &mut Vec<u32>) -> (r: Result<(), ProtocolError>) {
        Outcoming::args(&self.millis, args)
    }

    fn read(heap: &[u8], args: &mut Iter<u32>) -> (r: Result<Self, ProtocolError>) {
        let n = <i64 as Outcoming>::read(heap, args)?;
        Self::checked(n)
    }
}

impl Incoming for ChronoDuration {
    const IS_NEED_INIT_FILL: bool = false;

    open spec fn writes_memory() -> bool {
        false
    }

    proof fn lemma_fill_flag() {
    }

    open spec fn filled(&self, heap: Seq<u8>, words: Seq<u32>) -> Result<Seq<u8>, ProtocolError> {
        passed_over(heap, words, 2)
    }

    proof fn lemma_init_ignores_memory(h1: Seq<u8>, h2: Seq<u8>, words: Seq<u32>) {
    }

    proof fn lemma_filled_bound(&self, heap: Seq<u8>, words: Seq<u32>) {
    }

    proof fn lemma_fill_without_memory(&self, heap: Seq<u8>, words: Seq<u32>) {
    }

    fn init(args: &mut Slots) -> (r: Result<(u32, Self), ProtocolError>)
        ensures
            r matches Ok(pair) ==> pair.0 == 0,
    {
        let (_, n) = <i64 as Incoming>::init(args)?;
        let value = Self::checked(n)?;
        Ok((0, value))
    }

    fn args(&self, args: &mut Vec<u32>) -> (r: Result<(), ProtocolError>) {
        Incoming::args(&self.millis, args)
    }

    fn fill(&self, heap: &mut [u8], args: &mut Iter<u32>) -> (r: Result<(), ProtocolError>) {
        self.millis.fill(heap, args)
    }
}

/// A `chrono` instant in universal time, to the whole second: it travels as its
/// number of seconds since the epoch.
#[derive(Debug, Clone, Copy, PartialEq, Eq)]
pub struct ChronoDateTime {
    secs: i64,
}

impl View for ChronoDateTime {
    type V = i64;

    closed spec fn view(&self) -> i64 {
        self.secs
    }
}

impl DeepView for ChronoDateTime {
    type V = i64;

    open spec fn deep_view(&self) -> i64 {
        self@
    }
}

impl ChronoDateTime {
    /// Whether there is an instant for the number.
    pub open spec fn valid(secs: i64) -> bool {
        chrono_has_timestamp(secs)
    }

    /// The instant the given number of seconds after the epoch, where `chrono`
    /// has one.
    pub fn new(secs: i64) -> (r: Option<Self>)
        ensures
            Self::valid(secs) ==> (r matches Some(v) && v@ == secs),
            !Self::valid(secs) ==> r is None,
    {
        if chrono_accepts_timestamp(secs) {
            Some(ChronoDateTime { secs })
        } else {
            None
        }
    }

    /// The number of seconds since the epoch.
    pub fn timestamp(&self) -> (n: i64)
        ensures
            n == self@,
    {
        self.secs
    }

    /// Turns a decoded number into a value, or into the failure of a number
    /// that stands for none.
    fn checked(secs: i64) -> (r: Result<Self, ProtocolError>)
        ensures
            Self::valid(secs) ==> (r matches Ok(v) && v@ == secs),
            !Self::valid(secs) ==> r == Err::<Self, ProtocolError>(
                ProtocolError(TIME_PARSE_ERROR),
            ),
    {
        match Self::new(secs) {
            Some(v) => Ok(v),
            None => Err(ProtocolError(TIME_PARSE_ERROR)),
        }
    }
}

impl Wire for ChronoDateTime {
    open spec fn lawful() -> bool {
        true
    }

    open spec fn words(&self) -> Seq<u32> {
        self@.words()
    }

    open spec fn parse(heap: Seq<u8>, words: Seq<u32>) -> Result<(i64, nat), ProtocolError> {
        match i64::parse(heap, words) {
            Ok((n, taken)) => if Self::valid(n) {
                Ok((n, taken))
            } else {
                Err(ProtocolError(TIME_PARSE_ERROR))
            },
            Err(e) => Err(e),
        }
    }

    open spec fn restorable(&self, heap: Seq<u8>) -> bool {
        self@.restorable(heap) && Self::valid(self@)
    }

    proof fn lemma_parse_bound(heap: Seq<u8>, words: Seq<u32>) {
        i64::lemma_parse_bound(heap, words);
    }

    proof fn lemma_round_trip(&self, heap: Seq<u8>, rest: Seq<u32>) {
        self@.lemma_round_trip(heap, rest);
    }
}

impl Outcoming for ChronoDateTime {
    const IS_NEED_READ: bool = false;

    open spec fn reads_memory() -> bool {
        false
    }

    proof fn lemma_read_flag() {
    }

    proof fn lemma_read_ignores_memory(h1: Seq<u8>, h2: Seq<u8>, words: Seq<u32>) {
    }

    fn args(&self, args: &mut Vec<u32>) -> (r: Result<(), ProtocolError>) {
        Outcoming::args(&self.secs, args)
    }

    fn read(heap: &[u8], args: &mut Iter<u32>) -> (r: Result<Self, ProtocolError>) {
        let n = <i64 as Outcoming>::read(heap, args)?;
        Self::checked(n)
    }
}

impl Incoming for ChronoDateTime {
    const IS_NEED_INIT_FILL: bool = false;

    open spec fn writes_memory() -> bool {
        false
    }

    proof fn lemma_fill_flag() {
    }

    open spec fn filled(&self, heap: Seq<u8>, words: Seq<u32>) -> Result<Seq<u8>, ProtocolError> {
        passed_over(heap, words, 2)
    }

    proof fn lemma_init_ignores_memory(h1: Seq<u8>, h2: Seq<u8>, words: Seq<u32>) {
    }

    proof fn lemma_filled_bound(&self, heap: Seq<u8>, words: Seq<u32>) {
    }

    proof fn lemma_fill_without_memory(&self, heap: Seq<u8>, words: Seq<u32>) {
    }

    fn init(args: &mut Slots) -> (r: Result<(u32, Self), ProtocolError>)
        ensures
            r matches Ok(pair) ==> pair.0 == 0,
    {
        let (_, n) = <i64 as Incoming>::init(args)?;
        let value = Self::checked(n)?;
        Ok((0, value))
    }

    fn args(&self, args: &mut Vec<u32>) -> (r: Result<(), ProtocolError>) {
        Incoming::args(&self.secs, args)
    }

    fn fill(&self, heap: &mut [u8], args: &mut Iter<u32>) -> (r: Result<(), ProtocolError>) {
        self.secs.fill(heap, args)
    }
}

/// A `chrono` date: it travels as its number of days since the first day of the
/// common era.
#[derive(Debug, Clone, Copy, PartialEq, Eq)]
pub struct ChronoDate {
    days: i32,
}

impl View for ChronoDate {
    type V = i32;

    closed spec fn view(&self) -> i32 {
        self.days
    }
}

impl DeepView for ChronoDate {
    type V = i32;

    open spec fn deep_view(&self) -> i32 {
        self@
    }
}

impl ChronoDate {
    /// Whether there is a date for the number.
    pub open spec fn valid(days: i32) -> bool {
        chrono_has_day(days)
    }

    /// The date with the given day number, where `chrono` has one.
    pub fn new(days: i32) -> (r: Option<Self>)
        ensures
            Self::valid(days) ==> (r matches Some(v) && v@ == days),
            !Self::valid(days) ==> r is None,
    {
        if chrono_accepts_day(days) {
            Some(ChronoDate { days })
        } else {
            None
        }
    }

    /// The number of days since the first day of the common era.
    pub fn num_days_from_ce(&self) -> (n: i32)
        ensures
            n == self@,
    {
        self.days
    }

    /// Turns a decoded number into a value, or into the failure of a number
    /// that stands for none.
    fn checked(days: i32) -> (r: Result<Self, ProtocolError>)
        ensures
            Self::valid(days) ==> (r matches Ok(v) && v@ == days),
            !Self::valid(days) ==> r == Err::<Self, ProtocolError>(
                ProtocolError(TIME_PARSE_ERROR),
            ),
    {
        match Self::new(days) {
            Some(v) => Ok(v),
            None => Err(ProtocolError(TIME_PARSE_ERROR)),
        }
    }
}

impl Wire for ChronoDate {
    open spec fn lawful() -> bool {
        true
    }

    open spec fn words(&self) -> Seq<u32> {
        self@.words()
    }

    open spec fn parse(heap: Seq<u8>, words: Seq<u32>) -> Result<(i32, nat), ProtocolError> {
        match i32::parse(heap, words) {
            Ok((n, taken)) => if Self::valid(n) {
                Ok((n, taken))
            } else {
                Err(ProtocolError(TIME_PARSE_ERROR))
            },
            Err(e) => Err(e),
        }
    }

    open spec fn restorable(&self, heap: Seq<u8>) -> bool {
        self@.restorable(heap) && Self::valid(self@)
    }

    proof fn lemma_parse_bound(heap: Seq<u8>, words: Seq<u32>) {
        i32::lemma_parse_bound(heap, words);
    }

    proof fn lemma_round_trip(&self, heap: Seq<u8>, rest: Seq<u32>) {
        self@.lemma_round_trip(heap, rest);
    }
}

impl Outcoming for ChronoDate {
    const IS_NEED_READ: bool = false;

    open spec fn reads_memory() -> bool {
        false
    }

    proof fn lemma_read_flag() {
    }

    proof fn lemma_read_ignores_memory(h1: Seq<u8>, h2: Seq<u8>, words: Seq<u32>) {
    }

    fn args(&self, args: &mut Vec<u32>) -> (r: Result<(), ProtocolError>) {
        Outcoming::args(&self.days, args)
    }

    fn read(heap: &[u8], args: &mut Iter<u32>) -> (r: Result<Self, ProtocolError>) {
        let n = <i32 as Outcoming>::read(heap, args)?;
        Self::checked(n)
    }
}

impl Incoming for ChronoDate {
    const IS_NEED_INIT_FILL: bool = false;

    open spec fn writes_memory() -> bool {
        false
    }

    proof fn lemma_fill_flag() {
    }

    open spec fn filled(&self, heap: Seq<u8>, words: Seq<u32>) -> Result<Seq<u8>, ProtocolError> {
        passed_over(heap, words, 1)
    }

    proof fn lemma_init_ignores_memory(h1: Seq<u8>, h2: Seq<u8>, words: Seq<u32>) {
    }

    proof fn lemma_filled_bound(&self, heap: Seq<u8>, words: Seq<u32>) {
    }

    proof fn lemma_fill_without_memory(&self, heap: Seq<u8>, words: Seq<u32>) {
    }

    fn init(args: &mut Slots) -> (r: Result<(u32, Self), ProtocolError>)
        ensures
            r matches Ok(pair) ==> pair.0 == 0,
    {
        let (_, n) = <i32 as Incoming>::init(args)?;
        let value = Self::checked(n)?;
        Ok((0, value))
    }

    fn args(&self, args: &mut Vec<u32>) -> (r: Result<(), ProtocolError>) {
        Incoming::args(&self.days, args)
    }

    fn fill(&self, heap: &mut [u8], args: &mut Iter<u32>) -> (r: Result<(), ProtocolError>) {
        self.days.fill(heap, args)
    }
}

/// A `time` duration, to the whole second: it travels as its number of seconds.
#[derive(Debug, Clone, Copy, PartialEq, Eq)]
pub struct TimeDuration {
    secs: i64,
}

impl View for TimeDuration {
    type V = i64;

    closed spec fn view(&self) -> i64 {
        self.secs
    }
}

impl DeepView for TimeDuration {
    type V = i64;

    open spec fn deep_view(&self) -> i64 {
        self@
    }
}

impl TimeDuration {
    /// Whether there is a duration for the number.
    pub open spec fn valid(secs: i64) -> bool {
        true
    }

    /// The duration of the given number of seconds; `time` has one for every
    /// number.
    pub fn new(secs: i64) -> (r: Option<Self>)
        ensures
            Self::valid(secs) ==> (r matches Some(v) && v@ == secs),
            !Self::valid(secs) ==> r is None,
    {
        if true {
            Some(TimeDuration { secs })
        } else {
            None
        }
    }

    /// The number of whole seconds.
    pub fn whole_seconds(&self) -> (n: i64)
        ensures
            n == self@,
    {
        self.secs
    }

    /// Turns a decoded number into a value, or into the failure of a number
    /// that stands for none.
    fn checked(secs: i64) -> (r: Result<Self, ProtocolError>)
        ensures
            Self::valid(secs) ==> (r matches Ok(v) && v@ == secs),
            !Self::valid(secs) ==> r == Err::<Self, ProtocolError>(
                ProtocolError(TIME_PARSE_ERROR),
            ),
    {
        match Self::new(secs) {
            Some(v) => Ok(v),
            None => Err(ProtocolError(TIME_PARSE_ERROR)),
        }
    }
}

impl Wire for TimeDuration {
    open spec fn lawful() -> bool {
        true
    }

    open spec fn words(&self) -> Seq<u32> {
        self@.words()
    }

    open spec fn parse(heap: Seq<u8>, words: Seq<u32>) -> Result<(i64, nat), ProtocolError> {
        match i64::parse(heap, words) {
            Ok((n, taken)) => if Self::valid(n) {
                Ok((n, taken))
            } else {
                Err(ProtocolError(TIME_PARSE_ERROR))
            },
            Err(e) => Err(e),
        }
    }

    open spec fn restorable(&self, heap: Seq<u8>) -> bool {
        self@.restorable(heap) && Self::valid(self@)
    }

    proof fn lemma_parse_bound(heap: Seq<u8>, words: Seq<u32>) {
        i64::lemma_parse_bound(heap, words);
    }

    proof fn lemma_round_trip(&self, heap: Seq<u8>, rest: Seq<u32>) {
        self@.lemma_round_trip(heap, rest);
    }
}

impl Outcoming for TimeDuration {
    const IS_NEED_READ: bool = false;

    open spec fn reads_memory() -> bool {
        false
    }

    proof fn lemma_read_flag() {
    }

    proof fn lemma_read_ignores_memory(h1: Seq<u8>, h2: Seq<u8>, words: Seq<u32>) {
    }

    fn args(&self, args: &mut Vec<u32>) -> (r: Result<(), ProtocolError>) {
        Outcoming::args(&self.secs, args)
    }

    fn read(heap: &[u8], args: &mut Iter<u32>) -> (r: Result<Self, ProtocolError>) {
        let n = <i64 as Outcoming>::read(heap, args)?;
        Self::checked(n)
    }
}

impl Incoming for TimeDuration {
    const IS_NEED_INIT_FILL: bool = false;

    open spec fn writes_memory() -> bool {
        false
    }

    proof fn lemma_fill_flag() {
    }

    open spec fn filled(&self, heap: Seq<u8>, words: Seq<u32>) -> Result<Seq<u8>, ProtocolError> {
        passed_over(heap, words, 2)
    }

    proof fn lemma_init_ignores_memory(h1: Seq<u8>, h2: Seq<u8>, words: Seq<u32>) {
    }

    proof fn lemma_filled_bound(&self, heap: Seq<u8>, words: Seq<u32>) {
    }

    proof fn lemma_fill_without_memory(&self, heap: Seq<u8>, words: Seq<u32>) {
    }

    fn init(args: &mut Slots) -> (r: Result<(u32, Self), ProtocolError>)
        ensures
            r matches Ok(pair) ==> pair.0 == 0,
    {
        let (_, n) = <i64 as Incoming>::init(args)?;
        let value = Self::checked(n)?;
        Ok((0, value))
    }

    fn args(&self, args: &mut Vec<u32>) -> (r: Result<(), ProtocolError>) {
        Incoming::args(&self.secs, args)
    }

    fn fill(&self, heap: &mut [u8], args: &mut Iter<u32>) -> (r: Result<(), ProtocolError>) {
        self.secs.fill(heap, args)
    }
}

/// A `time` instant, to the whole second: it travels as its number of seconds
/// since the epoch.
#[derive(Debug, Clone, Copy, PartialEq, Eq)]
pub struct TimeDateTime {
    secs: i64,
}

impl View for TimeDateTime {
    type V = i64;

    closed spec fn view(&self) -> i64 {
        self.secs
    }
}

impl DeepView for TimeDateTime {
    type V = i64;

    open spec fn deep_view(&self) -> i64 {
        self@
    }
}

impl TimeDateTime {
    /// Whether there is an instant for the number.
    pub open spec fn valid(secs: i64) -> bool {
        time_has_timestamp(secs)
    }

    /// The instant the given number of seconds after the epoch, where `time` has
    /// one.
    pub fn new(secs: i64) -> (r: Option<Self>)
        ensures
            Self::valid(secs) ==> (r matches Some(v) && v@ == secs),
            !Self::valid(secs) ==> r is None,
    {
        if time_checks_timestamp(secs).is_ok() {
            Some(TimeDateTime { secs })
        } else {
            None
        }
    }

    /// The number of seconds since the epoch.
    pub fn unix_timestamp(&self) -> (n: i64)
        ensures
            n == self@,
    {
        self.secs
    }

    /// Turns a decoded number into a value, or into the failure of a number
    /// that stands for none.
    fn checked(secs: i64) -> (r: Result<Self, ProtocolError>)
        ensures
            Self::valid(secs) ==> (r matches Ok(v) && v@ == secs),
            !Self::valid(secs) ==> r == Err::<Self, ProtocolError>(
                ProtocolError(TIME_PARSE_ERROR),
            ),
    {
        match time_checks_timestamp(secs) {
            Ok(()) => Ok(TimeDateTime { secs }),
            Err(error) => Err(ProtocolError::from(error)),
        }
    }
}

impl Wire for TimeDateTime {
    open spec fn lawful() -> bool {
        true
    }

    open spec fn words(&self) -> Seq<u32> {
        self@.words()
    }

    open spec fn parse(heap: Seq<u8>, words: Seq<u32>) -> Result<(i64, nat), ProtocolError> {
        match i64::parse(heap, words) {
            Ok((n, taken)) => if Self::valid(n) {
                Ok((n, taken))
            } else {
                Err(ProtocolError(TIME_PARSE_ERROR))
            },
            Err(e) => Err(e),
        }
    }

    open spec fn restorable(&self, heap: Seq<u8>) -> bool {
        self@.restorable(heap) && Self::valid(self@)
    }

    proof fn lemma_parse_bound(heap: Seq<u8>, words: Seq<u32>) {
        i64::lemma_parse_bound(heap, words);
    }

    proof fn lemma_round_trip(&self, heap: Seq<u8>, rest: Seq<u32>) {
        self@.lemma_round_trip(heap, rest);
    }
}

impl Outcoming for TimeDateTime {
    const IS_NEED_READ: bool = false;

    open spec fn reads_memory() -> bool {
        false
    }

    proof fn lemma_read_flag() {
    }

    proof fn lemma_read_ignores_memory(h1: Seq<u8>, h2: Seq<u8>, words: Seq<u32>) {
    }

    fn args(&self, args: &mut Vec<u32>) -> (r: Result<(), ProtocolError>) {
        Outcoming::args(&self.secs, args)
    }

    fn read(heap: &[u8], args: &mut Iter<u32>) -> (r: Result<Self, ProtocolError>) {
        let n = <i64 as Outcoming>::read(heap, args)?;
        Self::checked(n)
    }
}

impl Incoming for TimeDateTime {
    const IS_NEED_INIT_FILL: bool = false;

    open spec fn writes_memory() -> bool {
        false
    }

    proof fn lemma_fill_flag() {
    }

    open spec fn filled(&self, heap: Seq<u8>, words: Seq<u32>) -> Result<Seq<u8>, ProtocolError> {
        passed_over(heap, words, 2)
    }

    proof fn lemma_init_ignores_memory(h1: Seq<u8>, h2: Seq<u8>, words: Seq<u32>) {
    }

    proof fn lemma_filled_bound(&self, heap: Seq<u8>, words: Seq<u32>) {
    }

    proof fn lemma_fill_without_memory(&self, heap: Seq<u8>, words: Seq<u32>) {
    }

    fn init(args: &mut Slots) -> (r: Result<(u32, Self), ProtocolError>)
        ensures
            r matches Ok(pair) ==> pair.0 == 0,
    {
        let (_, n) = <i64 as Incoming>::init(args)?;
        let value = Self::checked(n)?;
        Ok((0, value))
    }

    fn args(&self, args: &mut Vec<u32>) -> (r: Result<(), ProtocolError>) {
        Incoming::args(&self.secs, args)
    }

    fn fill(&self, heap: &mut [u8], args: &mut Iter<u32>) -> (r: Result<(), ProtocolError>) {
        self.secs.fill(heap, args)
    }
}

/// A `time` date: it travels as its Julian day number.
#[derive(Debug, Clone, Copy, PartialEq, Eq)]
pub struct TimeDate {
    day: i32,
}

impl View for TimeDate {
    type V = i32;

    closed spec fn view(&self) -> i32 {
        self.day
    }
}

impl DeepView for TimeDate {
    type V = i32;

    open spec fn deep_view(&self) -> i32 {
        self@
    }
}

impl TimeDate {
    /// Whether there is a date for the number.
    pub open spec fn valid(day: i32) -> bool {
        time_has_julian_day(day)
    }

    /// The date with the given Julian day number, where `time` has one.
    pub fn new(day: i32) -> (r: Option<Self>)
        ensures
            Self::valid(day) ==> (r matches Some(v) && v@ == day),
            !Self::valid(day) ==> r is None,
    {
        if time_checks_julian_day(day).is_ok() {
            Some(TimeDate { day })
        } else {
            None
        }
    }

    /// The Julian day number.
    pub fn to_julian_day(&self) -> (n: i32)
        ensures
            n == self@,
    {
        self.day
    }

    /// Turns a decoded number into a value, or into the failure of a number
    /// that stands for none.
    fn checked(day: i32) -> (r: Result<Self, ProtocolError>)
        ensures
            Self::valid(day) ==> (r matches Ok(v) && v@ == day),
            !Self::valid(day) ==> r == Err::<Self, ProtocolError>(
                ProtocolError(TIME_PARSE_ERROR),
            ),
    {
        match time_checks_julian_day(day) {
            Ok(()) => Ok(TimeDate { day }),
            Err(error) => Err(ProtocolError::from(error)),
        }
    }
}

impl Wire for TimeDate {
    open spec fn lawful() -> bool {
        true
    }

    open spec fn words(&self) -> Seq<u32> {
        self@.words()
    }

    open spec fn parse(heap: Seq<u8>, words: Seq<u32>) -> Result<(i32, nat), ProtocolError> {
        match i32::parse(heap, words) {
            Ok((n, taken)) => if Self::valid(n) {
                Ok((n, taken))
            } else {
                Err(ProtocolError(TIME_PARSE_ERROR))
            },
            Err(e) => Err(e),
        }
    }

    open spec fn restorable(&self, heap: Seq<u8>) -> bool {
        self@.restorable(heap) && Self::valid(self@)
    }

    proof fn lemma_parse_bound(heap: Seq<u8>, words: Seq<u32>) {
        i32::lemma_parse_bound(heap, words);
    }

    proof fn lemma_round_trip(&self, heap: Seq<u8>, rest: Seq<u32>) {
        self@.lemma_round_trip(heap, rest);
    }
}

impl Outcoming for TimeDate {
    const IS_NEED_READ: bool = false;

    open spec fn reads_memory() -> bool {
        false
    }

    proof fn lemma_read_flag() {
    }

    proof fn lemma_read_ignores_memory(h1: Seq<u8>, h2: Seq<u8>, words: Seq<u32>) {
    }

    fn args(&self, args: &mut Vec<u32>) -> (r: Result<(), ProtocolError>) {
        Outcoming::args(&self.day, args)
    }

    fn read(heap: &[u8], args: &mut Iter<u32>) -> (r: Result<Self, ProtocolError>) {
        let n = <i32 as Outcoming>::read(heap, args)?;
        Self::checked(n)
    }
}

impl Incoming for TimeDate {
    const IS_NEED_INIT_FILL: bool = false;

    open spec fn writes_memory() -> bool {
        false
    }

    proof fn lemma_fill_flag() {
    }

    open spec fn filled(&self, heap: Seq<u8>, words: Seq<u32>) -> Result<Seq<u8>, ProtocolError> {
        passed_over(heap, words, 1)
    }

    proof fn lemma_init_ignores_memory(h1: Seq<u8>, h2: Seq<u8>, words: Seq<u32>) {
    }

    proof fn lemma_filled_bound(&self, heap: Seq<u8>, words: Seq<u32>) {
    }

    proof fn lemma_fill_without_memory(&self, heap: Seq<u8>, words: Seq<u32>) {
    }

    fn init(args: &mut Slots) -> (r: Result<(u32, Self), ProtocolError>)
        ensures
            r matches Ok(pair) ==> pair.0 == 0,
    {
        let (_, n) = <i32 as Incoming>::init(args)?;
        let value = Self::checked(n)?;
        Ok((0, value))
    }

    fn args(&self, args: &mut Vec<u32>) -> (r: Result<(), ProtocolError>) {
        Incoming::args(&self.day, args)
    }

    fn fill(&self, heap: &mut [u8], args: &mut Iter<u32>) -> (r: Result<(), ProtocolError>) {
        self.day.fill(heap, args)
    }
}

/// The hour, minute and second that a word carries in its three low bytes.
pub open spec fn clock_of(word: u32) -> (u8, u8, u8) {
    (byte_of(word, 0), byte_of(word, 1), byte_of(word, 2))
}

/// A `time` time of day, to the whole second: it travels as one word with the
/// hour, the minute and the second in its three low bytes.
#[derive(Debug, Clone, Copy, PartialEq, Eq)]
pub struct TimeOfDay {
    hour: u8,
    minute: u8,
    second: u8,
}

impl View for TimeOfDay {
    type V = (u8, u8, u8);

    closed spec fn view(&self) -> (u8, u8, u8) {
        (self.hour, self.minute, self.second)
    }
}

impl DeepView for TimeOfDay {
    type V = (u8, u8, u8);

    open spec fn deep_view(&self) -> (u8, u8, u8) {
        self@
    }
}

impl TimeOfDay {
    /// The time of day with the given hour, minute and second, where `time`
    /// has one.
    pub fn from_hms(hour: u8, minute: u8, second: u8) -> (r: Option<Self>)
        ensures
            clock_valid((hour, minute, second)) ==> (r matches Some(v) && v@ == (
                hour,
                minute,
                second,
            )),
            !clock_valid((hour, minute, second)) ==> r is None,
    {
        match time_checks_hms(hour, minute, second) {
            Ok(()) => Some(TimeOfDay { hour, minute, second }),
            Err(_) => None,
        }
    }

    /// The hour.
    pub fn hour(&self) -> (n: u8)
        ensures
            n == self@.0,
    {
        self.hour
    }

    /// The minute.
    pub fn minute(&self) -> (n: u8)
        ensures
            n == self@.1,
    {
        self.minute
    }

    /// The second.
    pub fn second(&self) -> (n: u8)
        ensures
            n == self@.2,
    {
        self.second
    }
}

/// The time of day that a word carries: the hour in its lowest byte, then
/// the minute, then the second; the highest byte is not looked at.
pub fn time_from_u32(u: u32) -> (r: Result<TimeOfDay, ProtocolError>)
    ensures
        clock_valid(clock_of(u)) ==> (r matches Ok(v) && v@ == clock_of(u)),
        !clock_valid(clock_of(u)) ==> r == Err::<TimeOfDay, ProtocolError>(
            ProtocolError(TIME_PARSE_ERROR),
        ),
{
    let hour: u8 = word_byte(u, 0);
    let minute: u8 = word_byte(u, 1);
    let second: u8 = word_byte(u, 2);
    match time_checks_hms(hour, minute, second) {
        Ok(()) => Ok(TimeOfDay { hour, minute, second }),
        Err(error) => Err(ProtocolError::from(error)),
    }
}

/// The word that carries a time of day: the hour in its lowest byte, then
/// the minute, then the second, and zero in the highest byte.
pub fn time_into_u32(time: &TimeOfDay) -> (u: u32)
    ensures
        u == pack(time@.0, time@.1, time@.2, 0),
{
    pack_word(time.hour, time.minute, time.second, 0)
}

impl Wire for TimeOfDay {
    open spec fn lawful() -> bool {
        true
    }

    open spec fn words(&self) -> Seq<u32> {
        seq![pack(self@.0, self@.1, self@.2, 0)]
    }

    open spec fn parse(heap: Seq<u8>, words: Seq<u32>) -> Result<((u8, u8, u8), nat), ProtocolError> {
        match u32::parse(heap, words) {
            Ok((word, taken)) => if clock_valid(clock_of(word)) {
                Ok((clock_of(word), taken))
            } else {
                Err(ProtocolError(TIME_PARSE_ERROR))
            },
            Err(e) => Err(e),
        }
    }

    open spec fn restorable(&self, heap: Seq<u8>) -> bool {
        clock_valid(self@)
    }

    proof fn lemma_parse_bound(heap: Seq<u8>, words: Seq<u32>) {
    }

    proof fn lemma_round_trip(&self, heap: Seq<u8>, rest: Seq<u32>) {
        lemma_byte_of_pack(self@.0, self@.1, self@.2, 0);
    }
}

impl Outcoming for TimeOfDay {
    const IS_NEED_READ: bool = false;

    open spec fn reads_memory() -> bool {
        false
    }

    proof fn lemma_read_flag() {
    }

    proof fn lemma_read_ignores_memory(h1: Seq<u8>, h2: Seq<u8>, words: Seq<u32>) {
    }

    fn args(&self, args: &mut Vec<u32>) -> (r: Result<(), ProtocolError>) {
        let u: u32 = time_into_u32(self);
        Outcoming::args(&u, args)
    }

    fn read(heap: &[u8], args: &mut Iter<u32>) -> (r: Result<Self, ProtocolError>) {
        let u = <u32 as Outcoming>::read(heap, args)?;
        time_from_u32(u)
    }
}

impl Incoming for TimeOfDay {
    const IS_NEED_INIT_FILL: bool = false;

    open spec fn writes_memory() -> bool {
        false
    }

    proof fn lemma_fill_flag() {
    }

    open spec fn filled(&self, heap: Seq<u8>, words: Seq<u32>) -> Result<Seq<u8>, ProtocolError> {
        passed_over(heap, words, 1)
    }

    proof fn lemma_init_ignores_memory(h1: Seq<u8>, h2: Seq<u8>, words: Seq<u32>) {
    }

    proof fn lemma_filled_bound(&self, heap: Seq<u8>, words: Seq<u32>) {
    }

    proof fn lemma_fill_without_memory(&self, heap: Seq<u8>, words: Seq<u32>) {
    }

    fn init(args: &mut Slots) -> (r: Result<(u32, Self), ProtocolError>)
        ensures
            r matches Ok(pair) ==> pair.0 == 0,
    {
        let (_, u) = <u32 as Incoming>::init(args)?;
        let time = time_from_u32(u)?;
        Ok((0, time))
    }

    fn args(&self, args: &mut Vec<u32>) -> (r: Result<(), ProtocolError>) {
        let u: u32 = time_into_u32(self);
        Incoming::args(&u, args)
    }

    fn fill(&self, heap: &mut [u8], args: &mut Iter<u32>) -> (r: Result<(), ProtocolError>) {
        crate::scalar::pass_over(args, 1)
    }
}

} // verus!
