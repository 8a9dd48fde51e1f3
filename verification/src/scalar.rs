//! The primitive word codec: scalars that travel as one or two words and never
//! touch the sandbox memory.

use crate::codec::{Incoming, Outcoming, Wire};
use crate::error::{ProtocolError, ARGS_NEXT_ERROR};
use crate::packing::{
    high_word, join, join_u64, lemma_join_halves, low_word, split_u64, swap_bytes, swap_word,
};
use crate::stream::{next_word, skip_words, Slots};
use core::slice::Iter;
use vstd::prelude::*;
use vstd::std_specs::iter::IteratorSpec;

verus! {

/// The first word of a stream and the count 1, or the failure of a stream
/// that has ended.
pub open spec fn parse_one(words: Seq<u32>) -> Result<(u32, nat), ProtocolError> {
    if words.len() >= 1 {
        Ok((words[0], 1nat))
    } else {
        Err(ProtocolError(ARGS_NEXT_ERROR))
    }
}

/// The first two words of a stream and the count 2, or the failure of a
/// stream that ends before them.
pub open spec fn parse_two(words: Seq<u32>) -> Result<((u32, u32), nat), ProtocolError> {
    if words.len() >= 2 {
        Ok(((words[0], words[1]), 2nat))
    } else {
        Err(ProtocolError(ARGS_NEXT_ERROR))
    }
}

/// What `fill` does for a value that lives in the stream alone: it passes
/// over `count` words and leaves the memory as it is.
pub open spec fn passed_over(heap: Seq<u8>, words: Seq<u32>, count: nat) -> Result<
    Seq<u8>,
    ProtocolError,
> {
    if count <= words.len() {
        Ok(heap)
    } else {
        Err(ProtocolError(ARGS_NEXT_ERROR))
    }
}

/// The 64-bit value that decoding makes of two words: the first is the low
/// half as it stands, the second is the high half with its bytes reversed.
pub open spec fn decode_halves(first: u32, second: u32) -> u64 {
    join(first, swap_bytes(second))
}

/// Whether the high word of `v` reads the same with its bytes reversed, so
/// that decoding gives `v` back.
pub open spec fn high_word_symmetric(v: u64) -> bool {
    swap_bytes(high_word(v)) == high_word(v)
}

/// Reads one word on the host side.
pub fn read_word(args: &mut Iter<u32>) -> (r: Result<u32, ProtocolError>)
    ensures
        match parse_one((*old(args)).remaining().unref()) {
            Ok((w, taken)) => {
                &&& r == Ok::<u32, ProtocolError>(w)
                &&& (*final(args)).remaining() == (*old(args)).remaining().skip(taken as int)
            },
            Err(e) => r == Err::<u32, ProtocolError>(e),
        },
{
    match next_word(args) {
        Some(w) => Ok(w),
        None => Err(ProtocolError(ARGS_NEXT_ERROR)),
    }
}

/// Reads two words on the host side.
pub fn read_two_words(args: &mut Iter<u32>) -> (r: Result<(u32, u32), ProtocolError>)
    ensures
        match parse_two((*old(args)).remaining().unref()) {
            Ok((pair, taken)) => {
                &&& r == Ok::<(u32, u32), ProtocolError>(pair)
                &&& (*final(args)).remaining() == (*old(args)).remaining().skip(taken as int)
            },
            Err(e) => r == Err::<(u32, u32), ProtocolError>(e),
        },
{
    let first = match next_word(args) {
        Some(w) => w,
        None => {
            return Err(ProtocolError(ARGS_NEXT_ERROR));
        },
    };
    let second = match next_word(args) {
        Some(w) => w,
        None => {
            return Err(ProtocolError(ARGS_NEXT_ERROR));
        },
    };
    assert((*old(args)).remaining().skip(1).skip(1) =~= (*old(args)).remaining().skip(2));
    Ok((first, second))
}

/// Reads one slot on the sandbox side.
pub fn init_word(args: &mut Slots) -> (r: Result<u32, ProtocolError>)
    ensures
        final(args).words() == old(args).words(),
        match parse_one(old(args).remaining()) {
            Ok((w, taken)) => {
                &&& r == Ok::<u32, ProtocolError>(w)
                &&& final(args).position() == old(args).position() + taken
            },
            Err(e) => r == Err::<u32, ProtocolError>(e),
        },
{
    match args.next() {
        Some(w) => Ok(w),
        None => Err(ProtocolError(ARGS_NEXT_ERROR)),
    }
}

/// Reads two slots on the sandbox side.
pub fn init_two_words(args: &mut Slots) -> (r: Result<(u32, u32), ProtocolError>)
    ensures
        final(args).words() == old(args).words(),
        match parse_two(old(args).remaining()) {
            Ok((pair, taken)) => {
                &&& r == Ok::<(u32, u32), ProtocolError>(pair)
                &&& final(args).position() == old(args).position() + taken
            },
            Err(e) => r == Err::<(u32, u32), ProtocolError>(e),
        },
{
    let first = match args.next() {
        Some(w) => w,
        None => {
            return Err(ProtocolError(ARGS_NEXT_ERROR));
        },
    };
    let second = match args.next() {
        Some(w) => w,
        None => {
            return Err(ProtocolError(ARGS_NEXT_ERROR));
        },
    };
    Ok((first, second))
}

/// Passes over `count` words on the host side, as `fill` does for a value
/// that lives in the stream alone.
pub fn pass_over(args: &mut Iter<u32>, count: usize) -> (r: Result<(), ProtocolError>)
    ensures
        count <= (*old(args)).remaining().len() ==> {
            &&& r is Ok
            &&& (*final(args)).remaining() == (*old(args)).remaining().skip(count as int)
        },
        count > (*old(args)).remaining().len() ==> r == Err::<(), ProtocolError>(
            ProtocolError(ARGS_NEXT_ERROR),
        ),
{
    if skip_words(args, count) {
        Ok(())
    } else {
        Err(ProtocolError(ARGS_NEXT_ERROR))
    }
}

impl Wire for bool {
    open spec fn lawful() -> bool {
        true
    }

    open spec fn words(&self) -> Seq<u32> {
        seq![if *self { 1u32 } else { 0u32 }]
    }

    open spec fn parse(heap: Seq<u8>, words: Seq<u32>) -> Result<(bool, nat), ProtocolError> {
        match parse_one(words) {
            Ok((w, taken)) => Ok((w != 0, taken)),
            Err(e) => Err(e),
        }
    }

    open spec fn restorable(&self, heap: Seq<u8>) -> bool {
        true
    }

    proof fn lemma_parse_bound(heap: Seq<u8>, words: Seq<u32>) {
    }

    proof fn lemma_round_trip(&self, heap: Seq<u8>, rest: Seq<u32>) {
    }
}

impl Outcoming for bool {
    const IS_NEED_READ: bool = false;

    open spec fn reads_memory() -> bool {
        false
    }

    proof fn lemma_read_flag() {
    }

    proof fn lemma_read_ignores_memory(h1: Seq<u8>, h2: Seq<u8>, words: Seq<u32>) {
    }

    fn args(&self, args: &mut Vec<u32>) -> (r: Result<(), ProtocolError>) {
        args.push(if *self { 1 } else { 0 });
        Ok(())
    }

    fn read(heap: &[u8], args: &mut Iter<u32>) -> (r: Result<Self, ProtocolError>) {
        let el: u32 = read_word(args)?;
        Ok(el != 0)
    }
}

impl Incoming for bool {
    const IS_NEED_INIT_FILL: bool = false;

    open spec fn writes_memory() -> bool {
        false
    }

    proof fn lemma_fill_flag() {
    }

    open spec fn filled(&self, heap: Seq<u8>, words: Seq<u32>) -> Result<Seq<u8>, ProtocolError> {
        passed_over(heap, words, 1)
    }

    proof fn lemma_init_ignores_memory(h1: Seq<u8>, h2: Seq<u8>, words: Seq<u32>) {
    }

    proof fn lemma_filled_bound(&self, heap: Seq<u8>, words: Seq<u32>) {
    }

    proof fn lemma_fill_without_memory(&self, heap: Seq<u8>, words: Seq<u32>) {
    }

    fn init(args: &mut Slots) -> (r: Result<(u32, Self), ProtocolError>)
        ensures
            r matches Ok(pair) ==> pair.0 == old(args).remaining()[0],
    {
        let el: u32 = init_word(args)?;
        Ok((el, el != 0))
    }

    fn args(&self, args: &mut Vec<u32>) -> (r: Result<(), ProtocolError>) {
        args.push(if *self { 1 } else { 0 });
        Ok(())
    }

    fn fill(&self, heap: &mut [u8], args: &mut Iter<u32>) -> (r: Result<(), ProtocolError>) {
        pass_over(args, 1)
    }
}

impl Wire for u8 {
    open spec fn lawful() -> bool {
        true
    }

    open spec fn words(&self) -> Seq<u32> {
        seq![*self as u32]
    }

    open spec fn parse(heap: Seq<u8>, words: Seq<u32>) -> Result<(u8, nat), ProtocolError> {
        match parse_one(words) {
            Ok((w, taken)) => Ok((w as u8, taken)),
            Err(e) => Err(e),
        }
    }

    open spec fn restorable(&self, heap: Seq<u8>) -> bool {
        true
    }

    proof fn lemma_parse_bound(heap: Seq<u8>, words: Seq<u32>) {
    }

    proof fn lemma_round_trip(&self, heap: Seq<u8>, rest: Seq<u32>) {
    }
}

impl Outcoming for u8 {
    const IS_NEED_READ: bool = false;

    open spec fn reads_memory() -> bool {
        false
    }

    proof fn lemma_read_flag() {
    }

    proof fn lemma_read_ignores_memory(h1: Seq<u8>, h2: Seq<u8>, words: Seq<u32>) {
    }

    fn args(&self, args: &mut Vec<u32>) -> (r: Result<(), ProtocolError>) {
        args.push(*self as u32);
        Ok(())
    }

    fn read(heap: &[u8], args: &mut Iter<u32>) -> (r: Result<Self, ProtocolError>) {
        let el: u32 = read_word(args)?;
        Ok(el as u8)
    }
}

impl Incoming for u8 {
    const IS_NEED_INIT_FILL: bool = false;

    open spec fn writes_memory() -> bool {
        false
    }

    proof fn lemma_fill_flag() {
    }

    open spec fn filled(&self, heap: Seq<u8>, words: Seq<u32>) -> Result<Seq<u8>, ProtocolError> {
        passed_over(heap, words, 1)
    }

    proof fn lemma_init_ignores_memory(h1: Seq<u8>, h2: Seq<u8>, words: Seq<u32>) {
    }

    proof fn lemma_filled_bound(&self, heap: Seq<u8>, words: Seq<u32>) {
    }

    proof fn lemma_fill_without_memory(&self, heap: Seq<u8>, words: Seq<u32>) {
    }

    fn init(args: &mut Slots) -> (r: Result<(u32, Self), ProtocolError>)
        ensures
            r matches Ok(pair) ==> pair.0 == old(args).remaining()[0],
    {
        let el: u32 = init_word(args)?;
        Ok((el, el as u8))
    }

    fn args(&self, args: &mut Vec<u32>) -> (r: Result<(), ProtocolError>) {
        args.push(*self as u32);
        Ok(())
    }

    fn fill(&self, heap: &mut [u8], args: &mut Iter<u32>) -> (r: Result<(), ProtocolError>) {
        pass_over(args, 1)
    }
}

impl Wire for i32 {
    open spec fn lawful() -> bool {
        true
    }

    open spec fn words(&self) -> Seq<u32> {
        seq![*self as u32]
    }

    open spec fn parse(heap: Seq<u8>, words: Seq<u32>) -> Result<(i32, nat), ProtocolError> {
        match parse_one(words) {
            Ok((w, taken)) => Ok((w as i32, taken)),
            Err(e) => Err(e),
        }
    }

    open spec fn restorable(&self, heap: Seq<u8>) -> bool {
        true
    }

    proof fn lemma_parse_bound(heap: Seq<u8>, words: Seq<u32>) {
    }

    proof fn lemma_round_trip(&self, heap: Seq<u8>, rest: Seq<u32>) {
        let v: i32 = *self;
        assert((v as u32) as i32 == v) by (bit_vector);
    }
}

impl Outcoming for i32 {
    const IS_NEED_READ: bool = false;

    open spec fn reads_memory() -> bool {
        false
    }

    proof fn lemma_read_flag() {
    }

    proof fn lemma_read_ignores_memory(h1: Seq<u8>, h2: Seq<u8>, words: Seq<u32>) {
    }

    fn args(&self, args: &mut Vec<u32>) -> (r: Result<(), ProtocolError>) {
        args.push(*self as u32);
        Ok(())
    }

    fn read(heap: &[u8], args: &mut Iter<u32>) -> (r: Result<Self, ProtocolError>) {
        let el: u32 = read_word(args)?;
        Ok(el as i32)
    }
}

impl Incoming for i32 {
    const IS_NEED_INIT_FILL: bool = false;

    open spec fn writes_memory() -> bool {
        false
    }

    proof fn lemma_fill_flag() {
    }

    open spec fn filled(&self, heap: Seq<u8>, words: Seq<u32>) -> Result<Seq<u8>, ProtocolError> {
        passed_over(heap, words, 1)
    }

    proof fn lemma_init_ignores_memory(h1: Seq<u8>, h2: Seq<u8>, words: Seq<u32>) {
    }

    proof fn lemma_filled_bound(&self, heap: Seq<u8>, words: Seq<u32>) {
    }

    proof fn lemma_fill_without_memory(&self, heap: Seq<u8>, words: Seq<u32>) {
    }

    fn init(args: &mut Slots) -> (r: Result<(u32, Self), ProtocolError>)
        ensures
            r matches Ok(pair) ==> pair.0 == old(args).remaining()[0],
    {
        let el: u32 = init_word(args)?;
        Ok((el, el as i32))
    }

    fn args(&self, args: &mut Vec<u32>) -> (r: Result<(), ProtocolError>) {
        args.push(*self as u32);
        Ok(())
    }

    fn fill(&self, heap: &mut [u8], args: &mut Iter<u32>) -> (r: Result<(), ProtocolError>) {
        pass_over(args, 1)
    }
}

impl Wire for u32 {
    open spec fn lawful() -> bool {
        true
    }

    open spec fn words(&self) -> Seq<u32> {
        seq![*self]
    }

    open spec fn parse(heap: Seq<u8>, words: Seq<u32>) -> Result<(u32, nat), ProtocolError> {
        match parse_one(words) {
            Ok((w, taken)) => Ok((w, taken)),
            Err(e) => Err(e),
        }
    }

    open spec fn restorable(&self, heap: Seq<u8>) -> bool {
        true
    }

    proof fn lemma_parse_bound(heap: Seq<u8>, words: Seq<u32>) {
    }

    proof fn lemma_round_trip(&self, heap: Seq<u8>, rest: Seq<u32>) {
    }
}

impl Outcoming for u32 {
    const IS_NEED_READ: bool = false;

    open spec fn reads_memory() -> bool {
        false
    }

    proof fn lemma_read_flag() {
    }

    proof fn lemma_read_ignores_memory(h1: Seq<u8>, h2: Seq<u8>, words: Seq<u32>) {
    }

    fn args(&self, args: &mut Vec<u32>) -> (r: Result<(), ProtocolError>) {
        args.push(*self);
        Ok(())
    }

    fn read(heap: &[u8], args: &mut Iter<u32>) -> (r: Result<Self, ProtocolError>) {
        let el: u32 = read_word(args)?;
        Ok(el)
    }
}

impl Incoming for u32 {
    const IS_NEED_INIT_FILL: bool = false;

    open spec fn writes_memory() -> bool {
        false
    }

    proof fn lemma_fill_flag() {
    }

    open spec fn filled(&self, heap: Seq<u8>, words: Seq<u32>) -> Result<Seq<u8>, ProtocolError> {
        passed_over(heap, words, 1)
    }

    proof fn lemma_init_ignores_memory(h1: Seq<u8>, h2: Seq<u8>, words: Seq<u32>) {
    }

    proof fn lemma_filled_bound(&self, heap: Seq<u8>, words: Seq<u32>) {
    }

    proof fn lemma_fill_without_memory(&self, heap: Seq<u8>, words: Seq<u32>) {
    }

    fn init(args: &mut Slots) -> (r: Result<(u32, Self), ProtocolError>)
        ensures
            r matches Ok(pair) ==> pair.0 == old(args).remaining()[0],
    {
        let el: u32 = init_word(args)?;
        Ok((el, el))
    }

    fn args(&self, args: &mut Vec<u32>) -> (r: Result<(), ProtocolError>) {
        args.push(*self);
        Ok(())
    }

    fn fill(&self, heap: &mut [u8], args: &mut Iter<u32>) -> (r: Result<(), ProtocolError>) {
        pass_over(args, 1)
    }
}

impl Wire for i64 {
    open spec fn lawful() -> bool {
        true
    }

    open spec fn words(&self) -> Seq<u32> {
        seq![low_word(*self as u64), high_word(*self as u64)]
    }

    open spec fn parse(heap: Seq<u8>, words: Seq<u32>) -> Result<(i64, nat), ProtocolError> {
        match parse_two(words) {
            Ok((pair, taken)) => Ok((decode_halves(pair.0, pair.1) as i64, taken)),
            Err(e) => Err(e),
        }
    }

    open spec fn restorable(&self, heap: Seq<u8>) -> bool {
        high_word_symmetric(*self as u64)
    }

    proof fn lemma_parse_bound(heap: Seq<u8>, words: Seq<u32>) {
    }

    proof fn lemma_round_trip(&self, heap: Seq<u8>, rest: Seq<u32>) {
        let v: i64 = *self;
        assert((v as u64) as i64 == v) by (bit_vector);
        lemma_join_halves(v as u64);
    }
}

impl Outcoming for i64 {
    const IS_NEED_READ: bool = false;

    open spec fn reads_memory() -> bool {
        false
    }

    proof fn lemma_read_flag() {
    }

    proof fn lemma_read_ignores_memory(h1: Seq<u8>, h2: Seq<u8>, words: Seq<u32>) {
    }

    fn args(&self, args: &mut Vec<u32>) -> (r: Result<(), ProtocolError>) {
        let (low, high) = split_u64(*self as u64);
        args.push(low);
        args.push(high);
        assert(args@ =~= old(args)@ + self.words());
        Ok(())
    }

    fn read(heap: &[u8], args: &mut Iter<u32>) -> (r: Result<Self, ProtocolError>) {
        let (first, second) = read_two_words(args)?;
        let bits: u64 = join_u64(first, swap_word(second));
        Ok(bits as i64)
    }
}

impl Incoming for i64 {
    const IS_NEED_INIT_FILL: bool = false;

    open spec fn writes_memory() -> bool {
        false
    }

    proof fn lemma_fill_flag() {
    }

    open spec fn filled(&self, heap: Seq<u8>, words: Seq<u32>) -> Result<Seq<u8>, ProtocolError> {
        passed_over(heap, words, 2)
    }

    proof fn lemma_init_ignores_memory(h1: Seq<u8>, h2: Seq<u8>, words: Seq<u32>) {
    }

    proof fn lemma_filled_bound(&self, heap: Seq<u8>, words: Seq<u32>) {
    }

    proof fn lemma_fill_without_memory(&self, heap: Seq<u8>, words: Seq<u32>) {
    }

    fn init(args: &mut Slots) -> (r: Result<(u32, Self), ProtocolError>)
        ensures
            r matches Ok(pair) ==> pair.0 == 0,
    {
        let (first, second) = init_two_words(args)?;
        let bits: u64 = join_u64(first, swap_word(second));
        Ok((0, bits as i64))
    }

    fn args(&self, args: &mut Vec<u32>) -> (r: Result<(), ProtocolError>) {
        let (low, high) = split_u64(*self as u64);
        args.push(low);
        args.push(high);
        assert(args@ =~= old(args)@ + self.words());
        Ok(())
    }

    fn fill(&self, heap: &mut [u8], args: &mut Iter<u32>) -> (r: Result<(), ProtocolError>) {
        pass_over(args, 2)
    }
}

impl Wire for u64 {
    open spec fn lawful() -> bool {
        true
    }

    open spec fn words(&self) -> Seq<u32> {
        seq![low_word(*self), high_word(*self)]
    }

    open spec fn parse(heap: Seq<u8>, words: Seq<u32>) -> Result<(u64, nat), ProtocolError> {
        match parse_two(words) {
            Ok((pair, taken)) => Ok((decode_halves(pair.0, pair.1), taken)),
            Err(e) => Err(e),
        }
    }

    open spec fn restorable(&self, heap: Seq<u8>) -> bool {
        high_word_symmetric(*self)
    }

    proof fn lemma_parse_bound(heap: Seq<u8>, words: Seq<u32>) {
    }

    proof fn lemma_round_trip(&self, heap: Seq<u8>, rest: Seq<u32>) {
        lemma_join_halves(*self);
    }
}

impl Outcoming for u64 {
    const IS_NEED_READ: bool = false;

    open spec fn reads_memory() -> bool {
        false
    }

    proof fn lemma_read_flag() {
    }

    proof fn lemma_read_ignores_memory(h1: Seq<u8>, h2: Seq<u8>, words: Seq<u32>) {
    }

    fn args(&self, args: &mut Vec<u32>) -> (r: Result<(), ProtocolError>) {
        let (low, high) = split_u64(*self);
        args.push(low);
        args.push(high);
        assert(args@ =~= old(args)@ + self.words());
        Ok(())
    }

    fn read(heap: &[u8], args: &mut Iter<u32>) -> (r: Result<Self, ProtocolError>) {
        let (first, second) = read_two_words(args)?;
        let bits: u64 = join_u64(first, swap_word(second));
        Ok(bits)
    }
}

impl Incoming for u64 {
    const IS_NEED_INIT_FILL: bool = false;

    open spec fn writes_memory() -> bool {
        false
    }

    proof fn lemma_fill_flag() {
    }

    open spec fn filled(&self, heap: Seq<u8>, words: Seq<u32>) -> Result<Seq<u8>, ProtocolError> {
        passed_over(heap, words, 2)
    }

    proof fn lemma_init_ignores_memory(h1: Seq<u8>, h2: Seq<u8>, words: Seq<u32>) {
    }

    proof fn lemma_filled_bound(&self, heap: Seq<u8>, words: Seq<u32>) {
    }

    proof fn lemma_fill_without_memory(&self, heap: Seq<u8>, words: Seq<u32>) {
    }

    fn init(args: &mut Slots) -> (r: Result<(u32, Self), ProtocolError>)
        ensures
            r matches Ok(pair) ==> pair.0 == 0,
    {
        let (first, second) = init_two_words(args)?;
        let bits: u64 = join_u64(first, swap_word(second));
        Ok((0, bits))
    }

    fn args(&self, args: &mut Vec<u32>) -> (r: Result<(), ProtocolError>) {
        let (low, high) = split_u64(*self);
        args.push(low);
        args.push(high);
        assert(args@ =~= old(args)@ + self.words());
        Ok(())
    }

    fn fill(&self, heap: &mut [u8], args: &mut Iter<u32>) -> (r: Result<(), ProtocolError>) {
        pass_over(args, 2)
    }
}

impl Wire for usize {
    open spec fn lawful() -> bool {
        true
    }

    open spec fn words(&self) -> Seq<u32> {
        seq![*self as u32]
    }

    open spec fn parse(heap: Seq<u8>, words: Seq<u32>) -> Result<(usize, nat), ProtocolError> {
        match parse_one(words) {
            Ok((w, taken)) => Ok((w as usize, taken)),
            Err(e) => Err(e),
        }
    }

    open spec fn restorable(&self, heap: Seq<u8>) -> bool {
        *self <= u32::MAX
    }

    proof fn lemma_parse_bound(heap: Seq<u8>, words: Seq<u32>) {
    }

    proof fn lemma_round_trip(&self, heap: Seq<u8>, rest: Seq<u32>) {
    }
}

impl Outcoming for usize {
    const IS_NEED_READ: bool = false;

    open spec fn reads_memory() -> bool {
        false
    }

    proof fn lemma_read_flag() {
    }

    proof fn lemma_read_ignores_memory(h1: Seq<u8>, h2: Seq<u8>, words: Seq<u32>) {
    }

    fn args(&self, args: &mut Vec<u32>) -> (r: Result<(), ProtocolError>) {
        args.push(*self as u32);
        Ok(())
    }

    fn read(heap: &[u8], args: &mut Iter<u32>) -> (r: Result<Self, ProtocolError>) {
        let el: u32 = read_word(args)?;
        Ok(el as usize)
    }
}

impl Incoming for usize {
    const IS_NEED_INIT_FILL: bool = false;

    open spec fn writes_memory() -> bool {
        false
    }

    proof fn lemma_fill_flag() {
    }

    open spec fn filled(&self, heap: Seq<u8>, words: Seq<u32>) -> Result<Seq<u8>, ProtocolError> {
        passed_over(heap, words, 1)
    }

    proof fn lemma_init_ignores_memory(h1: Seq<u8>, h2: Seq<u8>, words: Seq<u32>) {
    }

    proof fn lemma_filled_bound(&self, heap: Seq<u8>, words: Seq<u32>) {
    }

    proof fn lemma_fill_without_memory(&self, heap: Seq<u8>, words: Seq<u32>) {
    }

    fn init(args: &mut Slots) -> (r: Result<(u32, Self), ProtocolError>)
        ensures
            r matches Ok(pair) ==> pair.0 == 0,
    {
        let el: u32 = init_word(args)?;
        Ok((0, el as usize))
    }

    fn args(&self, args: &mut Vec<u32>) -> (r: Result<(), ProtocolError>) {
        args.push(*self as u32);
        Ok(())
    }

    fn fill(&self, heap: &mut [u8], args: &mut Iter<u32>) -> (r: Result<(), ProtocolError>) {
        pass_over(args, 1)
    }
}

impl Wire for isize {
    open spec fn lawful() -> bool {
        true
    }

    open spec fn words(&self) -> Seq<u32> {
        seq![*self as u32]
    }

    open spec fn parse(heap: Seq<u8>, words: Seq<u32>) -> Result<(isize, nat), ProtocolError> {
        match parse_one(words) {
            Ok((w, taken)) => Ok((w as isize, taken)),
            Err(e) => Err(e),
        }
    }

    open spec fn restorable(&self, heap: Seq<u8>) -> bool {
        0 <= *self <= i32::MAX
    }

    proof fn lemma_parse_bound(heap: Seq<u8>, words: Seq<u32>) {
    }

    proof fn lemma_round_trip(&self, heap: Seq<u8>, rest: Seq<u32>) {
    }
}

impl Outcoming for isize {
    const IS_NEED_READ: bool = false;

    open spec fn reads_memory() -> bool {
        false
    }

    proof fn lemma_read_flag() {
    }

    proof fn lemma_read_ignores_memory(h1: Seq<u8>, h2: Seq<u8>, words: Seq<u32>) {
    }

    fn args(&self, args: &mut Vec<u32>) -> (r: Result<(), ProtocolError>) {
        args.push(*self as u32);
        Ok(())
    }

    fn read(heap: &[u8], args: &mut Iter<u32>) -> (r: Result<Self, ProtocolError>) {
        let el: u32 = read_word(args)?;
        Ok(el as isize)
    }
}

impl Incoming for isize {
    const IS_NEED_INIT_FILL: bool = false;

    open spec fn writes_memory() -> bool {
        false
    }

    proof fn lemma_fill_flag() {
    }

    open spec fn filled(&self, heap: Seq<u8>, words: Seq<u32>) -> Result<Seq<u8>, ProtocolError> {
        passed_over(heap, words, 1)
    }

    proof fn lemma_init_ignores_memory(h1: Seq<u8>, h2: Seq<u8>, words: Seq<u32>) {
    }

    proof fn lemma_filled_bound(&self, heap: Seq<u8>, words: Seq<u32>) {
    }

    proof fn lemma_fill_without_memory(&self, heap: Seq<u8>, words: Seq<u32>) {
    }

    fn init(args: &mut Slots) -> (r: Result<(u32, Self), ProtocolError>)
        ensures
            r matches Ok(pair) ==> pair.0 == 0,
    {
        let el: u32 = init_word(args)?;
        Ok((0, el as isize))
    }

    fn args(&self, args: &mut Vec<u32>) -> (r: Result<(), ProtocolError>) {
        args.push(*self as u32);
        Ok(())
    }

    fn fill(&self, heap: &mut [u8], args: &mut Iter<u32>) -> (r: Result<(), ProtocolError>) {
        pass_over(args, 1)
    }
}

} // verus!
