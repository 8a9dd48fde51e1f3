//! Payloads that live in the sandbox memory instead of the word stream.
//!
//! [`Resident`] is a payload that already lies in the sandbox memory: only
//! its length and address travel, and the host copies the bytes out of its
//! view of the memory. [`Staged`] is a payload that the host sends into the
//! sandbox memory in two phases: the length travels first, the sandbox side
//! makes room and writes the address of the room into the slot that carried
//! the length, and the host then writes the bytes at that address.

use crate::codec::{Incoming, Outcoming, Wire};
use crate::error::{ProtocolError, BYTES_INTO_ARR4_ERROR, STRING_FROM_BYTES_ERROR};
use crate::scalar::{init_word, parse_one, parse_two, read_two_words, read_word};
use crate::stream::Slots;
use crate::text::text_from_bytes;
use core::slice::Iter;
use vstd::prelude::*;
use vstd::std_specs::iter::IteratorSpec;
use vstd::utf8::{decode_utf8, encode_utf8, valid_utf8};

verus! {

/// Whether `len` bytes at `address` lie inside a memory of `size` bytes.
pub open spec fn in_memory(size: nat, address: nat, len: nat) -> bool {
    address + len <= size
}

/// The `len` bytes that `heap` holds at `address`.
pub open spec fn region(heap: Seq<u8>, address: nat, len: nat) -> Seq<u8> {
    heap.subrange(address as int, address + len as int)
}

/// `heap` with `bytes` written over what it held at `address`.
pub open spec fn written(heap: Seq<u8>, address: nat, bytes: Seq<u8>) -> Seq<u8> {
    Seq::new(
        heap.len(),
        |j: int|
            if address <= j < address + bytes.len() {
                bytes[j - address]
            } else {
                heap[j]
            },
    )
}

/// `len` zero bytes: the room that the sandbox side makes for a payload.
pub open spec fn zeros(len: nat) -> Seq<u8> {
    Seq::new(len, |j: int| 0u8)
}

/// What decoding reads for a payload that lies in the memory: its length and
/// address, and the bytes that the memory holds there. Refused where those
/// bytes do not lie inside the memory.
pub open spec fn parse_resident(heap: Seq<u8>, words: Seq<u32>) -> Result<
    ((u32, Seq<u8>), nat),
    ProtocolError,
> {
    match parse_two(words) {
        Ok((pair, taken)) => if in_memory(heap.len(), pair.1 as nat, pair.0 as nat) {
            Ok(((pair.1, region(heap, pair.1 as nat, pair.0 as nat)), taken))
        } else {
            Err(ProtocolError(BYTES_INTO_ARR4_ERROR))
        },
        Err(e) => Err(e),
    }
}

/// What the second phase does for a payload of the given bytes: it takes the
/// address from the stream and writes the bytes there. Refused where they do
/// not fit inside the memory.
pub open spec fn fill_staged(bytes: Seq<u8>, heap: Seq<u8>, words: Seq<u32>) -> Result<
    Seq<u8>,
    ProtocolError,
> {
    match parse_one(words) {
        Ok((address, _)) => if in_memory(heap.len(), address as nat, bytes.len()) {
            Ok(written(heap, address as nat, bytes))
        } else {
            Err(ProtocolError(BYTES_INTO_ARR4_ERROR))
        },
        Err(e) => Err(e),
    }
}

/// Writing a payload changes the bytes at its address and no others.
pub proof fn lemma_written(heap: Seq<u8>, address: nat, bytes: Seq<u8>)
    requires
        in_memory(heap.len(), address, bytes.len()),
    ensures
        written(heap, address, bytes).len() == heap.len(),
        region(written(heap, address, bytes), address, bytes.len()) == bytes,
        forall|j: int|
            0 <= j < heap.len() && !(address <= j < address + bytes.len()) ==> written(
                heap,
                address,
                bytes,
            )[j] == heap[j],
{
    assert(region(written(heap, address, bytes), address, bytes.len()) =~= bytes);
}

/// Two phases make a round trip: once the second phase has written a payload
/// at the address that the first phase reported, reading in place at that
/// address finds the payload.
pub proof fn lemma_fill_then_read(
    bytes: Seq<u8>,
    heap: Seq<u8>,
    address: u32,
    filled_rest: Seq<u32>,
    read_rest: Seq<u32>,
)
    requires
        bytes.len() <= u32::MAX,
        in_memory(heap.len(), address as nat, bytes.len()),
    ensures
        fill_staged(bytes, heap, seq![address] + filled_rest) matches Ok(after) && parse_resident(
            after,
            seq![bytes.len() as u32, address] + read_rest,
        ) == Ok::<((u32, Seq<u8>), nat), ProtocolError>(((address, bytes), 2nat)),
{
    lemma_written(heap, address as nat, bytes);
}

/// Reading in place depends on the memory: where two memories hold different
/// bytes at the place that a stream names, the stream decodes to different
/// payloads in them.
pub proof fn lemma_resident_reads_memory(h1: Seq<u8>, h2: Seq<u8>, words: Seq<u32>)
    requires
        words.len() >= 2,
        in_memory(h1.len(), words[1] as nat, words[0] as nat),
        in_memory(h2.len(), words[1] as nat, words[0] as nat),
        region(h1, words[1] as nat, words[0] as nat) != region(h2, words[1] as nat, words[0] as nat),
    ensures
        parse_resident(h1, words) != parse_resident(h2, words),
{
}

/// The second phase of a staged payload writes into the memory: where the
/// memory does not hold the payload at the address that the stream gives, it
/// is another memory afterwards.
pub proof fn lemma_staged_writes_memory(bytes: Seq<u8>, heap: Seq<u8>, words: Seq<u32>)
    requires
        words.len() >= 1,
        in_memory(heap.len(), words[0] as nat, bytes.len()),
        region(heap, words[0] as nat, bytes.len()) != bytes,
    ensures
        fill_staged(bytes, heap, words) matches Ok(after) && after != heap,
{
    lemma_written(heap, words[0] as nat, bytes);
}

/// `Vec::as_ptr` of the standard library, narrowed to a word: where the
/// buffer of `buffer` starts. Nothing is claimed of the number.
#[verifier::external_body]
fn buffer_address(buffer: &Vec<u8>) -> u32 {
    buffer.as_ptr() as usize as u32
}

/// Copies `len` bytes out of the memory, starting at `address`; nothing where
/// they do not lie inside it.
pub fn copy_region(heap: &[u8], address: usize, len: usize) -> (r: Option<Vec<u8>>)
    ensures
        in_memory(heap@.len(), address as nat, len as nat) ==> (r matches Some(bytes) && bytes@
            == region(heap@, address as nat, len as nat)),
        !in_memory(heap@.len(), address as nat, len as nat) ==> r is None,
{
    if !fits(heap, address, len) {
        return None;
    }
    let size: usize = heap.len();
    let mut bytes: Vec<u8> = Vec::new();
    let mut i: usize = 0;
    while i < len
        invariant
            size == heap@.len(),
            address + len <= size,
            i <= len,
            bytes@ == region(heap@, address as nat, i as nat),
        decreases len - i,
    {
        bytes.push(heap[address + i]);
        assert(region(heap@, address as nat, (i + 1) as nat) =~= region(
            heap@,
            address as nat,
            i as nat,
        ).push(heap@[address + i]));
        i = i + 1;
    }
    Some(bytes)
}

/// Writes `bytes` into the memory, starting at `address`; writes nothing and
/// says so where they do not fit inside it.
pub fn write_region(heap: &mut [u8], address: usize, bytes: &[u8]) -> (done: bool)
    ensures
        done == in_memory(old(heap)@.len(), address as nat, bytes@.len()),
        done ==> final(heap)@ == written(old(heap)@, address as nat, bytes@),
        !done ==> final(heap)@ == old(heap)@,
{
    if !fits(heap, address, bytes.len()) {
        return false;
    }
    let len: usize = bytes.len();
    let size: usize = heap.len();
    let mut i: usize = 0;
    assert(heap@ =~= written(old(heap)@, address as nat, bytes@.take(0)));
    while i < len
        invariant
            len == bytes@.len(),
            size == old(heap)@.len(),
            address + len <= size,
            i <= len,
            heap@ == written(old(heap)@, address as nat, bytes@.take(i as int)),
        decreases len - i,
    {
        heap[address + i] = bytes[i];
        assert(heap@ =~= written(old(heap)@, address as nat, bytes@.take(i + 1)));
        i = i + 1;
    }
    assert(bytes@.take(len as int) =~= bytes@);
    true
}

/// Copies a row of bytes.
pub fn copy_bytes(bytes: &[u8]) -> (copy: Vec<u8>)
    ensures
        copy@ == bytes@,
{
    let mut copy: Vec<u8> = Vec::new();
    let mut i: usize = 0;
    while i < bytes.len()
        invariant
            i <= bytes@.len(),
            copy@ == bytes@.take(i as int),
        decreases bytes.len() - i,
    {
        copy.push(bytes[i]);
        assert(bytes@.take(i + 1) =~= bytes@.take(i as int).push(bytes@[i as int]));
        i = i + 1;
    }
    assert(bytes@.take(bytes@.len() as int) =~= bytes@);
    copy
}

/// Makes room for `len` bytes, all of them zero.
pub fn zeroed(len: usize) -> (bytes: Vec<u8>)
    ensures
        bytes@ == zeros(len as nat),
{
    let mut bytes: Vec<u8> = Vec::new();
    let mut i: usize = 0;
    while i < len
        invariant
            i <= len,
            bytes@ == zeros(i as nat),
        decreases len - i,
    {
        bytes.push(0u8);
        assert(bytes@ =~= zeros((i + 1) as nat));
        i = i + 1;
    }
    bytes
}

/// Whether `len` bytes at `address` lie inside `heap`.
pub fn fits(heap: &[u8], address: usize, len: usize) -> (ok: bool)
    ensures
        ok == in_memory(heap@.len(), address as nat, len as nat),
{
    let size: usize = heap.len();
    len <= size && address <= size - len
}

/// A byte payload that lies in the sandbox memory and is read where it lies.
#[derive(Debug, Clone, PartialEq, Eq)]
pub struct Resident {
    address: u32,
    bytes: Vec<u8>,
}

impl View for Resident {
    type V = (u32, Seq<u8>);

    closed spec fn view(&self) -> (u32, Seq<u8>) {
        (self.address, self.bytes@)
    }
}

impl DeepView for Resident {
    type V = (u32, Seq<u8>);

    open spec fn deep_view(&self) -> (u32, Seq<u8>) {
        self@
    }
}

impl Resident {
    /// The payload `bytes` that lies at `address` in the sandbox memory.
    pub fn at(address: u32, bytes: Vec<u8>) -> (r: Self)
        ensures
            r@ == (address, bytes@),
    {
        Resident { address, bytes }
    }

    /// Where the payload lies.
    pub fn address(&self) -> (a: u32)
        ensures
            a == self@.0,
    {
        self.address
    }

    /// The bytes of the payload.
    pub fn as_slice(&self) -> (s: &[u8])
        ensures
            s@ == self@.1,
    {
        self.bytes.as_slice()
    }

    /// Gives the bytes of the payload away.
    pub fn into_vec(self) -> (v: Vec<u8>)
        ensures
            v@ == self@.1,
    {
        self.bytes
    }

    /// The text `text` that lies at `address` in the sandbox memory.
    pub fn of_text(address: u32, text: &str) -> (r: Self)
        ensures
            r@ == (address, encode_utf8(text@)),
    {
        Resident { address, bytes: copy_bytes(text.as_bytes()) }
    }

    /// Reads the payload as text, which it is only where it is UTF-8.
    pub fn into_text(self) -> (r: Result<String, ProtocolError>)
        ensures
            valid_utf8(self@.1) ==> (r matches Ok(s) && s@ == decode_utf8(self@.1)),
            !valid_utf8(self@.1) ==> r == Err::<String, ProtocolError>(
                ProtocolError(STRING_FROM_BYTES_ERROR),
            ),
    {
        text_from_bytes(self.bytes)
    }
}

impl Wire for Resident {
    open spec fn lawful() -> bool {
        true
    }

    open spec fn words(&self) -> Seq<u32> {
        seq![self@.1.len() as u32, self@.0]
    }

    open spec fn parse(heap: Seq<u8>, words: Seq<u32>) -> Result<
        ((u32, Seq<u8>), nat),
        ProtocolError,
    > {
        parse_resident(heap, words)
    }

    open spec fn restorable(&self, heap: Seq<u8>) -> bool {
        &&& self@.1.len() <= u32::MAX
        &&& in_memory(heap.len(), self@.0 as nat, self@.1.len())
        &&& region(heap, self@.0 as nat, self@.1.len()) == self@.1
    }

    proof fn lemma_parse_bound(heap: Seq<u8>, words: Seq<u32>) {
    }

    proof fn lemma_round_trip(&self, heap: Seq<u8>, rest: Seq<u32>) {
    }
}

impl Outcoming for Resident {
    const IS_NEED_READ: bool = true;

    open spec fn reads_memory() -> bool {
        true
    }

    proof fn lemma_read_flag() {
    }

    proof fn lemma_read_ignores_memory(h1: Seq<u8>, h2: Seq<u8>, words: Seq<u32>) {
    }

    fn args(&self, args: &mut Vec<u32>) -> (r: Result<(), ProtocolError>) {
        args.push(self.bytes.len() as u32);
        args.push(self.address);
        assert(args@ =~= old(args)@ + self.words());
        Ok(())
    }

    fn read(heap: &[u8], args: &mut Iter<u32>) -> (r: Result<Self, ProtocolError>) {
        let (len, address) = read_two_words(args)?;
        match copy_region(heap, address as usize, len as usize) {
            Some(bytes) => Ok(Resident { address, bytes }),
            None => Err(ProtocolError(BYTES_INTO_ARR4_ERROR)),
        }
    }
}

/// A byte payload that the host sends into the sandbox memory in two phases.
#[derive(Debug, Clone, PartialEq, Eq)]
pub struct Staged {
    address: u32,
    bytes: Vec<u8>,
}

impl View for Staged {
    type V = Seq<u8>;

    closed spec fn view(&self) -> Seq<u8> {
        self.bytes@
    }
}

impl DeepView for Staged {
    type V = Seq<u8>;

    open spec fn deep_view(&self) -> Seq<u8> {
        self@
    }
}

impl Staged {
    /// The address that the sandbox side gave the payload, zero before it
    /// has given one.
    pub closed spec fn room(&self) -> u32 {
        self.address
    }

    /// The payload `bytes`, as the host sends it.
    pub fn new(bytes: Vec<u8>) -> (s: Self)
        ensures
            s@ == bytes@,
            s.room() == 0,
    {
        Staged { address: 0, bytes }
    }

    /// The text `text`, as the host sends it.
    pub fn of_text(text: &str) -> (s: Self)
        ensures
            s@ == encode_utf8(text@),
            s.room() == 0,
    {
        Staged { address: 0, bytes: copy_bytes(text.as_bytes()) }
    }

    /// The address that the sandbox side gave the payload.
    pub fn address(&self) -> (a: u32)
        ensures
            a == self.room(),
    {
        self.address
    }

    /// The bytes of the payload.
    pub fn as_slice(&self) -> (s: &[u8])
        ensures
            s@ == self@,
    {
        self.bytes.as_slice()
    }

    /// Gives the bytes of the payload away.
    pub fn into_vec(self) -> (v: Vec<u8>)
        ensures
            v@ == self@,
    {
        self.bytes
    }
}

impl Wire for Staged {
    open spec fn lawful() -> bool {
        true
    }

    open spec fn words(&self) -> Seq<u32> {
        seq![self@.len() as u32]
    }

    open spec fn parse(heap: Seq<u8>, words: Seq<u32>) -> Result<(Seq<u8>, nat), ProtocolError> {
        match parse_one(words) {
            Ok((len, taken)) => Ok((zeros(len as nat), taken)),
            Err(e) => Err(e),
        }
    }

    open spec fn restorable(&self, heap: Seq<u8>) -> bool {
        &&& self@.len() <= u32::MAX
        &&& self@ == zeros(self@.len())
    }

    proof fn lemma_parse_bound(heap: Seq<u8>, words: Seq<u32>) {
    }

    proof fn lemma_round_trip(&self, heap: Seq<u8>, rest: Seq<u32>) {
    }
}

impl Incoming for Staged {
    const IS_NEED_INIT_FILL: bool = true;

    open spec fn writes_memory() -> bool {
        true
    }

    proof fn lemma_fill_flag() {
    }

    open spec fn filled(&self, heap: Seq<u8>, words: Seq<u32>) -> Result<Seq<u8>, ProtocolError> {
        fill_staged(self@, heap, words)
    }

    proof fn lemma_init_ignores_memory(h1: Seq<u8>, h2: Seq<u8>, words: Seq<u32>) {
    }

    proof fn lemma_filled_bound(&self, heap: Seq<u8>, words: Seq<u32>) {
    }

    proof fn lemma_fill_without_memory(&self, heap: Seq<u8>, words: Seq<u32>) {
    }

    /// Makes zeroed room for the payload and writes the address of the room
    /// into the slot that carried the length.
    fn init(args: &mut Slots) -> (r: Result<(u32, Self), ProtocolError>)
        ensures
            r matches Ok(pair) ==> {
                &&& pair.1.room() == pair.0
                &&& final(args).words() == old(args).words().update(
                    old(args).position() as int,
                    pair.0,
                )
            },
    {
        proof {
            old(args).lemma_position_bound();
        }
        let len: usize = init_word(args)? as usize;
        let bytes = zeroed(len);
        let address: u32 = buffer_address(&bytes);
        args.report(address);
        Ok((address, Staged { address, bytes }))
    }

    fn args(&self, args: &mut Vec<u32>) -> (r: Result<(), ProtocolError>) {
        args.push(self.bytes.len() as u32);
        Ok(())
    }

    fn fill(&self, heap: &mut [u8], args: &mut Iter<u32>) -> (r: Result<(), ProtocolError>) {
        let address: usize = read_word(args)? as usize;
        if write_region(heap, address, self.bytes.as_slice()) {
            Ok(())
        } else {
            Err(ProtocolError(BYTES_INTO_ARR4_ERROR))
        }
    }
}

} // verus!
