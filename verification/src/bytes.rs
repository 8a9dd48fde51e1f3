//! The variable-length byte codec: a length word, then the payload four bytes
//! to a word, the last word padded with zero bytes.

use crate::codec::{Incoming, Outcoming, Wire};
use crate::error::{ProtocolError, ARGS_NEXT_ERROR};
use crate::packing::{
    byte_of, byte_or_zero, chunk, chunk_count, chunk_words, lemma_unpack_payload, pack_word,
    payload_words, unpack, word_byte,
};
use crate::scalar::{init_word, pass_over, passed_over, read_word};
use crate::stream::{next_word, Slots};
use core::slice::Iter;
use vstd::prelude::*;
use vstd::std_specs::iter::IteratorSpec;

verus! {

/// The words of a byte payload: its length, then its bytes in groups of four.
pub open spec fn bytes_words(bytes: Seq<u8>) -> Seq<u32> {
    seq![bytes.len() as u32] + payload_words(bytes)
}

/// What decoding a byte payload reads: the length word, then as many words as
/// that length asks for, of which it keeps the first `length` bytes.
pub open spec fn parse_bytes(words: Seq<u32>) -> Result<(Seq<u8>, nat), ProtocolError> {
    if words.len() == 0 {
        Err(ProtocolError(ARGS_NEXT_ERROR))
    } else {
        let len = words[0] as nat;
        let count = chunk_count(len);
        if words.len() < 1 + count {
            Err(ProtocolError(ARGS_NEXT_ERROR))
        } else {
            Ok((unpack(words.subrange(1, 1 + count as int), len), 1 + count))
        }
    }
}

/// Payload byte `j` as a stream carries it: behind the length word, in word
/// `j / 4` of the payload, at place `j % 4`.
pub open spec fn carried_byte(words: Seq<u32>, j: int) -> u8 {
    byte_of(words[1 + j / 4], j % 4)
}

/// Decoding the words of a payload whose length fits in a word gives the
/// payload back, whatever follows in the stream.
pub proof fn lemma_parse_bytes_words(bytes: Seq<u8>, rest: Seq<u32>)
    requires
        bytes.len() <= u32::MAX,
    ensures
        parse_bytes(bytes_words(bytes) + rest) == Ok::<(Seq<u8>, nat), ProtocolError>(
            (bytes, bytes_words(bytes).len()),
        ),
        bytes_words(bytes).len() == 1 + chunk_count(bytes.len()),
{
    let words = bytes_words(bytes) + rest;
    let count = chunk_count(bytes.len());
    lemma_unpack_payload(bytes);
    assert(words[0] == bytes.len() as u32);
    assert(words.subrange(1, 1 + count as int) =~= payload_words(bytes));
}

/// Layout: the length alone decides how many words a payload takes. An empty
/// payload takes the length word only; a multiple of four takes no partial
/// word; any other length takes exactly one. Byte `j` always sits in word
/// `1 + j / 4` at place `j % 4`.
pub proof fn lemma_chunk_layout(bytes: Seq<u8>)
    ensures
        bytes_words(bytes).len() == 1 + chunk_count(bytes.len()),
        bytes.len() == 0 ==> bytes_words(bytes) == seq![0u32],
        bytes.len() % 4 == 0 ==> chunk_count(bytes.len()) == bytes.len() / 4,
        bytes.len() % 4 != 0 ==> chunk_count(bytes.len()) == bytes.len() / 4 + 1,
        forall|j: int|
            0 <= j < bytes.len() ==> #[trigger] carried_byte(bytes_words(bytes), j) == bytes[j],
{
    lemma_unpack_payload(bytes);
    let words = bytes_words(bytes);
    if bytes.len() == 0 {
        assert(words =~= seq![0u32]);
    }
    assert forall|j: int| 0 <= j < bytes.len() implies #[trigger] carried_byte(
        bytes_words(bytes),
        j,
    ) == bytes[j] by {
        assert(words[1 + j / 4] == payload_words(bytes)[j / 4]);
        assert(unpack(payload_words(bytes), bytes.len())[j] == bytes[j]);
    }
}

/// Determinism: payloads of one length take the same number of words and put
/// each byte at the same place, whatever the bytes are.
pub proof fn lemma_layout_by_length(first: Seq<u8>, second: Seq<u8>)
    requires
        first.len() == second.len(),
    ensures
        bytes_words(first).len() == bytes_words(second).len(),
        bytes_words(first)[0] == bytes_words(second)[0],
        forall|j: int|
            0 <= j < first.len() ==> #[trigger] carried_byte(bytes_words(first), j) == first[j]
                && carried_byte(bytes_words(second), j) == second[j],
{
    lemma_chunk_layout(first);
    lemma_chunk_layout(second);
}

/// The bytes of the last word that lie past the end of the payload are zero.
pub proof fn lemma_padding_zero(bytes: Seq<u8>, k: int)
    requires
        bytes.len() % 4 != 0,
        bytes.len() % 4 <= k < 4,
    ensures
        byte_of(bytes_words(bytes)[bytes_words(bytes).len() - 1], k) == 0,
{
    let words = bytes_words(bytes);
    let last = chunk_count(bytes.len()) - 1;
    assert(words[words.len() - 1] == payload_words(bytes)[last]);
    assert(payload_words(bytes)[last] == chunk(bytes, last));
    let b0 = byte_or_zero(bytes, 4 * last);
    let b1 = byte_or_zero(bytes, 4 * last + 1);
    let b2 = byte_or_zero(bytes, 4 * last + 2);
    let b3 = byte_or_zero(bytes, 4 * last + 3);
    assert(chunk(bytes, last) == crate::packing::pack(b0, b1, b2, b3));
    crate::packing::lemma_byte_of_pack(b0, b1, b2, b3);
    assert(4 * last + k >= bytes.len());
}

/// The padding is ignored: two streams that agree on the length word and on
/// every payload byte that the length covers decode to the same payload.
pub proof fn lemma_padding_ignored(first: Seq<u32>, second: Seq<u32>)
    requires
        first.len() == second.len(),
        first.len() > 0,
        first[0] == second[0],
        forall|j: int|
            0 <= j < first[0] ==> #[trigger] carried_byte(first, j) == carried_byte(second, j),
    ensures
        parse_bytes(first) == parse_bytes(second),
{
    let len = first[0] as nat;
    let count = chunk_count(len);
    if first.len() >= 1 + count {
        let a = unpack(first.subrange(1, 1 + count as int), len);
        let b = unpack(second.subrange(1, 1 + count as int), len);
        assert forall|j: int| 0 <= j < len implies a[j] == b[j] by {
            assert(carried_byte(first, j) == carried_byte(second, j));
            assert(first.subrange(1, 1 + count as int)[j / 4] == first[1 + j / 4]);
            assert(second.subrange(1, 1 + count as int)[j / 4] == second[1 + j / 4]);
        }
        assert(a =~= b);
    }
}

/// Appends the words of a payload to the stream.
pub fn push_bytes(bytes: &[u8], args: &mut Vec<u32>)
    ensures
        final(args)@ == old(args)@ + bytes_words(bytes@),
{
    let len: usize = bytes.len();
    args.push(len as u32);
    let quot: usize = len / 4;
    let rem: usize = len % 4;
    let mut i: usize = 0;
    while i < quot
        invariant
            len == bytes@.len(),
            quot == len / 4,
            i <= quot,
            args@ == old(args)@ + seq![len as u32] + payload_words(bytes@).take(i as int),
        decreases quot - i,
    {
        let u: u32 = pack_word(bytes[4 * i], bytes[4 * i + 1], bytes[4 * i + 2], bytes[4 * i + 3]);
        args.push(u);
        assert(u == chunk(bytes@, i as int));
        assert(payload_words(bytes@).take(i + 1) =~= payload_words(bytes@).take(i as int).push(u));
        i = i + 1;
    }
    if rem != 0 {
        let b1: u8 = bytes[4 * quot];
        let b2: u8 = if rem > 1 {
            bytes[4 * quot + 1]
        } else {
            0
        };
        let b3: u8 = if rem > 2 {
            bytes[4 * quot + 2]
        } else {
            0
        };
        let u: u32 = pack_word(b1, b2, b3, 0);
        args.push(u);
        assert(u == chunk(bytes@, quot as int));
        assert(payload_words(bytes@) =~= payload_words(bytes@).take(quot as int).push(u));
    } else {
        assert(payload_words(bytes@).take(quot as int) =~= payload_words(bytes@));
    }
}

/// Number of words that `push_bytes` writes for a payload of `len` bytes.
pub fn bytes_word_count(len: usize) -> (n: usize)
    ensures
        n == 1 + chunk_count(len as nat),
{
    chunk_words(len) + 1
}

/// Decodes a payload from the front of the stream on the host side.
pub fn read_bytes(args: &mut Iter<u32>) -> (r: Result<Vec<u8>, ProtocolError>)
    ensures
        match parse_bytes((*old(args)).remaining().unref()) {
            Ok((bytes, taken)) => {
                &&& r matches Ok(v) && v@ == bytes
                &&& (*final(args)).remaining() == (*old(args)).remaining().skip(taken as int)
            },
            Err(e) => r matches Err(f) && f == e,
        },
{
    let ghost words = (*old(args)).remaining().unref();
    let len: usize = read_word(args)? as usize;
    let quot: usize = len / 4;
    let rem: usize = len % 4;
    let ghost count = chunk_count(len as nat);
    let ghost payload = words.subrange(1, words.len() as int);
    let mut vec: Vec<u8> = Vec::new();
    let mut i: usize = 0;
    while i < quot
        invariant
            words == (*old(args)).remaining().unref(),
            words.len() >= 1,
            len == words[0],
            quot == len / 4,
            i <= quot,
            1 + i <= words.len(),
            (*args).remaining() == (*old(args)).remaining().skip(1 + i),
            vec@.len() == 4 * i,
            forall|j: int| 0 <= j < 4 * i ==> vec@[j] == byte_of(words[1 + j / 4], j % 4),
        decreases quot - i,
    {
        let u: u32 = match next_word(args) {
            Some(u) => u,
            None => {
                return Err(ProtocolError(ARGS_NEXT_ERROR));
            },
        };
        assert(u == words[1 + i]);
        assert((*old(args)).remaining().skip(1 + i).skip(1) =~= (*old(args)).remaining().skip(
            1 + i + 1,
        ));
        vec.push(word_byte(u, 0));
        vec.push(word_byte(u, 1));
        vec.push(word_byte(u, 2));
        vec.push(word_byte(u, 3));
        i = i + 1;
    }
    if rem != 0 {
        let u: u32 = match next_word(args) {
            Some(u) => u,
            None => {
                return Err(ProtocolError(ARGS_NEXT_ERROR));
            },
        };
        assert(u == words[1 + quot]);
        assert((*old(args)).remaining().skip(1 + quot).skip(1) =~= (*old(args)).remaining().skip(
            1 + quot + 1,
        ));
        let mut k: usize = 0;
        while k < rem
            invariant
                rem == len % 4,
                quot == len / 4,
                k <= rem,
                1 + quot < words.len(),
                u == words[1 + quot],
                vec@.len() == 4 * quot + k,
                forall|j: int|
                    0 <= j < 4 * quot + k ==> vec@[j] == byte_of(words[1 + j / 4], j % 4),
            decreases rem - k,
        {
            vec.push(word_byte(u, k));
            k = k + 1;
        }
    }
    proof {
        assert(1 + count <= words.len());
        let got = unpack(words.subrange(1, 1 + count as int), len as nat);
        assert forall|j: int| 0 <= j < len implies vec@[j] == got[j] by {
            assert(words.subrange(1, 1 + count as int)[j / 4] == words[1 + j / 4]);
        }
        assert(vec@ =~= got);
    }
    Ok(vec)
}

/// Decodes a payload from the slots not read yet on the sandbox side.
pub fn init_bytes(args: &mut Slots) -> (r: Result<Vec<u8>, ProtocolError>)
    ensures
        final(args).words() == old(args).words(),
        match parse_bytes(old(args).remaining()) {
            Ok((bytes, taken)) => {
                &&& r matches Ok(v) && v@ == bytes
                &&& final(args).position() == old(args).position() + taken
            },
            Err(e) => r matches Err(f) && f == e,
        },
{
    let ghost words = old(args).remaining();
    let ghost start = old(args).position();
    let len: usize = init_word(args)? as usize;
    let quot: usize = len / 4;
    let rem: usize = len % 4;
    let ghost count = chunk_count(len as nat);
    let mut vec: Vec<u8> = Vec::new();
    let mut i: usize = 0;
    while i < quot
        invariant
            words == old(args).remaining(),
            start == old(args).position(),
            args.words() == old(args).words(),
            words.len() >= 1,
            len == words[0],
            quot == len / 4,
            i <= quot,
            1 + i <= words.len(),
            args.position() == start + 1 + i,
            vec@.len() == 4 * i,
            forall|j: int| 0 <= j < 4 * i ==> vec@[j] == byte_of(words[1 + j / 4], j % 4),
        decreases quot - i,
    {
        let u: u32 = match args.next() {
            Some(u) => u,
            None => {
                return Err(ProtocolError(ARGS_NEXT_ERROR));
            },
        };
        assert(u == words[1 + i]);
        vec.push(word_byte(u, 0));
        vec.push(word_byte(u, 1));
        vec.push(word_byte(u, 2));
        vec.push(word_byte(u, 3));
        i = i + 1;
    }
    if rem != 0 {
        let u: u32 = match args.next() {
            Some(u) => u,
            None => {
                return Err(ProtocolError(ARGS_NEXT_ERROR));
            },
        };
        assert(u == words[1 + quot]);
        let mut k: usize = 0;
        while k < rem
            invariant
                rem == len % 4,
                quot == len / 4,
                k <= rem,
                1 + quot < words.len(),
                u == words[1 + quot],
                vec@.len() == 4 * quot + k,
                forall|j: int|
                    0 <= j < 4 * quot + k ==> vec@[j] == byte_of(words[1 + j / 4], j % 4),
            decreases rem - k,
        {
            vec.push(word_byte(u, k));
            k = k + 1;
        }
    }
    proof {
        assert(1 + count <= words.len());
        let got = unpack(words.subrange(1, 1 + count as int), len as nat);
        assert forall|j: int| 0 <= j < len implies vec@[j] == got[j] by {
            assert(words.subrange(1, 1 + count as int)[j / 4] == words[1 + j / 4]);
        }
        assert(vec@ =~= got);
    }
    Ok(vec)
}

/// A byte payload that travels inside the word stream.
#[derive(Debug, Clone, PartialEq, Eq)]
pub struct Bytes(Vec<u8>);

impl View for Bytes {
    type V = Seq<u8>;

    closed spec fn view(&self) -> Seq<u8> {
        self.0@
    }
}

impl DeepView for Bytes {
    type V = Seq<u8>;

    open spec fn deep_view(&self) -> Seq<u8> {
        self@
    }
}

impl Default for Bytes {
    /// The empty payload.
    fn default() -> (b: Self)
        ensures
            b@ == Seq::<u8>::empty(),
    {
        Bytes(Vec::new())
    }
}

impl Bytes {
    /// The payload that holds the given bytes.
    pub fn new(bytes: Vec<u8>) -> (b: Self)
        ensures
            b@ == bytes@,
    {
        Bytes(bytes)
    }

    /// The bytes of the payload.
    pub fn as_slice(&self) -> (s: &[u8])
        ensures
            s@ == self@,
    {
        self.0.as_slice()
    }

    /// Gives the bytes of the payload away.
    pub fn into_vec(self) -> (v: Vec<u8>)
        ensures
            v@ == self@,
    {
        self.0
    }

    /// Number of bytes in the payload.
    pub fn len(&self) -> (n: usize)
        ensures
            n == self@.len(),
    {
        self.0.len()
    }
}

impl Wire for Bytes {
    open spec fn lawful() -> bool {
        true
    }

    open spec fn words(&self) -> Seq<u32> {
        bytes_words(self@)
    }

    open spec fn parse(heap: Seq<u8>, words: Seq<u32>) -> Result<(Seq<u8>, nat), ProtocolError> {
        parse_bytes(words)
    }

    open spec fn restorable(&self, heap: Seq<u8>) -> bool {
        self@.len() <= u32::MAX
    }

    proof fn lemma_parse_bound(heap: Seq<u8>, words: Seq<u32>) {
    }

    proof fn lemma_round_trip(&self, heap: Seq<u8>, rest: Seq<u32>) {
        lemma_parse_bytes_words(self@, rest);
    }
}

impl Outcoming for Bytes {
    const IS_NEED_READ: bool = false;

    open spec fn reads_memory() -> bool {
        false
    }

    proof fn lemma_read_flag() {
    }

    proof fn lemma_read_ignores_memory(h1: Seq<u8>, h2: Seq<u8>, words: Seq<u32>) {
    }

    fn args(&self, args: &mut Vec<u32>) -> (r: Result<(), ProtocolError>) {
        push_bytes(self.0.as_slice(), args);
        Ok(())
    }

    fn read(heap: &[u8], args: &mut Iter<u32>) -> (r: Result<Self, ProtocolError>) {
        let vec = read_bytes(args)?;
        Ok(Bytes(vec))
    }
}

impl Incoming for Bytes {
    const IS_NEED_INIT_FILL: bool = false;

    open spec fn writes_memory() -> bool {
        false
    }

    proof fn lemma_fill_flag() {
    }

    open spec fn filled(&self, heap: Seq<u8>, words: Seq<u32>) -> Result<Seq<u8>, ProtocolError> {
        passed_over(heap, words, 1 + chunk_count(self@.len()))
    }

    proof fn lemma_init_ignores_memory(h1: Seq<u8>, h2: Seq<u8>, words: Seq<u32>) {
    }

    proof fn lemma_filled_bound(&self, heap: Seq<u8>, words: Seq<u32>) {
    }

    proof fn lemma_fill_without_memory(&self, heap: Seq<u8>, words: Seq<u32>) {
    }

    fn init(args: &mut Slots) -> (r: Result<(u32, Self), ProtocolError>)
        ensures
            r matches Ok(pair) ==> pair.0 == 0,
    {
        let vec = init_bytes(args)?;
        Ok((0, Bytes(vec)))
    }

    fn args(&self, args: &mut Vec<u32>) -> (r: Result<(), ProtocolError>) {
        push_bytes(self.0.as_slice(), args);
        Ok(())
    }

    fn fill(&self, heap: &mut [u8], args: &mut Iter<u32>) -> (r: Result<(), ProtocolError>) {
        pass_over(args, bytes_word_count(self.0.len()))
    }
}

} // verus!
