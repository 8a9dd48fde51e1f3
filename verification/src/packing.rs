//! Bytes inside words: the little-endian packing that every codec shares.

use vstd::prelude::*;

verus! {

/// The word whose little-endian bytes are `b0`, `b1`, `b2`, `b3`.
pub open spec fn pack(b0: u8, b1: u8, b2: u8, b3: u8) -> u32 {
    (b0 as int + 0x100 * (b1 as int) + 0x1_0000 * (b2 as int) + 0x100_0000 * (b3 as int)) as u32
}

/// Byte `i` of `w`, counted from the least significant one; `i` is 0 to 3,
/// and any other place stands for 3.
pub open spec fn byte_of(w: u32, i: int) -> u8 {
    if i == 0 {
        (w % 0x100) as u8
    } else if i == 1 {
        (w / 0x100 % 0x100) as u8
    } else if i == 2 {
        (w / 0x1_0000 % 0x100) as u8
    } else {
        (w / 0x100_0000 % 0x100) as u8
    }
}

/// `w` with its four bytes in the opposite order.
pub open spec fn swap_bytes(w: u32) -> u32 {
    pack(byte_of(w, 3), byte_of(w, 2), byte_of(w, 1), byte_of(w, 0))
}

/// The low 32 bits of `v`.
pub open spec fn low_word(v: u64) -> u32 {
    (v % 0x1_0000_0000) as u32
}

/// The high 32 bits of `v`.
pub open spec fn high_word(v: u64) -> u32 {
    (v / 0x1_0000_0000) as u32
}

/// The 64-bit value with low half `lo` and high half `hi`.
pub open spec fn join(lo: u32, hi: u32) -> u64 {
    (lo as int + 0x1_0000_0000 * (hi as int)) as u64
}

/// Number of whole words that carry `len` payload bytes.
pub open spec fn chunk_count(len: nat) -> nat {
    (len + 3) / 4
}

/// Byte `j` of a payload, or zero past its end: the padding of a last,
/// partial word.
pub open spec fn byte_or_zero(bytes: Seq<u8>, j: int) -> u8 {
    if 0 <= j < bytes.len() {
        bytes[j]
    } else {
        0
    }
}

/// Word `i` of a payload: its bytes `4 * i` to `4 * i + 3`, zero where the
/// payload has ended.
pub open spec fn chunk(bytes: Seq<u8>, i: int) -> u32 {
    pack(
        byte_or_zero(bytes, 4 * i),
        byte_or_zero(bytes, 4 * i + 1),
        byte_or_zero(bytes, 4 * i + 2),
        byte_or_zero(bytes, 4 * i + 3),
    )
}

/// The words that carry a payload, without its length word.
pub open spec fn payload_words(bytes: Seq<u8>) -> Seq<u32> {
    Seq::new(chunk_count(bytes.len()), |i: int| chunk(bytes, i))
}

/// The first `len` bytes that `words` carry.
pub open spec fn unpack(words: Seq<u32>, len: nat) -> Seq<u8> {
    Seq::new(len, |j: int| byte_of(words[j / 4], j % 4))
}

/// Packing four bytes and taking them out again gives the same bytes.
pub proof fn lemma_byte_of_pack(b0: u8, b1: u8, b2: u8, b3: u8)
    ensures
        byte_of(pack(b0, b1, b2, b3), 0) == b0,
        byte_of(pack(b0, b1, b2, b3), 1) == b1,
        byte_of(pack(b0, b1, b2, b3), 2) == b2,
        byte_of(pack(b0, b1, b2, b3), 3) == b3,
{
    assert(byte_of(pack(b0, b1, b2, b3), 0) == b0) by (bit_vector);
    assert(byte_of(pack(b0, b1, b2, b3), 1) == b1) by (bit_vector);
    assert(byte_of(pack(b0, b1, b2, b3), 2) == b2) by (bit_vector);
    assert(byte_of(pack(b0, b1, b2, b3), 3) == b3) by (bit_vector);
}

/// A word is the packing of its four bytes.
pub proof fn lemma_pack_byte_of(w: u32)
    ensures
        pack(byte_of(w, 0), byte_of(w, 1), byte_of(w, 2), byte_of(w, 3)) == w,
{
    assert(pack(byte_of(w, 0), byte_of(w, 1), byte_of(w, 2), byte_of(w, 3)) == w) by (bit_vector);
}

/// Reversing the bytes of a word twice gives the word back.
pub proof fn lemma_swap_bytes_twice(w: u32)
    ensures
        swap_bytes(swap_bytes(w)) == w,
{
    let s = swap_bytes(w);
    lemma_byte_of_pack(byte_of(w, 3), byte_of(w, 2), byte_of(w, 1), byte_of(w, 0));
    lemma_pack_byte_of(w);
}

/// A 64-bit value is the joining of its two halves.
pub proof fn lemma_join_halves(v: u64)
    ensures
        join(low_word(v), high_word(v)) == v,
{
    assert(join(low_word(v), high_word(v)) == v) by (bit_vector);
}

/// The halves of a joined value are the words it was joined from.
pub proof fn lemma_halves_of_join(lo: u32, hi: u32)
    ensures
        low_word(join(lo, hi)) == lo,
        high_word(join(lo, hi)) == hi,
{
    assert(low_word(join(lo, hi)) == lo) by (bit_vector);
    assert(high_word(join(lo, hi)) == hi) by (bit_vector);
}

/// The payload words carry the payload: unpacking them gives it back.
pub proof fn lemma_unpack_payload(bytes: Seq<u8>)
    ensures
        payload_words(bytes).len() == chunk_count(bytes.len()),
        unpack(payload_words(bytes), bytes.len()) == bytes,
{
    let words = payload_words(bytes);
    assert forall|j: int| 0 <= j < bytes.len() implies byte_of(words[j / 4], j % 4) == bytes[j] by {
        let i = j / 4;
        lemma_byte_of_pack(
            byte_or_zero(bytes, 4 * i),
            byte_or_zero(bytes, 4 * i + 1),
            byte_or_zero(bytes, 4 * i + 2),
            byte_or_zero(bytes, 4 * i + 3),
        );
    }
    assert(unpack(words, bytes.len()) =~= bytes);
}

/// Packs four bytes into a word, least significant byte first.
pub fn pack_word(b0: u8, b1: u8, b2: u8, b3: u8) -> (w: u32)
    ensures
        w == pack(b0, b1, b2, b3),
{
    (b0 as u32) + (b1 as u32) * 0x100 + (b2 as u32) * 0x1_0000 + (b3 as u32) * 0x100_0000
}

/// Takes byte `i` out of a word, counted from the least significant one; a
/// place above 3 gives the most significant byte.
pub fn word_byte(w: u32, i: usize) -> (b: u8)
    ensures
        b == byte_of(w, i as int),
{
    if i == 0 {
        (w % 0x100) as u8
    } else if i == 1 {
        (w / 0x100 % 0x100) as u8
    } else if i == 2 {
        (w / 0x1_0000 % 0x100) as u8
    } else {
        (w / 0x100_0000 % 0x100) as u8
    }
}

/// Reverses the four bytes of a word.
pub fn swap_word(w: u32) -> (s: u32)
    ensures
        s == swap_bytes(w),
{
    pack_word(word_byte(w, 3), word_byte(w, 2), word_byte(w, 1), word_byte(w, 0))
}

/// Splits a 64-bit value into its low and its high word.
pub fn split_u64(v: u64) -> (halves: (u32, u32))
    ensures
        halves.0 == low_word(v),
        halves.1 == high_word(v),
{
    ((v % 0x1_0000_0000) as u32, (v / 0x1_0000_0000) as u32)
}

/// Joins a low and a high word into a 64-bit value.
pub fn join_u64(lo: u32, hi: u32) -> (v: u64)
    ensures
        v == join(lo, hi),
{
    (lo as u64) + (hi as u64) * 0x1_0000_0000
}

/// Number of words that carry `len` payload bytes: the full groups of four,
/// and one more word where a group is left unfinished.
pub fn chunk_words(len: usize) -> (n: usize)
    ensures
        n == chunk_count(len as nat),
{
    let quot: usize = len / 4;
    if len % 4 == 0 {
        quot
    } else {
        quot + 1
    }
}

} // verus!
