//! The leaves of a described type: the scalars and payloads that a field can
//! hold, named by kind so that a codec can be chosen while the program runs.

use crate::bytes::{bytes_words, parse_bytes, Bytes};
use crate::codec::{Incoming, Outcoming, Wire};
use crate::error::{ProtocolError, BYTES_INTO_ARR4_ERROR};
use crate::memory::{fill_staged, parse_resident, zeroed, Resident, Staged};
use crate::scalar::{init_two_words, pass_over, passed_over, read_word};
use crate::stream::Slots;
use crate::text::parse_text;
use core::slice::Iter;
use vstd::prelude::*;
use vstd::std_specs::iter::IteratorSpec;
use vstd::utf8::encode_utf8;

verus! {

/// The kind of a leaf.
#[derive(Debug, Clone, Copy, PartialEq, Eq, Structural)]
pub enum AtomKind {
    Bool,
    U8,
    I32,
    U32,
    I64,
    U64,
    Usize,
    Isize,
    Bytes,
    Text,
    Resident,
    Staged,
}

/// A leaf value.
#[derive(Debug, Clone, PartialEq, Eq)]
pub enum Atom {
    Bool(bool),
    U8(u8),
    I32(i32),
    U32(u32),
    I64(i64),
    U64(u64),
    Usize(usize),
    Isize(isize),
    Bytes(Bytes),
    Text(String),
    Resident(Resident),
    Staged(Staged),
}

/// The model of a leaf value.
pub enum AtomModel {
    Bool(bool),
    U8(u8),
    I32(i32),
    U32(u32),
    I64(i64),
    U64(u64),
    Usize(usize),
    Isize(isize),
    Bytes(Seq<u8>),
    Text(Seq<char>),
    Resident(u32, Seq<u8>),
    Staged(Seq<u8>),
}

impl DeepView for Atom {
    type V = AtomModel;

    open spec fn deep_view(&self) -> AtomModel {
        match self {
            Atom::Bool(v) => AtomModel::Bool(*v),
            Atom::U8(v) => AtomModel::U8(*v),
            Atom::I32(v) => AtomModel::I32(*v),
            Atom::U32(v) => AtomModel::U32(*v),
            Atom::I64(v) => AtomModel::I64(*v),
            Atom::U64(v) => AtomModel::U64(*v),
            Atom::Usize(v) => AtomModel::Usize(*v),
            Atom::Isize(v) => AtomModel::Isize(*v),
            Atom::Bytes(v) => AtomModel::Bytes(v@),
            Atom::Text(v) => AtomModel::Text(v@),
            Atom::Resident(v) => AtomModel::Resident(v@.0, v@.1),
            Atom::Staged(v) => AtomModel::Staged(v@),
        }
    }
}

impl AtomModel {
    /// The kind of the leaf.
    pub open spec fn kind(self) -> AtomKind {
        match self {
            AtomModel::Bool(_) => AtomKind::Bool,
            AtomModel::U8(_) => AtomKind::U8,
            AtomModel::I32(_) => AtomKind::I32,
            AtomModel::U32(_) => AtomKind::U32,
            AtomModel::I64(_) => AtomKind::I64,
            AtomModel::U64(_) => AtomKind::U64,
            AtomModel::Usize(_) => AtomKind::Usize,
            AtomModel::Isize(_) => AtomKind::Isize,
            AtomModel::Bytes(_) => AtomKind::Bytes,
            AtomModel::Text(_) => AtomKind::Text,
            AtomModel::Resident(_, _) => AtomKind::Resident,
            AtomModel::Staged(_) => AtomKind::Staged,
        }
    }

    /// The words that encode the leaf: those of the codec of its kind.
    pub open spec fn words(self) -> Seq<u32> {
        match self {
            AtomModel::Bool(v) => v.words(),
            AtomModel::U8(v) => v.words(),
            AtomModel::I32(v) => v.words(),
            AtomModel::U32(v) => v.words(),
            AtomModel::I64(v) => v.words(),
            AtomModel::U64(v) => v.words(),
            AtomModel::Usize(v) => v.words(),
            AtomModel::Isize(v) => v.words(),
            AtomModel::Bytes(v) => bytes_words(v),
            AtomModel::Text(v) => bytes_words(encode_utf8(v)),
            AtomModel::Resident(address, bytes) => seq![bytes.len() as u32, address],
            AtomModel::Staged(v) => seq![v.len() as u32],
        }
    }

    /// Whether decoding gets the leaf back from its own words and `heap`.
    pub open spec fn restorable(self, heap: Seq<u8>) -> bool {
        match self {
            AtomModel::Bool(v) => v.restorable(heap),
            AtomModel::U8(v) => v.restorable(heap),
            AtomModel::I32(v) => v.restorable(heap),
            AtomModel::U32(v) => v.restorable(heap),
            AtomModel::I64(v) => v.restorable(heap),
            AtomModel::U64(v) => v.restorable(heap),
            AtomModel::Usize(v) => v.restorable(heap),
            AtomModel::Isize(v) => v.restorable(heap),
            AtomModel::Bytes(v) => v.len() <= u32::MAX,
            AtomModel::Text(v) => encode_utf8(v).len() <= u32::MAX,
            AtomModel::Resident(address, bytes) => {
                &&& bytes.len() <= u32::MAX
                &&& crate::memory::in_memory(heap.len(), address as nat, bytes.len())
                &&& crate::memory::region(heap, address as nat, bytes.len()) == bytes
            },
            AtomModel::Staged(v) => v.len() <= u32::MAX && v == crate::memory::zeros(v.len()),
        }
    }

    /// The memory after the second phase has run for the leaf.
    pub open spec fn filled(self, heap: Seq<u8>, words: Seq<u32>) -> Result<Seq<u8>, ProtocolError> {
        match self {
            AtomModel::Staged(v) => fill_staged(v, heap, words),
            _ => passed_over(heap, words, self.words().len()),
        }
    }
}

impl AtomKind {
    /// Whether decoding a leaf of this kind looks into the sandbox memory.
    pub open spec fn reads_memory(self) -> bool {
        self == AtomKind::Resident
    }

    /// Whether the second phase writes a leaf of this kind into the sandbox
    /// memory.
    pub open spec fn writes_memory(self) -> bool {
        self == AtomKind::Staged
    }

    /// What decoding reads for a leaf of this kind: what the codec of the
    /// kind reads.
    pub open spec fn parse(self, heap: Seq<u8>, words: Seq<u32>) -> Result<
        (AtomModel, nat),
        ProtocolError,
    > {
        match self {
            AtomKind::Bool => match bool::parse(heap, words) {
                Ok((v, taken)) => Ok((AtomModel::Bool(v), taken)),
                Err(e) => Err(e),
            },
            AtomKind::U8 => match u8::parse(heap, words) {
                Ok((v, taken)) => Ok((AtomModel::U8(v), taken)),
                Err(e) => Err(e),
            },
            AtomKind::I32 => match i32::parse(heap, words) {
                Ok((v, taken)) => Ok((AtomModel::I32(v), taken)),
                Err(e) => Err(e),
            },
            AtomKind::U32 => match u32::parse(heap, words) {
                Ok((v, taken)) => Ok((AtomModel::U32(v), taken)),
                Err(e) => Err(e),
            },
            AtomKind::I64 => match i64::parse(heap, words) {
                Ok((v, taken)) => Ok((AtomModel::I64(v), taken)),
                Err(e) => Err(e),
            },
            AtomKind::U64 => match u64::parse(heap, words) {
                Ok((v, taken)) => Ok((AtomModel::U64(v), taken)),
                Err(e) => Err(e),
            },
            AtomKind::Usize => match usize::parse(heap, words) {
                Ok((v, taken)) => Ok((AtomModel::Usize(v), taken)),
                Err(e) => Err(e),
            },
            AtomKind::Isize => match isize::parse(heap, words) {
                Ok((v, taken)) => Ok((AtomModel::Isize(v), taken)),
                Err(e) => Err(e),
            },
            AtomKind::Bytes => match parse_bytes(words) {
                Ok((v, taken)) => Ok((AtomModel::Bytes(v), taken)),
                Err(e) => Err(e),
            },
            AtomKind::Text => match parse_text(words) {
                Ok((v, taken)) => Ok((AtomModel::Text(v), taken)),
                Err(e) => Err(e),
            },
            AtomKind::Resident => match parse_resident(heap, words) {
                Ok((v, taken)) => Ok((AtomModel::Resident(v.0, v.1), taken)),
                Err(e) => Err(e),
            },
            AtomKind::Staged => match Staged::parse(heap, words) {
                Ok((v, taken)) => Ok((AtomModel::Staged(v), taken)),
                Err(e) => Err(e),
            },
        }
    }

    /// Whether decoding a leaf of this kind looks into the sandbox memory.
    pub fn is_need_read(self) -> (flag: bool)
        ensures
            flag == self.reads_memory(),
    {
        match self {
            AtomKind::Resident => true,
            _ => false,
        }
    }

    /// Whether the second phase cannot be left out for a leaf of this kind.
    pub fn is_need_init_fill(self) -> (flag: bool)
        ensures
            flag == self.writes_memory(),
    {
        match self {
            AtomKind::Staged => true,
            _ => false,
        }
    }
}

/// The words of a leaf are those of the codec of its kind.
pub proof fn lemma_atom_words(atom: Atom)
    ensures
        atom.deep_view().words() == (match atom {
            Atom::Bool(v) => v.words(),
            Atom::U8(v) => v.words(),
            Atom::I32(v) => v.words(),
            Atom::U32(v) => v.words(),
            Atom::I64(v) => v.words(),
            Atom::U64(v) => v.words(),
            Atom::Usize(v) => v.words(),
            Atom::Isize(v) => v.words(),
            Atom::Bytes(v) => v.words(),
            Atom::Text(v) => v.words(),
            Atom::Resident(v) => v.words(),
            Atom::Staged(v) => v.words(),
        }),
{
}

/// Decoding a leaf stays inside the stream and yields a leaf of the kind
/// that was asked for.
pub proof fn lemma_atom_parse_bound(kind: AtomKind, heap: Seq<u8>, words: Seq<u32>)
    ensures
        kind.parse(heap, words) matches Ok((atom, taken)) ==> taken <= words.len() && atom.kind()
            == kind,
{
}

/// Round trip for a leaf.
pub proof fn lemma_atom_round_trip(atom: AtomModel, heap: Seq<u8>, rest: Seq<u32>)
    requires
        atom.restorable(heap),
    ensures
        atom.kind().parse(heap, atom.words() + rest) == Ok::<(AtomModel, nat), ProtocolError>(
            (atom, atom.words().len()),
        ),
{
    match atom {
        AtomModel::Bool(v) => v.lemma_round_trip(heap, rest),
        AtomModel::U8(v) => v.lemma_round_trip(heap, rest),
        AtomModel::I32(v) => v.lemma_round_trip(heap, rest),
        AtomModel::U32(v) => v.lemma_round_trip(heap, rest),
        AtomModel::I64(v) => v.lemma_round_trip(heap, rest),
        AtomModel::U64(v) => v.lemma_round_trip(heap, rest),
        AtomModel::Usize(v) => v.lemma_round_trip(heap, rest),
        AtomModel::Isize(v) => v.lemma_round_trip(heap, rest),
        AtomModel::Bytes(v) => crate::bytes::lemma_parse_bytes_words(v, rest),
        AtomModel::Text(v) => {
            crate::bytes::lemma_parse_bytes_words(encode_utf8(v), rest);
            vstd::utf8::encode_utf8_valid_utf8(v);
            vstd::utf8::encode_utf8_decode_utf8(v);
        },
        AtomModel::Resident(address, bytes) => {},
        AtomModel::Staged(v) => {},
    }
}

/// A leaf that is not read in place is decoded from the stream alone.
pub proof fn lemma_atom_ignores_memory(kind: AtomKind, h1: Seq<u8>, h2: Seq<u8>, words: Seq<u32>)
    requires
        !kind.reads_memory(),
    ensures
        kind.parse(h1, words) == kind.parse(h2, words),
{
}

/// The second phase leaves the memory alone for a leaf that is not staged,
/// and fails exactly where the stream is shorter than the words of the leaf.
pub proof fn lemma_atom_fill_without_memory(atom: AtomModel, heap: Seq<u8>, words: Seq<u32>)
    requires
        !atom.kind().writes_memory(),
    ensures
        atom.filled(heap, words) == passed_over(heap, words, atom.words().len()),
{
}

/// Where the second phase succeeds for a leaf, the stream held its words and
/// the memory keeps its size.
pub proof fn lemma_atom_filled_bound(atom: AtomModel, heap: Seq<u8>, words: Seq<u32>)
    ensures
        atom.filled(heap, words) matches Ok(after) ==> atom.words().len() <= words.len()
            && after.len() == heap.len(),
{
}

impl Atom {
    /// The kind of the leaf.
    pub fn kind(&self) -> (kind: AtomKind)
        ensures
            kind == self.deep_view().kind(),
    {
        match self {
            Atom::Bool(_) => AtomKind::Bool,
            Atom::U8(_) => AtomKind::U8,
            Atom::I32(_) => AtomKind::I32,
            Atom::U32(_) => AtomKind::U32,
            Atom::I64(_) => AtomKind::I64,
            Atom::U64(_) => AtomKind::U64,
            Atom::Usize(_) => AtomKind::Usize,
            Atom::Isize(_) => AtomKind::Isize,
            Atom::Bytes(_) => AtomKind::Bytes,
            Atom::Text(_) => AtomKind::Text,
            Atom::Resident(_) => AtomKind::Resident,
            Atom::Staged(_) => AtomKind::Staged,
        }
    }

    /// Appends the words of the leaf to the stream.
    pub fn args(&self, args: &mut Vec<u32>)
        ensures
            final(args)@ == old(args)@ + self.deep_view().words(),
    {
        let _ = match self {
            Atom::Bool(v) => Outcoming::args(v, args),
            Atom::U8(v) => Outcoming::args(v, args),
            Atom::I32(v) => Outcoming::args(v, args),
            Atom::U32(v) => Outcoming::args(v, args),
            Atom::I64(v) => Outcoming::args(v, args),
            Atom::U64(v) => Outcoming::args(v, args),
            Atom::Usize(v) => Outcoming::args(v, args),
            Atom::Isize(v) => Outcoming::args(v, args),
            Atom::Bytes(v) => Outcoming::args(v, args),
            Atom::Text(v) => Outcoming::args(v, args),
            Atom::Resident(v) => Outcoming::args(v, args),
            Atom::Staged(v) => Incoming::args(v, args),
        };
    }

    /// Decodes a leaf of the given kind on the host side. A staged payload
    /// comes out as the room that its length asks for.
    pub fn read(kind: AtomKind, heap: &[u8], args: &mut Iter<u32>) -> (r: Result<
        Self,
        ProtocolError,
    >)
        ensures
            match kind.parse(heap@, (*old(args)).remaining().unref()) {
                Ok((atom, taken)) => {
                    &&& r matches Ok(v) && v.deep_view() == atom
                    &&& (*final(args)).remaining() == (*old(args)).remaining().skip(taken as int)
                },
                Err(e) => r matches Err(f) && f == e,
            },
    {
        match kind {
            AtomKind::Bool => Ok(Atom::Bool(<bool as Outcoming>::read(heap, args)?)),
            AtomKind::U8 => Ok(Atom::U8(<u8 as Outcoming>::read(heap, args)?)),
            AtomKind::I32 => Ok(Atom::I32(<i32 as Outcoming>::read(heap, args)?)),
            AtomKind::U32 => Ok(Atom::U32(<u32 as Outcoming>::read(heap, args)?)),
            AtomKind::I64 => Ok(Atom::I64(<i64 as Outcoming>::read(heap, args)?)),
            AtomKind::U64 => Ok(Atom::U64(<u64 as Outcoming>::read(heap, args)?)),
            AtomKind::Usize => Ok(Atom::Usize(<usize as Outcoming>::read(heap, args)?)),
            AtomKind::Isize => Ok(Atom::Isize(<isize as Outcoming>::read(heap, args)?)),
            AtomKind::Bytes => Ok(Atom::Bytes(<Bytes as Outcoming>::read(heap, args)?)),
            AtomKind::Text => Ok(Atom::Text(<String as Outcoming>::read(heap, args)?)),
            AtomKind::Resident => Ok(Atom::Resident(<Resident as Outcoming>::read(heap, args)?)),
            AtomKind::Staged => {
                let len: usize = read_word(args)? as usize;
                Ok(Atom::Staged(Staged::new(zeroed(len))))
            },
        }
    }

    /// Decodes a leaf of the given kind on the sandbox side, where there is
    /// no memory to read a resident payload from: only the empty payload at
    /// address zero is found there.
    pub fn init(kind: AtomKind, args: &mut Slots) -> (r: Result<Self, ProtocolError>)
        ensures
            final(args).words().len() == old(args).words().len(),
            !kind.writes_memory() ==> final(args).words() == old(args).words(),
            match kind.parse(Seq::empty(), old(args).remaining()) {
                Ok((atom, taken)) => {
                    &&& r matches Ok(v) && v.deep_view() == atom
                    &&& final(args).position() == old(args).position() + taken
                    &&& final(args).kept_outside(*old(args), taken)
                },
                Err(e) => r matches Err(f) && f == e,
            },
    {
        match kind {
            AtomKind::Bool => Ok(Atom::Bool(<bool as Incoming>::init(args)?.1)),
            AtomKind::U8 => Ok(Atom::U8(<u8 as Incoming>::init(args)?.1)),
            AtomKind::I32 => Ok(Atom::I32(<i32 as Incoming>::init(args)?.1)),
            AtomKind::U32 => Ok(Atom::U32(<u32 as Incoming>::init(args)?.1)),
            AtomKind::I64 => Ok(Atom::I64(<i64 as Incoming>::init(args)?.1)),
            AtomKind::U64 => Ok(Atom::U64(<u64 as Incoming>::init(args)?.1)),
            AtomKind::Usize => Ok(Atom::Usize(<usize as Incoming>::init(args)?.1)),
            AtomKind::Isize => Ok(Atom::Isize(<isize as Incoming>::init(args)?.1)),
            AtomKind::Bytes => Ok(Atom::Bytes(<Bytes as Incoming>::init(args)?.1)),
            AtomKind::Text => Ok(Atom::Text(<String as Incoming>::init(args)?.1)),
            AtomKind::Staged => Ok(Atom::Staged(<Staged as Incoming>::init(args)?.1)),
            AtomKind::Resident => {
                let (len, address) = init_two_words(args)?;
                if len == 0 && address == 0 {
                    let bytes: Vec<u8> = Vec::new();
                    assert(bytes@ =~= crate::memory::region(Seq::empty(), 0, 0));
                    Ok(Atom::Resident(Resident::at(0, bytes)))
                } else {
                    Err(ProtocolError(BYTES_INTO_ARR4_ERROR))
                }
            },
        }
    }

    /// Second phase for a leaf on the host side.
    pub fn fill(&self, heap: &mut [u8], args: &mut Iter<u32>) -> (r: Result<(), ProtocolError>)
        ensures
            final(heap)@.len() == old(heap)@.len(),
            match self.deep_view().filled(old(heap)@, (*old(args)).remaining().unref()) {
                Ok(after) => {
                    &&& r is Ok
                    &&& final(heap)@ == after
                    &&& (*final(args)).remaining() == (*old(args)).remaining().skip(
                        self.deep_view().words().len() as int,
                    )
                },
                Err(e) => r matches Err(f) && f == e,
            },
    {
        match self {
            Atom::Bool(v) => v.fill(heap, args),
            Atom::U8(v) => v.fill(heap, args),
            Atom::I32(v) => v.fill(heap, args),
            Atom::U32(v) => v.fill(heap, args),
            Atom::I64(v) => v.fill(heap, args),
            Atom::U64(v) => v.fill(heap, args),
            Atom::Usize(v) => v.fill(heap, args),
            Atom::Isize(v) => v.fill(heap, args),
            Atom::Bytes(v) => v.fill(heap, args),
            Atom::Text(v) => v.fill(heap, args),
            Atom::Staged(v) => v.fill(heap, args),
            Atom::Resident(_) => pass_over(args, 2),
        }
    }
}

} // verus!
