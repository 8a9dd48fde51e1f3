//! The two ends of a word stream: a reader over borrowed words for the host
//! side, and a cursor over owned slots for the sandbox side, which may write
//! an address back into the slot it has just read.

use core::slice::Iter;
use vstd::prelude::*;
use vstd::std_specs::iter::IteratorSpec;

verus! {

/// Advances any iterator that keeps to its specification.
fn advance<I: Iterator>(it: &mut I) -> (r: Option<I::Item>)
    ensures
        <I as IteratorSpec>::obeys_prophetic_iter_laws(final(it))
            == <I as IteratorSpec>::obeys_prophetic_iter_laws(old(it)),
        <I as IteratorSpec>::obeys_prophetic_iter_laws(final(it)) ==> ({
            let before = <I as IteratorSpec>::remaining(old(it));
            let after = <I as IteratorSpec>::remaining(final(it));
            if before.len() > 0 {
                after == before.drop_first() && r == Some(before[0])
            } else {
                after == before && r is None
            }
        }),
{
    it.next()
}

/// Takes the next word of the stream, if there is one.
pub fn next_word(args: &mut Iter<u32>) -> (r: Option<u32>)
    ensures
        (*old(args)).remaining().len() > 0 ==> {
            &&& r == Some(*(*old(args)).remaining()[0])
            &&& (*final(args)).remaining() == (*old(args)).remaining().skip(1)
        },
        (*old(args)).remaining().len() == 0 ==> {
            &&& r is None
            &&& (*final(args)).remaining() == (*old(args)).remaining()
        },
{
    match advance(args) {
        Some(w) => Some(*w),
        None => None,
    }
}

/// Skips `count` words of the stream; `false`, with nothing promised of the
/// stream, where it holds fewer.
pub fn skip_words(args: &mut Iter<u32>, count: usize) -> (ok: bool)
    ensures
        ok == (count <= (*old(args)).remaining().len()),
        ok ==> (*final(args)).remaining() == (*old(args)).remaining().skip(count as int),
{
    let mut done: usize = 0;
    while done < count
        invariant
            done <= count,
            done <= (*old(args)).remaining().len(),
            (*args).remaining() == (*old(args)).remaining().skip(done as int),
        decreases count - done,
    {
        match next_word(args) {
            Some(_) => {
                let ghost all = (*old(args)).remaining();
                assert(all.skip(done as int).skip(1) =~= all.skip(done + 1));
                done = done + 1;
            },
            None => {
                return false;
            },
        }
    }
    true
}

/// The argument slots of one call, as the sandbox side sees them: words that
/// are read in order, each of which can be overwritten once it has been read.
pub struct Slots {
    words: Vec<u32>,
    pos: usize,
}

impl Slots {
    #[verifier::type_invariant]
    spec fn inv(self) -> bool {
        self.pos <= self.words.len()
    }

    /// All the slots, read or not.
    pub closed spec fn words(&self) -> Seq<u32> {
        self.words@
    }

    /// Number of slots that have been read.
    pub closed spec fn position(&self) -> nat {
        if self.pos <= self.words@.len() {
            self.pos as nat
        } else {
            self.words@.len()
        }
    }

    /// No more slots have been read than there are.
    pub proof fn lemma_position_bound(&self)
        ensures
            self.position() <= self.words().len(),
    {
    }

    /// The slots that have not been read yet.
    pub open spec fn remaining(&self) -> Seq<u32> {
        self.words().skip(self.position() as int)
    }

    /// Whether `self` holds what `before` held in every slot but the `taken`
    /// slots that `before` had next to read.
    pub open spec fn kept_outside(&self, before: Slots, taken: nat) -> bool {
        forall|i: int|
            0 <= i < before.words().len() && !(before.position() <= i < before.position() + taken)
                ==> self.words()[i] == before.words()[i]
    }

    /// Slots over the given words, none of them read.
    pub fn new(words: Vec<u32>) -> (slots: Self)
        ensures
            slots.words() == words@,
            slots.position() == 0,
    {
        Slots { words, pos: 0 }
    }

    /// Reads the next slot, if there is one.
    pub fn next(&mut self) -> (r: Option<u32>)
        ensures
            final(self).words() == old(self).words(),
            final(self).position() <= final(self).words().len(),
            old(self).position() < old(self).words().len() ==> {
                &&& r == Some(old(self).words()[old(self).position() as int])
                &&& final(self).position() == old(self).position() + 1
            },
            old(self).position() >= old(self).words().len() ==> {
                &&& r is None
                &&& final(self).position() == old(self).position()
            },
    {
        proof {
            use_type_invariant(&*self);
        }
        if self.pos < self.words.len() {
            let w = self.words[self.pos];
            self.pos = self.pos + 1;
            Some(w)
        } else {
            None
        }
    }

    /// Overwrites the slot that was read last: the way an address found while
    /// decoding travels back to the other side. Where no slot has been read
    /// yet there is none to overwrite, and nothing changes.
    pub fn report(&mut self, word: u32)
        ensures
            final(self).position() == old(self).position(),
            old(self).position() > 0 ==> final(self).words() == old(self).words().update(
                old(self).position() - 1,
                word,
            ),
            old(self).position() == 0 ==> final(self).words() == old(self).words(),
    {
        proof {
            use_type_invariant(&*self);
        }
        if self.pos > 0 {
            let at: usize = self.pos - 1;
            self.words[at] = word;
        }
    }

    /// Number of slots that have been read.
    pub fn consumed(&self) -> (n: usize)
        ensures
            n == self.position(),
            n <= self.words().len(),
    {
        proof {
            use_type_invariant(self);
        }
        self.pos
    }

    /// Gives the slots back, with what was written into them.
    pub fn into_words(self) -> (words: Vec<u32>)
        ensures
            words@ == self.words(),
    {
        self.words
    }
}

} // verus!
