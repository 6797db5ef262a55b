//! Splitting a block of bytes at a delimiter.

use vstd::prelude::*;
use vstd::slice::slice_subrange;

verus! {

/// The index of the first `byte` in `s` at or after `from`, or the length of
/// `s` if there is none.
pub open spec fn find_byte(s: Seq<u8>, byte: u8, from: int) -> int
    decreases s.len() - from,
{
    if from < 0 || from >= s.len() {
        s.len() as int
    } else if s[from] == byte {
        from
    } else {
        find_byte(s, byte, from + 1)
    }
}

/// What `find_byte` finds: the first occurence at or after `from`.
pub proof fn lemma_find_byte(s: Seq<u8>, byte: u8, from: int)
    requires
        0 <= from <= s.len(),
    ensures
        from <= find_byte(s, byte, from) <= s.len(),
        find_byte(s, byte, from) < s.len() ==> s[find_byte(s, byte, from)] == byte,
        forall|j: int| from <= j < find_byte(s, byte, from) ==> s[j] != byte,
    decreases s.len() - from,
{
    if from < s.len() && s[from] != byte {
        lemma_find_byte(s, byte, from + 1);
    }
}

/// The first occurence of `byte` at or after `from` is at `end`, where no
/// byte before `end` is `byte` and the one at `end`, if there is one, is.
pub proof fn lemma_find_byte_is(s: Seq<u8>, byte: u8, from: int, end: int)
    requires
        0 <= from <= end <= s.len(),
        forall|j: int| from <= j < end ==> s[j] != byte,
        end < s.len() ==> s[end] == byte,
    ensures
        find_byte(s, byte, from) == end,
    decreases end - from,
{
    if from < end {
        lemma_find_byte_is(s, byte, from + 1, end);
    }
}

/// The pieces of `s` from `pos` on: each ends before a delimiter or at the
/// end of `s`. A delimiter at the very end is not followed by an empty piece.
pub open spec fn split_from(s: Seq<u8>, delim: u8, pos: int) -> Seq<Seq<u8>>
    decreases s.len() - pos,
    via split_from_decreases
{
    if pos < 0 || pos >= s.len() {
        Seq::empty()
    } else {
        let end = find_byte(s, delim, pos);
        if end >= s.len() {
            seq![s.subrange(pos, end)]
        } else {
            seq![s.subrange(pos, end)] + split_from(s, delim, end + 1)
        }
    }
}

#[via_fn]
proof fn split_from_decreases(s: Seq<u8>, delim: u8, pos: int) {
    if 0 <= pos < s.len() {
        lemma_find_byte(s, delim, pos);
    }
}

/// The pieces of `s` between delimiters.
pub open spec fn split(s: Seq<u8>, delim: u8) -> Seq<Seq<u8>> {
    split_from(s, delim, 0)
}

/// Walks through the pieces of a block of bytes between delimiters.
pub struct MemchrSplit<'a> {
    haystack: &'a [u8],
    delim: u8,
    pos: usize,
}

impl<'a> MemchrSplit<'a> {
    #[verifier::type_invariant]
    spec fn inv(self) -> bool {
        self.pos <= self.haystack@.len()
    }

    /// The bytes being split.
    pub closed spec fn haystack(self) -> Seq<u8> {
        self.haystack@
    }

    /// The delimiter.
    pub closed spec fn delim(self) -> u8 {
        self.delim
    }

    /// Where the next piece starts.
    pub closed spec fn pos(self) -> int {
        self.pos as int
    }

    /// The pieces not yet handed out.
    pub open spec fn remaining(self) -> Seq<Seq<u8>> {
        split_from(self.haystack(), self.delim(), self.pos())
    }

    /// Start at the first piece of `haystack`.
    pub fn new(delim: u8, haystack: &'a [u8]) -> (split: Self)
        ensures
            split.haystack() == haystack@,
            split.delim() == delim,
            split.pos() == 0,
            split.remaining() == self::split(haystack@, delim),
    {
        MemchrSplit { haystack, delim, pos: 0 }
    }

    /// Hand out the next piece, if there is one.
    pub fn next(&mut self) -> (piece: Option<&'a [u8]>)
        ensures
            final(self).haystack() == old(self).haystack(),
            final(self).delim() == old(self).delim(),
            match piece {
                Some(p) => old(self).remaining().len() > 0 && p@ == old(self).remaining()[0]
                    && final(self).remaining() == old(self).remaining().skip(1),
                None => old(self).remaining().len() == 0 && final(self).pos() == old(self).pos(),
            },
    {
        proof {
            use_type_invariant(&*self);
        }
        if self.pos >= self.haystack.len() {
            return None;
        }
        let start = self.pos;
        let end = find(self.haystack, self.delim, start);
        proof {
            lemma_find_byte(self.haystack@, self.delim, start as int);
            let rest = split_from(self.haystack@, self.delim, end + 1);
            let first = seq![self.haystack@.subrange(start as int, end as int)];
            assert((first + rest).skip(1) == rest);
            assert(first.skip(1) == Seq::<Seq<u8>>::empty());
        }
        if end < self.haystack.len() {
            self.pos = end + 1;
        } else {
            self.pos = end;
        }
        Some(slice_subrange(self.haystack, start, end))
    }
}

/// The index of the first `byte` in `s` at or after `from`, or the length of
/// `s` if there is none.
pub fn find(s: &[u8], byte: u8, from: usize) -> (at: usize)
    requires
        from <= s@.len(),
    ensures
        at == find_byte(s@, byte, from as int),
        from <= at <= s@.len(),
{
    let mut i: usize = from;
    while i < s.len() && s[i] != byte
        invariant
            from <= i <= s@.len(),
            find_byte(s@, byte, from as int) == find_byte(s@, byte, i as int),
        decreases s@.len() - i,
    {
        i += 1;
    }
    i
}

} // verus!
