//! How the records of a graph are written as bytes.
//!
//! Every record of one kind takes the same number of bytes. Numbers are
//! written as 64-bit words, least significant byte first.
//!
//! Every stretch of bytes of the right length is read as a record, so that
//! a record can be read where it lies without a look at the others. What
//! was written from a record is read as that record. In other bytes, a
//! number too large for an index is read as the largest index, and a number
//! that stands for no variant as the one that stands for it modulo the
//! number of variants.

use crate::flatgfa::{AlignOp, AlignOpcode, Handle, LineKind, Link, Orientation, Path, Segment};
use std::ops::Range;
use vstd::bytes::{
    lemma_auto_spec_u64_to_from_le_bytes, spec_u64_from_le_bytes, spec_u64_to_le_bytes,
    u64_from_le_bytes, u64_to_le_bytes,
};
use vstd::prelude::*;
use vstd::slice::slice_subrange;

verus! {

/// A number as a word of eight bytes.
pub open spec fn word(x: usize) -> Seq<u8> {
    spec_u64_to_le_bytes(x as u64)
}

/// The word with index `k` among the words that `bytes` holds.
pub open spec fn word_at(bytes: Seq<u8>, k: int) -> u64 {
    spec_u64_from_le_bytes(bytes.subrange(8 * k, 8 * k + 8))
}

/// The index that a word stands for: the largest one, where the word is
/// too large.
pub open spec fn index_of(w: u64) -> usize {
    if w <= usize::MAX {
        w as usize
    } else {
        usize::MAX
    }
}

/// A word is eight bytes long and is read back as the number it was
/// written from.
pub proof fn lemma_word(x: usize)
    ensures
        word(x).len() == 8,
        spec_u64_from_le_bytes(word(x)) == x as u64,
        index_of(spec_u64_from_le_bytes(word(x))) == x,
{
    lemma_auto_spec_u64_to_from_le_bytes();
}

/// Write a number as a word.
pub fn push_word(out: &mut Vec<u8>, x: u64)
    ensures
        final(out)@ == old(out)@ + spec_u64_to_le_bytes(x),
{
    let mut bytes = u64_to_le_bytes(x);
    out.append(&mut bytes);
}

/// Write an index as a word.
pub fn push_index(out: &mut Vec<u8>, x: usize)
    ensures
        final(out)@ == old(out)@ + word(x),
{
    push_word(out, x as u64);
}

/// Read the word with index `k`.
pub fn read_word(bytes: &[u8], k: usize) -> (w: u64)
    requires
        8 * k + 8 <= bytes@.len(),
    ensures
        w == word_at(bytes@, k as int),
{
    assert(bytes@.len() == bytes.len());
    u64_from_le_bytes(slice_subrange(bytes, 8 * k, 8 * k + 8))
}

/// Read the word with index `k` as an index.
pub fn read_index(bytes: &[u8], k: usize) -> (x: usize)
    requires
        8 * k + 8 <= bytes@.len(),
    ensures
        x == index_of(word_at(bytes@, k as int)),
{
    let w = read_word(bytes, k);
    if w <= usize::MAX as u64 {
        w as usize
    } else {
        usize::MAX
    }
}

/// A kind of record with a fixed size and an encoding that can be read
/// back.
pub trait Record: Sized {
    /// The number of bytes that a record takes.
    spec fn unit() -> nat;

    /// The bytes that a record is written as.
    spec fn encoding(self) -> Seq<u8>;

    /// The record that a stretch of bytes stands for.
    spec fn decoding(bytes: Seq<u8>) -> Self;

    /// A record takes at least one byte.
    proof fn lemma_unit()
        ensures
            Self::unit() > 0,
    ;

    /// A record is written in as many bytes as its kind takes, and is read
    /// back from them as it was.
    proof fn lemma_record(self)
        ensures
            Self::unit() > 0,
            self.encoding().len() == Self::unit(),
            Self::decoding(self.encoding()) == self,
    ;

    /// The number of bytes that a record takes.
    fn size() -> (n: usize)
        ensures
            n == Self::unit(),
            n > 0,
    ;

    /// Write the record.
    fn encode(&self, out: &mut Vec<u8>)
        ensures
            final(out)@ == old(out)@ + self.encoding(),
    ;

    /// Read a record.
    fn decode(bytes: &[u8]) -> (record: Self)
        requires
            bytes@.len() == Self::unit(),
        ensures
            record == Self::decoding(bytes@),
    ;

    /// A record with the same contents.
    fn duplicate(&self) -> (copy: Self)
        ensures
            copy == *self,
    ;
}

/// The number that stands for an orientation.
pub open spec fn orient_code(orient: Orientation) -> usize {
    match orient {
        Orientation::Forward => 0,
        Orientation::Backward => 1,
    }
}

/// The orientation that a number stands for.
pub open spec fn orient_of_code(w: u64) -> Orientation {
    if w % 2 == 0 {
        Orientation::Forward
    } else {
        Orientation::Backward
    }
}

/// The number that stands for an operation.
pub open spec fn opcode_code(op: AlignOpcode) -> nat {
    match op {
        AlignOpcode::Match => 0,
        AlignOpcode::Gap => 1,
        AlignOpcode::Insertion => 2,
        AlignOpcode::Deletion => 3,
    }
}

/// The operation that a number stands for.
pub open spec fn opcode_of_code(c: int) -> AlignOpcode {
    if c % 4 == 0 {
        AlignOpcode::Match
    } else if c % 4 == 1 {
        AlignOpcode::Gap
    } else if c % 4 == 2 {
        AlignOpcode::Insertion
    } else {
        AlignOpcode::Deletion
    }
}

/// The kind of line that a number stands for.
pub open spec fn kind_of_code(b: u8) -> LineKind {
    if b % 4 == 0 {
        LineKind::Header
    } else if b % 4 == 1 {
        LineKind::Segment
    } else if b % 4 == 2 {
        LineKind::Path
    } else {
        LineKind::Link
    }
}

/// The number that stands for a kind of line.
pub open spec fn kind_code(kind: LineKind) -> u8 {
    match kind {
        LineKind::Header => 0,
        LineKind::Segment => 1,
        LineKind::Path => 2,
        LineKind::Link => 3,
    }
}

/// The range that two words stand for.
pub open spec fn range_of(start: u64, end: u64) -> Range<usize> {
    Range { start: index_of(start), end: index_of(end) }
}

/// The handle that two words stand for.
pub open spec fn handle_of(segment: u64, orient: u64) -> Handle {
    Handle { segment: index_of(segment), orient: orient_of_code(orient) }
}

/// Read two words as a range.
pub fn read_range(bytes: &[u8], k: usize) -> (r: Range<usize>)
    requires
        8 * k + 16 <= bytes@.len(),
    ensures
        r == range_of(word_at(bytes@, k as int), word_at(bytes@, k + 1)),
{
    assert(bytes@.len() == bytes.len());
    read_index(bytes, k)..read_index(bytes, k + 1)
}

/// Read two words as a handle.
pub fn read_handle(bytes: &[u8], k: usize) -> (h: Handle)
    requires
        8 * k + 16 <= bytes@.len(),
    ensures
        h == handle_of(word_at(bytes@, k as int), word_at(bytes@, k + 1)),
{
    assert(bytes@.len() == bytes.len());
    let orient = if read_word(bytes, k + 1) % 2 == 0 {
        Orientation::Forward
    } else {
        Orientation::Backward
    };
    Handle { segment: read_index(bytes, k), orient }
}

/// Write a handle as two words.
pub fn push_handle(out: &mut Vec<u8>, h: &Handle)
    ensures
        final(out)@ == old(out)@ + word(h.segment) + word(orient_code(h.orient)),
{
    push_index(out, h.segment);
    match h.orient {
        Orientation::Forward => push_index(out, 0),
        Orientation::Backward => push_index(out, 1),
    }
}

/// Write a range as two words.
pub fn push_range(out: &mut Vec<u8>, r: &Range<usize>)
    ensures
        final(out)@ == old(out)@ + word(r.start) + word(r.end),
{
    push_index(out, r.start);
    push_index(out, r.end);
}

impl Record for Range<usize> {
    open spec fn unit() -> nat {
        16
    }

    open spec fn encoding(self) -> Seq<u8> {
        word(self.start) + word(self.end)
    }

    open spec fn decoding(bytes: Seq<u8>) -> Self {
        range_of(word_at(bytes, 0), word_at(bytes, 1))
    }

    proof fn lemma_unit() {
    }

    proof fn lemma_record(self) {
        lemma_word(self.start);
        lemma_word(self.end);
        let e = self.encoding();
        assert(e.subrange(0, 8) == word(self.start));
        assert(e.subrange(8, 16) == word(self.end));
    }

    fn size() -> (n: usize) {
        16
    }

    fn encode(&self, out: &mut Vec<u8>) {
        push_range(out, self);
    }

    fn duplicate(&self) -> (copy: Self) {
        self.start..self.end
    }

    fn decode(bytes: &[u8]) -> (record: Self) {
        read_range(bytes, 0)
    }
}

impl Record for Handle {
    open spec fn unit() -> nat {
        16
    }

    open spec fn encoding(self) -> Seq<u8> {
        word(self.segment) + word(orient_code(self.orient))
    }

    open spec fn decoding(bytes: Seq<u8>) -> Self {
        handle_of(word_at(bytes, 0), word_at(bytes, 1))
    }

    proof fn lemma_unit() {
    }

    proof fn lemma_record(self) {
        lemma_word(self.segment);
        lemma_word(orient_code(self.orient));
        let e = self.encoding();
        assert(e.subrange(0, 8) == word(self.segment));
        assert(e.subrange(8, 16) == word(orient_code(self.orient)));
    }

    fn size() -> (n: usize) {
        16
    }

    fn encode(&self, out: &mut Vec<u8>) {
        push_handle(out, self);
    }

    fn duplicate(&self) -> (copy: Self) {
        *self
    }

    fn decode(bytes: &[u8]) -> (record: Self) {
        read_handle(bytes, 0)
    }
}

impl Record for Segment {
    open spec fn unit() -> nat {
        40
    }

    open spec fn encoding(self) -> Seq<u8> {
        word(self.name) + word(self.seq.start) + word(self.seq.end) + word(self.optional.start)
            + word(self.optional.end)
    }

    open spec fn decoding(bytes: Seq<u8>) -> Self {
        Segment {
            name: index_of(word_at(bytes, 0)),
            seq: range_of(word_at(bytes, 1), word_at(bytes, 2)),
            optional: range_of(word_at(bytes, 3), word_at(bytes, 4)),
        }
    }

    proof fn lemma_unit() {
    }

    proof fn lemma_record(self) {
        lemma_word(self.name);
        lemma_word(self.seq.start);
        lemma_word(self.seq.end);
        lemma_word(self.optional.start);
        lemma_word(self.optional.end);
        let e = self.encoding();
        assert(e.subrange(0, 8) == word(self.name));
        assert(e.subrange(8, 16) == word(self.seq.start));
        assert(e.subrange(16, 24) == word(self.seq.end));
        assert(e.subrange(24, 32) == word(self.optional.start));
        assert(e.subrange(32, 40) == word(self.optional.end));
    }

    fn size() -> (n: usize) {
        40
    }

    fn encode(&self, out: &mut Vec<u8>) {
        push_index(out, self.name);
        push_range(out, &self.seq);
        push_range(out, &self.optional);
    }

    fn duplicate(&self) -> (copy: Self) {
        Segment {
            name: self.name,
            seq: self.seq.start..self.seq.end,
            optional: self.optional.start..self.optional.end,
        }
    }

    fn decode(bytes: &[u8]) -> (record: Self) {
        Segment {
            name: read_index(bytes, 0),
            seq: read_range(bytes, 1),
            optional: read_range(bytes, 3),
        }
    }
}

impl Record for Path {
    open spec fn unit() -> nat {
        48
    }

    open spec fn encoding(self) -> Seq<u8> {
        word(self.name.start) + word(self.name.end) + word(self.steps.start) + word(self.steps.end)
            + word(self.overlaps.start) + word(self.overlaps.end)
    }

    open spec fn decoding(bytes: Seq<u8>) -> Self {
        Path {
            name: range_of(word_at(bytes, 0), word_at(bytes, 1)),
            steps: range_of(word_at(bytes, 2), word_at(bytes, 3)),
            overlaps: range_of(word_at(bytes, 4), word_at(bytes, 5)),
        }
    }

    proof fn lemma_unit() {
    }

    proof fn lemma_record(self) {
        lemma_word(self.name.start);
        lemma_word(self.name.end);
        lemma_word(self.steps.start);
        lemma_word(self.steps.end);
        lemma_word(self.overlaps.start);
        lemma_word(self.overlaps.end);
        let e = self.encoding();
        assert(e.subrange(0, 8) == word(self.name.start));
        assert(e.subrange(8, 16) == word(self.name.end));
        assert(e.subrange(16, 24) == word(self.steps.start));
        assert(e.subrange(24, 32) == word(self.steps.end));
        assert(e.subrange(32, 40) == word(self.overlaps.start));
        assert(e.subrange(40, 48) == word(self.overlaps.end));
    }

    fn size() -> (n: usize) {
        48
    }

    fn encode(&self, out: &mut Vec<u8>) {
        push_range(out, &self.name);
        push_range(out, &self.steps);
        push_range(out, &self.overlaps);
    }

    fn duplicate(&self) -> (copy: Self) {
        Path {
            name: self.name.start..self.name.end,
            steps: self.steps.start..self.steps.end,
            overlaps: self.overlaps.start..self.overlaps.end,
        }
    }

    fn decode(bytes: &[u8]) -> (record: Self) {
        Path {
            name: read_range(bytes, 0),
            steps: read_range(bytes, 2),
            overlaps: read_range(bytes, 4),
        }
    }
}

impl Record for Link {
    open spec fn unit() -> nat {
        48
    }

    open spec fn encoding(self) -> Seq<u8> {
        word(self.from.segment) + word(orient_code(self.from.orient)) + word(self.to.segment)
            + word(orient_code(self.to.orient)) + word(self.overlap.start) + word(
            self.overlap.end,
        )
    }

    open spec fn decoding(bytes: Seq<u8>) -> Self {
        Link {
            from: handle_of(word_at(bytes, 0), word_at(bytes, 1)),
            to: handle_of(word_at(bytes, 2), word_at(bytes, 3)),
            overlap: range_of(word_at(bytes, 4), word_at(bytes, 5)),
        }
    }

    proof fn lemma_unit() {
    }

    proof fn lemma_record(self) {
        lemma_word(self.from.segment);
        lemma_word(orient_code(self.from.orient));
        lemma_word(self.to.segment);
        lemma_word(orient_code(self.to.orient));
        lemma_word(self.overlap.start);
        lemma_word(self.overlap.end);
        let e = self.encoding();
        assert(e.subrange(0, 8) == word(self.from.segment));
        assert(e.subrange(8, 16) == word(orient_code(self.from.orient)));
        assert(e.subrange(16, 24) == word(self.to.segment));
        assert(e.subrange(24, 32) == word(orient_code(self.to.orient)));
        assert(e.subrange(32, 40) == word(self.overlap.start));
        assert(e.subrange(40, 48) == word(self.overlap.end));
    }

    fn size() -> (n: usize) {
        48
    }

    fn encode(&self, out: &mut Vec<u8>) {
        push_handle(out, &self.from);
        push_handle(out, &self.to);
        push_range(out, &self.overlap);
    }

    fn duplicate(&self) -> (copy: Self) {
        Link { from: self.from, to: self.to, overlap: self.overlap.start..self.overlap.end }
    }

    fn decode(bytes: &[u8]) -> (record: Self) {
        Link {
            from: read_handle(bytes, 0),
            to: read_handle(bytes, 2),
            overlap: read_range(bytes, 4),
        }
    }
}

/// The word that an alignment operation is written as: the length in the
/// low half, the number of the operation in the high half.
pub open spec fn op_word(op: AlignOp) -> u64 {
    (opcode_code(op.op) * 0x1_0000_0000 + op.len) as u64
}

impl Record for AlignOp {
    open spec fn unit() -> nat {
        8
    }

    open spec fn encoding(self) -> Seq<u8> {
        spec_u64_to_le_bytes(op_word(self))
    }

    open spec fn decoding(bytes: Seq<u8>) -> Self {
        let w = word_at(bytes, 0);
        AlignOp { op: opcode_of_code(w as int / 0x1_0000_0000), len: (w % 0x1_0000_0000) as u32 }
    }

    proof fn lemma_unit() {
    }

    proof fn lemma_record(self) {
        lemma_auto_spec_u64_to_from_le_bytes();
        let e = self.encoding();
        assert(e.subrange(0, 8) == e);
    }

    fn size() -> (n: usize) {
        8
    }

    fn encode(&self, out: &mut Vec<u8>) {
        let code: u64 = match self.op {
            AlignOpcode::Match => 0,
            AlignOpcode::Gap => 1,
            AlignOpcode::Insertion => 2,
            AlignOpcode::Deletion => 3,
        };
        push_word(out, code * 0x1_0000_0000 + self.len as u64);
    }

    fn duplicate(&self) -> (copy: Self) {
        *self
    }

    fn decode(bytes: &[u8]) -> (record: Self) {
        let w = read_word(bytes, 0);
        let code = (w / 0x1_0000_0000) % 4;
        let op = if code == 0 {
            AlignOpcode::Match
        } else if code == 1 {
            AlignOpcode::Gap
        } else if code == 2 {
            AlignOpcode::Insertion
        } else {
            AlignOpcode::Deletion
        };
        AlignOp { op, len: (w % 0x1_0000_0000) as u32 }
    }
}

impl Record for LineKind {
    open spec fn unit() -> nat {
        1
    }

    open spec fn encoding(self) -> Seq<u8> {
        seq![kind_code(self)]
    }

    open spec fn decoding(bytes: Seq<u8>) -> Self {
        kind_of_code(bytes[0])
    }

    proof fn lemma_unit() {
    }

    proof fn lemma_record(self) {
    }

    fn size() -> (n: usize) {
        1
    }

    fn encode(&self, out: &mut Vec<u8>) {
        match self {
            LineKind::Header => out.push(0),
            LineKind::Segment => out.push(1),
            LineKind::Path => out.push(2),
            LineKind::Link => out.push(3),
        }
    }

    fn duplicate(&self) -> (copy: Self) {
        *self
    }

    fn decode(bytes: &[u8]) -> (record: Self) {
        let code = bytes[0] % 4;
        if code == 0 {
            LineKind::Header
        } else if code == 1 {
            LineKind::Segment
        } else if code == 2 {
            LineKind::Path
        } else {
            LineKind::Link
        }
    }
}

/// The bytes that a run of records is written as, one record after another.
pub open spec fn encode_all<T: Record>(items: Seq<T>) -> Seq<u8>
    decreases items.len(),
{
    if items.len() == 0 {
        Seq::empty()
    } else {
        encode_all(items.drop_last()) + items.last().encoding()
    }
}

/// The stretch of a run of bytes that holds the record with index `i`.
pub open spec fn chunk<T: Record>(bytes: Seq<u8>, i: int) -> Seq<u8> {
    bytes.subrange(i * T::unit(), i * T::unit() + T::unit())
}

/// The records that a run of bytes stands for: one for each whole stretch.
pub open spec fn decode_all<T: Record>(bytes: Seq<u8>) -> Seq<T> {
    Seq::new((bytes.len() / T::unit()) as nat, |i: int| T::decoding(chunk::<T>(bytes, i)))
}

/// A run of records takes as many bytes as there are records times the size
/// of one, and each record lies in the stretch with its index.
pub proof fn lemma_encode_all_chunk<T: Record>(items: Seq<T>, i: int)
    requires
        0 <= i < items.len(),
    ensures
        T::unit() > 0,
        encode_all(items).len() == items.len() * T::unit(),
        0 <= i * T::unit(),
        i * T::unit() + T::unit() <= encode_all(items).len(),
        chunk::<T>(encode_all(items), i) == items[i].encoding(),
    decreases items.len(),
{
    let before = items.drop_last();
    let last = items.last();
    let unit = T::unit() as int;
    last.lemma_record();
    lemma_encode_all_len(items);
    lemma_encode_all_len(before);
    lemma_index_inside(i, items.len() as int, unit);
    let bytes = encode_all(items);
    if i == items.len() - 1 {
        assert(chunk::<T>(bytes, i) == last.encoding());
    } else {
        lemma_encode_all_chunk(before, i);
        assert(chunk::<T>(bytes, i) == chunk::<T>(encode_all(before), i));
    }
}

/// A run of records takes as many bytes as there are records times the size
/// of one.
pub proof fn lemma_encode_all_len<T: Record>(items: Seq<T>)
    ensures
        encode_all(items).len() == items.len() * T::unit(),
    decreases items.len(),
{
    if items.len() > 0 {
        let before = items.drop_last();
        lemma_encode_all_len(before);
        items.last().lemma_record();
        assert(before.len() * T::unit() + T::unit() == items.len() * T::unit()) by (nonlinear_arith)
            requires
                before.len() + 1 == items.len(),
        ;
    } else {
        assert(0 * T::unit() == 0);
    }
}

/// A run of records that has been written is read back as it was.
pub proof fn lemma_encode_all<T: Record>(items: Seq<T>)
    ensures
        encode_all(items).len() == items.len() * T::unit(),
        decode_all::<T>(encode_all(items)) == items,
{
    lemma_encode_all_len(items);
    T::lemma_unit();
    let bytes = encode_all(items);
    if items.len() == 0 {
        assert(0 * T::unit() == 0);
        assert(bytes.len() == 0);
        lemma_no_stretch(T::unit() as int);
        assert(decode_all::<T>(bytes) == items);
    } else {
        items.last().lemma_record();
        lemma_len_quotient(bytes.len() as int, T::unit() as int, items.len() as int);
        assert forall|i: int| 0 <= i < items.len() implies decode_all::<T>(bytes)[i] == items[i] by {
            lemma_encode_all_chunk(items, i);
            items[i].lemma_record();
        }
        assert(decode_all::<T>(bytes) == items);
    }
}

/// No stretch fits into nothing.
pub proof fn lemma_no_stretch(unit: int)
    requires
        unit > 0,
    ensures
        0int / unit == 0,
{
    assert(0int / unit == 0) by (nonlinear_arith)
        requires
            unit > 0,
    ;
}

/// The quotient of a multiple by its unit is the number of units.
pub proof fn lemma_len_quotient(len: int, unit: int, n: int)
    requires
        unit > 0,
        0 <= n,
        n * unit == len,
    ensures
        len / unit == n,
{
    assert(len / unit == n) by (nonlinear_arith)
        requires
            unit > 0,
            0 <= n,
            n * unit == len,
    ;
}

/// The stretch of the record with an index below the number of records
/// lies inside all the stretches.
pub proof fn lemma_index_inside(i: int, n: int, unit: int)
    requires
        unit > 0,
        0 <= i < n,
    ensures
        0 <= i * unit,
        i * unit + unit <= n * unit,
        i * unit < n * unit,
{
    assert(0 <= i * unit && i * unit + unit <= n * unit && i * unit < n * unit)
        by (nonlinear_arith)
        requires
            unit > 0,
            0 <= i < n,
    ;
}

/// The stretch of a record with an index below the number of whole
/// stretches in a run of bytes lies inside the run.
pub proof fn lemma_stretch_inside(i: int, len: int, unit: int)
    requires
        unit > 0,
        0 <= i < len / unit,
        0 <= len,
    ensures
        0 <= i * unit,
        i * unit + unit <= len,
{
    assert(0 <= i * unit && i * unit + unit <= len) by (nonlinear_arith)
        requires
            unit > 0,
            0 <= i < len / unit,
            0 <= len,
    ;
}

} // verus!
