//! Reading back what has been written.
//!
//! Every piece of GFA text that the printer writes is read by the line
//! parser as what it was written from: numbers, alignments, lists of steps
//! and of overlaps, and whole lines.

use crate::flatgfa::{AlignOp, Orientation};
use crate::gaf::{decimal_value, is_digit, lemma_digits_end_is, whole_int};
use crate::gfaline::{
    cigar_of, cigars_from, find_sep, is_sep, lemma_find_sep_is, line_of, link_of, op_at, opcode_of,
    ops_from, orient_of, orient_of_byte, overlaps_of, path_of, segment_of, step_of, steps_from,
    steps_of, LineView, LinkView, PathView, SegmentView,
};
use crate::memfile::{find_byte, lemma_find_byte_is, split, split_from};
use crate::print::{
    cigar_text, cigars_text, decimal_digits, line_text, link_fields, link_text, op_text,
    opcode_text, ops_text,
    orient_text, overlaps_text, path_text, segment_text, step_text, steps_text,
};
use vstd::prelude::*;

verus! {

/// Where the end of a string is a given text, the bytes of the string
/// from there on are those of the text, and what lies further on is the
/// rest of the text.
pub proof fn lemma_tail(s: Seq<u8>, pos: int, t: Seq<u8>, n: int)
    requires
        0 <= pos <= s.len(),
        s.subrange(pos, s.len() as int) == t,
        0 <= n <= t.len(),
    ensures
        s.len() == pos + t.len(),
        forall|k: int| 0 <= k < t.len() ==> #[trigger] s[pos + k] == t[k],
        s.subrange(pos + n, s.len() as int) == t.skip(n),
        s.subrange(pos, pos + n) == t.take(n),
{
    assert forall|k: int| 0 <= k < t.len() implies #[trigger] s[pos + k] == t[k] by {
        assert(s.subrange(pos, s.len() as int)[k] == s[pos + k]);
    }
    assert(s.subrange(pos + n, s.len() as int) =~= t.skip(n));
    assert(s.subrange(pos, pos + n) =~= t.take(n));
}

/// The decimal digits of a number are digits, at least one, and stand for
/// the number.
pub proof fn lemma_decimal_digits(n: nat)
    ensures
        decimal_digits(n).len() >= 1,
        forall|j: int| 0 <= j < decimal_digits(n).len() ==> is_digit(#[trigger] decimal_digits(n)[j]),
        decimal_value(decimal_digits(n)) == n,
    decreases n,
{
    let d = decimal_digits(n);
    if n < 10 {
        assert(d.drop_last() == Seq::<u8>::empty());
        assert(decimal_value(d.drop_last()) == 0);
    } else {
        lemma_decimal_digits(n / 10);
        assert(d.drop_last() == decimal_digits(n / 10));
    }
}

/// A number written in decimal is read back as the number.
pub proof fn lemma_whole_int_decimal(n: usize)
    ensures
        whole_int(decimal_digits(n as nat)) == Some(n),
{
    let d = decimal_digits(n as nat);
    lemma_decimal_digits(n as nat);
    lemma_digits_end_is(d, 0, d.len() as int);
    assert(d.subrange(0, d.len() as int) == d);
}

/// A byte that the text of an alignment can hold: a digit, the letter of an
/// operation, or the star.
pub open spec fn is_cigar_byte(byte: u8) -> bool {
    is_digit(byte) || byte == 77 || byte == 78 || byte == 68 || byte == 73 || byte == 42
}

/// The runs of an alignment are written with digits and letters only, and
/// with at least two bytes where there is a run.
pub proof fn lemma_ops_text_bytes(ops: Seq<AlignOp>)
    ensures
        forall|j: int| 0 <= j < ops_text(ops).len() ==> is_cigar_byte(#[trigger] ops_text(ops)[j]),
        ops.len() > 0 ==> ops_text(ops).len() >= 2 && is_digit(ops_text(ops)[0]),
    decreases ops.len(),
{
    if ops.len() > 0 {
        lemma_decimal_digits(ops[0].len as nat);
        lemma_ops_text_bytes(ops.skip(1));
        let d = decimal_digits(ops[0].len as nat);
        let first = op_text(ops[0]);
        let rest = ops_text(ops.skip(1));
        assert forall|j: int| 0 <= j < ops_text(ops).len() implies is_cigar_byte(
            #[trigger] ops_text(ops)[j],
        ) by {
            if j < d.len() {
                assert(ops_text(ops)[j] == d[j]);
            } else if j == d.len() {
                assert(ops_text(ops)[j] == opcode_text(ops[0].op));
            } else {
                assert(ops_text(ops)[j] == rest[j - first.len()]);
            }
        }
        assert(ops_text(ops)[0] == d[0]);
    }
}

/// An alignment is written with digits, letters and the star only, and with
/// at least one byte.
pub proof fn lemma_cigar_text_bytes(ops: Seq<AlignOp>)
    ensures
        cigar_text(ops).len() >= 1,
        forall|j: int|
            0 <= j < cigar_text(ops).len() ==> is_cigar_byte(#[trigger] cigar_text(ops)[j]),
{
    lemma_ops_text_bytes(ops);
}

/// The runs of an alignment, written at the end of a string, are read from
/// there as what they were.
pub proof fn lemma_ops_read_back(s: Seq<u8>, pos: int, ops: Seq<AlignOp>)
    requires
        0 <= pos <= s.len(),
        s.subrange(pos, s.len() as int) == ops_text(ops),
    ensures
        ops_from(s, pos) == Some(ops),
    decreases ops.len(),
{
    if ops.len() == 0 {
        assert(ops_text(ops).len() == 0);
        assert(ops == Seq::<AlignOp>::empty());
    } else {
        let op = ops[0];
        let d = decimal_digits(op.len as nat);
        let t = ops_text(ops);
        let rest = ops_text(ops.skip(1));
        lemma_decimal_digits(op.len as nat);
        assert(t == d.push(opcode_text(op.op)) + rest);
        let end = pos + d.len();
        lemma_tail(s, pos, t, end - pos + 1);
        lemma_tail(s, pos, t, d.len() as int);
        assert forall|j: int| pos <= j < end implies is_digit(#[trigger] s[j]) by {
            assert(s[pos + (j - pos)] == t[j - pos]);
            assert(t[j - pos] == d[j - pos]);
        }
        assert(s[pos + d.len()] == t[d.len() as int]);
        assert(t[d.len() as int] == opcode_text(op.op));
        lemma_digits_end_is(s, pos, end);
        assert(t.take(d.len() as int) == d);
        assert(s.subrange(pos, end) == d);
        assert(opcode_of(opcode_text(op.op)) == Some(op.op));
        assert(op_at(s, pos) == Some((op, end + 1)));
        assert(t.skip(end - pos + 1) == rest);
        assert(s.subrange(end + 1, s.len() as int) == rest);
        lemma_ops_read_back(s, end + 1, ops.skip(1));
        assert(seq![op] + ops.skip(1) == ops);
    }
}

/// An alignment that has been written is read back as what it was.
pub proof fn lemma_cigar_read_back(ops: Seq<AlignOp>)
    ensures
        cigar_of(cigar_text(ops)) == Some(ops),
{
    let t = cigar_text(ops);
    if ops.len() == 0 {
        assert(ops == Seq::<AlignOp>::empty());
    } else {
        lemma_ops_text_bytes(ops);
        assert(t.subrange(0, t.len() as int) == t);
        lemma_ops_read_back(t, 0, ops);
    }
}

/// Alignments divided by commas, written at the end of a string, are read
/// from there as what they were.
pub proof fn lemma_cigars_read_back(s: Seq<u8>, pos: int, overlaps: Seq<Seq<AlignOp>>)
    requires
        0 <= pos <= s.len(),
        overlaps.len() >= 1,
        s.subrange(pos, s.len() as int) == cigars_text(overlaps),
    ensures
        cigars_from(s, pos) == Some(overlaps),
    decreases overlaps.len(),
{
    let first = cigar_text(overlaps[0]);
    let t = cigars_text(overlaps);
    lemma_cigar_text_bytes(overlaps[0]);
    lemma_cigar_read_back(overlaps[0]);
    let end = pos + first.len();
    let rest = cigars_text(overlaps.skip(1));
    assert(t == if overlaps.len() == 1 {
        first
    } else {
        first + seq![44u8] + rest
    });
    lemma_tail(s, pos, t, first.len() as int);
    assert(t.take(first.len() as int) == first);
    assert forall|j: int| pos <= j < end implies s[j] != 44 by {
        assert(s[pos + (j - pos)] == t[j - pos]);
        assert(t[j - pos] == first[j - pos]);
        assert(is_cigar_byte(first[j - pos]));
    }
    if overlaps.len() == 1 {
        assert(t == first);
        lemma_find_byte_is(s, 44, pos, end);
        assert(s.subrange(pos, end) == first);
        assert(seq![overlaps[0]] == overlaps);
    } else {
        lemma_tail(s, pos, t, end - pos + 1);
        assert(s[pos + first.len()] == t[first.len() as int]);
        lemma_find_byte_is(s, 44, pos, end);
        assert(s.subrange(pos, end) == first);
        assert(t.skip(end - pos + 1) == rest);
        assert(s.subrange(end + 1, s.len() as int) == rest);
        lemma_cigars_read_back(s, end + 1, overlaps.skip(1));
        assert(seq![overlaps[0]] + overlaps.skip(1) == overlaps);
    }
}

/// A list of overlaps is one that the text of a path can give: not a
/// single empty alignment, which is written as the empty list is.
pub open spec fn overlaps_plain(overlaps: Seq<Seq<AlignOp>>) -> bool {
    !(overlaps.len() == 1 && overlaps[0].len() == 0)
}

/// The text of a list of alignments has at least one byte for each of them
/// and a comma between them.
pub proof fn lemma_cigars_text_len(overlaps: Seq<Seq<AlignOp>>)
    ensures
        overlaps.len() >= 1 ==> cigars_text(overlaps).len() >= 1,
        overlaps.len() >= 2 ==> cigars_text(overlaps).len() >= 3,
        forall|j: int|
            0 <= j < cigars_text(overlaps).len() ==> #[trigger] cigars_text(overlaps)[j] == 44
                || is_cigar_byte(cigars_text(overlaps)[j]),
    decreases overlaps.len(),
{
    if overlaps.len() >= 1 {
        lemma_cigar_text_bytes(overlaps[0]);
        if overlaps.len() >= 2 {
            lemma_cigars_text_len(overlaps.skip(1));
            let first = cigar_text(overlaps[0]);
            let rest = cigars_text(overlaps.skip(1));
            let t = cigars_text(overlaps);
            assert(t == first + seq![44u8] + rest);
            assert forall|j: int| 0 <= j < t.len() implies #[trigger] t[j] == 44 || is_cigar_byte(
                t[j],
            ) by {
                if j < first.len() {
                    assert(t[j] == first[j]);
                } else if j > first.len() {
                    assert(t[j] == rest[j - first.len() - 1]);
                }
            }
        }
    }
}

/// The overlaps of a path that have been written are read back as what
/// they were.
pub proof fn lemma_overlaps_read_back(overlaps: Seq<Seq<AlignOp>>)
    requires
        overlaps_plain(overlaps),
    ensures
        overlaps_of(overlaps_text(overlaps)) == Some(overlaps),
{
    let t = overlaps_text(overlaps);
    if overlaps.len() == 0 {
        assert(overlaps == Seq::<Seq<AlignOp>>::empty());
    } else {
        lemma_cigars_text_len(overlaps);
        if overlaps.len() == 1 {
            lemma_ops_text_bytes(overlaps[0]);
        }
        assert(t.subrange(0, t.len() as int) == t);
        lemma_cigars_read_back(t, 0, overlaps);
    }
}

/// A byte that the text of a step can hold: a digit or a sign.
pub open spec fn is_step_byte(byte: u8) -> bool {
    is_digit(byte) || byte == 43 || byte == 45
}

/// A step is written with digits and a sign, and is read back as what it
/// was.
pub proof fn lemma_step_read_back(step: (usize, Orientation))
    ensures
        step_text(step).len() >= 2,
        forall|j: int| 0 <= j < step_text(step).len() ==> is_step_byte(#[trigger] step_text(step)[j]),
        step_of(step_text(step)) == Some(step),
{
    let d = decimal_digits(step.0 as nat);
    lemma_decimal_digits(step.0 as nat);
    lemma_whole_int_decimal(step.0);
    assert(step_text(step).drop_last() == d);
    assert(orient_of_byte(orient_text(step.1)) == Some(step.1));
    assert forall|j: int| 0 <= j < step_text(step).len() implies is_step_byte(
        #[trigger] step_text(step)[j],
    ) by {
        if j < d.len() {
            assert(step_text(step)[j] == d[j]);
        }
    }
}

/// Steps divided by commas, written at the end of a string, are read from
/// there as what they were.
pub proof fn lemma_steps_from_read_back(s: Seq<u8>, pos: int, steps: Seq<(usize, Orientation)>)
    requires
        0 <= pos <= s.len(),
        steps.len() >= 1,
        s.subrange(pos, s.len() as int) == steps_text(steps),
    ensures
        steps_from(s, pos) == Some(steps),
    decreases steps.len(),
{
    let first = step_text(steps[0]);
    let t = steps_text(steps);
    lemma_step_read_back(steps[0]);
    let end = pos + first.len();
    let rest = steps_text(steps.skip(1));
    assert(t == if steps.len() == 1 {
        first
    } else {
        first + seq![44u8] + rest
    });
    lemma_tail(s, pos, t, first.len() as int);
    assert(t.take(first.len() as int) == first);
    assert forall|j: int| pos <= j < end implies s[j] != 44 by {
        assert(s[pos + (j - pos)] == t[j - pos]);
        assert(t[j - pos] == first[j - pos]);
        assert(is_step_byte(first[j - pos]));
    }
    if steps.len() == 1 {
        assert(t == first);
        lemma_find_byte_is(s, 44, pos, end);
        assert(s.subrange(pos, end) == first);
        assert(seq![steps[0]] == steps);
    } else {
        lemma_tail(s, pos, t, end - pos + 1);
        assert(s[pos + first.len()] == t[first.len() as int]);
        lemma_find_byte_is(s, 44, pos, end);
        assert(s.subrange(pos, end) == first);
        assert(t.skip(end - pos + 1) == rest);
        assert(s.subrange(end + 1, s.len() as int) == rest);
        lemma_steps_from_read_back(s, end + 1, steps.skip(1));
        assert(seq![steps[0]] + steps.skip(1) == steps);
    }
}

/// The text of a list of steps holds digits, signs and commas only, and at
/// least two bytes where there is a step.
pub proof fn lemma_steps_text_bytes(steps: Seq<(usize, Orientation)>)
    ensures
        steps.len() >= 1 ==> steps_text(steps).len() >= 2,
        forall|j: int|
            0 <= j < steps_text(steps).len() ==> #[trigger] steps_text(steps)[j] == 44
                || is_step_byte(steps_text(steps)[j]),
    decreases steps.len(),
{
    if steps.len() >= 1 {
        lemma_step_read_back(steps[0]);
        if steps.len() >= 2 {
            lemma_steps_text_bytes(steps.skip(1));
            let first = step_text(steps[0]);
            let rest = steps_text(steps.skip(1));
            let t = steps_text(steps);
            assert(t == first + seq![44u8] + rest);
            assert forall|j: int| 0 <= j < t.len() implies #[trigger] t[j] == 44 || is_step_byte(
                t[j],
            ) by {
                if j < first.len() {
                    assert(t[j] == first[j]);
                } else if j > first.len() {
                    assert(t[j] == rest[j - first.len() - 1]);
                }
            }
        }
    }
}

/// The steps of a path that have been written are read back as what they
/// were.
pub proof fn lemma_steps_read_back(steps: Seq<(usize, Orientation)>)
    ensures
        steps_of(steps_text(steps)) == Some(steps),
{
    let t = steps_text(steps);
    if steps.len() == 0 {
        assert(steps == Seq::<(usize, Orientation)>::empty());
    } else {
        lemma_steps_text_bytes(steps);
        assert(t.subrange(0, t.len() as int) == t);
        lemma_steps_from_read_back(t, 0, steps);
    }
}

/// A string holds no separator.
pub open spec fn no_sep(s: Seq<u8>) -> bool {
    forall|j: int| 0 <= j < s.len() ==> !is_sep(#[trigger] s[j])
}

/// A line is one that the text of a graph can give: the bases of a segment
/// and the name of a path hold no separator, and the overlaps of a path are
/// not a single empty alignment.
pub open spec fn line_plain(line: LineView) -> bool {
    match line {
        LineView::Header(_) => true,
        LineView::Segment(seg) => no_sep(seg.seq),
        LineView::Link(_) => true,
        LineView::Path(path) => no_sep(path.name) && overlaps_plain(path.overlaps),
    }
}

/// A list of alignments read from a string holds at least one.
pub proof fn lemma_cigars_from_len(s: Seq<u8>, pos: int)
    requires
        cigars_from(s, pos) is Some,
    ensures
        cigars_from(s, pos).unwrap().len() >= 1,
        find_byte(s, 44, pos) < s.len() ==> cigars_from(s, pos).unwrap().len() >= 2,
    decreases s.len() - pos,
{
    if 0 <= pos <= s.len() {
        let end = find_byte(s, 44, pos);
        crate::memfile::lemma_find_byte(s, 44, pos);
        if end < s.len() {
            lemma_cigars_from_len(s, end + 1);
        }
    }
}

/// The overlaps read from a field are never a single empty alignment.
pub proof fn lemma_overlaps_of_plain(field: Seq<u8>)
    requires
        overlaps_of(field) is Some,
    ensures
        overlaps_plain(overlaps_of(field).unwrap()),
{
    if field.len() == 0 || (field.len() == 1 && field[0] == 42) {
    } else {
        lemma_cigars_from_len(field, 0);
        let end = find_byte(field, 44, 0);
        crate::memfile::lemma_find_byte(field, 44, 0);
        if end >= field.len() {
            assert(field.subrange(0, end) == field);
            let ops = ops_from(field, 0).unwrap();
            assert(ops.len() >= 1);
        }
    }
}

/// What is read from a line is a line that the text of a graph can give.
pub proof fn lemma_line_of_plain(line: Seq<u8>)
    requires
        line_of(line) is Some,
    ensures
        line_plain(line_of(line).unwrap()),
{
    let rest = line.subrange(2, line.len() as int);
    let e1 = find_sep(rest, 0);
    crate::gfaline::lemma_find_sep(rest, 0);
    if line[0] == 83 {
        crate::gfaline::lemma_find_sep(rest, e1 + 1);
    } else if line[0] == 80 {
        let e2 = find_sep(rest, e1 + 1);
        lemma_overlaps_of_plain(rest.subrange(e2 + 1, rest.len() as int));
    }
}

/// A segment line that has been written is read back as what it was.
pub proof fn lemma_segment_read_back(seg: SegmentView)
    requires
        no_sep(seg.seq),
    ensures
        line_of(segment_text(seg)) == Some(LineView::Segment(seg)),
{
    let d = decimal_digits(seg.name as nat);
    lemma_decimal_digits(seg.name as nat);
    lemma_whole_int_decimal(seg.name);
    let tail = if seg.data.len() == 0 {
        Seq::<u8>::empty()
    } else {
        seq![9u8] + seg.data
    };
    let rest = d + seq![9u8] + seg.seq + tail;
    let line = segment_text(seg);
    assert(line == seq![83u8, 9u8] + d + seq![9u8] + seg.seq + tail);
    assert(line.subrange(2, line.len() as int) == rest);
    let e1 = d.len() as int;
    let e2 = e1 + 1 + seg.seq.len();
    assert forall|j: int| 0 <= j < e1 implies !is_sep(#[trigger] rest[j]) by {
        assert(rest[j] == d[j]);
        assert(is_digit(d[j]));
    }
    assert(rest[e1] == 9);
    lemma_find_sep_is(rest, 0, e1);
    assert forall|j: int| e1 + 1 <= j < e2 implies !is_sep(#[trigger] rest[j]) by {
        assert(rest[j] == seg.seq[j - e1 - 1]);
    }
    if seg.data.len() > 0 {
        assert(rest[e2] == 9);
    }
    lemma_find_sep_is(rest, e1 + 1, e2);
    assert(rest.subrange(0, e1) == d);
    assert(rest.subrange(e1 + 1, e2) == seg.seq);
    if seg.data.len() > 0 {
        assert(rest.subrange(e2 + 1, rest.len() as int) == seg.data);
    } else {
        assert(seg.data == Seq::<u8>::empty());
    }
    assert(segment_of(rest) == Some(seg));
}

/// Where a field without separators lies in a string, ending at a separator
/// or at the end of the string, the first separator from the start of the
/// field on is found at the end of the field.
pub proof fn lemma_field_end(s: Seq<u8>, from: int, field: Seq<u8>)
    requires
        0 <= from,
        from + field.len() <= s.len(),
        s.subrange(from, from + field.len()) == field,
        no_sep(field),
        from + field.len() == s.len() || is_sep(s[from + field.len()]),
    ensures
        find_sep(s, from) == from + field.len(),
{
    assert forall|j: int| from <= j < from + field.len() implies !is_sep(#[trigger] s[j]) by {
        assert(s.subrange(from, from + field.len())[j - from] == s[j]);
    }
    lemma_find_sep_is(s, from, from + field.len());
}

/// The digits of a number hold no separator.
pub proof fn lemma_decimal_no_sep(n: nat)
    ensures
        no_sep(decimal_digits(n)),
{
    lemma_decimal_digits(n);
    let d = decimal_digits(n);
    assert forall|j: int| 0 <= j < d.len() implies !is_sep(#[trigger] d[j]) by {
        assert(is_digit(d[j]));
    }
}

/// The five fields of a link line, put together with tabs, are found
/// again where the line is cut at its first four separators.
pub proof fn lemma_link_fields(d1: Seq<u8>, o1: u8, d2: Seq<u8>, o2: u8, c: Seq<u8>)
    requires
        no_sep(d1),
        no_sep(d2),
        !is_sep(o1),
        !is_sep(o2),
    ensures
        ({
            let rest = d1 + seq![9u8, o1, 9u8] + d2 + seq![9u8, o2, 9u8] + c;
            let e1 = find_sep(rest, 0);
            let e2 = find_sep(rest, e1 + 1);
            let e3 = find_sep(rest, e2 + 1);
            let e4 = find_sep(rest, e3 + 1);
            &&& e4 < rest.len()
            &&& rest.subrange(0, e1) == d1
            &&& rest.subrange(e1 + 1, e2) == seq![o1]
            &&& rest.subrange(e2 + 1, e3) == d2
            &&& rest.subrange(e3 + 1, e4) == seq![o2]
            &&& rest.subrange(e4 + 1, rest.len() as int) == c
        }),
{
    let rest = d1 + seq![9u8, o1, 9u8] + d2 + seq![9u8, o2, 9u8] + c;
    let p1 = d1.len() as int;
    let p2 = p1 + 2;
    let p3 = p2 + 1 + d2.len();
    let p4 = p3 + 2;
    assert(rest.len() == p4 + 1 + c.len());
    assert(rest.subrange(0, p1) == d1);
    assert(rest.subrange(p1 + 1, p2) == seq![o1]);
    assert(rest.subrange(p2 + 1, p3) == d2);
    assert(rest.subrange(p3 + 1, p4) == seq![o2]);
    assert(rest.subrange(p4 + 1, rest.len() as int) == c);
    assert(rest[p1] == 9u8);
    assert(rest[p2] == 9u8);
    assert(rest[p3] == 9u8);
    assert(rest[p4] == 9u8);
    assert(no_sep(seq![o1]));
    assert(no_sep(seq![o2]));
    lemma_field_end(rest, 0, d1);
    lemma_field_end(rest, p1 + 1, seq![o1]);
    lemma_field_end(rest, p2 + 1, d2);
    lemma_field_end(rest, p3 + 1, seq![o2]);
}

/// The fields of a link line that have been written are read back as the
/// link they were written from.
pub proof fn lemma_link_fields_read_back(link: LinkView)
    ensures
        link_of(link_fields(link)) == Some(link),
{
    let d1 = decimal_digits(link.from_seg as nat);
    let d2 = decimal_digits(link.to_seg as nat);
    let o1 = orient_text(link.from_orient);
    let o2 = orient_text(link.to_orient);
    let c = cigar_text(link.overlap);
    lemma_decimal_no_sep(link.from_seg as nat);
    lemma_decimal_no_sep(link.to_seg as nat);
    lemma_whole_int_decimal(link.from_seg);
    lemma_whole_int_decimal(link.to_seg);
    lemma_cigar_read_back(link.overlap);
    lemma_link_fields(d1, o1, d2, o2, c);
    assert(orient_of(seq![o1]) == Some(link.from_orient));
    assert(orient_of(seq![o2]) == Some(link.to_orient));
}

/// A link line that has been written is read back as what it was.
pub proof fn lemma_link_read_back(link: LinkView)
    ensures
        line_of(link_text(link)) == Some(LineView::Link(link)),
{
    let rest = link_fields(link);
    let line = link_text(link);
    lemma_link_fields_read_back(link);
    assert(line.subrange(2, line.len() as int) == rest);
}

/// A path line that has been written is read back as what it was.
pub proof fn lemma_path_read_back(path: PathView)
    requires
        no_sep(path.name),
        overlaps_plain(path.overlaps),
    ensures
        line_of(path_text(path)) == Some(LineView::Path(path)),
{
    let st = steps_text(path.steps);
    let ov = overlaps_text(path.overlaps);
    lemma_steps_read_back(path.steps);
    lemma_steps_text_bytes(path.steps);
    lemma_overlaps_read_back(path.overlaps);
    let rest = path.name + seq![9u8] + st + seq![9u8] + ov;
    let line = path_text(path);
    assert(line == seq![80u8, 9u8] + path.name + seq![9u8] + st + seq![9u8] + ov);
    assert(line.subrange(2, line.len() as int) == rest);
    let e1 = path.name.len() as int;
    let e2 = e1 + 1 + st.len();
    assert forall|j: int| 0 <= j < e1 implies !is_sep(#[trigger] rest[j]) by {
        assert(rest[j] == path.name[j]);
    }
    assert(rest[e1] == 9);
    assert forall|j: int| e1 + 1 <= j < e2 implies !is_sep(#[trigger] rest[j]) by {
        assert(rest[j] == st[j - e1 - 1]);
        assert(st[j - e1 - 1] == 44 || is_step_byte(st[j - e1 - 1]));
    }
    assert(rest[e2] == 9);
    lemma_find_sep_is(rest, 0, e1);
    lemma_find_sep_is(rest, e1 + 1, e2);
    assert(rest.subrange(0, e1) == path.name);
    assert(rest.subrange(e1 + 1, e2) == st);
    assert(rest.subrange(e2 + 1, rest.len() as int) == ov);
    assert(path_of(rest) == Some(path));
}

/// A line that the text of a graph can give, once written, is read back as
/// what it was.
pub proof fn lemma_line_read_back(line: LineView)
    requires
        line_plain(line),
    ensures
        line_of(line_text(line)) == Some(line),
{
    match line {
        LineView::Header(text) => {
            let t = line_text(line);
            assert(t.subrange(2, t.len() as int) == text);
        },
        LineView::Segment(seg) => {
            lemma_segment_read_back(seg);
        },
        LineView::Link(link) => {
            lemma_link_read_back(link);
        },
        LineView::Path(path) => {
            lemma_path_read_back(path);
        },
    }
}

/// A string holds no line feed.
pub open spec fn no_lf(s: Seq<u8>) -> bool {
    forall|j: int| 0 <= j < s.len() ==> #[trigger] s[j] != 10
}

/// The fields of a line that hold text as it was read hold no line feed.
pub open spec fn line_no_lf(line: LineView) -> bool {
    match line {
        LineView::Header(text) => no_lf(text),
        LineView::Segment(seg) => no_lf(seg.seq) && no_lf(seg.data),
        LineView::Link(_) => true,
        LineView::Path(path) => no_lf(path.name),
    }
}

/// What is read from a line without a line feed holds none in its fields.
pub proof fn lemma_line_of_no_lf(line: Seq<u8>)
    requires
        no_lf(line),
        line_of(line) is Some,
    ensures
        line_no_lf(line_of(line).unwrap()),
{
    let rest = line.subrange(2, line.len() as int);
    assert forall|j: int| 0 <= j < rest.len() implies #[trigger] rest[j] != 10 by {
        assert(rest[j] == line[j + 2]);
    }
    let e1 = find_sep(rest, 0);
    crate::gfaline::lemma_find_sep(rest, 0);
    if line[0] == 83 {
        let e2 = find_sep(rest, e1 + 1);
        crate::gfaline::lemma_find_sep(rest, e1 + 1);
        let seq = rest.subrange(e1 + 1, e2);
        assert forall|j: int| 0 <= j < seq.len() implies #[trigger] seq[j] != 10 by {
            assert(seq[j] == rest[e1 + 1 + j]);
        }
        if e2 < rest.len() {
            let data = rest.subrange(e2 + 1, rest.len() as int);
            assert forall|j: int| 0 <= j < data.len() implies #[trigger] data[j] != 10 by {
                assert(data[j] == rest[e2 + 1 + j]);
            }
        }
    } else if line[0] == 80 {
        let name = rest.subrange(0, e1);
        assert forall|j: int| 0 <= j < name.len() implies #[trigger] name[j] != 10 by {
            assert(name[j] == rest[j]);
        }
    }
}

/// A line whose fields hold no line feed is written without one.
pub proof fn lemma_line_text_no_lf(line: LineView)
    requires
        line_no_lf(line),
    ensures
        no_lf(line_text(line)),
{
    let t = line_text(line);
    match line {
        LineView::Header(text) => {
            assert forall|j: int| 0 <= j < t.len() implies #[trigger] t[j] != 10 by {
                if j >= 2 {
                    assert(t[j] == text[j - 2]);
                }
            }
        },
        LineView::Segment(seg) => {
            let d = decimal_digits(seg.name as nat);
            lemma_decimal_digits(seg.name as nat);
            let head = seq![83u8, 9u8] + d + seq![9u8] + seg.seq;
            assert forall|j: int| 0 <= j < head.len() implies #[trigger] head[j] != 10 by {
                if 2 <= j < 2 + d.len() {
                    assert(head[j] == d[j - 2]);
                    assert(is_digit(d[j - 2]));
                } else if j > 2 + d.len() {
                    assert(head[j] == seg.seq[j - 3 - d.len()]);
                }
            }
            assert forall|j: int| 0 <= j < t.len() implies #[trigger] t[j] != 10 by {
                if j < head.len() {
                    assert(t[j] == head[j]);
                } else if j > head.len() {
                    assert(t[j] == seg.data[j - head.len() - 1]);
                }
            }
        },
        LineView::Link(link) => {
            let d1 = decimal_digits(link.from_seg as nat);
            let d2 = decimal_digits(link.to_seg as nat);
            let c = cigar_text(link.overlap);
            lemma_decimal_digits(link.from_seg as nat);
            lemma_decimal_digits(link.to_seg as nat);
            lemma_cigar_text_bytes(link.overlap);
            let a = d1 + seq![9u8, orient_text(link.from_orient), 9u8];
            assert forall|j: int| 0 <= j < a.len() implies #[trigger] a[j] != 10 by {
                if j < d1.len() {
                    assert(a[j] == d1[j]);
                    assert(is_digit(d1[j]));
                }
            }
            let b = a + d2 + seq![9u8, orient_text(link.to_orient), 9u8];
            assert forall|j: int| 0 <= j < b.len() implies #[trigger] b[j] != 10 by {
                if j < a.len() {
                    assert(b[j] == a[j]);
                } else if j < a.len() + d2.len() {
                    assert(b[j] == d2[j - a.len()]);
                    assert(is_digit(d2[j - a.len()]));
                }
            }
            let f = link_fields(link);
            assert(f == b + c);
            assert forall|j: int| 0 <= j < f.len() implies #[trigger] f[j] != 10 by {
                if j < b.len() {
                    assert(f[j] == b[j]);
                } else {
                    assert(f[j] == c[j - b.len()]);
                    assert(is_cigar_byte(c[j - b.len()]));
                }
            }
            assert forall|j: int| 0 <= j < t.len() implies #[trigger] t[j] != 10 by {
                if j >= 2 {
                    assert(t[j] == f[j - 2]);
                }
            }
        },
        LineView::Path(path) => {
            let st = steps_text(path.steps);
            let ov = overlaps_text(path.overlaps);
            lemma_steps_text_bytes(path.steps);
            lemma_cigars_text_len(path.overlaps);
            let a = seq![80u8, 9u8] + path.name + seq![9u8];
            assert forall|j: int| 0 <= j < a.len() implies #[trigger] a[j] != 10 by {
                if 2 <= j < 2 + path.name.len() {
                    assert(a[j] == path.name[j - 2]);
                }
            }
            let b = a + st + seq![9u8];
            assert forall|j: int| 0 <= j < b.len() implies #[trigger] b[j] != 10 by {
                if j < a.len() {
                    assert(b[j] == a[j]);
                } else if j < a.len() + st.len() {
                    assert(b[j] == st[j - a.len()]);
                    assert(st[j - a.len()] == 44 || is_step_byte(st[j - a.len()]));
                }
            }
            assert forall|j: int| 0 <= j < t.len() implies #[trigger] t[j] != 10 by {
                if j < b.len() {
                    assert(t[j] == b[j]);
                } else {
                    assert(t[j] == ov[j - b.len()]);
                    assert(ov[j - b.len()] == 44 || is_cigar_byte(ov[j - b.len()]));
                }
            }
        },
    }
}

/// Lines put one after another, each with a line feed after it.
pub open spec fn join_lines(lines: Seq<Seq<u8>>) -> Seq<u8>
    decreases lines.len(),
{
    if lines.len() == 0 {
        Seq::empty()
    } else {
        join_lines(lines.drop_last()) + lines.last() + seq![10u8]
    }
}

/// No piece of a split holds the delimiter.
pub proof fn lemma_split_pieces(s: Seq<u8>, delim: u8, pos: int, k: int)
    requires
        0 <= pos,
        0 <= k < split_from(s, delim, pos).len(),
    ensures
        forall|j: int|
            0 <= j < split_from(s, delim, pos)[k].len() ==> #[trigger] split_from(
                s,
                delim,
                pos,
            )[k][j] != delim,
    decreases s.len() - pos,
{
    if pos < s.len() {
        let end = find_byte(s, delim, pos);
        crate::memfile::lemma_find_byte(s, delim, pos);
        let piece = s.subrange(pos, end);
        if k == 0 {
            assert forall|j: int| 0 <= j < piece.len() implies #[trigger] piece[j] != delim by {
                assert(piece[j] == s[pos + j]);
            }
        } else {
            lemma_split_pieces(s, delim, end + 1, k - 1);
            assert(split_from(s, delim, pos)[k] == split_from(s, delim, end + 1)[k - 1]);
        }
    }
}

/// Where the first part of a string is empty or ends with the delimiter,
/// the pieces of the string are those of the first part and then those of
/// what follows.
pub proof fn lemma_split_closed(a: Seq<u8>, b: Seq<u8>, delim: u8, pos: int)
    requires
        a.len() == 0 || a.last() == delim,
        0 <= pos <= a.len(),
    ensures
        split_from(a + b, delim, pos) == split_from(a, delim, pos) + split_from(
            a + b,
            delim,
            a.len() as int,
        ),
    decreases a.len() - pos,
{
    let s = a + b;
    if pos < a.len() {
        let end = find_byte(a, delim, pos);
        crate::memfile::lemma_find_byte(a, delim, pos);
        assert(end < a.len());
        assert forall|j: int| pos <= j < end implies s[j] != delim by {
            assert(s[j] == a[j]);
        }
        assert(s[end] == a[end]);
        lemma_find_byte_is(s, delim, pos, end);
        assert(s.subrange(pos, end) == a.subrange(pos, end));
        lemma_split_closed(a, b, delim, end + 1);
        let piece = seq![a.subrange(pos, end)];
        assert(piece + (split_from(a, delim, end + 1) + split_from(s, delim, a.len() as int)) == (
        piece + split_from(a, delim, end + 1)) + split_from(s, delim, a.len() as int));
        if end + 1 >= a.len() {
            assert(split_from(a, delim, end + 1) == Seq::<Seq<u8>>::empty());
        }
    } else {
        assert(split_from(a, delim, pos) == Seq::<Seq<u8>>::empty());
        assert(Seq::<Seq<u8>>::empty() + split_from(s, delim, a.len() as int) == split_from(
            s,
            delim,
            a.len() as int,
        ));
    }
}

/// Lines joined are empty or end with a line feed.
pub proof fn lemma_join_closed(lines: Seq<Seq<u8>>)
    ensures
        join_lines(lines).len() == 0 || join_lines(lines).last() == 10,
{
}

/// Lines without line feeds, joined and split again, are what they were.
pub proof fn lemma_split_join(lines: Seq<Seq<u8>>)
    requires
        forall|k: int| 0 <= k < lines.len() ==> no_lf(#[trigger] lines[k]),
    ensures
        split(join_lines(lines), 10) == lines,
    decreases lines.len(),
{
    if lines.len() == 0 {
        assert(lines == Seq::<Seq<u8>>::empty());
    } else {
        let before = lines.drop_last();
        let p = lines.last();
        let a = join_lines(before);
        let b = p + seq![10u8];
        let s = a + b;
        assert(join_lines(lines) == s);
        lemma_split_join(before);
        lemma_join_closed(before);
        lemma_split_closed(a, b, 10, 0);
        let end = (a.len() + p.len()) as int;
        assert(no_lf(p));
        assert forall|j: int| a.len() <= j < end implies s[j] != 10 by {
            assert(s[j] == p[j - a.len()]);
        }
        assert(s[end] == 10);
        lemma_find_byte_is(s, 10, a.len() as int, end);
        assert(s.subrange(a.len() as int, end) == p);
        assert(split_from(s, 10, end + 1) == Seq::<Seq<u8>>::empty());
        assert(split_from(s, 10, a.len() as int) == seq![p] + Seq::<Seq<u8>>::empty());
        assert(before + seq![p] == lines);
    }
}

} // verus!
