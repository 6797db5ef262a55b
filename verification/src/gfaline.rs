//! Reading one line of GFA text.
//!
//! A line is a marker byte, a separator, and then fields divided by
//! separators. A separator is a tab or a space.
//!
//! - `H <text>`: a header; the text runs to the end of the line.
//! - `S <name> <bases> [<optional fields>]`: a segment; the name is a
//!   number, and the optional fields run to the end of the line.
//! - `L <name> <+|-> <name> <+|-> <alignment>`: a link.
//! - `P <name> <steps> <overlaps>`: a path; the steps look like `1+,2-,3+`
//!   and the overlaps are alignments divided by commas. A path without
//!   steps has an empty field for them; a path without overlaps has `*` or
//!   an empty field.
//!
//! An alignment is written as runs such as `4M2D`: a number of bases and
//! the letter of an operation, `M`, `N`, `D` or `I`. An alignment without
//! runs is written as `*` or as nothing.

use crate::flatgfa::{alignments_view, AlignOp, AlignOpcode, Orientation};
use crate::gaf::{digits_end, int_of_digits, lemma_digits_end, parse_int, parse_int_all, whole_int};
use crate::memfile::{find, find_byte, lemma_find_byte};
use vstd::prelude::*;
use vstd::slice::{slice_subrange, slice_to_vec};

verus! {

/// A segment line.
#[derive(Debug, PartialEq, Eq)]
pub struct Segment {
    pub name: usize,
    pub seq: Vec<u8>,
    pub data: Vec<u8>,
}

/// A link line. The segments are given by name.
#[derive(Debug, PartialEq, Eq)]
pub struct Link {
    pub from_seg: usize,
    pub from_orient: Orientation,
    pub to_seg: usize,
    pub to_orient: Orientation,
    pub overlap: Vec<AlignOp>,
}

/// A path line. The segments of the steps are given by name.
#[derive(Debug, PartialEq, Eq)]
pub struct Path {
    pub name: Vec<u8>,
    pub steps: Vec<(usize, Orientation)>,
    pub overlaps: Vec<Vec<AlignOp>>,
}

/// A line of GFA text.
#[derive(Debug, PartialEq, Eq)]
pub enum Line {
    Header(Vec<u8>),
    Segment(Segment),
    Link(Link),
    Path(Path),
}

/// What a segment line holds.
pub struct SegmentView {
    pub name: usize,
    pub seq: Seq<u8>,
    pub data: Seq<u8>,
}

/// What a link line holds.
pub struct LinkView {
    pub from_seg: usize,
    pub from_orient: Orientation,
    pub to_seg: usize,
    pub to_orient: Orientation,
    pub overlap: Seq<AlignOp>,
}

/// What a path line holds.
pub struct PathView {
    pub name: Seq<u8>,
    pub steps: Seq<(usize, Orientation)>,
    pub overlaps: Seq<Seq<AlignOp>>,
}

/// What a line holds.
pub enum LineView {
    Header(Seq<u8>),
    Segment(SegmentView),
    Link(LinkView),
    Path(PathView),
}

impl View for Segment {
    type V = SegmentView;

    open spec fn view(&self) -> SegmentView {
        SegmentView { name: self.name, seq: self.seq@, data: self.data@ }
    }
}

impl View for Link {
    type V = LinkView;

    open spec fn view(&self) -> LinkView {
        LinkView {
            from_seg: self.from_seg,
            from_orient: self.from_orient,
            to_seg: self.to_seg,
            to_orient: self.to_orient,
            overlap: self.overlap@,
        }
    }
}

impl View for Path {
    type V = PathView;

    open spec fn view(&self) -> PathView {
        PathView {
            name: self.name@,
            steps: self.steps@,
            overlaps: alignments_view(self.overlaps@),
        }
    }
}

impl View for Line {
    type V = LineView;

    open spec fn view(&self) -> LineView {
        match self {
            Line::Header(text) => LineView::Header(text@),
            Line::Segment(seg) => LineView::Segment(seg@),
            Line::Link(link) => LineView::Link(link@),
            Line::Path(path) => LineView::Path(path@),
        }
    }
}

/// Whether a byte divides fields: a tab or a space.
pub open spec fn is_sep(byte: u8) -> bool {
    byte == 9 || byte == 32
}

/// The index of the first separator in `s` at or after `from`, or the
/// length of `s` if there is none.
pub open spec fn find_sep(s: Seq<u8>, from: int) -> int
    decreases s.len() - from,
{
    if from < 0 || from >= s.len() {
        s.len() as int
    } else if is_sep(s[from]) {
        from
    } else {
        find_sep(s, from + 1)
    }
}

/// What `find_sep` finds: the first separator at or after `from`.
pub proof fn lemma_find_sep(s: Seq<u8>, from: int)
    requires
        0 <= from <= s.len(),
    ensures
        from <= find_sep(s, from) <= s.len(),
        find_sep(s, from) < s.len() ==> is_sep(s[find_sep(s, from)]),
        forall|j: int| from <= j < find_sep(s, from) ==> !is_sep(#[trigger] s[j]),
    decreases s.len() - from,
{
    if from < s.len() && !is_sep(s[from]) {
        lemma_find_sep(s, from + 1);
    }
}

/// The first separator at or after `from` is at `end`, where no byte before
/// `end` is a separator and the one at `end`, if there is one, is.
pub proof fn lemma_find_sep_is(s: Seq<u8>, from: int, end: int)
    requires
        0 <= from <= end <= s.len(),
        forall|j: int| from <= j < end ==> !is_sep(#[trigger] s[j]),
        end < s.len() ==> is_sep(s[end]),
    ensures
        find_sep(s, from) == end,
    decreases end - from,
{
    if from < end {
        lemma_find_sep_is(s, from + 1, end);
    }
}

/// The orientation that a byte stands for: `+` forwards, `-` backwards.
pub open spec fn orient_of_byte(byte: u8) -> Option<Orientation> {
    if byte == 43 {
        Some(Orientation::Forward)
    } else if byte == 45 {
        Some(Orientation::Backward)
    } else {
        None
    }
}

/// The orientation that a field stands for.
pub open spec fn orient_of(field: Seq<u8>) -> Option<Orientation> {
    if field.len() == 1 {
        orient_of_byte(field[0])
    } else {
        None
    }
}

/// The operation that a letter stands for.
pub open spec fn opcode_of(byte: u8) -> Option<AlignOpcode> {
    if byte == 77 {
        Some(AlignOpcode::Match)
    } else if byte == 78 {
        Some(AlignOpcode::Gap)
    } else if byte == 68 {
        Some(AlignOpcode::Insertion)
    } else if byte == 73 {
        Some(AlignOpcode::Deletion)
    } else {
        None
    }
}

/// The alignment operation written at `pos`: a number that fits 32 bits,
/// then a letter. With it comes the index just past the letter.
pub open spec fn op_at(s: Seq<u8>, pos: int) -> Option<(AlignOp, int)> {
    let end = digits_end(s, pos);
    match int_of_digits(s, pos, end) {
        None => None,
        Some(len) => if len > u32::MAX || end >= s.len() {
            None
        } else {
            match opcode_of(s[end]) {
                None => None,
                Some(op) => Some((AlignOp { op, len: len as u32 }, end + 1)),
            }
        },
    }
}

/// The operations written from `pos` to the end of `s`, one after another.
pub open spec fn ops_from(s: Seq<u8>, pos: int) -> Option<Seq<AlignOp>>
    decreases s.len() - pos,
    via ops_from_decreases
{
    if pos < 0 || pos >= s.len() {
        Some(Seq::empty())
    } else {
        match op_at(s, pos) {
            None => None,
            Some(found) => match ops_from(s, found.1) {
                None => None,
                Some(rest) => Some(seq![found.0] + rest),
            },
        }
    }
}

#[via_fn]
proof fn ops_from_decreases(s: Seq<u8>, pos: int) {
    if 0 <= pos < s.len() {
        lemma_digits_end(s, pos);
    }
}

/// The alignment that a field stands for: `*` is the empty one.
pub open spec fn cigar_of(field: Seq<u8>) -> Option<Seq<AlignOp>> {
    if field.len() == 1 && field[0] == 42 {
        Some(Seq::empty())
    } else {
        ops_from(field, 0)
    }
}

/// The alignments written from `pos` to the end of `s`, divided by commas.
pub open spec fn cigars_from(s: Seq<u8>, pos: int) -> Option<Seq<Seq<AlignOp>>>
    decreases s.len() - pos,
    via cigars_from_decreases
{
    if pos < 0 || pos > s.len() {
        None
    } else {
        let end = find_byte(s, 44, pos);
        match cigar_of(s.subrange(pos, end)) {
            None => None,
            Some(cigar) => if end >= s.len() {
                Some(seq![cigar])
            } else {
                match cigars_from(s, end + 1) {
                    None => None,
                    Some(rest) => Some(seq![cigar] + rest),
                }
            },
        }
    }
}

#[via_fn]
proof fn cigars_from_decreases(s: Seq<u8>, pos: int) {
    if 0 <= pos <= s.len() {
        lemma_find_byte(s, 44, pos);
    }
}

/// The overlaps that a field of a path line stands for: none where the
/// field is `*` or empty, else a list of alignments divided by commas.
pub open spec fn overlaps_of(field: Seq<u8>) -> Option<Seq<Seq<AlignOp>>> {
    if field.len() == 0 || (field.len() == 1 && field[0] == 42) {
        Some(Seq::empty())
    } else {
        cigars_from(field, 0)
    }
}

/// The step that a piece of a step list stands for: a name and then an
/// orientation.
pub open spec fn step_of(piece: Seq<u8>) -> Option<(usize, Orientation)> {
    if piece.len() == 0 {
        None
    } else {
        match (whole_int(piece.drop_last()), orient_of_byte(piece.last())) {
            (Some(name), Some(orient)) => Some((name, orient)),
            _ => None,
        }
    }
}

/// The steps written from `pos` to the end of `s`, divided by commas.
pub open spec fn steps_from(s: Seq<u8>, pos: int) -> Option<Seq<(usize, Orientation)>>
    decreases s.len() - pos,
    via steps_from_decreases
{
    if pos < 0 || pos > s.len() {
        None
    } else {
        let end = find_byte(s, 44, pos);
        match step_of(s.subrange(pos, end)) {
            None => None,
            Some(step) => if end >= s.len() {
                Some(seq![step])
            } else {
                match steps_from(s, end + 1) {
                    None => None,
                    Some(rest) => Some(seq![step] + rest),
                }
            },
        }
    }
}

#[via_fn]
proof fn steps_from_decreases(s: Seq<u8>, pos: int) {
    if 0 <= pos <= s.len() {
        lemma_find_byte(s, 44, pos);
    }
}

/// The steps that a field of a path line stands for: none where the field
/// is empty.
pub open spec fn steps_of(field: Seq<u8>) -> Option<Seq<(usize, Orientation)>> {
    if field.len() == 0 {
        Some(Seq::empty())
    } else {
        steps_from(field, 0)
    }
}

/// The segment that the rest of an `S` line stands for.
pub open spec fn segment_of(rest: Seq<u8>) -> Option<SegmentView> {
    let e1 = find_sep(rest, 0);
    if e1 >= rest.len() {
        None
    } else {
        match whole_int(rest.subrange(0, e1)) {
            None => None,
            Some(name) => {
                let e2 = find_sep(rest, e1 + 1);
                Some(
                    SegmentView {
                        name,
                        seq: rest.subrange(e1 + 1, e2),
                        data: if e2 < rest.len() {
                            rest.subrange(e2 + 1, rest.len() as int)
                        } else {
                            Seq::empty()
                        },
                    },
                )
            },
        }
    }
}

/// The link that the rest of an `L` line stands for.
pub open spec fn link_of(rest: Seq<u8>) -> Option<LinkView> {
    let e1 = find_sep(rest, 0);
    let e2 = find_sep(rest, e1 + 1);
    let e3 = find_sep(rest, e2 + 1);
    let e4 = find_sep(rest, e3 + 1);
    if e1 >= rest.len() || e2 >= rest.len() || e3 >= rest.len() || e4 >= rest.len() {
        None
    } else {
        match (
            whole_int(rest.subrange(0, e1)),
            orient_of(rest.subrange(e1 + 1, e2)),
            whole_int(rest.subrange(e2 + 1, e3)),
            orient_of(rest.subrange(e3 + 1, e4)),
            cigar_of(rest.subrange(e4 + 1, rest.len() as int)),
        ) {
            (Some(from_seg), Some(from_orient), Some(to_seg), Some(to_orient), Some(overlap)) => Some(
                LinkView { from_seg, from_orient, to_seg, to_orient, overlap },
            ),
            _ => None,
        }
    }
}

/// The path that the rest of a `P` line stands for.
pub open spec fn path_of(rest: Seq<u8>) -> Option<PathView> {
    let e1 = find_sep(rest, 0);
    let e2 = find_sep(rest, e1 + 1);
    if e1 >= rest.len() || e2 >= rest.len() {
        None
    } else {
        match (
            steps_of(rest.subrange(e1 + 1, e2)),
            overlaps_of(rest.subrange(e2 + 1, rest.len() as int)),
        ) {
            (Some(steps), Some(overlaps)) => Some(
                PathView { name: rest.subrange(0, e1), steps, overlaps },
            ),
            _ => None,
        }
    }
}

/// What a line of GFA text stands for, if it is well formed.
pub open spec fn line_of(line: Seq<u8>) -> Option<LineView> {
    if line.len() < 2 || !is_sep(line[1]) {
        None
    } else {
        let rest = line.subrange(2, line.len() as int);
        if line[0] == 72 {
            Some(LineView::Header(rest))
        } else if line[0] == 83 {
            match segment_of(rest) {
                Some(seg) => Some(LineView::Segment(seg)),
                None => None,
            }
        } else if line[0] == 76 {
            match link_of(rest) {
                Some(link) => Some(LineView::Link(link)),
                None => None,
            }
        } else if line[0] == 80 {
            match path_of(rest) {
                Some(path) => Some(LineView::Path(path)),
                None => None,
            }
        } else {
            None
        }
    }
}

/// The index of the first separator in `s` at or after `from`, or the
/// length of `s` if there is none.
pub fn field_end(s: &[u8], from: usize) -> (at: usize)
    requires
        from <= s@.len(),
    ensures
        at == find_sep(s@, from as int),
        from <= at <= s@.len(),
{
    let mut i: usize = from;
    while i < s.len() && s[i] != 9 && s[i] != 32
        invariant
            from <= i <= s@.len(),
            find_sep(s@, from as int) == find_sep(s@, i as int),
        decreases s@.len() - i,
    {
        i += 1;
    }
    i
}

/// Read an orientation: `+` or `-`.
pub fn parse_orient(field: &[u8]) -> (orient: Option<Orientation>)
    ensures
        orient == orient_of(field@),
{
    if field.len() != 1 {
        None
    } else {
        orient_byte(field[0])
    }
}

/// The orientation that a byte stands for.
pub fn orient_byte(byte: u8) -> (orient: Option<Orientation>)
    ensures
        orient == orient_of_byte(byte),
{
    if byte == 43 {
        Some(Orientation::Forward)
    } else if byte == 45 {
        Some(Orientation::Backward)
    } else {
        None
    }
}

/// Read one operation of an alignment, such as `4D`, at `pos`, and say
/// where the next one starts.
pub fn parse_align_op(s: &[u8], pos: usize) -> (found: Option<(AlignOp, usize)>)
    requires
        pos <= s@.len(),
    ensures
        match found {
            Some(f) => op_at(s@, pos as int) == Some((f.0, f.1 as int)) && pos < f.1 <= s@.len(),
            None => op_at(s@, pos as int) is None,
        },
{
    let mut index: usize = pos;
    let len = match parse_int(s, &mut index) {
        Some(len) => len,
        None => {
            return None;
        },
    };
    if len > 0xffff_ffff || index >= s.len() {
        return None;
    }
    let byte = s[index];
    let op = if byte == 77 {
        AlignOpcode::Match
    } else if byte == 78 {
        AlignOpcode::Gap
    } else if byte == 68 {
        AlignOpcode::Insertion
    } else if byte == 73 {
        AlignOpcode::Deletion
    } else {
        return None;
    };
    Some((AlignOp { op, len: len as u32 }, index + 1))
}

/// What comes of putting the items found so far before those still to be
/// found, where the latter may fail.
pub open spec fn with_found<T>(found: Seq<T>, rest: Option<Seq<T>>) -> Option<Seq<T>> {
    match rest {
        Some(r) => Some(found + r),
        None => None,
    }
}

/// Read an alignment written as runs, such as `3M2I`.
pub fn parse_align(field: &[u8]) -> (ops: Option<Vec<AlignOp>>)
    ensures
        match ops {
            Some(v) => ops_from(field@, 0) == Some(v@),
            None => ops_from(field@, 0) is None,
        },
{
    let mut align: Vec<AlignOp> = Vec::new();
    let mut pos: usize = 0;
    while pos < field.len()
        invariant
            pos <= field@.len(),
            ops_from(field@, 0) == with_found(align@, ops_from(field@, pos as int)),
        decreases field@.len() - pos,
    {
        match parse_align_op(field, pos) {
            Some((op, next)) => {
                proof {
                    let rest = ops_from(field@, next as int);
                    if rest is Some {
                        assert(align@.push(op) + rest.unwrap() == align@ + (seq![op]
                            + rest.unwrap()));
                    }
                }
                align.push(op);
                pos = next;
            },
            None => {
                return None;
            },
        }
    }
    proof {
        assert(align@ + Seq::<AlignOp>::empty() == align@);
    }
    Some(align)
}

/// Read an alignment: runs such as `3M2I`, or `*` for the empty one.
pub fn parse_cigar(field: &[u8]) -> (ops: Option<Vec<AlignOp>>)
    ensures
        match ops {
            Some(v) => cigar_of(field@) == Some(v@),
            None => cigar_of(field@) is None,
        },
{
    if field.len() == 1 && field[0] == 42 {
        Some(Vec::new())
    } else {
        parse_align(field)
    }
}

/// Read the overlaps of a path: `*` or nothing where there are none, else
/// alignments divided by commas.
pub fn parse_overlap_list(field: &[u8]) -> (overlaps: Option<Vec<Vec<AlignOp>>>)
    ensures
        match overlaps {
            Some(v) => overlaps_of(field@) == Some(alignments_view(v@)),
            None => overlaps_of(field@) is None,
        },
{
    let mut overlaps: Vec<Vec<AlignOp>> = Vec::new();
    if field.len() == 0 || (field.len() == 1 && field[0] == 42) {
        proof {
            assert(alignments_view(overlaps@) == Seq::<Seq<AlignOp>>::empty());
        }
        return Some(overlaps);
    }
    let mut pos: usize = 0;
    proof {
        assert(alignments_view(overlaps@) == Seq::<Seq<AlignOp>>::empty());
        if let Some(all) = cigars_from(field@, 0) {
            assert(alignments_view(overlaps@) + all == all);
        }
    }
    loop
        invariant
            pos <= field@.len(),
            overlaps_of(field@) == cigars_from(field@, 0),
            cigars_from(field@, 0) == with_found(
                alignments_view(overlaps@),
                cigars_from(field@, pos as int),
            ),
        decreases field@.len() - pos,
    {
        let end = find(field, 44, pos);
        let cigar = match parse_cigar(slice_subrange(field, pos, end)) {
            Some(cigar) => cigar,
            None => {
                return None;
            },
        };
        let ghost before = alignments_view(overlaps@);
        overlaps.push(cigar);
        proof {
            assert(alignments_view(overlaps@) == before.push(cigar@));
            let rest = cigars_from(field@, end + 1);
            if end < field@.len() && rest is Some {
                assert(before.push(cigar@) + rest.unwrap() == before + (seq![cigar@]
                    + rest.unwrap()));
            }
            assert(before + seq![cigar@] == before.push(cigar@));
        }
        if end >= field.len() {
            return Some(overlaps);
        }
        pos = end + 1;
    }
}

/// Read one step of a path: a name and then `+` or `-`.
pub fn parse_step(piece: &[u8]) -> (step: Option<(usize, Orientation)>)
    ensures
        step == step_of(piece@),
{
    if piece.len() == 0 {
        return None;
    }
    let last = piece.len() - 1;
    proof {
        assert(piece@.subrange(0, last as int) == piece@.drop_last());
    }
    let name = parse_int_all(slice_subrange(piece, 0, last));
    let orient = orient_byte(piece[last]);
    match (name, orient) {
        (Some(name), Some(orient)) => Some((name, orient)),
        _ => None,
    }
}

/// Read the steps of a path, which look like `1+,2-,3+`.
pub fn parse_steps(field: &[u8]) -> (steps: Option<Vec<(usize, Orientation)>>)
    ensures
        match steps {
            Some(v) => steps_of(field@) == Some(v@),
            None => steps_of(field@) is None,
        },
{
    let mut steps: Vec<(usize, Orientation)> = Vec::new();
    if field.len() == 0 {
        return Some(steps);
    }
    let mut pos: usize = 0;
    proof {
        if let Some(all) = steps_from(field@, 0) {
            assert(steps@ + all == all);
        }
    }
    loop
        invariant
            pos <= field@.len(),
            steps_of(field@) == steps_from(field@, 0),
            steps_from(field@, 0) == with_found(steps@, steps_from(field@, pos as int)),
        decreases field@.len() - pos,
    {
        let end = find(field, 44, pos);
        let step = match parse_step(slice_subrange(field, pos, end)) {
            Some(step) => step,
            None => {
                return None;
            },
        };
        proof {
            let rest = steps_from(field@, end + 1);
            if end < field@.len() && rest is Some {
                assert(steps@.push(step) + rest.unwrap() == steps@ + (seq![step] + rest.unwrap()));
            }
            assert(steps@ + seq![step] == steps@.push(step));
        }
        steps.push(step);
        if end >= field.len() {
            return Some(steps);
        }
        pos = end + 1;
    }
}

/// Read a segment line, after its marker: `<name> <bases> <data>`.
pub fn parse_seg(rest: &[u8]) -> (seg: Option<Segment>)
    ensures
        match seg {
            Some(s) => segment_of(rest@) == Some(s@),
            None => segment_of(rest@) is None,
        },
{
    let e1 = field_end(rest, 0);
    if e1 >= rest.len() {
        return None;
    }
    let name = match parse_int_all(slice_subrange(rest, 0, e1)) {
        Some(name) => name,
        None => {
            return None;
        },
    };
    let e2 = field_end(rest, e1 + 1);
    let seq = slice_to_vec(slice_subrange(rest, e1 + 1, e2));
    let data = if e2 < rest.len() {
        slice_to_vec(slice_subrange(rest, e2 + 1, rest.len()))
    } else {
        Vec::new()
    };
    Some(Segment { name, seq, data })
}

/// Read a link line, after its marker:
/// `<name> <+|-> <name> <+|-> <alignment>`.
pub fn parse_link(rest: &[u8]) -> (link: Option<Link>)
    ensures
        match link {
            Some(l) => link_of(rest@) == Some(l@),
            None => link_of(rest@) is None,
        },
{
    let e1 = field_end(rest, 0);
    if e1 >= rest.len() {
        return None;
    }
    let e2 = field_end(rest, e1 + 1);
    if e2 >= rest.len() {
        return None;
    }
    let e3 = field_end(rest, e2 + 1);
    if e3 >= rest.len() {
        return None;
    }
    let e4 = field_end(rest, e3 + 1);
    if e4 >= rest.len() {
        return None;
    }
    let from_seg = parse_int_all(slice_subrange(rest, 0, e1));
    let from_orient = parse_orient(slice_subrange(rest, e1 + 1, e2));
    let to_seg = parse_int_all(slice_subrange(rest, e2 + 1, e3));
    let to_orient = parse_orient(slice_subrange(rest, e3 + 1, e4));
    let overlap = parse_cigar(slice_subrange(rest, e4 + 1, rest.len()));
    match (from_seg, from_orient, to_seg, to_orient, overlap) {
        (Some(from_seg), Some(from_orient), Some(to_seg), Some(to_orient), Some(overlap)) => Some(
            Link { from_seg, from_orient, to_seg, to_orient, overlap },
        ),
        _ => None,
    }
}

/// Read a path line, after its marker: `<name> <steps> <overlaps>`.
pub fn parse_path(rest: &[u8]) -> (path: Option<Path>)
    ensures
        match path {
            Some(p) => path_of(rest@) == Some(p@),
            None => path_of(rest@) is None,
        },
{
    let e1 = field_end(rest, 0);
    if e1 >= rest.len() {
        return None;
    }
    let e2 = field_end(rest, e1 + 1);
    if e2 >= rest.len() {
        return None;
    }
    let steps = parse_steps(slice_subrange(rest, e1 + 1, e2));
    let overlaps = parse_overlap_list(slice_subrange(rest, e2 + 1, rest.len()));
    match (steps, overlaps) {
        (Some(steps), Some(overlaps)) => Some(
            Path { name: slice_to_vec(slice_subrange(rest, 0, e1)), steps, overlaps },
        ),
        _ => None,
    }
}

/// Read one line of GFA text. There is no line where the text is not well
/// formed.
pub fn parse_line(line: &[u8]) -> (parsed: Option<Line>)
    ensures
        match parsed {
            Some(l) => line_of(line@) == Some(l@),
            None => line_of(line@) is None,
        },
{
    if line.len() < 2 || (line[1] != 9 && line[1] != 32) {
        return None;
    }
    let rest = slice_subrange(line, 2, line.len());
    let marker = line[0];
    if marker == 72 {
        Some(Line::Header(slice_to_vec(rest)))
    } else if marker == 83 {
        match parse_seg(rest) {
            Some(seg) => Some(Line::Segment(seg)),
            None => None,
        }
    } else if marker == 76 {
        match parse_link(rest) {
            Some(link) => Some(Line::Link(link)),
            None => None,
        }
    } else if marker == 80 {
        match parse_path(rest) {
            Some(path) => Some(Line::Path(path)),
            None => None,
        }
    } else {
        None
    }
}

} // verus!
