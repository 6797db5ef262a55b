//! Writing a graph as GFA text.
//!
//! The lines come out in the order in which they were read: the log of line
//! kinds says of which kind the next line is, and the next record of that
//! kind is taken from its pool. Fields are divided by tabs, lines end with a
//! line feed.

use crate::flatgfa::{AlignOp, AlignOpcode, GraphView, Handle, LineKind, Orientation};
use crate::gfaline::{LineView, LinkView, PathView, SegmentView};
use crate::pool::{range_ok, range_within};
use crate::store::FlatView;
use std::ops::Range;
use vstd::prelude::*;
use vstd::slice::slice_subrange;

verus! {

/// The decimal digits of a number, most significant first.
pub open spec fn decimal_digits(n: nat) -> Seq<u8>
    decreases n,
{
    if n < 10 {
        seq![(48 + n) as u8]
    } else {
        decimal_digits(n / 10).push((48 + n % 10) as u8)
    }
}

/// The byte that an orientation is written as.
pub open spec fn orient_text(orient: Orientation) -> u8 {
    match orient {
        Orientation::Forward => 43,
        Orientation::Backward => 45,
    }
}

/// The letter that an operation is written as.
pub open spec fn opcode_text(op: AlignOpcode) -> u8 {
    match op {
        AlignOpcode::Match => 77,
        AlignOpcode::Gap => 78,
        AlignOpcode::Insertion => 68,
        AlignOpcode::Deletion => 73,
    }
}

/// One run of an alignment as text: its length and its letter.
pub open spec fn op_text(op: AlignOp) -> Seq<u8> {
    decimal_digits(op.len as nat).push(opcode_text(op.op))
}

/// The runs of an alignment as text, one after another.
pub open spec fn ops_text(ops: Seq<AlignOp>) -> Seq<u8>
    decreases ops.len(),
{
    if ops.len() == 0 {
        Seq::empty()
    } else {
        op_text(ops[0]) + ops_text(ops.skip(1))
    }
}

/// An alignment as text: `*` where it is empty.
pub open spec fn cigar_text(ops: Seq<AlignOp>) -> Seq<u8> {
    if ops.len() == 0 {
        seq![42u8]
    } else {
        ops_text(ops)
    }
}

/// Alignments as text, divided by commas.
pub open spec fn cigars_text(overlaps: Seq<Seq<AlignOp>>) -> Seq<u8>
    decreases overlaps.len(),
{
    if overlaps.len() == 0 {
        Seq::empty()
    } else if overlaps.len() == 1 {
        cigar_text(overlaps[0])
    } else {
        cigar_text(overlaps[0]) + seq![44u8] + cigars_text(overlaps.skip(1))
    }
}

/// The overlaps of a path as text: `*` where there are none.
pub open spec fn overlaps_text(overlaps: Seq<Seq<AlignOp>>) -> Seq<u8> {
    if overlaps.len() == 0 {
        seq![42u8]
    } else {
        cigars_text(overlaps)
    }
}

/// One step as text: the name of the segment and the orientation.
pub open spec fn step_text(step: (usize, Orientation)) -> Seq<u8> {
    decimal_digits(step.0 as nat).push(orient_text(step.1))
}

/// Steps as text, divided by commas.
pub open spec fn steps_text(steps: Seq<(usize, Orientation)>) -> Seq<u8>
    decreases steps.len(),
{
    if steps.len() == 0 {
        Seq::empty()
    } else if steps.len() == 1 {
        step_text(steps[0])
    } else {
        step_text(steps[0]) + seq![44u8] + steps_text(steps.skip(1))
    }
}

/// A segment line as text. The optional fields and the tab before them are
/// left out where there are none.
pub open spec fn segment_text(seg: SegmentView) -> Seq<u8> {
    seq![83u8, 9u8] + decimal_digits(seg.name as nat) + seq![9u8] + seg.seq + if seg.data.len()
        == 0 {
        Seq::empty()
    } else {
        seq![9u8] + seg.data
    }
}

/// The fields of a link line as text, divided by tabs.
pub open spec fn link_fields(link: LinkView) -> Seq<u8> {
    decimal_digits(link.from_seg as nat) + seq![9u8, orient_text(link.from_orient), 9u8]
        + decimal_digits(link.to_seg as nat) + seq![9u8, orient_text(link.to_orient), 9u8]
        + cigar_text(link.overlap)
}

/// A link line as text.
pub open spec fn link_text(link: LinkView) -> Seq<u8> {
    seq![76u8, 9u8] + link_fields(link)
}

/// A path line as text.
pub open spec fn path_text(path: PathView) -> Seq<u8> {
    seq![80u8, 9u8] + path.name + seq![9u8] + steps_text(path.steps) + seq![9u8] + overlaps_text(
        path.overlaps,
    )
}

/// A line as text, without the line feed.
pub open spec fn line_text(line: LineView) -> Seq<u8> {
    match line {
        LineView::Header(text) => seq![72u8, 9u8] + text,
        LineView::Segment(seg) => segment_text(seg),
        LineView::Link(link) => link_text(link),
        LineView::Path(path) => path_text(path),
    }
}

/// How many of the kinds in a log are the given one.
pub open spec fn count_kind(order: Seq<LineKind>, kind: LineKind) -> nat
    decreases order.len(),
{
    if order.len() == 0 {
        0
    } else {
        count_kind(order.drop_last(), kind) + if order.last() == kind {
            1nat
        } else {
            0nat
        }
    }
}

/// The names and orientations of a run of steps, where every step is on a
/// segment of the graph.
pub open spec fn steps_named(g: GraphView, handles: Seq<Handle>) -> Option<
    Seq<(usize, Orientation)>,
> {
    if forall|i: int| 0 <= i < handles.len() ==> (#[trigger] handles[i]).segment < g.segs.len() {
        Some(
            Seq::new(
                handles.len(),
                |i: int| (g.segs[handles[i].segment as int].name, handles[i].orient),
            ),
        )
    } else {
        None
    }
}

/// The alignments that a run of overlap descriptors stands for, where every
/// descriptor lies inside the pool of operations.
pub open spec fn overlaps_read(g: GraphView, descriptors: Seq<Range<usize>>) -> Option<
    Seq<Seq<AlignOp>>,
> {
    if forall|i: int|
        0 <= i < descriptors.len() ==> range_within(#[trigger] descriptors[i], g.alignment.len()) {
        Some(Seq::new(descriptors.len(), |i: int| g.alignment_of(descriptors[i])))
    } else {
        None
    }
}

/// The segment line that the segment with index `i` came from, where the
/// graph has that segment and its ranges lie inside their pools.
pub open spec fn segment_line(g: GraphView, i: int) -> Option<SegmentView> {
    if 0 <= i < g.segs.len() && range_within(g.segs[i].seq, g.seqdata.len()) && range_within(
        g.segs[i].optional,
        g.optional_data.len(),
    ) {
        Some(
            SegmentView {
                name: g.segs[i].name,
                seq: g.seq_of(g.segs[i]),
                data: g.optional_of(g.segs[i]),
            },
        )
    } else {
        None
    }
}

/// The link line that the link with index `i` came from, where the graph
/// has that link, both its segments, and its alignment.
pub open spec fn link_line(g: GraphView, i: int) -> Option<LinkView> {
    if 0 <= i < g.links.len() && g.links[i].from.segment < g.segs.len() && g.links[i].to.segment
        < g.segs.len() && range_within(g.links[i].overlap, g.alignment.len()) {
        Some(
            LinkView {
                from_seg: g.segs[g.links[i].from.segment as int].name,
                from_orient: g.links[i].from.orient,
                to_seg: g.segs[g.links[i].to.segment as int].name,
                to_orient: g.links[i].to.orient,
                overlap: g.alignment_of(g.links[i].overlap),
            },
        )
    } else {
        None
    }
}

/// The path line that the path with index `i` came from, where the graph
/// has that path and all that it refers to.
pub open spec fn path_line(g: GraphView, i: int) -> Option<PathView> {
    if 0 <= i < g.paths.len() && range_within(g.paths[i].name, g.namedata.len()) && range_within(
        g.paths[i].steps,
        g.steps.len(),
    ) && range_within(g.paths[i].overlaps, g.overlaps.len()) {
        match (
            steps_named(g, g.steps_of(g.paths[i])),
            overlaps_read(g, g.overlaps_of(g.paths[i])),
        ) {
            (Some(steps), Some(overlaps)) => Some(
                PathView { name: g.path_name_of(g.paths[i]), steps, overlaps },
            ),
            _ => None,
        }
    } else {
        None
    }
}

/// The line with index `k` of the text that the graph came from: the log
/// gives its kind, and it is the next record of that kind after those of
/// the lines before it.
pub open spec fn line_at(g: GraphView, k: int) -> Option<LineView> {
    let kind = g.line_order[k];
    let nth = count_kind(g.line_order.take(k), kind) as int;
    match kind {
        LineKind::Header => match g.header {
            Some(text) => Some(LineView::Header(text)),
            None => None,
        },
        LineKind::Segment => match segment_line(g, nth) {
            Some(seg) => Some(LineView::Segment(seg)),
            None => None,
        },
        LineKind::Link => match link_line(g, nth) {
            Some(link) => Some(LineView::Link(link)),
            None => None,
        },
        LineKind::Path => match path_line(g, nth) {
            Some(path) => Some(LineView::Path(path)),
            None => None,
        },
    }
}

/// The first `n` lines of the graph as text, each with its line feed. There
/// is no text where one of them has no record to be written from.
pub open spec fn text_upto(g: GraphView, n: int) -> Option<Seq<u8>>
    decreases n,
{
    if n <= 0 {
        Some(Seq::empty())
    } else {
        match (text_upto(g, n - 1), line_at(g, n - 1)) {
            (Some(before), Some(line)) => Some(before + line_text(line) + seq![10u8]),
            _ => None,
        }
    }
}

/// The graph as text.
pub open spec fn text_of(g: GraphView) -> Option<Seq<u8>> {
    text_upto(g, g.line_order.len() as int)
}

/// Where the first lines of a graph have no text, the graph has none.
pub proof fn lemma_text_upto_none(g: GraphView, n: int, m: int)
    requires
        0 <= n <= m,
        text_upto(g, n) is None,
    ensures
        text_upto(g, m) is None,
    decreases m - n,
{
    if n < m {
        lemma_text_upto_none(g, n, m - 1);
    }
}

/// Write a number in decimal.
pub fn push_decimal(out: &mut Vec<u8>, n: usize)
    ensures
        final(out)@ == old(out)@ + decimal_digits(n as nat),
    decreases n,
{
    if n >= 10 {
        push_decimal(out, n / 10);
    }
    out.push(48 + (n % 10) as u8);
}

/// Write a run of bytes.
pub fn push_bytes(out: &mut Vec<u8>, bytes: &[u8])
    ensures
        final(out)@ == old(out)@ + bytes@,
{
    let mut i: usize = 0;
    while i < bytes.len()
        invariant
            i <= bytes@.len(),
            out@ == old(out)@ + bytes@.take(i as int),
        decreases bytes@.len() - i,
    {
        out.push(bytes[i]);
        proof {
            assert(bytes@.take(i + 1) == bytes@.take(i as int).push(bytes@[i as int]));
        }
        i += 1;
    }
    proof {
        assert(bytes@.take(i as int) == bytes@);
    }
}

/// Write an orientation.
pub fn push_orient(out: &mut Vec<u8>, orient: Orientation)
    ensures
        final(out)@ == old(out)@.push(orient_text(orient)),
{
    match orient {
        Orientation::Forward => out.push(43),
        Orientation::Backward => out.push(45),
    }
}

/// Write an alignment: its runs, or `*` where it has none.
pub fn push_cigar(out: &mut Vec<u8>, ops: &[AlignOp])
    ensures
        final(out)@ == old(out)@ + cigar_text(ops@),
{
    if ops.len() == 0 {
        out.push(42);
        return ;
    }
    let mut i: usize = 0;
    proof {
        assert(ops@.skip(0) == ops@);
    }
    while i < ops.len()
        invariant
            i <= ops@.len(),
            out@ + ops_text(ops@.skip(i as int)) == old(out)@ + ops_text(ops@),
        decreases ops@.len() - i,
    {
        let op = ops[i];
        let ghost before = out@;
        push_decimal(out, op.len as usize);
        let letter: u8 = match op.op {
            AlignOpcode::Match => 77,
            AlignOpcode::Gap => 78,
            AlignOpcode::Insertion => 68,
            AlignOpcode::Deletion => 73,
        };
        out.push(letter);
        proof {
            assert(ops@.skip(i as int).skip(1) == ops@.skip(i + 1));
            assert(out@ == before + op_text(op));
            assert(before + op_text(op) + ops_text(ops@.skip(i + 1)) == before + (op_text(op)
                + ops_text(ops@.skip(i + 1))));
        }
        i += 1;
    }
    proof {
        assert(out@ + Seq::<u8>::empty() == out@);
    }
}

/// Write a segment line, if the ranges of the segment lie inside their
/// pools.
pub fn print_seg(gfa: &FlatView, i: usize, out: &mut Vec<u8>) -> (ok: bool)
    ensures
        ok == segment_line(gfa@, i as int) is Some,
        ok ==> final(out)@ == old(out)@ + segment_text(segment_line(gfa@, i as int).unwrap()),
{
    if i >= gfa.segs.len() {
        return false;
    }
    let seg = gfa.segs.get(i);
    if !range_ok(&seg.seq, gfa.seqdata.len()) || !range_ok(
        &seg.optional,
        gfa.optional_data.len(),
    ) {
        return false;
    }
    let ghost start = out@;
    out.push(83);
    out.push(9);
    push_decimal(out, seg.name);
    out.push(9);
    push_bytes(out, slice_subrange(gfa.seqdata, seg.seq.start, seg.seq.end));
    let data = slice_subrange(gfa.optional_data, seg.optional.start, seg.optional.end);
    if data.len() > 0 {
        out.push(9);
        push_bytes(out, data);
    }
    proof {
        let view = segment_line(gfa@, i as int).unwrap();
        let head = start + seq![83u8, 9u8] + decimal_digits(view.name as nat) + seq![9u8]
            + view.seq;
        assert(start.push(83).push(9) == start + seq![83u8, 9u8]);
        if view.data.len() == 0 {
            assert(out@ == head);
            assert(head + Seq::<u8>::empty() == head);
        } else {
            assert(out@ == head.push(9) + view.data);
            assert(head.push(9) + view.data == head + (seq![9u8] + view.data));
        }
        assert(out@ == start + segment_text(view));
    }
    true
}

/// Write a link line, if the graph has both segments of the link and its
/// alignment.
pub fn print_link(gfa: &FlatView, i: usize, out: &mut Vec<u8>) -> (ok: bool)
    ensures
        ok == link_line(gfa@, i as int) is Some,
        ok ==> final(out)@ == old(out)@ + link_text(link_line(gfa@, i as int).unwrap()),
{
    if i >= gfa.links.len() {
        return false;
    }
    let link = gfa.links.get(i);
    if link.from.segment >= gfa.segs.len() || link.to.segment >= gfa.segs.len() || !range_ok(
        &link.overlap,
        gfa.alignment.len(),
    ) {
        return false;
    }
    let ghost start = out@;
    out.push(76);
    out.push(9);
    push_decimal(out, gfa.segs.get(link.from.segment).name);
    out.push(9);
    push_orient(out, link.from.orient);
    out.push(9);
    push_decimal(out, gfa.segs.get(link.to.segment).name);
    out.push(9);
    push_orient(out, link.to.orient);
    out.push(9);
    push_cigar(out, gfa.get_alignment(&link.overlap).as_slice());
    proof {
        let view = link_line(gfa@, i as int).unwrap();
        let a = start + seq![76u8, 9u8] + decimal_digits(view.from_seg as nat);
        assert(start.push(76).push(9) == start + seq![76u8, 9u8]);
        let b = a + seq![9u8, orient_text(view.from_orient), 9u8] + decimal_digits(
            view.to_seg as nat,
        );
        assert(a.push(9).push(orient_text(view.from_orient)).push(9) == a + seq![
            9u8,
            orient_text(view.from_orient),
            9u8,
        ]);
        assert(b.push(9).push(orient_text(view.to_orient)).push(9) == b + seq![
            9u8,
            orient_text(view.to_orient),
            9u8,
        ]);
        assert(out@ == start + link_text(view));
    }
    true
}

/// The names of the handles from index `i` on, as a list of steps.
pub open spec fn names_from(g: GraphView, handles: Seq<Handle>, i: int) -> Seq<
    (usize, Orientation),
> {
    Seq::new(
        (handles.len() - i) as nat,
        |k: int| (g.segs[handles[i + k].segment as int].name, handles[i + k].orient),
    )
}

/// Write the steps of a path, if the graph has the segment of every step.
pub fn push_steps(gfa: &FlatView, handles: &[Handle], out: &mut Vec<u8>) -> (ok: bool)
    ensures
        ok == steps_named(gfa@, handles@) is Some,
        ok ==> final(out)@ == old(out)@ + steps_text(steps_named(gfa@, handles@).unwrap()),
{
    let mut i: usize = 0;
    let ghost g = gfa@;
    proof {
        assert(names_from(g, handles@, 0) == Seq::new(
            handles@.len(),
            |k: int| (g.segs[handles@[k].segment as int].name, handles@[k].orient),
        ));
    }
    while i < handles.len()
        invariant
            g == gfa@,
            i <= handles@.len(),
            forall|k: int| 0 <= k < i ==> (#[trigger] handles@[k]).segment < g.segs.len(),
            out@ + steps_text(names_from(g, handles@, i as int)) == old(out)@ + steps_text(
                names_from(g, handles@, 0),
            ),
        decreases handles@.len() - i,
    {
        let handle = handles[i];
        if handle.segment >= gfa.segs.len() {
            return false;
        }
        let ghost before = out@;
        let ghost step = (g.segs[handle.segment as int].name, handle.orient);
        push_decimal(out, gfa.segs.get(handle.segment).name);
        push_orient(out, handle.orient);
        proof {
            let rest = names_from(g, handles@, i as int);
            assert(rest[0] == step);
            assert(rest.skip(1) == names_from(g, handles@, i + 1));
            assert(out@ == before + step_text(step));
        }
        if i + 1 < handles.len() {
            out.push(44);
            proof {
                let later = steps_text(names_from(g, handles@, i + 1));
                assert(out@ == before + step_text(step) + seq![44u8]);
                assert(before + step_text(step) + seq![44u8] + later == before + (step_text(step)
                    + seq![44u8] + later));
            }
        } else {
            proof {
                assert(steps_text(names_from(g, handles@, i + 1)) == Seq::<u8>::empty());
            }
        }
        i += 1;
    }
    proof {
        assert(out@ + Seq::<u8>::empty() == out@);
    }
    true
}

/// The alignments of the descriptors from index `i` on.
pub open spec fn reads_from(g: GraphView, descriptors: Seq<Range<usize>>, i: int) -> Seq<
    Seq<AlignOp>,
> {
    Seq::new((descriptors.len() - i) as nat, |k: int| g.alignment_of(descriptors[i + k]))
}

/// Write the overlaps of a path, if every one of them lies inside the pool
/// of operations.
pub fn push_overlaps(gfa: &FlatView, descriptors: &[Range<usize>], out: &mut Vec<u8>) -> (ok:
    bool)
    ensures
        ok == overlaps_read(gfa@, descriptors@) is Some,
        ok ==> final(out)@ == old(out)@ + overlaps_text(
            overlaps_read(gfa@, descriptors@).unwrap(),
        ),
{
    let ghost g = gfa@;
    if descriptors.len() == 0 {
        out.push(42);
        return true;
    }
    let mut i: usize = 0;
    proof {
        assert(reads_from(g, descriptors@, 0) == Seq::new(
            descriptors@.len(),
            |k: int| g.alignment_of(descriptors@[k]),
        ));
    }
    while i < descriptors.len()
        invariant
            g == gfa@,
            i <= descriptors@.len(),
            forall|k: int|
                0 <= k < i ==> range_within(#[trigger] descriptors@[k], g.alignment.len()),
            out@ + cigars_text(reads_from(g, descriptors@, i as int)) == old(out)@ + cigars_text(
                reads_from(g, descriptors@, 0),
            ),
        decreases descriptors@.len() - i,
    {
        let descriptor = &descriptors[i];
        if !range_ok(descriptor, gfa.alignment.len()) {
            return false;
        }
        let ghost before = out@;
        let ghost cigar = g.alignment_of(*descriptor);
        push_cigar(out, gfa.get_alignment(descriptor).as_slice());
        proof {
            let rest = reads_from(g, descriptors@, i as int);
            assert(rest[0] == cigar);
            assert(rest.skip(1) == reads_from(g, descriptors@, i + 1));
        }
        if i + 1 < descriptors.len() {
            out.push(44);
            proof {
                let later = cigars_text(reads_from(g, descriptors@, i + 1));
                assert(out@ == before + cigar_text(cigar) + seq![44u8]);
                assert(before + cigar_text(cigar) + seq![44u8] + later == before + (cigar_text(
                    cigar,
                ) + seq![44u8] + later));
            }
        } else {
            proof {
                assert(cigars_text(reads_from(g, descriptors@, i + 1)) == Seq::<u8>::empty());
            }
        }
        i += 1;
    }
    proof {
        assert(out@ + Seq::<u8>::empty() == out@);
    }
    true
}

/// Write a path line, if the graph has all that the path refers to.
pub fn print_path(gfa: &FlatView, i: usize, out: &mut Vec<u8>) -> (ok: bool)
    ensures
        ok == path_line(gfa@, i as int) is Some,
        ok ==> final(out)@ == old(out)@ + path_text(path_line(gfa@, i as int).unwrap()),
{
    if i >= gfa.paths.len() {
        return false;
    }
    let path = gfa.paths.get(i);
    if !range_ok(&path.name, gfa.namedata.len()) || !range_ok(&path.steps, gfa.steps.len())
        || !range_ok(&path.overlaps, gfa.overlaps.len()) {
        return false;
    }
    let ghost start = out@;
    out.push(80);
    out.push(9);
    push_bytes(out, slice_subrange(gfa.namedata, path.name.start, path.name.end));
    out.push(9);
    if !push_steps(gfa, gfa.get_steps(&path).as_slice(), out) {
        return false;
    }
    out.push(9);
    if !push_overlaps(gfa, gfa.get_overlaps(&path).as_slice(), out) {
        return false;
    }
    proof {
        let view = path_line(gfa@, i as int).unwrap();
        let a = start + seq![80u8, 9u8] + view.name;
        assert(start.push(80).push(9) == start + seq![80u8, 9u8]);
        let b = a + seq![9u8] + steps_text(view.steps);
        assert(a.push(9) == a + seq![9u8]);
        assert(b.push(9) == b + seq![9u8]);
        assert(out@ == start + path_text(view));
    }
    true
}

/// Write the graph as GFA text. There is no text where the log of line
/// kinds asks for a record that the graph does not have, or where a record
/// refers to something that the graph does not have.
pub fn print(gfa: &FlatView) -> (text: Option<Vec<u8>>)
    ensures
        match text {
            Some(t) => text_of(gfa@) == Some(t@),
            None => text_of(gfa@) is None,
        },
{
    let mut out: Vec<u8> = Vec::new();
    let mut seg_id: usize = 0;
    let mut path_id: usize = 0;
    let mut link_id: usize = 0;
    let mut k: usize = 0;
    let ghost order = gfa@.line_order;
    let count = gfa.line_order.len();
    while k < count
        invariant
            order == gfa@.line_order,
            count == order.len(),
            k <= order.len(),
            seg_id == count_kind(order.take(k as int), LineKind::Segment),
            path_id == count_kind(order.take(k as int), LineKind::Path),
            link_id == count_kind(order.take(k as int), LineKind::Link),
            seg_id <= k,
            path_id <= k,
            link_id <= k,
            text_upto(gfa@, k as int) == Some(out@),
        decreases order.len() - k,
    {
        proof {
            assert(order.take(k + 1).drop_last() == order.take(k as int));
            assert(order.take(k + 1).last() == order[k as int]);
        }
        let ghost before = out@;
        let ok = match gfa.line_order.get(k) {
            LineKind::Header => match gfa.header {
                Some(text) => {
                    out.push(72);
                    out.push(9);
                    push_bytes(&mut out, text);
                    proof {
                        assert(before.push(72).push(9) + text@ == before + (seq![72u8, 9u8]
                            + text@));
                    }
                    true
                },
                None => false,
            },
            LineKind::Segment => {
                let ok = print_seg(gfa, seg_id, &mut out);
                seg_id += 1;
                ok
            },
            LineKind::Path => {
                let ok = print_path(gfa, path_id, &mut out);
                path_id += 1;
                ok
            },
            LineKind::Link => {
                let ok = print_link(gfa, link_id, &mut out);
                link_id += 1;
                ok
            },
        };
        if !ok {
            proof {
                assert(line_at(gfa@, k as int) is None);
                lemma_text_upto_none(gfa@, k + 1, order.len() as int);
            }
            return None;
        }
        out.push(10);
        proof {
            let line = line_at(gfa@, k as int).unwrap();
            assert(out@ == before + line_text(line) + seq![10u8]);
        }
        k += 1;
    }
    Some(out)
}

} // verus!
