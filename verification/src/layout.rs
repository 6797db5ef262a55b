//! What stays true of a graph while its pools grow.
//!
//! The pools only ever grow at the end. So a record that could be read from
//! the graph before is read as the same after, and a record that has just
//! been added is read as what it was added from.

use crate::flatgfa::{
    concat_ops, lemma_concat_ops_len, lemma_overlap_ranges_within, lemma_total_ops_prefix,
    overlap_ranges, total_ops, AlignOp, GraphView, Handle, Orientation,
};
use crate::gfaline::{LinkView, PathView, SegmentView};
use crate::pool::range_within;
use crate::print::{link_line, overlaps_read, path_line, segment_line, steps_named};
use vstd::prelude::*;

verus! {

/// Every pool of the graph is short enough to be held in memory.
pub open spec fn fits(g: GraphView) -> bool {
    &&& g.segs.len() <= usize::MAX
    &&& g.paths.len() <= usize::MAX
    &&& g.links.len() <= usize::MAX
    &&& g.steps.len() <= usize::MAX
    &&& g.seqdata.len() <= usize::MAX
    &&& g.overlaps.len() <= usize::MAX
    &&& g.alignment.len() <= usize::MAX
    &&& g.namedata.len() <= usize::MAX
    &&& g.optional_data.len() <= usize::MAX
    &&& g.line_order.len() <= usize::MAX
}

/// The graph `h` is the graph `g` with more at the end of its pools.
pub open spec fn grown(g: GraphView, h: GraphView) -> bool {
    &&& g.segs.is_prefix_of(h.segs)
    &&& g.paths.is_prefix_of(h.paths)
    &&& g.links.is_prefix_of(h.links)
    &&& g.steps.is_prefix_of(h.steps)
    &&& g.seqdata.is_prefix_of(h.seqdata)
    &&& g.overlaps.is_prefix_of(h.overlaps)
    &&& g.alignment.is_prefix_of(h.alignment)
    &&& g.namedata.is_prefix_of(h.namedata)
    &&& g.optional_data.is_prefix_of(h.optional_data)
    &&& g.line_order.is_prefix_of(h.line_order)
}

/// A sequence is the start of what it is the start of, with more appended.
pub proof fn lemma_prefix_add<T>(a: Seq<T>, b: Seq<T>)
    ensures
        a.is_prefix_of(a + b),
        a.is_prefix_of(a),
{
    assert((a + b).subrange(0, a.len() as int) == a);
    assert(a.subrange(0, a.len() as int) == a);
}

/// A sequence is the start of itself with one more item.
pub proof fn lemma_prefix_push<T>(a: Seq<T>, x: T)
    ensures
        a.is_prefix_of(a.push(x)),
{
    assert(a.push(x).subrange(0, a.len() as int) == a);
}

/// The start of the start of a sequence is a start of the sequence.
pub proof fn lemma_prefix_trans<T>(a: Seq<T>, b: Seq<T>, c: Seq<T>)
    requires
        a.is_prefix_of(b),
        b.is_prefix_of(c),
    ensures
        a.is_prefix_of(c),
{
    assert(c.subrange(0, a.len() as int) == b.subrange(0, a.len() as int));
}

/// The start of a sequence holds, inside any range that fits it, what the
/// sequence holds there.
pub proof fn lemma_prefix_subrange<T>(a: Seq<T>, b: Seq<T>, from: int, to: int)
    requires
        a.is_prefix_of(b),
        0 <= from <= to <= a.len(),
    ensures
        b.subrange(from, to) == a.subrange(from, to),
        to <= b.len(),
{
    assert(a == b.subrange(0, a.len() as int));
    assert(b.subrange(from, to) == a.subrange(from, to));
}

/// The start of a sequence holds, at any index of its own, what the
/// sequence holds there.
pub proof fn lemma_prefix_index<T>(a: Seq<T>, b: Seq<T>, i: int)
    requires
        a.is_prefix_of(b),
        0 <= i < a.len(),
    ensures
        b[i] == a[i],
        i < b.len(),
{
    assert(a == b.subrange(0, a.len() as int));
    assert(b.subrange(0, a.len() as int)[i] == b[i]);
}

/// A graph has grown into itself.
pub proof fn lemma_grown_same(g: GraphView)
    ensures
        grown(g, g),
{
    lemma_prefix_add(g.segs, Seq::empty());
    lemma_prefix_add(g.paths, Seq::empty());
    lemma_prefix_add(g.links, Seq::empty());
    lemma_prefix_add(g.steps, Seq::empty());
    lemma_prefix_add(g.seqdata, Seq::empty());
    lemma_prefix_add(g.overlaps, Seq::empty());
    lemma_prefix_add(g.alignment, Seq::empty());
    lemma_prefix_add(g.namedata, Seq::empty());
    lemma_prefix_add(g.optional_data, Seq::empty());
    lemma_prefix_add(g.line_order, Seq::empty());
}

/// What has grown out of what has grown out of a graph has grown out of the
/// graph.
pub proof fn lemma_grown_trans(a: GraphView, b: GraphView, c: GraphView)
    requires
        grown(a, b),
        grown(b, c),
    ensures
        grown(a, c),
{
    lemma_prefix_trans(a.segs, b.segs, c.segs);
    lemma_prefix_trans(a.paths, b.paths, c.paths);
    lemma_prefix_trans(a.links, b.links, c.links);
    lemma_prefix_trans(a.steps, b.steps, c.steps);
    lemma_prefix_trans(a.seqdata, b.seqdata, c.seqdata);
    lemma_prefix_trans(a.overlaps, b.overlaps, c.overlaps);
    lemma_prefix_trans(a.alignment, b.alignment, c.alignment);
    lemma_prefix_trans(a.namedata, b.namedata, c.namedata);
    lemma_prefix_trans(a.optional_data, b.optional_data, c.optional_data);
    lemma_prefix_trans(a.line_order, b.line_order, c.line_order);
}

/// A graph fits where what has grown out of it fits.
pub proof fn lemma_grown_fits(g: GraphView, h: GraphView)
    requires
        grown(g, h),
        fits(h),
    ensures
        fits(g),
{
}

/// Each way of adding to a graph makes it grow.
pub proof fn lemma_add_grows(g: GraphView)
    ensures
        forall|text: Seq<u8>| grown(g, #[trigger] g.add_header(text)),
        forall|kind: crate::flatgfa::LineKind| grown(g, #[trigger] g.record_line(kind)),
        forall|name: usize, seq: Seq<u8>, data: Seq<u8>|
            grown(g, #[trigger] g.add_seg(name, seq, data)),
        forall|from: Handle, to: Handle, overlap: Seq<AlignOp>|
            grown(g, #[trigger] g.add_link(from, to, overlap)),
        forall|name: Seq<u8>, steps: Seq<Handle>, overlaps: Seq<Seq<AlignOp>>|
            grown(g, #[trigger] g.add_path(name, steps, overlaps)),
{
    lemma_grown_same(g);
    assert forall|kind: crate::flatgfa::LineKind| grown(g, #[trigger] g.record_line(kind)) by {
        lemma_prefix_push(g.line_order, kind);
    }
    assert forall|name: usize, seq: Seq<u8>, data: Seq<u8>|
        grown(g, #[trigger] g.add_seg(name, seq, data)) by {
        let h = g.add_seg(name, seq, data);
        lemma_prefix_push(g.segs, h.segs.last());
        lemma_prefix_add(g.seqdata, seq);
        lemma_prefix_add(g.optional_data, data);
    }
    assert forall|from: Handle, to: Handle, overlap: Seq<AlignOp>|
        grown(g, #[trigger] g.add_link(from, to, overlap)) by {
        let h = g.add_link(from, to, overlap);
        lemma_prefix_push(g.links, h.links.last());
        lemma_prefix_add(g.alignment, overlap);
    }
    assert forall|name: Seq<u8>, steps: Seq<Handle>, overlaps: Seq<Seq<AlignOp>>|
        grown(g, #[trigger] g.add_path(name, steps, overlaps)) by {
        let h = g.add_path(name, steps, overlaps);
        lemma_prefix_push(g.paths, h.paths.last());
        lemma_prefix_add(g.namedata, name);
        lemma_prefix_add(g.steps, steps);
        lemma_prefix_add(g.overlaps, overlap_ranges(overlaps, g.alignment.len()));
        lemma_prefix_add(g.alignment, concat_ops(overlaps));
    }
}

/// A segment line that could be read from a graph is read as the same from
/// what has grown out of the graph.
pub proof fn lemma_segment_line_kept(g: GraphView, h: GraphView, i: int)
    requires
        grown(g, h),
        segment_line(g, i) is Some,
    ensures
        segment_line(h, i) == segment_line(g, i),
{
    lemma_prefix_index(g.segs, h.segs, i);
    let seg = g.segs[i];
    lemma_prefix_subrange(g.seqdata, h.seqdata, seg.seq.start as int, seg.seq.end as int);
    lemma_prefix_subrange(
        g.optional_data,
        h.optional_data,
        seg.optional.start as int,
        seg.optional.end as int,
    );
}

/// A link line that could be read from a graph is read as the same from
/// what has grown out of the graph.
pub proof fn lemma_link_line_kept(g: GraphView, h: GraphView, i: int)
    requires
        grown(g, h),
        link_line(g, i) is Some,
    ensures
        link_line(h, i) == link_line(g, i),
{
    lemma_prefix_index(g.links, h.links, i);
    let link = g.links[i];
    lemma_prefix_index(g.segs, h.segs, link.from.segment as int);
    lemma_prefix_index(g.segs, h.segs, link.to.segment as int);
    lemma_prefix_subrange(
        g.alignment,
        h.alignment,
        link.overlap.start as int,
        link.overlap.end as int,
    );
}

/// A path line that could be read from a graph is read as the same from
/// what has grown out of the graph.
pub proof fn lemma_path_line_kept(g: GraphView, h: GraphView, i: int)
    requires
        grown(g, h),
        path_line(g, i) is Some,
    ensures
        path_line(h, i) == path_line(g, i),
{
    lemma_prefix_index(g.paths, h.paths, i);
    let path = g.paths[i];
    lemma_prefix_subrange(g.namedata, h.namedata, path.name.start as int, path.name.end as int);
    lemma_prefix_subrange(g.steps, h.steps, path.steps.start as int, path.steps.end as int);
    lemma_prefix_subrange(
        g.overlaps,
        h.overlaps,
        path.overlaps.start as int,
        path.overlaps.end as int,
    );
    let handles = g.steps_of(path);
    assert(h.steps_of(path) == handles);
    let descriptors = g.overlaps_of(path);
    assert(h.overlaps_of(path) == descriptors);
    assert forall|k: int| 0 <= k < handles.len() implies (#[trigger] handles[k]).segment
        < h.segs.len() && h.segs[handles[k].segment as int] == g.segs[handles[k].segment as int] by {
        lemma_prefix_index(g.segs, h.segs, handles[k].segment as int);
    }
    assert forall|k: int| 0 <= k < descriptors.len() implies range_within(
        #[trigger] descriptors[k],
        h.alignment.len(),
    ) && h.alignment_of(descriptors[k]) == g.alignment_of(descriptors[k]) by {
        lemma_prefix_subrange(
            g.alignment,
            h.alignment,
            descriptors[k].start as int,
            descriptors[k].end as int,
        );
    }
    assert(steps_named(h, handles).unwrap() == steps_named(g, handles).unwrap());
    assert(overlaps_read(h, descriptors).unwrap() == overlaps_read(g, descriptors).unwrap());
}

/// A segment that has just been added is read as what it was added from.
pub proof fn lemma_added_segment(g: GraphView, name: usize, seq: Seq<u8>, data: Seq<u8>)
    requires
        fits(g.add_seg(name, seq, data)),
    ensures
        segment_line(g.add_seg(name, seq, data), g.segs.len() as int) == Some(
            SegmentView { name, seq, data },
        ),
{
    let h = g.add_seg(name, seq, data);
    let seg = h.segs[g.segs.len() as int];
    assert(h.seqdata.subrange(seg.seq.start as int, seg.seq.end as int) == seq);
    assert(h.optional_data.subrange(seg.optional.start as int, seg.optional.end as int) == data);
}

/// A link that has just been added is read as a link between the names of
/// its two segments.
pub proof fn lemma_added_link(g: GraphView, from: Handle, to: Handle, overlap: Seq<AlignOp>)
    requires
        fits(g.add_link(from, to, overlap)),
        from.segment < g.segs.len(),
        to.segment < g.segs.len(),
    ensures
        link_line(g.add_link(from, to, overlap), g.links.len() as int) == Some(
            LinkView {
                from_seg: g.segs[from.segment as int].name,
                from_orient: from.orient,
                to_seg: g.segs[to.segment as int].name,
                to_orient: to.orient,
                overlap,
            },
        ),
{
    let h = g.add_link(from, to, overlap);
    let link = h.links[g.links.len() as int];
    assert(h.alignment.subrange(link.overlap.start as int, link.overlap.end as int) == overlap);
}

/// Among all the operations of a list of alignments, put one after another,
/// each alignment lies after those before it.
pub proof fn lemma_concat_ops_slice(overlaps: Seq<Seq<AlignOp>>, i: int)
    requires
        0 <= i < overlaps.len(),
    ensures
        total_ops(overlaps.take(i)) + overlaps[i].len() <= concat_ops(overlaps).len(),
        concat_ops(overlaps).subrange(
            total_ops(overlaps.take(i)) as int,
            (total_ops(overlaps.take(i)) + overlaps[i].len()) as int,
        ) == overlaps[i],
    decreases overlaps.len(),
{
    let before = overlaps.drop_last();
    let all = concat_ops(overlaps);
    lemma_concat_ops_len(overlaps);
    lemma_concat_ops_len(before);
    lemma_total_ops_prefix(overlaps, i);
    if i == overlaps.len() - 1 {
        assert(overlaps.take(i) == before);
        assert(all.subrange(concat_ops(before).len() as int, all.len() as int) == overlaps[i]);
    } else {
        lemma_concat_ops_slice(before, i);
        assert(before.take(i) == overlaps.take(i));
        let from = total_ops(overlaps.take(i)) as int;
        let to = from + overlaps[i].len();
        assert(all.subrange(from, to) == concat_ops(before).subrange(from, to));
    }
}

/// The names and orientations of a list of handles.
pub open spec fn names_of(g: GraphView, handles: Seq<Handle>) -> Seq<(usize, Orientation)> {
    Seq::new(
        handles.len(),
        |i: int| (g.segs[handles[i].segment as int].name, handles[i].orient),
    )
}

/// A path that has just been added is read as a path through the names of
/// the segments of its steps, with the overlaps it was added with.
pub proof fn lemma_added_path(
    g: GraphView,
    name: Seq<u8>,
    handles: Seq<Handle>,
    overlaps: Seq<Seq<AlignOp>>,
)
    requires
        fits(g.add_path(name, handles, overlaps)),
        forall|i: int| 0 <= i < handles.len() ==> (#[trigger] handles[i]).segment < g.segs.len(),
    ensures
        path_line(g.add_path(name, handles, overlaps), g.paths.len() as int) == Some(
            PathView { name, steps: names_of(g, handles), overlaps },
        ),
{
    let h = g.add_path(name, handles, overlaps);
    let path = h.paths[g.paths.len() as int];
    let base = g.alignment.len();
    lemma_concat_ops_len(overlaps);
    assert(h.namedata.subrange(path.name.start as int, path.name.end as int) == name);
    assert(h.steps.subrange(path.steps.start as int, path.steps.end as int) == handles);
    let descriptors = overlap_ranges(overlaps, base);
    assert(h.overlaps.subrange(path.overlaps.start as int, path.overlaps.end as int)
        == descriptors);
    assert forall|k: int| 0 <= k < descriptors.len() implies range_within(
        #[trigger] descriptors[k],
        h.alignment.len(),
    ) && h.alignment_of(descriptors[k]) == overlaps[k] by {
        lemma_overlap_ranges_within(overlaps, base, k);
        lemma_concat_ops_slice(overlaps, k);
        let from = total_ops(overlaps.take(k)) as int;
        let to = from + overlaps[k].len();
        assert(h.alignment.subrange(base + from, base + to) == concat_ops(overlaps).subrange(
            from,
            to,
        ));
    }
    assert(overlaps_read(h, descriptors).unwrap() == overlaps);
    assert(steps_named(h, handles).unwrap() == names_of(g, handles));
}

/// One addition to a graph: a segment, a path or a link.
pub enum Addition {
    Segment { name: usize, seq: Seq<u8>, optional: Seq<u8> },
    Path { title: Seq<u8>, steps: Seq<Handle>, overlaps: Seq<Seq<AlignOp>> },
    Link { from: Handle, to: Handle, overlap: Seq<AlignOp> },
}

/// The graph once one addition has been made.
pub open spec fn with_addition(g: GraphView, addition: Addition) -> GraphView {
    match addition {
        Addition::Segment { name, seq, optional } => g.add_seg(name, seq, optional),
        Addition::Path { title, steps, overlaps } => g.add_path(title, steps, overlaps),
        Addition::Link { from, to, overlap } => g.add_link(from, to, overlap),
    }
}

/// The empty graph once a list of additions has been made, in order.
pub open spec fn built(additions: Seq<Addition>) -> GraphView
    decreases additions.len(),
{
    if additions.len() == 0 {
        GraphView::empty()
    } else {
        with_addition(built(additions.drop_last()), additions.last())
    }
}

/// An addition to a graph whose ranges lie inside their pools leaves a
/// graph whose ranges lie inside their pools.
pub proof fn lemma_add_keeps_wf(g: GraphView, addition: Addition)
    requires
        g.wf(),
        fits(with_addition(g, addition)),
    ensures
        with_addition(g, addition).wf(),
        grown(g, with_addition(g, addition)),
{
    let h = with_addition(g, addition);
    lemma_add_grows(g);
    match addition {
        Addition::Segment { name, seq, optional } => {},
        Addition::Path { title, steps, overlaps } => {
            let base = g.alignment.len();
            lemma_concat_ops_len(overlaps);
            assert forall|i: int| 0 <= i < h.overlaps.len() implies range_within(
                #[trigger] h.overlaps[i],
                h.alignment.len(),
            ) by {
                if i >= g.overlaps.len() {
                    lemma_overlap_ranges_within(overlaps, base, i - g.overlaps.len());
                }
            }
        },
        Addition::Link { from, to, overlap } => {},
    }
}

/// Whatever segments, paths and links are added to the empty graph, in
/// whatever order, every range stored in the graph lies inside the pool it
/// points into, after each of the additions.
pub proof fn lemma_ranges_stay_valid(additions: Seq<Addition>, n: int)
    requires
        0 <= n <= additions.len(),
        fits(built(additions)),
    ensures
        built(additions.take(n)).wf(),
        grown(built(additions.take(n)), built(additions)),
    decreases additions.len() - n,
{
    if n == additions.len() {
        assert(additions.take(n) == additions);
        lemma_grown_same(built(additions));
        lemma_built_wf(additions);
    } else {
        lemma_ranges_stay_valid(additions, n + 1);
        let longer = additions.take(n + 1);
        assert(longer.drop_last() == additions.take(n));
        let g = built(additions.take(n));
        lemma_add_grows(g);
        lemma_grown_trans(g, built(longer), built(additions));
        lemma_grown_fits(g, built(additions));
        lemma_built_wf(additions.take(n));
    }
}

/// A graph built from the empty graph that fits has every range inside its
/// pool.
pub proof fn lemma_built_wf(additions: Seq<Addition>)
    requires
        fits(built(additions)),
    ensures
        built(additions).wf(),
    decreases additions.len(),
{
    if additions.len() > 0 {
        let before = built(additions.drop_last());
        lemma_add_grows(before);
        lemma_grown_fits(before, built(additions));
        lemma_built_wf(additions.drop_last());
        lemma_add_keeps_wf(before, additions.last());
    }
}

} // verus!
