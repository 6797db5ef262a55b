//! From text to graph to text to graph.
//!
//! A graph that was built from a text can be written as text again, and
//! the graph built from that text is the same graph: the same pools, the
//! same header, the same log of line kinds.

use crate::flatgfa::{lemma_first_named, GraphView, Handle, LineKind, Orientation};
use crate::gfaline::{line_of, LineView, LinkView, PathView};
use crate::layout::{
    fits, grown, lemma_add_grows, lemma_added_link, lemma_added_path, lemma_added_segment,
    lemma_grown_fits, lemma_grown_same, lemma_grown_trans, lemma_link_line_kept,
    lemma_path_line_kept, lemma_segment_line_kept, names_of,
};
use crate::memfile::split;
use crate::parse::{
    ingest_from, ingest_line, parse_text, resolve_link, resolve_links_from, resolve_path,
    resolve_paths_from, resolve_steps_from, Ingested, ParseErrorView,
};
use crate::print::{
    count_kind, line_at, line_text, link_line, path_line, segment_line, text_of, text_upto,
};
use crate::unparse::{
    join_lines, lemma_line_of_no_lf, lemma_line_of_plain, lemma_line_read_back,
    lemma_line_text_no_lf, lemma_split_join, lemma_split_pieces, no_lf,
};
use vstd::prelude::*;

verus! {

/// The line with index `k` as the first phase has gathered it: a header or
/// a segment from the graph, a link or a path from what was set aside.
pub open spec fn gathered_at(st: Ingested, k: int) -> Option<LineView> {
    let kind = st.graph.line_order[k];
    let nth = count_kind(st.graph.line_order.take(k), kind) as int;
    match kind {
        LineKind::Header => match st.graph.header {
            Some(text) => Some(LineView::Header(text)),
            None => None,
        },
        LineKind::Segment => match segment_line(st.graph, nth) {
            Some(seg) => Some(LineView::Segment(seg)),
            None => None,
        },
        LineKind::Link => if nth < st.links.len() {
            Some(LineView::Link(st.links[nth]))
        } else {
            None
        },
        LineKind::Path => if nth < st.paths.len() {
            Some(LineView::Path(st.paths[nth]))
        } else {
            None
        },
    }
}

/// What holds after the first phase has taken in the first `n` lines: the
/// log has one kind for each line, the records are as many as the lines of
/// their kind, nothing has been resolved yet, and each line is gathered as
/// what it was read as.
pub open spec fn ingest_inv(st: Ingested, lines: Seq<Seq<u8>>, n: int) -> bool {
    let g = st.graph;
    &&& 0 <= n <= lines.len()
    &&& g.line_order.len() == n
    &&& g.segs.len() == count_kind(g.line_order, LineKind::Segment)
    &&& st.links.len() == count_kind(g.line_order, LineKind::Link)
    &&& st.paths.len() == count_kind(g.line_order, LineKind::Path)
    &&& g.links.len() == 0
    &&& g.paths.len() == 0
    &&& g.steps.len() == 0
    &&& g.overlaps.len() == 0
    &&& g.alignment.len() == 0
    &&& g.namedata.len() == 0
    &&& forall|k: int|
        0 <= k < n ==> line_of(lines[k]) is Some && #[trigger] gathered_at(st, k) == line_of(
            lines[k],
        )
}

/// The graph only grows while lines are taken in.
pub proof fn lemma_ingest_grows(st: Ingested, lines: Seq<Seq<u8>>, i: int)
    requires
        ingest_from(st, lines, i) is Ok,
    ensures
        grown(st.graph, ingest_from(st, lines, i)->Ok_0.graph),
    decreases lines.len() - i,
{
    if i < 0 || i >= lines.len() {
        lemma_grown_same(st.graph);
    } else {
        let next = ingest_line(st, lines[i])->Ok_0;
        lemma_add_grows(st.graph);
        match line_of(lines[i]).unwrap() {
            LineView::Header(text) => {
                lemma_add_grows(st.graph.record_line(LineKind::Header));
                lemma_grown_trans(st.graph, st.graph.record_line(LineKind::Header), next.graph);
            },
            LineView::Segment(seg) => {
                lemma_add_grows(st.graph.record_line(LineKind::Segment));
                lemma_grown_trans(st.graph, st.graph.record_line(LineKind::Segment), next.graph);
            },
            LineView::Link(link) => {},
            LineView::Path(path) => {},
        }
        lemma_ingest_grows(next, lines, i + 1);
        lemma_grown_trans(st.graph, next.graph, ingest_from(st, lines, i)->Ok_0.graph);
    }
}

/// One more kind in the log counts for its own kind and for no other.
pub proof fn lemma_count_push(order: Seq<LineKind>, added: LineKind, kind: LineKind)
    ensures
        count_kind(order.push(added), kind) == count_kind(order, kind) + if added == kind {
            1nat
        } else {
            0nat
        },
{
    assert(order.push(added).drop_last() == order);
}

/// Taking in one more line keeps what holds after the first lines.
pub proof fn lemma_ingest_step(st: Ingested, lines: Seq<Seq<u8>>, i: int)
    requires
        ingest_inv(st, lines, i),
        i < lines.len(),
        ingest_line(st, lines[i]) is Ok,
        fits(ingest_line(st, lines[i])->Ok_0.graph),
    ensures
        ingest_inv(ingest_line(st, lines[i])->Ok_0, lines, i + 1),
{
    let next = ingest_line(st, lines[i])->Ok_0;
    let line = line_of(lines[i]).unwrap();
    let g = st.graph;
    let h = next.graph;
    let order = g.line_order;
    let kind = h.line_order[i];
    assert(h.line_order == order.push(kind));
    lemma_count_push(order, kind, LineKind::Segment);
    lemma_count_push(order, kind, LineKind::Link);
    lemma_count_push(order, kind, LineKind::Path);
    lemma_add_grows(g);
    lemma_add_grows(g.record_line(kind));
    assert(grown(g, h)) by {
        match line {
            LineView::Header(text) => {
                lemma_grown_trans(g, g.record_line(kind), h);
            },
            LineView::Segment(seg) => {
                lemma_grown_trans(g, g.record_line(kind), h);
            },
            LineView::Link(link) => {},
            LineView::Path(path) => {},
        }
    }
    assert forall|k: int| 0 <= k < i + 1 implies line_of(lines[k]) is Some && #[trigger] gathered_at(
        next,
        k,
    ) == line_of(lines[k]) by {
        if k < i {
            assert(h.line_order.take(k) == order.take(k));
            assert(h.line_order[k] == order[k]);
            assert(gathered_at(st, k) == line_of(lines[k]));
            let nth = count_kind(order.take(k), order[k]) as int;
            match order[k] {
                LineKind::Header => {},
                LineKind::Segment => {
                    lemma_segment_line_kept(g, h, nth);
                },
                LineKind::Link => {},
                LineKind::Path => {},
            }
        } else {
            assert(h.line_order.take(i) == order);
            match line {
                LineView::Header(text) => {},
                LineView::Segment(seg) => {
                    let mid = g.record_line(kind);
                    lemma_added_segment(mid, seg.name, seg.seq, seg.data);
                },
                LineView::Link(link) => {},
                LineView::Path(path) => {},
            }
        }
    }
}

/// What holds after the first lines holds of all the lines once the first
/// phase is through.
pub proof fn lemma_ingest_inv(st: Ingested, lines: Seq<Seq<u8>>, i: int)
    requires
        ingest_inv(st, lines, i),
        ingest_from(st, lines, i) is Ok,
        fits(ingest_from(st, lines, i)->Ok_0.graph),
    ensures
        ingest_inv(ingest_from(st, lines, i)->Ok_0, lines, lines.len() as int),
    decreases lines.len() - i,
{
    if i < lines.len() {
        let next = ingest_line(st, lines[i])->Ok_0;
        lemma_ingest_grows(next, lines, i + 1);
        lemma_grown_fits(next.graph, ingest_from(st, lines, i)->Ok_0.graph);
        lemma_ingest_step(st, lines, i);
        lemma_ingest_inv(next, lines, i + 1);
    }
}

/// What holds after the first `i` links have been resolved and added to
/// the graph that the first phase left: only the links and the alignments
/// have grown, and each link is read as what it was set aside as.
pub open spec fn links_inv(start: GraphView, links: Seq<LinkView>, i: int, g: GraphView) -> bool {
    &&& 0 <= i <= links.len()
    &&& grown(start, g)
    &&& g.header == start.header
    &&& g.line_order == start.line_order
    &&& g.segs == start.segs
    &&& g.paths == start.paths
    &&& g.links.len() == i
    &&& forall|j: int| 0 <= j < i ==> #[trigger] link_line(g, j) == Some(links[j])
}

/// The graph only grows while links are resolved.
pub proof fn lemma_links_grow(g: GraphView, links: Seq<LinkView>, i: int)
    requires
        resolve_links_from(g, links, i) is Ok,
    ensures
        grown(g, resolve_links_from(g, links, i)->Ok_0),
    decreases links.len() - i,
{
    if i < 0 || i >= links.len() {
        lemma_grown_same(g);
    } else {
        let next = resolve_link(g, links[i])->Ok_0;
        lemma_add_grows(g);
        lemma_links_grow(next, links, i + 1);
        lemma_grown_trans(g, next, resolve_links_from(g, links, i)->Ok_0);
    }
}

/// What holds after the first links holds of all the links once they have
/// all been resolved.
pub proof fn lemma_links_inv(start: GraphView, links: Seq<LinkView>, i: int, g: GraphView)
    requires
        links_inv(start, links, i, g),
        resolve_links_from(g, links, i) is Ok,
        fits(resolve_links_from(g, links, i)->Ok_0),
    ensures
        links_inv(start, links, links.len() as int, resolve_links_from(g, links, i)->Ok_0),
    decreases links.len() - i,
{
    if i < links.len() {
        let link = links[i];
        let next = resolve_link(g, link)->Ok_0;
        let fin = resolve_links_from(g, links, i)->Ok_0;
        lemma_links_grow(next, links, i + 1);
        lemma_grown_fits(next, fin);
        lemma_add_grows(g);
        lemma_grown_fits(g, next);
        lemma_first_named(g.segs, link.from_seg);
        lemma_first_named(g.segs, link.to_seg);
        let from = Handle { segment: g.find_seg(link.from_seg).unwrap(), orient: link.from_orient };
        let to = Handle { segment: g.find_seg(link.to_seg).unwrap(), orient: link.to_orient };
        lemma_added_link(g, from, to, link.overlap);
        lemma_add_grows(g);
        lemma_grown_trans(start, g, next);
        assert forall|j: int| 0 <= j < i + 1 implies #[trigger] link_line(next, j) == Some(
            links[j],
        ) by {
            if j < i {
                assert(link_line(g, j) == Some(links[j]));
                lemma_link_line_kept(g, next, j);
            }
        }
        lemma_links_inv(start, links, i + 1, next);
    }
}

/// The steps resolved so far are on segments of the graph, and those
/// segments carry the names of the steps.
pub open spec fn steps_match(
    g: GraphView,
    steps: Seq<(usize, Orientation)>,
    found: Seq<Handle>,
) -> bool {
    &&& found.len() <= steps.len()
    &&& forall|k: int|
        0 <= k < found.len() ==> (#[trigger] found[k]).segment < g.segs.len()
            && g.segs[found[k].segment as int].name == steps[k].0 && found[k].orient == steps[k].1
}

/// The handles that the steps of a path are resolved to are on segments of
/// the graph that carry the names of the steps.
pub proof fn lemma_resolve_steps(
    g: GraphView,
    steps: Seq<(usize, Orientation)>,
    i: int,
    found: Seq<Handle>,
)
    requires
        g.segs.len() <= usize::MAX,
        0 <= i <= steps.len(),
        found.len() == i,
        steps_match(g, steps, found),
        resolve_steps_from(g, steps, i, found) is Ok,
    ensures
        resolve_steps_from(g, steps, i, found)->Ok_0.len() == steps.len(),
        steps_match(g, steps, resolve_steps_from(g, steps, i, found)->Ok_0),
    decreases steps.len() - i,
{
    if i < steps.len() {
        lemma_first_named(g.segs, steps[i].0);
        let id = g.find_seg(steps[i].0).unwrap();
        let more = found.push(Handle { segment: id, orient: steps[i].1 });
        assert forall|k: int| 0 <= k < more.len() implies (#[trigger] more[k]).segment
            < g.segs.len() && g.segs[more[k].segment as int].name == steps[k].0 && more[k].orient
            == steps[k].1 by {
            if k < i {
                assert(more[k] == found[k]);
            }
        }
        lemma_resolve_steps(g, steps, i + 1, more);
    }
}

/// What holds after the first `i` paths have been resolved and added to
/// the graph that the links left: the segments and the links are what they
/// were, and each path is read as what it was set aside as.
pub open spec fn paths_inv(start: GraphView, paths: Seq<PathView>, i: int, g: GraphView) -> bool {
    &&& 0 <= i <= paths.len()
    &&& grown(start, g)
    &&& g.header == start.header
    &&& g.line_order == start.line_order
    &&& g.segs == start.segs
    &&& g.links == start.links
    &&& g.paths.len() == i
    &&& forall|j: int| 0 <= j < i ==> #[trigger] path_line(g, j) == Some(paths[j])
}

/// The graph only grows while paths are resolved.
pub proof fn lemma_paths_grow(g: GraphView, paths: Seq<PathView>, i: int)
    requires
        resolve_paths_from(g, paths, i) is Ok,
    ensures
        grown(g, resolve_paths_from(g, paths, i)->Ok_0),
    decreases paths.len() - i,
{
    if i < 0 || i >= paths.len() {
        lemma_grown_same(g);
    } else {
        let next = resolve_path(g, paths[i])->Ok_0;
        lemma_add_grows(g);
        lemma_paths_grow(next, paths, i + 1);
        lemma_grown_trans(g, next, resolve_paths_from(g, paths, i)->Ok_0);
    }
}

/// What holds after the first paths holds of all the paths once they have
/// all been resolved.
pub proof fn lemma_paths_inv(start: GraphView, paths: Seq<PathView>, i: int, g: GraphView)
    requires
        paths_inv(start, paths, i, g),
        resolve_paths_from(g, paths, i) is Ok,
        fits(resolve_paths_from(g, paths, i)->Ok_0),
    ensures
        paths_inv(start, paths, paths.len() as int, resolve_paths_from(g, paths, i)->Ok_0),
    decreases paths.len() - i,
{
    if i < paths.len() {
        let path = paths[i];
        let next = resolve_path(g, path)->Ok_0;
        let fin = resolve_paths_from(g, paths, i)->Ok_0;
        lemma_paths_grow(next, paths, i + 1);
        lemma_grown_fits(next, fin);
        lemma_add_grows(g);
        lemma_grown_fits(g, next);
        let handles = resolve_steps_from(g, path.steps, 0, Seq::empty())->Ok_0;
        lemma_resolve_steps(g, path.steps, 0, Seq::empty());
        lemma_added_path(g, path.name, handles, path.overlaps);
        assert(names_of(g, handles) == path.steps);
        lemma_grown_trans(start, g, next);
        assert forall|j: int| 0 <= j < i + 1 implies #[trigger] path_line(next, j) == Some(
            paths[j],
        ) by {
            if j < i {
                assert(path_line(g, j) == Some(paths[j]));
                lemma_path_line_kept(g, next, j);
            }
        }
        lemma_paths_inv(start, paths, i + 1, next);
    }
}

/// The lines as they are written again.
pub open spec fn lines_written(lines: Seq<Seq<u8>>) -> Seq<Seq<u8>> {
    Seq::new(lines.len(), |k: int| line_text(line_of(lines[k]).unwrap()))
}

/// Where every line of a graph is read from it as a given line, the text
/// of the graph is those lines written one after another.
pub proof fn lemma_text_upto_is(g: GraphView, lines: Seq<Seq<u8>>, n: int)
    requires
        0 <= n <= lines.len(),
        forall|k: int| 0 <= k < n ==> #[trigger] line_at(g, k) == line_of(lines[k]) && line_of(
            lines[k],
        ) is Some,
    ensures
        text_upto(g, n) == Some(join_lines(lines_written(lines).take(n))),
    decreases n,
{
    let written = lines_written(lines);
    if n > 0 {
        lemma_text_upto_is(g, lines, n - 1);
        assert(line_at(g, n - 1) == line_of(lines[n - 1]));
        assert(written.take(n).drop_last() == written.take(n - 1));
        assert(written.take(n).last() == line_text(line_of(lines[n - 1]).unwrap()));
    } else {
        assert(written.take(0) == Seq::<Seq<u8>>::empty());
    }
}

/// The first phase gives the same on two lists of lines that are read as
/// the same lines.
pub proof fn lemma_ingest_same(st: Ingested, a: Seq<Seq<u8>>, b: Seq<Seq<u8>>, i: int)
    requires
        a.len() == b.len(),
        forall|k: int|
            0 <= k < a.len() ==> line_of(a[k]) is Some && #[trigger] line_of(b[k]) == line_of(a[k]),
    ensures
        ingest_from(st, a, i) == ingest_from(st, b, i),
    decreases a.len() - i,
{
    if 0 <= i < a.len() {
        assert(line_of(b[i]) == line_of(a[i]));
        match ingest_line(st, a[i]) {
            Ok(next) => {
                lemma_ingest_same(next, a, b, i + 1);
            },
            Err(_) => {},
        }
    }
}

/// What the two phases leave of the lines of a text, taken together: the
/// log holds one kind for each line, and every line is read from the graph
/// as it was read from the text.
pub proof fn lemma_lines_kept(lines: Seq<Seq<u8>>, st: Ingested, linked: GraphView, g: GraphView)
    requires
        ingest_inv(st, lines, lines.len() as int),
        links_inv(st.graph, st.links, st.links.len() as int, linked),
        paths_inv(linked, st.paths, st.paths.len() as int, g),
    ensures
        g.line_order.len() == lines.len(),
        forall|k: int|
            0 <= k < lines.len() ==> #[trigger] line_at(g, k) == line_of(lines[k]) && line_of(
                lines[k],
            ) is Some,
{
    lemma_grown_trans(st.graph, linked, g);
    assert forall|k: int| 0 <= k < lines.len() implies #[trigger] line_at(g, k) == line_of(
        lines[k],
    ) && line_of(lines[k]) is Some by {
        assert(gathered_at(st, k) == line_of(lines[k]));
        let kind = g.line_order[k];
        let nth = count_kind(g.line_order.take(k), kind) as int;
        match kind {
            LineKind::Header => {},
            LineKind::Segment => {
                lemma_segment_line_kept(st.graph, g, nth);
            },
            LineKind::Link => {
                assert(link_line(linked, nth) == Some(st.links[nth]));
                lemma_link_line_kept(linked, g, nth);
            },
            LineKind::Path => {
                assert(path_line(g, nth) == Some(st.paths[nth]));
            },
        }
    }
}

/// Every line of a graph built from a text is read from the graph as it
/// was read from the text.
pub proof fn lemma_parsed_lines(text: Seq<u8>, g: GraphView)
    requires
        parse_text(text) == Ok::<_, ParseErrorView>(g),
        fits(g),
    ensures
        g.line_order.len() == split(text, 10).len(),
        forall|k: int|
            0 <= k < split(text, 10).len() ==> #[trigger] line_at(g, k) == line_of(
                split(text, 10)[k],
            ) && line_of(split(text, 10)[k]) is Some,
{
    let lines = split(text, 10);
    let st = ingest_from(Ingested::start(), lines, 0)->Ok_0;
    let linked = resolve_links_from(st.graph, st.links, 0)->Ok_0;
    assert(g == resolve_paths_from(linked, st.paths, 0)->Ok_0);
    // The graph fits at every stage, since it only grows.
    lemma_paths_grow(linked, st.paths, 0);
    lemma_grown_fits(linked, g);
    lemma_links_grow(st.graph, st.links, 0);
    lemma_grown_fits(st.graph, linked);
    // What each phase leaves.
    assert(ingest_inv(Ingested::start(), lines, 0));
    lemma_ingest_inv(Ingested::start(), lines, 0);
    lemma_grown_same(st.graph);
    assert(links_inv(st.graph, st.links, 0, st.graph));
    lemma_links_inv(st.graph, st.links, 0, st.graph);
    lemma_grown_same(linked);
    assert(paths_inv(linked, st.paths, 0, linked));
    lemma_paths_inv(linked, st.paths, 0, linked);
    lemma_lines_kept(lines, st, linked, g);
}

/// The lines of a text that can all be read, written again and joined, are
/// split into the lines written, and each of these is read as the line it
/// was written from.
pub proof fn lemma_written_lines(text: Seq<u8>)
    requires
        forall|k: int|
            0 <= k < split(text, 10).len() ==> (#[trigger] line_of(split(text, 10)[k])) is Some,
    ensures
        split(join_lines(lines_written(split(text, 10))), 10) == lines_written(split(text, 10)),
        forall|k: int|
            0 <= k < split(text, 10).len() ==> #[trigger] line_of(
                lines_written(split(text, 10))[k],
            ) == line_of(split(text, 10)[k]),
{
    let lines = split(text, 10);
    let written = lines_written(lines);
    assert forall|k: int| 0 <= k < lines.len() implies no_lf(#[trigger] written[k]) && line_of(
        written[k],
    ) == line_of(lines[k]) by {
        lemma_split_pieces(text, 10, 0, k);
        assert(no_lf(lines[k]));
        assert(line_of(lines[k]) is Some);
        lemma_line_of_no_lf(lines[k]);
        lemma_line_text_no_lf(line_of(lines[k]).unwrap());
        lemma_line_of_plain(lines[k]);
        lemma_line_read_back(line_of(lines[k]).unwrap());
    }
    lemma_split_join(written);
}

/// A graph built from a text can be written as text, and the text it is
/// written as builds the same graph.
pub proof fn lemma_text_round_trip(text: Seq<u8>, g: GraphView)
    requires
        parse_text(text) == Ok::<_, ParseErrorView>(g),
        fits(g),
    ensures
        text_of(g) is Some,
        parse_text(text_of(g).unwrap()) == Ok::<_, ParseErrorView>(g),
{
    let lines = split(text, 10);
    let written = lines_written(lines);
    lemma_parsed_lines(text, g);
    lemma_text_upto_is(g, lines, lines.len() as int);
    assert(written.take(lines.len() as int) == written);
    assert(text_of(g) == Some(join_lines(written)));
    assert forall|k: int| 0 <= k < lines.len() implies (#[trigger] line_of(lines[k])) is Some by {
        assert(line_at(g, k) == line_of(lines[k]));
    }
    lemma_written_lines(text);
    lemma_ingest_same(Ingested::start(), lines, written, 0);
}

} // verus!
