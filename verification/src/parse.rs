//! Building a graph from GFA text.
//!
//! The text is read in two phases. The first goes through the lines once:
//! headers and segments go into the graph at once, links and paths are set
//! aside, because they may name segments that come later in the text. The
//! second phase starts when every segment is known: it resolves the names in
//! the links, then those in the paths, and adds them to the graph.

use crate::flatgfa::{lemma_first_named, FlatGFA, GraphView, Handle, LineKind, Orientation};
use crate::gfaline::{line_of, parse_line, Line, LineView, Link, LinkView, Path, PathView};
use crate::layout::fits;
use crate::memfile::{split, MemchrSplit};
use crate::namemap::NameMap;
use vstd::prelude::*;
use vstd::slice::slice_to_vec;

verus! {

/// Why a text could not be made into a graph.
#[derive(Debug, PartialEq, Eq)]
pub enum ParseError {
    /// A line is not well formed. The line comes with the error.
    Malformed(Vec<u8>),
    /// The text has a second header line.
    DuplicateHeader,
    /// Two segment lines give the same name.
    DuplicateSegment(usize),
    /// A link or a path names a segment that no line declares.
    UnknownSegment(usize),
}

/// What a parse error holds.
pub enum ParseErrorView {
    Malformed(Seq<u8>),
    DuplicateHeader,
    DuplicateSegment(usize),
    UnknownSegment(usize),
}

impl View for ParseError {
    type V = ParseErrorView;

    open spec fn view(&self) -> ParseErrorView {
        match self {
            ParseError::Malformed(line) => ParseErrorView::Malformed(line@),
            ParseError::DuplicateHeader => ParseErrorView::DuplicateHeader,
            ParseError::DuplicateSegment(name) => ParseErrorView::DuplicateSegment(*name),
            ParseError::UnknownSegment(name) => ParseErrorView::UnknownSegment(*name),
        }
    }
}

/// What the first phase has gathered: the graph so far, and the links and
/// paths set aside, in the order of the text.
pub struct Ingested {
    pub graph: GraphView,
    pub links: Seq<LinkView>,
    pub paths: Seq<PathView>,
}

impl Ingested {
    /// Nothing read yet.
    pub open spec fn start() -> Ingested {
        Ingested { graph: GraphView::empty(), links: Seq::empty(), paths: Seq::empty() }
    }
}

/// The first phase on one line that has been read: its kind is noted; a
/// header or a segment goes into the graph, unless the graph has a header
/// already or a segment of that name; a link or a path is set aside.
pub open spec fn ingest_parsed(st: Ingested, line: LineView) -> Result<Ingested, ParseErrorView> {
    match line {
        LineView::Header(text) => if st.graph.header is Some {
            Err(ParseErrorView::DuplicateHeader)
        } else {
            Ok(Ingested { graph: st.graph.record_line(LineKind::Header).add_header(text), ..st })
        },
        LineView::Segment(seg) => if st.graph.find_seg(seg.name) is Some {
            Err(ParseErrorView::DuplicateSegment(seg.name))
        } else {
            Ok(
                Ingested {
                    graph: st.graph.record_line(LineKind::Segment).add_seg(
                        seg.name,
                        seg.seq,
                        seg.data,
                    ),
                    ..st
                },
            )
        },
        LineView::Link(link) => Ok(
            Ingested {
                graph: st.graph.record_line(LineKind::Link),
                links: st.links.push(link),
                ..st
            },
        ),
        LineView::Path(path) => Ok(
            Ingested {
                graph: st.graph.record_line(LineKind::Path),
                paths: st.paths.push(path),
                ..st
            },
        ),
    }
}

/// The first phase on one line of text.
pub open spec fn ingest_line(st: Ingested, line: Seq<u8>) -> Result<Ingested, ParseErrorView> {
    match line_of(line) {
        None => Err(ParseErrorView::Malformed(line)),
        Some(parsed) => ingest_parsed(st, parsed),
    }
}

/// The first phase on the lines from index `i` on. It stops at the first
/// line that fails.
pub open spec fn ingest_from(st: Ingested, lines: Seq<Seq<u8>>, i: int) -> Result<
    Ingested,
    ParseErrorView,
>
    decreases lines.len() - i,
{
    if i < 0 || i >= lines.len() {
        Ok(st)
    } else {
        match ingest_line(st, lines[i]) {
            Err(e) => Err(e),
            Ok(next) => ingest_from(next, lines, i + 1),
        }
    }
}

/// The graph once a link has been resolved and added: each of its two names
/// stands for the segment of that name.
pub open spec fn resolve_link(g: GraphView, link: LinkView) -> Result<GraphView, ParseErrorView> {
    match g.find_seg(link.from_seg) {
        None => Err(ParseErrorView::UnknownSegment(link.from_seg)),
        Some(from) => match g.find_seg(link.to_seg) {
            None => Err(ParseErrorView::UnknownSegment(link.to_seg)),
            Some(to) => Ok(
                g.add_link(
                    Handle { segment: from, orient: link.from_orient },
                    Handle { segment: to, orient: link.to_orient },
                    link.overlap,
                ),
            ),
        },
    }
}

/// The graph once the links from index `i` on have been resolved and added,
/// in order. It stops at the first link that fails.
pub open spec fn resolve_links_from(g: GraphView, links: Seq<LinkView>, i: int) -> Result<
    GraphView,
    ParseErrorView,
>
    decreases links.len() - i,
{
    if i < 0 || i >= links.len() {
        Ok(g)
    } else {
        match resolve_link(g, links[i]) {
            Err(e) => Err(e),
            Ok(next) => resolve_links_from(next, links, i + 1),
        }
    }
}

/// The handles of the steps from index `i` on, put behind those found so
/// far. It stops at the first step whose segment is not known.
pub open spec fn resolve_steps_from(
    g: GraphView,
    steps: Seq<(usize, Orientation)>,
    i: int,
    found: Seq<Handle>,
) -> Result<Seq<Handle>, ParseErrorView>
    decreases steps.len() - i,
{
    if i < 0 || i >= steps.len() {
        Ok(found)
    } else {
        match g.find_seg(steps[i].0) {
            None => Err(ParseErrorView::UnknownSegment(steps[i].0)),
            Some(id) => resolve_steps_from(
                g,
                steps,
                i + 1,
                found.push(Handle { segment: id, orient: steps[i].1 }),
            ),
        }
    }
}

/// The graph once a path has been resolved and added.
pub open spec fn resolve_path(g: GraphView, path: PathView) -> Result<GraphView, ParseErrorView> {
    match resolve_steps_from(g, path.steps, 0, Seq::empty()) {
        Err(e) => Err(e),
        Ok(handles) => Ok(g.add_path(path.name, handles, path.overlaps)),
    }
}

/// The graph once the paths from index `i` on have been resolved and added,
/// in order. It stops at the first path that fails.
pub open spec fn resolve_paths_from(g: GraphView, paths: Seq<PathView>, i: int) -> Result<
    GraphView,
    ParseErrorView,
>
    decreases paths.len() - i,
{
    if i < 0 || i >= paths.len() {
        Ok(g)
    } else {
        match resolve_path(g, paths[i]) {
            Err(e) => Err(e),
            Ok(next) => resolve_paths_from(next, paths, i + 1),
        }
    }
}

/// The second phase: the links are resolved and added, then the paths.
pub open spec fn resolve_all(st: Ingested) -> Result<GraphView, ParseErrorView> {
    match resolve_links_from(st.graph, st.links, 0) {
        Err(e) => Err(e),
        Ok(g) => resolve_paths_from(g, st.paths, 0),
    }
}

/// The graph that a text stands for. The text is split into lines at line
/// feeds.
pub open spec fn parse_text(data: Seq<u8>) -> Result<GraphView, ParseErrorView> {
    match ingest_from(Ingested::start(), split(data, 10), 0) {
        Err(e) => Err(e),
        Ok(st) => resolve_all(st),
    }
}

/// The views of a list of link lines.
pub open spec fn links_view(links: Seq<Link>) -> Seq<LinkView> {
    Seq::new(links.len(), |i: int| links[i]@)
}

/// The views of a list of path lines.
pub open spec fn paths_view(paths: Seq<Path>) -> Seq<PathView> {
    Seq::new(paths.len(), |i: int| paths[i]@)
}

/// The links and paths that have been read but are not in the graph yet.
pub struct Deferred {
    pub links: Vec<Link>,
    pub paths: Vec<Path>,
}

impl Deferred {
    /// Nothing set aside.
    pub fn new() -> (deferred: Deferred)
        ensures
            deferred.links@ == Seq::<Link>::empty(),
            deferred.paths@ == Seq::<Path>::empty(),
    {
        Deferred { links: Vec::new(), paths: Vec::new() }
    }
}

/// Everything held in memory is short enough to be held there: this notes
/// it of the pools of a graph.
fn note_fits(flat: &FlatGFA)
    ensures
        fits(flat@),
{
    let view = flat.as_view();
    proof {
        assert(view.namedata@.len() == view.namedata.len());
        assert(view.optional_data@.len() == view.optional_data.len());
        assert(flat.segs@.len() == flat.segs.len());
        assert(flat.paths@.len() == flat.paths.len());
        assert(flat.links@.len() == flat.links.len());
        assert(flat.steps@.len() == flat.steps.len());
        assert(flat.seqdata@.len() == flat.seqdata.len());
        assert(flat.overlaps@.len() == flat.overlaps.len());
        assert(flat.alignment@.len() == flat.alignment.len());
        assert(flat.line_order@.len() == flat.line_order.len());
    }
}

/// Builds a graph from lines of GFA text.
pub struct Parser {
    /// The graph being built.
    flat: FlatGFA,
    /// The ids of the segments seen, by name.
    seg_ids: NameMap,
}

impl Default for Parser {
    fn default() -> (parser: Parser)
        ensures
            parser.inv(),
            parser.graph() == GraphView::empty(),
    {
        Parser::new()
    }
}

impl Parser {
    /// The parser is consistent: the graph is well formed, its handles name
    /// segments it has, and the names are resolved to the segments that
    /// carry them.
    pub closed spec fn inv(self) -> bool {
        &&& self.flat@.wf()
        &&& self.flat@.handles_valid()
        &&& forall|name: usize| #[trigger] self.seg_ids@.get(name) == self.flat@.find_seg(name)
    }

    /// The graph built so far.
    pub closed spec fn graph(self) -> GraphView {
        self.flat@
    }

    /// What has been gathered so far: the graph of the parser and what has
    /// been set aside.
    pub open spec fn ingested(self, deferred: Deferred) -> Ingested {
        Ingested {
            graph: self.graph(),
            links: links_view(deferred.links@),
            paths: paths_view(deferred.paths@),
        }
    }

    /// A parser that has read nothing.
    pub fn new() -> (parser: Parser)
        ensures
            parser.inv(),
            parser.graph() == GraphView::empty(),
    {
        let parser = Parser { flat: FlatGFA::new(), seg_ids: NameMap::new() };
        proof {
            assert(parser.flat@.segs =~= Seq::<crate::flatgfa::Segment>::empty());
        }
        parser
    }

    /// Build the graph that a GFA text stands for.
    pub fn parse(data: &[u8]) -> (parsed: Result<FlatGFA, ParseError>)
        ensures
            match parsed {
                Ok(g) => parse_text(data@) == Ok::<_, ParseErrorView>(g@) && g@.wf()
                    && g@.handles_valid() && fits(g@),
                Err(e) => parse_text(data@) == Err::<GraphView, _>(e@),
            },
    {
        let mut parser = Parser::new();
        let mut deferred = Deferred::new();
        let ghost lines = split(data@, 10);
        let ghost mut count: int = 0;
        let mut line_iter = MemchrSplit::new(10, data);
        proof {
            assert(lines.skip(0) == lines);
            assert(parser.ingested(deferred).links == Seq::<LinkView>::empty());
            assert(parser.ingested(deferred).paths == Seq::<PathView>::empty());
        }
        loop
            invariant
                parser.inv(),
                lines == split(data@, 10),
                0 <= count <= lines.len(),
                line_iter.remaining() == lines.skip(count),
                ingest_from(parser.ingested(deferred), lines, count) == ingest_from(
                    Ingested::start(),
                    lines,
                    0,
                ),
            decreases lines.len() - count,
        {
            let line = match line_iter.next() {
                Some(line) => line,
                None => {
                    assert(lines.skip(count).len() == 0);
                    return parser.finish(deferred);
                },
            };
            proof {
                assert(lines.skip(count).skip(1) == lines.skip(count + 1));
                assert(lines.skip(count)[0] == lines[count]);
            }
            let gfa_line = match parse_line(line) {
                Some(gfa_line) => gfa_line,
                None => {
                    return Err(ParseError::Malformed(slice_to_vec(line)));
                },
            };
            match parser.add_line(gfa_line, &mut deferred) {
                Ok(()) => {},
                Err(e) => {
                    return Err(e);
                },
            }
            proof {
                count = count + 1;
            }
        }
    }

    /// Take in one line of the text.
    ///
    /// Headers and segments go into the graph at once. Links and paths are
    /// set aside: all the segments must be known before their names can be
    /// resolved.
    pub fn add_line(&mut self, line: Line, deferred: &mut Deferred) -> (done: Result<
        (),
        ParseError,
    >)
        requires
            old(self).inv(),
        ensures
            final(self).inv(),
            match done {
                Ok(()) => ingest_parsed(old(self).ingested(*old(deferred)), line@) == Ok::<
                    _,
                    ParseErrorView,
                >(final(self).ingested(*final(deferred))),
                Err(e) => ingest_parsed(old(self).ingested(*old(deferred)), line@) == Err::<
                    Ingested,
                    _,
                >(e@) && final(self).graph() == old(self).graph() && *final(deferred) == *old(
                    deferred,
                ),
            },
    {
        match line {
            Line::Header(data) => {
                if self.flat.header.is_some() {
                    return Err(ParseError::DuplicateHeader);
                }
                self.flat.record_line(LineKind::Header);
                self.flat.add_header(data);
                Ok(())
            },
            Line::Segment(seg) => {
                if self.seg_ids.get(seg.name).is_some() {
                    return Err(ParseError::DuplicateSegment(seg.name));
                }
                self.flat.record_line(LineKind::Segment);
                let name = seg.name;
                let ghost before = self.flat@.segs;
                let seg_id = self.flat.add_seg(name, seg.seq, seg.data);
                self.seg_ids.insert(name, seg_id);
                proof {
                    assert(before == old(self).flat@.segs);
                    assert(self.flat@.segs.len() == self.flat.segs.len());
                    assert(self.flat@.segs.drop_last() == before);
                    assert(old(self).seg_ids@.get(name) == old(self).flat@.find_seg(name));
                    assert forall|n: usize| #[trigger]
                        self.seg_ids@.get(n) == self.flat@.find_seg(n) by {
                        assert(old(self).seg_ids@.get(n) == old(self).flat@.find_seg(n));
                    }
                }
                Ok(())
            },
            Line::Link(link) => {
                self.flat.record_line(LineKind::Link);
                let ghost before = links_view(deferred.links@);
                deferred.links.push(link);
                proof {
                    assert(links_view(deferred.links@) == before.push(link@));
                }
                Ok(())
            },
            Line::Path(path) => {
                self.flat.record_line(LineKind::Path);
                let ghost before = paths_view(deferred.paths@);
                deferred.paths.push(path);
                proof {
                    assert(paths_view(deferred.paths@) == before.push(path@));
                }
                Ok(())
            },
        }
    }

    /// Resolve the names in a link and add it to the graph.
    pub fn add_link(&mut self, link: Link) -> (done: Result<(), ParseError>)
        requires
            old(self).inv(),
        ensures
            final(self).inv(),
            match done {
                Ok(()) => resolve_link(old(self).graph(), link@) == Ok::<_, ParseErrorView>(
                    final(self).graph(),
                ),
                Err(e) => resolve_link(old(self).graph(), link@) == Err::<GraphView, _>(e@)
                    && final(self).graph() == old(self).graph(),
            },
    {
        proof {
            assert(self.flat@.segs.len() == self.flat.segs.len());
            lemma_first_named(self.flat@.segs, link.from_seg);
            lemma_first_named(self.flat@.segs, link.to_seg);
        }
        let from = match self.seg_ids.get(link.from_seg) {
            Some(id) => Handle::new(id, link.from_orient),
            None => {
                return Err(ParseError::UnknownSegment(link.from_seg));
            },
        };
        let to = match self.seg_ids.get(link.to_seg) {
            Some(id) => Handle::new(id, link.to_orient),
            None => {
                return Err(ParseError::UnknownSegment(link.to_seg));
            },
        };
        self.flat.add_link(from, to, link.overlap);
        Ok(())
    }

    /// Resolve the names in the steps of a path and add it to the graph.
    pub fn add_path(&mut self, path: Path) -> (done: Result<(), ParseError>)
        requires
            old(self).inv(),
        ensures
            final(self).inv(),
            match done {
                Ok(()) => resolve_path(old(self).graph(), path@) == Ok::<_, ParseErrorView>(
                    final(self).graph(),
                ),
                Err(e) => resolve_path(old(self).graph(), path@) == Err::<GraphView, _>(e@)
                    && final(self).graph() == old(self).graph(),
            },
    {
        proof {
            assert(self.flat@.segs.len() == self.flat.segs.len());
        }
        let mut steps: Vec<Handle> = Vec::new();
        let mut i: usize = 0;
        while i < path.steps.len()
            invariant
                i <= path.steps@.len(),
                self.inv(),
                *self == *old(self),
                self.flat@.segs.len() <= usize::MAX,
                forall|name: usize| #[trigger] self.seg_ids@.get(name) == self.flat@.find_seg(name),
                forall|k: int| 0 <= k < steps@.len() ==> (#[trigger] steps@[k]).segment
                    < self.flat@.segs.len(),
                resolve_steps_from(self.flat@, path.steps@, i as int, steps@) == resolve_steps_from(
                    self.flat@,
                    path.steps@,
                    0,
                    Seq::empty(),
                ),
            decreases path.steps@.len() - i,
        {
            let (name, orient) = path.steps[i];
            proof {
                lemma_first_named(self.flat@.segs, name);
            }
            match self.seg_ids.get(name) {
                Some(id) => {
                    steps.push(Handle::new(id, orient));
                },
                None => {
                    return Err(ParseError::UnknownSegment(name));
                },
            }
            i += 1;
        }
        self.flat.add_path(path.name, steps, path.overlaps);
        Ok(())
    }

    /// Finish: add the links and the paths that were set aside, now that
    /// all the segments are known, and hand out the graph.
    pub fn finish(self, deferred: Deferred) -> (parsed: Result<FlatGFA, ParseError>)
        requires
            self.inv(),
        ensures
            match parsed {
                Ok(g) => resolve_all(self.ingested(deferred)) == Ok::<_, ParseErrorView>(g@)
                    && g@.wf() && g@.handles_valid() && fits(g@),
                Err(e) => resolve_all(self.ingested(deferred)) == Err::<GraphView, _>(e@),
            },
    {
        let mut parser = self;
        let ghost st = self.ingested(deferred);
        for link in it: deferred.links
            invariant
                parser.inv(),
                st == self.ingested(deferred),
                st.links == links_view(it.seq()),
                resolve_links_from(parser.graph(), st.links, it.index() as int)
                    == resolve_links_from(st.graph, st.links, 0),
        {
            match parser.add_link(link) {
                Ok(()) => {},
                Err(e) => {
                    return Err(e);
                },
            }
        }
        let ghost linked = parser.graph();
        for path in it: deferred.paths
            invariant
                parser.inv(),
                st == self.ingested(deferred),
                st.paths == paths_view(it.seq()),
                resolve_links_from(st.graph, st.links, 0) == Ok::<_, ParseErrorView>(linked),
                resolve_paths_from(parser.graph(), st.paths, it.index() as int)
                    == resolve_paths_from(linked, st.paths, 0),
        {
            match parser.add_path(path) {
                Ok(()) => {},
                Err(e) => {
                    return Err(e);
                },
            }
        }
        note_fits(&parser.flat);
        Ok(parser.flat)
    }
}

} // verus!
