//! The graph data model: segments, paths, links and the pools that hold them.

use crate::bytestr::{bstr_bytes, bstring_bytes, bstring_from, bstring_vec_mut};
use crate::pool::{pool_append, pool_push, range_within};
use bstr::{BStr, BString};
use std::ops::Range;
use vstd::prelude::*;

verus! {

/// A node of the graph, carrying a sequence of bases.
#[derive(Debug, PartialEq, Eq)]
pub struct Segment {
    /// The name the input gave this segment.
    pub name: usize,
    /// Where the bases are, in the pool of sequence bytes.
    pub seq: Range<usize>,
    /// Where the optional fields are, in the pool of optional bytes.
    pub optional: Range<usize>,
}

/// An ordered walk through the graph.
#[derive(Debug, PartialEq, Eq)]
pub struct Path {
    /// Where the name is, in the pool of name bytes.
    pub name: Range<usize>,
    /// Where the steps are, in the pool of steps.
    pub steps: Range<usize>,
    /// Where the overlaps are, in the pool of overlap descriptors.
    pub overlaps: Range<usize>,
}

/// An edge between two oriented segments.
#[derive(Debug, PartialEq, Eq)]
pub struct Link {
    pub from: Handle,
    pub to: Handle,
    /// Where the overlap's operations are, in the pool of alignment
    /// operations.
    pub overlap: Range<usize>,
}

/// The direction in which a segment is traversed.
#[derive(Debug, Clone, Copy, PartialEq, Eq)]
pub enum Orientation {
    Forward,
    Backward,
}

/// A segment together with the direction in which it is traversed.
#[derive(Debug, Clone, Copy, PartialEq, Eq)]
pub struct Handle {
    /// The id of the segment: its index in the pool of segments.
    pub segment: usize,
    pub orient: Orientation,
}

/// The kind of one operation of an alignment.
#[derive(Debug, Clone, Copy, PartialEq, Eq)]
pub enum AlignOpcode {
    /// Written `M`.
    Match,
    /// Written `N`.
    Gap,
    /// Written `D`.
    Insertion,
    /// Written `I`.
    Deletion,
}

/// One run of an alignment: an operation and the number of bases it covers.
#[derive(Debug, Clone, Copy, PartialEq, Eq)]
pub struct AlignOp {
    pub op: AlignOpcode,
    pub len: u32,
}

/// An alignment: a sequence of operations, borrowed from the graph.
#[derive(Debug)]
pub struct Alignment<'a> {
    pub ops: &'a [AlignOp],
}

/// The kind of a line of the text the graph was read from.
#[derive(Debug, Clone, Copy, PartialEq, Eq)]
pub enum LineKind {
    Header,
    Segment,
    Path,
    Link,
}

/// A graph in flat form: every variable-length datum lives in a pool.
#[derive(Debug)]
pub struct FlatGFA {
    /// The text of the header line, if the graph has one.
    pub header: Option<BString>,
    pub segs: Vec<Segment>,
    pub paths: Vec<Path>,
    pub links: Vec<Link>,
    /// The steps of all the paths, one path after another.
    pub steps: Vec<Handle>,
    /// The bases of all the segments.
    pub seqdata: Vec<u8>,
    /// The overlaps of all the paths: each is a range of `alignment`.
    pub overlaps: Vec<Range<usize>>,
    /// The operations of all the overlaps, of links and of paths.
    pub alignment: Vec<AlignOp>,
    /// The names of all the paths.
    pub namedata: BString,
    /// The optional fields of all the segments.
    pub optional_data: BString,
    /// The kinds of the lines read, in the order of the text.
    pub line_order: Vec<LineKind>,
}

/// What a graph holds, as mathematical sequences.
pub struct GraphView {
    pub header: Option<Seq<u8>>,
    pub segs: Seq<Segment>,
    pub paths: Seq<Path>,
    pub links: Seq<Link>,
    pub steps: Seq<Handle>,
    pub seqdata: Seq<u8>,
    pub overlaps: Seq<Range<usize>>,
    pub alignment: Seq<AlignOp>,
    pub namedata: Seq<u8>,
    pub optional_data: Seq<u8>,
    pub line_order: Seq<LineKind>,
}

/// The views of the vectors of a list of alignments.
pub open spec fn alignments_view(overlaps: Seq<Vec<AlignOp>>) -> Seq<Seq<AlignOp>> {
    Seq::new(overlaps.len(), |i: int| overlaps[i]@)
}

/// The total number of operations in a list of alignments.
pub open spec fn total_ops(overlaps: Seq<Seq<AlignOp>>) -> nat
    decreases overlaps.len(),
{
    if overlaps.len() == 0 {
        0
    } else {
        total_ops(overlaps.drop_last()) + overlaps.last().len()
    }
}

/// All the operations of a list of alignments, one alignment after another.
pub open spec fn concat_ops(overlaps: Seq<Seq<AlignOp>>) -> Seq<AlignOp>
    decreases overlaps.len(),
{
    if overlaps.len() == 0 {
        Seq::empty()
    } else {
        concat_ops(overlaps.drop_last()) + overlaps.last()
    }
}

/// The range that the alignment at index `i` takes once the whole list has
/// been appended to a pool that held `base` operations.
pub open spec fn overlap_range(overlaps: Seq<Seq<AlignOp>>, base: nat, i: int) -> Range<usize> {
    let start = base + total_ops(overlaps.take(i));
    Range { start: start as usize, end: (start + overlaps[i].len()) as usize }
}

/// The descriptors of a list of alignments appended to a pool that held
/// `base` operations.
pub open spec fn overlap_ranges(overlaps: Seq<Seq<AlignOp>>, base: nat) -> Seq<Range<usize>> {
    Seq::new(overlaps.len(), |i: int| overlap_range(overlaps, base, i))
}

/// All the operations of a list of alignments are as many as its total.
pub proof fn lemma_concat_ops_len(overlaps: Seq<Seq<AlignOp>>)
    ensures
        concat_ops(overlaps).len() == total_ops(overlaps),
    decreases overlaps.len(),
{
    if overlaps.len() > 0 {
        lemma_concat_ops_len(overlaps.drop_last());
    }
}

/// A prefix of a list of alignments holds no more operations than the list.
pub proof fn lemma_total_ops_prefix(overlaps: Seq<Seq<AlignOp>>, i: int)
    requires
        0 <= i <= overlaps.len(),
    ensures
        total_ops(overlaps.take(i)) <= total_ops(overlaps),
        i < overlaps.len() ==> total_ops(overlaps.take(i)) + overlaps[i].len() <= total_ops(
            overlaps,
        ),
    decreases overlaps.len(),
{
    if i == overlaps.len() {
        assert(overlaps.take(i) == overlaps);
    } else if i == overlaps.len() - 1 {
        assert(overlaps.take(i) == overlaps.drop_last());
    } else {
        lemma_total_ops_prefix(overlaps.drop_last(), i);
        assert(overlaps.drop_last().take(i) == overlaps.take(i));
    }
}

/// Every descriptor made for a list of alignments lies inside the pool of
/// operations once the list has been appended to it.
pub proof fn lemma_overlap_ranges_within(overlaps: Seq<Seq<AlignOp>>, base: nat, i: int)
    requires
        0 <= i < overlaps.len(),
        base + total_ops(overlaps) <= usize::MAX,
    ensures
        range_within(overlap_range(overlaps, base, i), base + total_ops(overlaps)),
        overlap_range(overlaps, base, i).start == base + total_ops(overlaps.take(i)),
        overlap_range(overlaps, base, i).end == base + total_ops(overlaps.take(i))
            + overlaps[i].len(),
{
    lemma_total_ops_prefix(overlaps, i);
}

impl GraphView {
    /// The graph with nothing in it.
    pub open spec fn empty() -> GraphView {
        GraphView {
            header: None,
            segs: Seq::empty(),
            paths: Seq::empty(),
            links: Seq::empty(),
            steps: Seq::empty(),
            seqdata: Seq::empty(),
            overlaps: Seq::empty(),
            alignment: Seq::empty(),
            namedata: Seq::empty(),
            optional_data: Seq::empty(),
            line_order: Seq::empty(),
        }
    }

    /// Every range stored in the graph lies inside the pool it points into.
    pub open spec fn wf(self) -> bool {
        &&& forall|i: int|
            0 <= i < self.segs.len() ==> {
                &&& range_within((#[trigger] self.segs[i]).seq, self.seqdata.len())
                &&& range_within(self.segs[i].optional, self.optional_data.len())
            }
        &&& forall|i: int|
            0 <= i < self.paths.len() ==> {
                &&& range_within((#[trigger] self.paths[i]).name, self.namedata.len())
                &&& range_within(self.paths[i].steps, self.steps.len())
                &&& range_within(self.paths[i].overlaps, self.overlaps.len())
            }
        &&& forall|i: int|
            0 <= i < self.links.len() ==> range_within(
                (#[trigger] self.links[i]).overlap,
                self.alignment.len(),
            )
        &&& forall|i: int|
            0 <= i < self.overlaps.len() ==> range_within(
                #[trigger] self.overlaps[i],
                self.alignment.len(),
            )
    }

    /// Every handle stored in the graph names a segment of the graph.
    pub open spec fn handles_valid(self) -> bool {
        &&& forall|i: int|
            0 <= i < self.links.len() ==> {
                &&& (#[trigger] self.links[i]).from.segment < self.segs.len()
                &&& self.links[i].to.segment < self.segs.len()
            }
        &&& forall|i: int|
            0 <= i < self.steps.len() ==> (#[trigger] self.steps[i]).segment < self.segs.len()
    }

    /// The graph once a header has been set.
    pub open spec fn add_header(self, version: Seq<u8>) -> GraphView {
        GraphView { header: Some(version), ..self }
    }

    /// The graph once a segment has been added.
    pub open spec fn add_seg(self, name: usize, seq: Seq<u8>, optional: Seq<u8>) -> GraphView {
        let seg = Segment {
            name,
            seq: Range {
                start: self.seqdata.len() as usize,
                end: (self.seqdata.len() + seq.len()) as usize,
            },
            optional: Range {
                start: self.optional_data.len() as usize,
                end: (self.optional_data.len() + optional.len()) as usize,
            },
        };
        GraphView {
            segs: self.segs.push(seg),
            seqdata: self.seqdata + seq,
            optional_data: self.optional_data + optional,
            ..self
        }
    }

    /// The graph once a link has been added.
    pub open spec fn add_link(self, from: Handle, to: Handle, overlap: Seq<AlignOp>) -> GraphView {
        let link = Link {
            from,
            to,
            overlap: Range {
                start: self.alignment.len() as usize,
                end: (self.alignment.len() + overlap.len()) as usize,
            },
        };
        GraphView { links: self.links.push(link), alignment: self.alignment + overlap, ..self }
    }

    /// The graph once a path has been added. The alignments are laid out in
    /// the pool of operations one after another, and each gets a descriptor.
    pub open spec fn add_path(
        self,
        name: Seq<u8>,
        steps: Seq<Handle>,
        overlaps: Seq<Seq<AlignOp>>,
    ) -> GraphView {
        let path = Path {
            name: Range {
                start: self.namedata.len() as usize,
                end: (self.namedata.len() + name.len()) as usize,
            },
            steps: Range {
                start: self.steps.len() as usize,
                end: (self.steps.len() + steps.len()) as usize,
            },
            overlaps: Range {
                start: self.overlaps.len() as usize,
                end: (self.overlaps.len() + overlaps.len()) as usize,
            },
        };
        GraphView {
            paths: self.paths.push(path),
            namedata: self.namedata + name,
            steps: self.steps + steps,
            overlaps: self.overlaps + overlap_ranges(overlaps, self.alignment.len()),
            alignment: self.alignment + concat_ops(overlaps),
            ..self
        }
    }

    /// The graph once one more line has been noted.
    pub open spec fn record_line(self, kind: LineKind) -> GraphView {
        GraphView { line_order: self.line_order.push(kind), ..self }
    }

    /// The bases of a segment.
    pub open spec fn seq_of(self, seg: Segment) -> Seq<u8> {
        self.seqdata.subrange(seg.seq.start as int, seg.seq.end as int)
    }

    /// The optional fields of a segment.
    pub open spec fn optional_of(self, seg: Segment) -> Seq<u8> {
        self.optional_data.subrange(seg.optional.start as int, seg.optional.end as int)
    }

    /// The steps of a path.
    pub open spec fn steps_of(self, path: Path) -> Seq<Handle> {
        self.steps.subrange(path.steps.start as int, path.steps.end as int)
    }

    /// The overlap descriptors of a path.
    pub open spec fn overlaps_of(self, path: Path) -> Seq<Range<usize>> {
        self.overlaps.subrange(path.overlaps.start as int, path.overlaps.end as int)
    }

    /// The name of a path.
    pub open spec fn path_name_of(self, path: Path) -> Seq<u8> {
        self.namedata.subrange(path.name.start as int, path.name.end as int)
    }

    /// The operations that an overlap descriptor stands for.
    pub open spec fn alignment_of(self, overlap: Range<usize>) -> Seq<AlignOp> {
        self.alignment.subrange(overlap.start as int, overlap.end as int)
    }

    /// The id of the first segment with the given name, if there is one.
    pub open spec fn find_seg(self, name: usize) -> Option<usize> {
        first_named(self.segs, name)
    }

    /// The number of bases of the segment with the given id.
    pub open spec fn seg_len(self, id: int) -> nat {
        range_len(self.segs[id].seq)
    }
}

/// The number of items in a range: none where it ends before it starts.
pub open spec fn range_len(r: Range<usize>) -> nat {
    if r.start <= r.end {
        (r.end - r.start) as nat
    } else {
        0
    }
}

/// The index of the first segment with the given name, if there is one.
pub open spec fn first_named(segs: Seq<Segment>, name: usize) -> Option<usize>
    decreases segs.len(),
{
    if segs.len() == 0 {
        None
    } else {
        match first_named(segs.drop_last(), name) {
            Some(i) => Some(i),
            None => if segs.last().name == name {
                Some((segs.len() - 1) as usize)
            } else {
                None
            },
        }
    }
}

/// What `first_named` finds: a segment with that name, before which there is
/// none; or nothing, where no segment has that name.
pub proof fn lemma_first_named(segs: Seq<Segment>, name: usize)
    requires
        segs.len() <= usize::MAX,
    ensures
        match first_named(segs, name) {
            Some(i) => i < segs.len() && segs[i as int].name == name && forall|j: int|
                0 <= j < i ==> (#[trigger] segs[j]).name != name,
            None => forall|j: int| 0 <= j < segs.len() ==> (#[trigger] segs[j]).name != name,
        },
    decreases segs.len(),
{
    if segs.len() > 0 {
        lemma_first_named(segs.drop_last(), name);
        assert forall|j: int| 0 <= j < segs.len() - 1 implies segs[j] == segs.drop_last()[j] by {}
    }
}

/// The first segment with a given name is the first one in any prefix that
/// holds one.
pub proof fn lemma_first_named_prefix(segs: Seq<Segment>, name: usize, k: int)
    requires
        0 <= k <= segs.len(),
        first_named(segs.take(k), name) is Some,
    ensures
        first_named(segs, name) == first_named(segs.take(k), name),
    decreases segs.len() - k,
{
    if k < segs.len() {
        assert(segs.take(k + 1).drop_last() == segs.take(k));
        lemma_first_named_prefix(segs, name, k + 1);
    } else {
        assert(segs.take(k) == segs);
    }
}

impl View for FlatGFA {
    type V = GraphView;

    open spec fn view(&self) -> GraphView {
        GraphView {
            header: match self.header {
                Some(h) => Some(bstring_bytes(h)),
                None => None,
            },
            segs: self.segs@,
            paths: self.paths@,
            links: self.links@,
            steps: self.steps@,
            seqdata: self.seqdata@,
            overlaps: self.overlaps@,
            alignment: self.alignment@,
            namedata: bstring_bytes(self.namedata),
            optional_data: bstring_bytes(self.optional_data),
            line_order: self.line_order@,
        }
    }
}

impl Handle {
    /// A handle on a segment, in a direction.
    pub fn new(segment: usize, orient: Orientation) -> (h: Handle)
        ensures
            h == (Handle { segment, orient }),
    {
        Handle { segment, orient }
    }
}

impl Segment {
    /// The number of bases in the segment.
    pub fn len(&self) -> (n: usize)
        ensures
            n == range_len(self.seq),
    {
        if self.seq.start <= self.seq.end {
            self.seq.end - self.seq.start
        } else {
            0
        }
    }
}

impl Default for FlatGFA {
    fn default() -> (g: FlatGFA)
        ensures
            g@ == GraphView::empty(),
            g@.wf(),
    {
        FlatGFA::new()
    }
}

impl FlatGFA {
    /// A graph with nothing in it.
    pub fn new() -> (g: FlatGFA)
        ensures
            g@ == GraphView::empty(),
            g@.wf(),
    {
        FlatGFA {
            header: None,
            segs: Vec::new(),
            paths: Vec::new(),
            links: Vec::new(),
            steps: Vec::new(),
            seqdata: Vec::new(),
            overlaps: Vec::new(),
            alignment: Vec::new(),
            namedata: bstring_from(Vec::new()),
            optional_data: bstring_from(Vec::new()),
            line_order: Vec::new(),
        }
    }

    /// The bases of a segment.
    pub fn get_seq(&self, seg: &Segment) -> (bytes: &BStr)
        requires
            range_within(seg.seq, self@.seqdata.len()),
        ensures
            bstr_bytes(bytes) == self@.seq_of(*seg),
    {
        self.as_view().get_seq(seg)
    }

    /// The steps of a path.
    pub fn get_steps(&self, path: &Path) -> (steps: &[Handle])
        requires
            range_within(path.steps, self@.steps.len()),
        ensures
            steps@ == self@.steps_of(*path),
    {
        vstd::slice::slice_subrange(self.steps.as_slice(), path.steps.start, path.steps.end)
    }

    /// The overlap descriptors of a path, one for each overlap.
    pub fn get_overlaps(&self, path: &Path) -> (overlaps: &[Range<usize>])
        requires
            range_within(path.overlaps, self@.overlaps.len()),
        ensures
            overlaps@ == self@.overlaps_of(*path),
    {
        vstd::slice::slice_subrange(
            self.overlaps.as_slice(),
            path.overlaps.start,
            path.overlaps.end,
        )
    }

    /// The name of a path.
    pub fn get_path_name(&self, path: &Path) -> (bytes: &BStr)
        requires
            range_within(path.name, self@.namedata.len()),
        ensures
            bstr_bytes(bytes) == self@.path_name_of(*path),
    {
        self.as_view().get_path_name(path)
    }

    /// The optional fields of a segment.
    pub fn get_optional_data(&self, seg: &Segment) -> (bytes: &BStr)
        requires
            range_within(seg.optional, self@.optional_data.len()),
        ensures
            bstr_bytes(bytes) == self@.optional_of(*seg),
    {
        self.as_view().get_optional_data(seg)
    }

    /// The alignment that an overlap descriptor stands for.
    pub fn get_alignment(&self, overlap: &Range<usize>) -> (alignment: Alignment<'_>)
        requires
            range_within(*overlap, self@.alignment.len()),
        ensures
            alignment.ops@ == self@.alignment_of(*overlap),
    {
        Alignment {
            ops: vstd::slice::slice_subrange(
                self.alignment.as_slice(),
                overlap.start,
                overlap.end,
            ),
        }
    }

    /// The id of the first segment with the given name, if there is one.
    pub fn find_seg(&self, name: usize) -> (found: Option<usize>)
        ensures
            found == self@.find_seg(name),
            found matches Some(id) ==> id < self@.segs.len() && self@.segs[id as int].name
                == name,
    {
        self.as_view().find_seg(name)
    }

    /// Whether every range stored in the graph lies inside its pool.
    pub fn is_valid(&self) -> (ok: bool)
        ensures
            ok == self@.wf(),
    {
        self.as_view().is_valid()
    }

    /// Set the header. A graph has at most one.
    pub fn add_header(&mut self, version: Vec<u8>)
        requires
            old(self)@.header is None,
        ensures
            final(self)@ == old(self)@.add_header(version@),
            old(self)@.wf() ==> final(self)@.wf(),
    {
        self.header = Some(bstring_from(version));
    }

    /// Add a segment and get its id.
    pub fn add_seg(&mut self, name: usize, seq: Vec<u8>, optional: Vec<u8>) -> (id: usize)
        ensures
            final(self)@ == old(self)@.add_seg(name, seq@, optional@),
            id == old(self)@.segs.len(),
            old(self)@.wf() ==> final(self)@.wf(),
    {
        let seq_range = pool_append(&mut self.seqdata, seq);
        let optional_range = pool_append(bstring_vec_mut(&mut self.optional_data), optional);
        pool_push(&mut self.segs, Segment { name, seq: seq_range, optional: optional_range })
    }

    /// Add a path and get its id. Each alignment of `overlaps` goes into the
    /// pool of operations, and a descriptor for it into the pool of overlaps.
    pub fn add_path(&mut self, name: Vec<u8>, steps: Vec<Handle>, overlaps: Vec<Vec<AlignOp>>) -> (id:
        usize)
        ensures
            final(self)@ == old(self)@.add_path(name@, steps@, alignments_view(overlaps@)),
            id == old(self)@.paths.len(),
            old(self)@.wf() ==> final(self)@.wf(),
    {
        let ghost all = alignments_view(overlaps@);
        let ghost base = self.alignment@.len();
        let first = self.overlaps.len();
        for ops in it: overlaps
            invariant
                all == alignments_view(it.seq()),
                base == old(self)@.alignment.len(),
                first == old(self)@.overlaps.len(),
                self.overlaps@ == old(self)@.overlaps + overlap_ranges(all, base).take(
                    it.index() as int,
                ),
                self.alignment@ == old(self)@.alignment + concat_ops(all.take(it.index() as int)),
                self.alignment@.len() == base + total_ops(all.take(it.index() as int)),
                self.header == old(self).header,
                self.segs == old(self).segs,
                self.paths == old(self).paths,
                self.links == old(self).links,
                self.steps == old(self).steps,
                self.seqdata == old(self).seqdata,
                self.namedata == old(self).namedata,
                self.optional_data == old(self).optional_data,
                self.line_order == old(self).line_order,
        {
            proof {
                let i = it.index() as int;
                assert(all.take(i + 1).drop_last() == all.take(i));
                assert(all.take(i + 1).last() == ops@);
            }
            let range = pool_append(&mut self.alignment, ops);
            pool_push(&mut self.overlaps, range);
            proof {
                let i = it.index() as int;
                assert(overlap_ranges(all, base).take(i + 1) == overlap_ranges(all, base).take(
                    i,
                ).push(range));
            }
        }
        proof {
            assert(all.take(all.len() as int) == all);
            assert(overlap_ranges(all, base).take(all.len() as int) == overlap_ranges(all, base));
            assert(self.alignment@.len() == self.alignment.len());
            assert forall|k: int| 0 <= k < all.len() implies range_within(
                #[trigger] overlap_ranges(all, base)[k],
                base + total_ops(all),
            ) by {
                lemma_overlap_ranges_within(all, base, k);
            }
        }
        let last = self.overlaps.len();
        let name_range = pool_append(bstring_vec_mut(&mut self.namedata), name);
        let steps_range = pool_append(&mut self.steps, steps);
        pool_push(
            &mut self.paths,
            Path { name: name_range, steps: steps_range, overlaps: first..last },
        )
    }

    /// Add a link and get its id.
    pub fn add_link(&mut self, from: Handle, to: Handle, overlap: Vec<AlignOp>) -> (id: usize)
        ensures
            final(self)@ == old(self)@.add_link(from, to, overlap@),
            id == old(self)@.links.len(),
            old(self)@.wf() ==> final(self)@.wf(),
    {
        let overlap_range = pool_append(&mut self.alignment, overlap);
        pool_push(&mut self.links, Link { from, to, overlap: overlap_range })
    }

    /// Note the kind of one more line of the text.
    pub fn record_line(&mut self, kind: LineKind)
        ensures
            final(self)@ == old(self)@.record_line(kind),
            old(self)@.wf() ==> final(self)@.wf(),
    {
        self.line_order.push(kind);
    }
}

} // verus!
