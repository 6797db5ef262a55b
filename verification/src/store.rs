//! One way to read a graph, wherever its pools lie.
//!
//! A graph is either held in memory, where each pool is a vector of
//! records, or it lies in one block of bytes, such as a mapped file, where
//! each pool is a stretch of the block. A view borrows the pools of either
//! and reads both in the same way.

use crate::bytestr::{as_bstr, bstr_bytes, bstring_from, bstring_vec};
use crate::flatgfa::{
    first_named, lemma_first_named, lemma_first_named_prefix, AlignOp, FlatGFA, GraphView, Handle, LineKind, Link,
    Path, Segment,
};
use crate::pool::{range_ok, range_within};
use crate::record::{decode_all, encode_all, lemma_stretch_inside, Record};
use bstr::BStr;
use std::ops::Range;
use vstd::prelude::*;
use vstd::slice::{slice_subrange, slice_to_vec};

verus! {

/// A pool of records, borrowed: either records held in memory, or the bytes
/// that records were written as.
pub struct Records<'a, T: Record> {
    /// The records, where they are held in memory.
    held: &'a [T],
    /// The bytes, where the records lie in a block of bytes.
    bytes: &'a [u8],
    /// Whether the records lie in a block of bytes.
    mapped: bool,
}

impl<'a, T: Record> Records<'a, T> {
    /// The records of the pool.
    pub closed spec fn view(&self) -> Seq<T> {
        if self.mapped {
            decode_all::<T>(self.bytes@)
        } else {
            self.held@
        }
    }

    /// The pool of some records held in memory.
    pub fn held(items: &'a [T]) -> (pool: Self)
        ensures
            pool@ == items@,
    {
        let bytes: &'a [u8] = &[];
        Records { held: items, bytes, mapped: false }
    }

    /// The pool that lies in a stretch of bytes. No record is read yet.
    pub fn mapped(bytes: &'a [u8]) -> (pool: Self)
        ensures
            pool@ == decode_all::<T>(bytes@),
    {
        let held: &'a [T] = &[];
        Records { held, bytes, mapped: true }
    }

    /// The number of records in the pool.
    pub fn len(&self) -> (n: usize)
        ensures
            n == self@.len(),
    {
        if self.mapped {
            self.bytes.len() / T::size()
        } else {
            self.held.len()
        }
    }

    /// The record with index `i`.
    pub fn get(&self, i: usize) -> (record: T)
        requires
            i < self@.len(),
        ensures
            record == self@[i as int],
    {
        if self.mapped {
            let size = T::size();
            proof {
                assert(self.bytes@.len() == self.bytes.len());
                lemma_stretch_inside(i as int, self.bytes@.len() as int, size as int);
            }
            let start = i * size;
            T::decode(slice_subrange(self.bytes, start, start + size))
        } else {
            self.held[i].duplicate()
        }
    }
}

/// A graph, borrowed for reading: its pools, wherever they lie.
pub struct FlatView<'a> {
    /// The text of the header line, if the graph has one.
    pub header: Option<&'a [u8]>,
    pub segs: Records<'a, Segment>,
    pub paths: Records<'a, Path>,
    pub links: Records<'a, Link>,
    /// The steps of all the paths, one path after another.
    pub steps: Records<'a, Handle>,
    /// The bases of all the segments.
    pub seqdata: &'a [u8],
    /// The overlaps of all the paths: each is a range of `alignment`.
    pub overlaps: Records<'a, Range<usize>>,
    /// The operations of all the overlaps, of links and of paths.
    pub alignment: Records<'a, AlignOp>,
    /// The names of all the paths.
    pub namedata: &'a [u8],
    /// The optional fields of all the segments.
    pub optional_data: &'a [u8],
    /// The kinds of the lines read, in the order of the text.
    pub line_order: Records<'a, LineKind>,
}

impl<'a> View for FlatView<'a> {
    type V = GraphView;

    open spec fn view(&self) -> GraphView {
        GraphView {
            header: match self.header {
                Some(text) => Some(text@),
                None => None,
            },
            segs: self.segs@,
            paths: self.paths@,
            links: self.links@,
            steps: self.steps@,
            seqdata: self.seqdata@,
            overlaps: self.overlaps@,
            alignment: self.alignment@,
            namedata: self.namedata@,
            optional_data: self.optional_data@,
            line_order: self.line_order@,
        }
    }
}

impl FlatGFA {
    /// The graph, borrowed for reading.
    pub fn as_view(&self) -> (view: FlatView<'_>)
        ensures
            view@ == self@,
    {
        FlatView {
            header: match &self.header {
                Some(text) => Some(bstring_vec(text).as_slice()),
                None => None,
            },
            segs: Records::held(self.segs.as_slice()),
            paths: Records::held(self.paths.as_slice()),
            links: Records::held(self.links.as_slice()),
            steps: Records::held(self.steps.as_slice()),
            seqdata: self.seqdata.as_slice(),
            overlaps: Records::held(self.overlaps.as_slice()),
            alignment: Records::held(self.alignment.as_slice()),
            namedata: bstring_vec(&self.namedata).as_slice(),
            optional_data: bstring_vec(&self.optional_data).as_slice(),
            line_order: Records::held(self.line_order.as_slice()),
        }
    }
}

/// Write the records of a pool, one after another.
pub fn encode_records<T: Record>(pool: &Records<'_, T>, out: &mut Vec<u8>)
    ensures
        final(out)@ == old(out)@ + encode_all(pool@),
{
    let count = pool.len();
    let mut i: usize = 0;
    proof {
        assert(pool@.take(0) == Seq::<T>::empty());
        assert(old(out)@ + Seq::<u8>::empty() == old(out)@);
    }
    while i < count
        invariant
            count == pool@.len(),
            i <= count,
            out@ == old(out)@ + encode_all(pool@.take(i as int)),
        decreases count - i,
    {
        let ghost before = out@;
        let record = pool.get(i);
        record.encode(out);
        proof {
            let longer = pool@.take(i + 1);
            assert(longer.drop_last() == pool@.take(i as int));
            assert(longer.last() == pool@[i as int]);
            assert(before + record.encoding() == old(out)@ + (encode_all(pool@.take(i as int))
                + record.encoding()));
        }
        i += 1;
    }
    proof {
        assert(pool@.take(i as int) == pool@);
    }
}

/// Copy a run of records out of a pool.
pub fn copy_range<T: Record>(pool: &Records<'_, T>, range: &Range<usize>) -> (items: Vec<T>)
    requires
        range_within(*range, pool@.len()),
    ensures
        items@ == pool@.subrange(range.start as int, range.end as int),
{
    let mut items: Vec<T> = Vec::new();
    let mut i: usize = range.start;
    while i < range.end
        invariant
            range.start <= i <= range.end <= pool@.len(),
            items@ == pool@.subrange(range.start as int, i as int),
        decreases range.end - i,
    {
        items.push(pool.get(i));
        proof {
            assert(pool@.subrange(range.start as int, i + 1) == pool@.subrange(
                range.start as int,
                i as int,
            ).push(pool@[i as int]));
        }
        i += 1;
    }
    items
}

/// Copy all the records of a pool.
pub fn copy_all<T: Record>(pool: &Records<'_, T>) -> (items: Vec<T>)
    ensures
        items@ == pool@,
{
    let count = pool.len();
    proof {
        assert(pool@.subrange(0, count as int) == pool@);
    }
    copy_range(pool, &(0..count))
}

impl<'a> FlatView<'a> {
    /// A graph held in memory with the contents of this one.
    pub fn to_heap(&self) -> (gfa: FlatGFA)
        ensures
            gfa@ == self@,
    {
        FlatGFA {
            header: match self.header {
                Some(text) => Some(bstring_from(slice_to_vec(text))),
                None => None,
            },
            segs: copy_all(&self.segs),
            paths: copy_all(&self.paths),
            links: copy_all(&self.links),
            steps: copy_all(&self.steps),
            seqdata: slice_to_vec(self.seqdata),
            overlaps: copy_all(&self.overlaps),
            alignment: copy_all(&self.alignment),
            namedata: bstring_from(slice_to_vec(self.namedata)),
            optional_data: bstring_from(slice_to_vec(self.optional_data)),
            line_order: copy_all(&self.line_order),
        }
    }

    /// The bases of a segment.
    pub fn get_seq(&self, seg: &Segment) -> (bytes: &'a BStr)
        requires
            range_within(seg.seq, self@.seqdata.len()),
        ensures
            bstr_bytes(bytes) == self@.seq_of(*seg),
    {
        as_bstr(slice_subrange(self.seqdata, seg.seq.start, seg.seq.end))
    }

    /// The steps of a path.
    pub fn get_steps(&self, path: &Path) -> (steps: Vec<Handle>)
        requires
            range_within(path.steps, self@.steps.len()),
        ensures
            steps@ == self@.steps_of(*path),
    {
        copy_range(&self.steps, &path.steps)
    }

    /// The overlap descriptors of a path, one for each overlap.
    pub fn get_overlaps(&self, path: &Path) -> (overlaps: Vec<Range<usize>>)
        requires
            range_within(path.overlaps, self@.overlaps.len()),
        ensures
            overlaps@ == self@.overlaps_of(*path),
    {
        copy_range(&self.overlaps, &path.overlaps)
    }

    /// The name of a path.
    pub fn get_path_name(&self, path: &Path) -> (bytes: &'a BStr)
        requires
            range_within(path.name, self@.namedata.len()),
        ensures
            bstr_bytes(bytes) == self@.path_name_of(*path),
    {
        as_bstr(slice_subrange(self.namedata, path.name.start, path.name.end))
    }

    /// The optional fields of a segment.
    pub fn get_optional_data(&self, seg: &Segment) -> (bytes: &'a BStr)
        requires
            range_within(seg.optional, self@.optional_data.len()),
        ensures
            bstr_bytes(bytes) == self@.optional_of(*seg),
    {
        as_bstr(slice_subrange(self.optional_data, seg.optional.start, seg.optional.end))
    }

    /// The operations that an overlap descriptor stands for.
    pub fn get_alignment(&self, overlap: &Range<usize>) -> (ops: Vec<AlignOp>)
        requires
            range_within(*overlap, self@.alignment.len()),
        ensures
            ops@ == self@.alignment_of(*overlap),
    {
        copy_range(&self.alignment, overlap)
    }

    /// The id of the first segment with the given name, if there is one.
    pub fn find_seg(&self, name: usize) -> (found: Option<usize>)
        ensures
            found == self@.find_seg(name),
            found matches Some(id) ==> id < self@.segs.len() && self@.segs[id as int].name
                == name,
    {
        let count = self.segs.len();
        proof {
            lemma_first_named(self.segs@, name);
        }
        let mut i: usize = 0;
        while i < count
            invariant
                count == self.segs@.len(),
                i <= count,
                first_named(self.segs@.take(i as int), name) is None,
            decreases count - i,
        {
            proof {
                assert(self.segs@.take(i + 1).drop_last() == self.segs@.take(i as int));
            }
            if self.segs.get(i).name == name {
                proof {
                    lemma_first_named_prefix(self.segs@, name, i + 1);
                }
                return Some(i);
            }
            i += 1;
        }
        proof {
            assert(self.segs@.take(i as int) == self.segs@);
        }
        None
    }

    /// Whether every range stored in the graph lies inside its pool.
    pub fn is_valid(&self) -> (ok: bool)
        ensures
            ok == self@.wf(),
    {
        let seq_len = self.seqdata.len();
        let optional_len = self.optional_data.len();
        let name_len = self.namedata.len();
        let steps_len = self.steps.len();
        let overlaps_len = self.overlaps.len();
        let ops_len = self.alignment.len();
        let count = self.segs.len();
        let mut i: usize = 0;
        while i < count
            invariant
                count == self.segs@.len(),
                seq_len == self@.seqdata.len(),
                optional_len == self@.optional_data.len(),
                i <= count,
                forall|j: int|
                    0 <= j < i ==> {
                        &&& range_within((#[trigger] self.segs@[j]).seq, self@.seqdata.len())
                        &&& range_within(self.segs@[j].optional, self@.optional_data.len())
                    },
            decreases count - i,
        {
            let seg = self.segs.get(i);
            if !(range_ok(&seg.seq, seq_len) && range_ok(&seg.optional, optional_len)) {
                assert(self@.segs[i as int] == seg);
                return false;
            }
            i += 1;
        }
        let count = self.paths.len();
        let mut i: usize = 0;
        while i < count
            invariant
                count == self.paths@.len(),
                name_len == self@.namedata.len(),
                steps_len == self@.steps.len(),
                overlaps_len == self@.overlaps.len(),
                i <= count,
                forall|j: int|
                    0 <= j < i ==> {
                        &&& range_within((#[trigger] self.paths@[j]).name, self@.namedata.len())
                        &&& range_within(self.paths@[j].steps, self@.steps.len())
                        &&& range_within(self.paths@[j].overlaps, self@.overlaps.len())
                    },
            decreases count - i,
        {
            let path = self.paths.get(i);
            if !(range_ok(&path.name, name_len) && range_ok(&path.steps, steps_len) && range_ok(
                &path.overlaps,
                overlaps_len,
            )) {
                assert(self@.paths[i as int] == path);
                return false;
            }
            i += 1;
        }
        let count = self.links.len();
        let mut i: usize = 0;
        while i < count
            invariant
                count == self.links@.len(),
                ops_len == self@.alignment.len(),
                i <= count,
                forall|j: int|
                    0 <= j < i ==> range_within(
                        (#[trigger] self.links@[j]).overlap,
                        self@.alignment.len(),
                    ),
            decreases count - i,
        {
            let link = self.links.get(i);
            if !range_ok(&link.overlap, ops_len) {
                assert(self@.links[i as int] == link);
                return false;
            }
            i += 1;
        }
        let count = self.overlaps.len();
        let mut i: usize = 0;
        while i < count
            invariant
                count == self.overlaps@.len(),
                ops_len == self@.alignment.len(),
                i <= count,
                forall|j: int|
                    0 <= j < i ==> range_within(#[trigger] self.overlaps@[j], self@.alignment.len()),
            decreases count - i,
        {
            let overlap = self.overlaps.get(i);
            if !range_ok(&overlap, ops_len) {
                assert(self@.overlaps[i as int] == overlap);
                return false;
            }
            i += 1;
        }
        true
    }
}

} // verus!
