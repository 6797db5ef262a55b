//! A graph as one block of bytes, and back.
//!
//! The block begins with a table of eleven entries, one for each pool:
//! segments, paths, links, steps, sequence bytes, name bytes, optional
//! bytes, overlaps, alignment operations, line kinds, and the header text.
//! An entry is two 64-bit words, least significant byte first: where the
//! pool starts in the block, and how many bytes it takes. After the table
//! come the pools, in the order of the table. A pool of records of eight
//! bytes or more starts at a multiple of eight, with zero bytes before it
//! where needed. A graph without a header has the entry (0, 0) for it.
//!
//! To read a block is to check its table: every pool must lie after the
//! one before it and inside the block, and take a whole number of items.
//! The pools themselves are read where they lie, item by item as they are
//! asked for, so that a block is opened in the same time whatever it holds.

use crate::flatgfa::{AlignOp, FlatGFA, GraphView, Handle, LineKind, Link, Path, Segment};
use crate::print::push_bytes;
use crate::record::{
    decode_all, encode_all, lemma_encode_all, push_word, read_word, word_at, Record,
};
use crate::store::{encode_records, FlatView, Records};
use std::ops::Range;
use vstd::bytes::{lemma_auto_spec_u64_to_from_le_bytes, spec_u64_to_le_bytes};
use vstd::prelude::*;
use vstd::slice::slice_subrange;

verus! {

/// The number of pools.
pub const POOLS: usize = 11;

/// The number of bytes that the table takes.
pub const TOC_BYTES: usize = 176;

/// The number of bytes that one item of the pool with index `i` takes.
pub open spec fn pool_unit(i: int) -> nat {
    if i == 0 {
        40
    } else if i == 1 || i == 2 {
        48
    } else if i == 3 || i == 7 {
        16
    } else if i == 8 {
        8
    } else {
        1
    }
}

/// The number of which the start of the pool with index `i` is a multiple.
pub open spec fn pool_align(i: int) -> nat {
    if i <= 3 || i == 7 || i == 8 {
        8
    } else {
        1
    }
}

/// The bytes of the pool with index `i`.
pub open spec fn pool_image(g: GraphView, i: int) -> Seq<u8> {
    if i == 0 {
        encode_all(g.segs)
    } else if i == 1 {
        encode_all(g.paths)
    } else if i == 2 {
        encode_all(g.links)
    } else if i == 3 {
        encode_all(g.steps)
    } else if i == 4 {
        g.seqdata
    } else if i == 5 {
        g.namedata
    } else if i == 6 {
        g.optional_data
    } else if i == 7 {
        encode_all(g.overlaps)
    } else if i == 8 {
        encode_all(g.alignment)
    } else if i == 9 {
        encode_all(g.line_order)
    } else {
        match g.header {
            Some(text) => text,
            None => Seq::empty(),
        }
    }
}

/// The number of bytes from `at` to the next multiple of `align`.
pub open spec fn padding(at: nat, align: nat) -> nat {
    if align == 0 || at % align == 0 {
        0
    } else {
        (align - at % align) as nat
    }
}

/// A run of `n` zero bytes.
pub open spec fn zeros(n: nat) -> Seq<u8> {
    Seq::new(n, |i: int| 0u8)
}

/// What follows the table, as far as the first `n` pools go.
pub open spec fn body_upto(g: GraphView, n: int) -> Seq<u8>
    decreases n,
{
    if n <= 0 {
        Seq::empty()
    } else {
        let before = body_upto(g, n - 1);
        before + zeros(padding(TOC_BYTES as nat + before.len(), pool_align(n - 1))) + pool_image(
            g,
            n - 1,
        )
    }
}

/// Where the pool with index `i` starts in the block.
pub open spec fn pool_start(g: GraphView, i: int) -> nat {
    let before = TOC_BYTES as nat + body_upto(g, i).len();
    before + padding(before, pool_align(i))
}

/// The entry of the table for the pool with index `i`: where the pool
/// starts and how many bytes it takes.
pub open spec fn entry_of(g: GraphView, i: int) -> (nat, nat) {
    if i == 10 && g.header is None {
        (0, 0)
    } else {
        (pool_start(g, i), pool_image(g, i).len())
    }
}

/// A number as a word of the table.
pub open spec fn table_word(x: nat) -> Seq<u8> {
    spec_u64_to_le_bytes(x as u64)
}

/// The first `n` entries of the table.
pub open spec fn toc_upto(g: GraphView, n: int) -> Seq<u8>
    decreases n,
{
    if n <= 0 {
        Seq::empty()
    } else {
        toc_upto(g, n - 1) + table_word(entry_of(g, n - 1).0) + table_word(entry_of(g, n - 1).1)
    }
}

/// The graph as one block of bytes.
pub open spec fn image_of(g: GraphView) -> Seq<u8> {
    toc_upto(g, POOLS as int) + body_upto(g, POOLS as int)
}

/// Write zero bytes until the length of `out` is a multiple of `align`.
fn pad_to(out: &mut Vec<u8>, align: usize)
    requires
        align == 1 || align == 8,
    ensures
        final(out)@ == old(out)@ + zeros(padding(old(out)@.len(), align as nat)),
{
    proof {
        assert(out@ + zeros(0) == out@);
    }
    while out.len() % align != 0
        invariant
            align == 1 || align == 8,
            out@.len() <= old(out)@.len() + padding(old(out)@.len(), align as nat),
            out@ == old(out)@ + zeros((out@.len() - old(out)@.len()) as nat),
            padding(out@.len(), align as nat) + out@.len() == padding(
                old(out)@.len(),
                align as nat,
            ) + old(out)@.len(),
        decreases padding(out@.len(), align as nat),
    {
        let ghost before = out@;
        out.push(0);
        proof {
            let n = (before.len() - old(out)@.len()) as nat;
            assert(zeros(n).push(0u8) == zeros(n + 1));
            assert(before.push(0u8) == old(out)@ + zeros(n).push(0u8));
        }
    }
}

/// What has been written once a blank table and the first `n` pools are
/// out, and the entries of those pools are in the table.
pub open spec fn written(g: GraphView, n: int, out: Seq<u8>, toc: Seq<u8>) -> bool {
    &&& out == zeros(TOC_BYTES as nat) + body_upto(g, n)
    &&& toc == toc_upto(g, n)
}

/// Write the pool of records with index `i` after those before it, and its
/// entry into the table.
fn write_pool<T: Record>(
    out: &mut Vec<u8>,
    toc: &mut Vec<u8>,
    align: usize,
    items: &Records<'_, T>,
    Ghost(g): Ghost<GraphView>,
    Ghost(i): Ghost<int>,
)
    requires
        0 <= i < 10,
        align == pool_align(i),
        pool_image(g, i) == encode_all(items@),
        written(g, i, old(out)@, old(toc)@),
    ensures
        written(g, i + 1, final(out)@, final(toc)@),
{
    pad_to(out, align);
    let start = out.len();
    encode_records(items, out);
    let len = out.len() - start;
    push_word(toc, start as u64);
    push_word(toc, len as u64);
    proof {
        let blank = zeros(TOC_BYTES as nat);
        let before = body_upto(g, i);
        let pad = zeros(padding(TOC_BYTES as nat + before.len(), pool_align(i)));
        assert(blank + before + pad + pool_image(g, i) == blank + (before + pad + pool_image(
            g,
            i,
        )));
    }
}

/// Write the pool of bytes with index `i` after those before it, and its
/// entry into the table.
fn write_bytes(
    out: &mut Vec<u8>,
    toc: &mut Vec<u8>,
    bytes: &[u8],
    Ghost(g): Ghost<GraphView>,
    Ghost(i): Ghost<int>,
)
    requires
        4 <= i <= 10,
        pool_align(i) == 1,
        pool_image(g, i) == bytes@,
        i == 10 ==> g.header is Some,
        written(g, i, old(out)@, old(toc)@),
    ensures
        written(g, i + 1, final(out)@, final(toc)@),
{
    let start = out.len();
    push_bytes(out, bytes);
    let len = out.len() - start;
    push_word(toc, start as u64);
    push_word(toc, len as u64);
    proof {
        let blank = zeros(TOC_BYTES as nat);
        let before = body_upto(g, i);
        assert(before + zeros(0) == before);
        assert(blank + before + pool_image(g, i) == blank + (before + pool_image(g, i)));
    }
}

/// Write the entry of a header that is not there.
fn write_absent(out: &Vec<u8>, toc: &mut Vec<u8>, Ghost(g): Ghost<GraphView>)
    requires
        g.header is None,
        written(g, 10, out@, old(toc)@),
    ensures
        written(g, 11, out@, final(toc)@),
{
    push_word(toc, 0);
    push_word(toc, 0);
    proof {
        let before = body_upto(g, 10);
        assert(before + zeros(0) + Seq::<u8>::empty() == before);
    }
}

/// The table takes sixteen bytes for each entry.
pub proof fn lemma_toc_len(g: GraphView, n: int)
    requires
        0 <= n,
    ensures
        toc_upto(g, n).len() == 16 * n,
    decreases n,
{
    lemma_auto_spec_u64_to_from_le_bytes();
    if n > 0 {
        lemma_toc_len(g, n - 1);
    }
}

/// A blank table: as many zero bytes as the table takes.
fn blank_table() -> (out: Vec<u8>)
    ensures
        out@ == zeros(TOC_BYTES as nat),
{
    let mut out: Vec<u8> = Vec::new();
    let mut i: usize = 0;
    while i < TOC_BYTES
        invariant
            i <= TOC_BYTES,
            out@ == zeros(i as nat),
        decreases TOC_BYTES - i,
    {
        out.push(0);
        i += 1;
    }
    out
}

/// Put the table over the blank at the start of the block.
fn fill_table(out: &mut Vec<u8>, toc: &Vec<u8>, Ghost(body): Ghost<Seq<u8>>)
    requires
        toc@.len() == TOC_BYTES,
        old(out)@ == zeros(TOC_BYTES as nat) + body,
    ensures
        final(out)@ == toc@ + body,
{
    let ghost blank = zeros(TOC_BYTES as nat);
    let mut k: usize = 0;
    proof {
        assert(toc@.take(0) + blank.skip(0) + body == blank + body);
    }
    while k < TOC_BYTES
        invariant
            k <= TOC_BYTES,
            toc@.len() == TOC_BYTES,
            blank == zeros(TOC_BYTES as nat),
            out@ == toc@.take(k as int) + blank.skip(k as int) + body,
        decreases TOC_BYTES - k,
    {
        out.set(k, toc[k]);
        proof {
            assert(out@ == toc@.take(k + 1) + blank.skip(k + 1) + body);
        }
        k += 1;
    }
    proof {
        assert(toc@.take(TOC_BYTES as int) + blank.skip(TOC_BYTES as int) + body == toc@ + body);
    }
}

/// The graph as one block of bytes: the table, then the pools.
pub fn dump(gfa: &FlatView) -> (image: Vec<u8>)
    ensures
        image@ == image_of(gfa@),
        image_of(gfa@).len() <= usize::MAX,
{
    let ghost g = gfa@;
    let mut toc: Vec<u8> = Vec::new();
    let mut out = blank_table();
    proof {
        assert(out@ + body_upto(g, 0) == out@);
    }
    write_pool(&mut out, &mut toc, 8, &gfa.segs, Ghost(g), Ghost(0));
    write_pool(&mut out, &mut toc, 8, &gfa.paths, Ghost(g), Ghost(1));
    write_pool(&mut out, &mut toc, 8, &gfa.links, Ghost(g), Ghost(2));
    write_pool(&mut out, &mut toc, 8, &gfa.steps, Ghost(g), Ghost(3));
    write_bytes(&mut out, &mut toc, gfa.seqdata, Ghost(g), Ghost(4));
    write_bytes(&mut out, &mut toc, gfa.namedata, Ghost(g), Ghost(5));
    write_bytes(&mut out, &mut toc, gfa.optional_data, Ghost(g), Ghost(6));
    write_pool(&mut out, &mut toc, 8, &gfa.overlaps, Ghost(g), Ghost(7));
    write_pool(&mut out, &mut toc, 8, &gfa.alignment, Ghost(g), Ghost(8));
    write_pool(&mut out, &mut toc, 1, &gfa.line_order, Ghost(g), Ghost(9));
    match gfa.header {
        Some(text) => {
            write_bytes(&mut out, &mut toc, text, Ghost(g), Ghost(10));
        },
        None => {
            write_absent(&out, &mut toc, Ghost(g));
        },
    }
    proof {
        lemma_toc_len(g, 11);
    }
    fill_table(&mut out, &toc, Ghost(body_upto(g, 11)));
    proof {
        assert(out@.len() == out.len());
    }
    out
}

/// Where the next pool ends, given where the one before it ends: after the
/// padding that its alignment asks for, and its items. There is no such
/// place where it does not fit a `usize`.
fn grow(
    at: usize,
    align: usize,
    count: usize,
    unit: usize,
    Ghost(g): Ghost<GraphView>,
    Ghost(i): Ghost<int>,
) -> (end: Option<usize>)
    requires
        0 <= i < POOLS,
        align == pool_align(i),
        unit <= 48,
        count * unit == pool_image(g, i).len(),
        at == TOC_BYTES + body_upto(g, i).len(),
    ensures
        match end {
            Some(n) => n == TOC_BYTES + body_upto(g, i + 1).len(),
            None => TOC_BYTES + body_upto(g, i + 1).len() > usize::MAX,
        },
{
    let pad: usize = if align == 8 && at % 8 != 0 {
        8 - at % 8
    } else {
        0
    };
    let bytes = match count.checked_mul(unit) {
        Some(bytes) => bytes,
        None => {
            return None;
        },
    };
    match at.checked_add(pad) {
        Some(start) => start.checked_add(bytes),
        None => None,
    }
}

/// The number of items of a pool of records times the size of one is the
/// number of bytes of the pool.
proof fn lemma_pool_sizes(g: GraphView)
    ensures
        g.segs.len() * 40 == pool_image(g, 0).len(),
        g.paths.len() * 48 == pool_image(g, 1).len(),
        g.links.len() * 48 == pool_image(g, 2).len(),
        g.steps.len() * 16 == pool_image(g, 3).len(),
        g.overlaps.len() * 16 == pool_image(g, 7).len(),
        g.alignment.len() * 8 == pool_image(g, 8).len(),
        g.line_order.len() * 1 == pool_image(g, 9).len(),
{
    lemma_encode_all(g.segs);
    lemma_encode_all(g.paths);
    lemma_encode_all(g.links);
    lemma_encode_all(g.steps);
    lemma_encode_all(g.overlaps);
    lemma_encode_all(g.alignment);
    lemma_encode_all(g.line_order);
}

/// Where the pools up to the one with index `i` end, given where those
/// before it end, if they have an end at all.
fn grow_more(
    at: Option<usize>,
    align: usize,
    count: usize,
    unit: usize,
    Ghost(g): Ghost<GraphView>,
    Ghost(i): Ghost<int>,
) -> (end: Option<usize>)
    requires
        0 <= i < POOLS,
        align == pool_align(i),
        unit <= 48,
        count * unit == pool_image(g, i).len(),
        match at {
            Some(n) => n == TOC_BYTES + body_upto(g, i).len(),
            None => TOC_BYTES + body_upto(g, i).len() > usize::MAX,
        },
    ensures
        match end {
            Some(n) => n == TOC_BYTES + body_upto(g, i + 1).len(),
            None => TOC_BYTES + body_upto(g, i + 1).len() > usize::MAX,
        },
{
    match at {
        Some(n) => grow(n, align, count, unit, Ghost(g), Ghost(i)),
        None => None,
    }
}

/// The number of bytes that the graph takes as one block, where that
/// number fits a `usize`.
pub fn size(gfa: &FlatView) -> (bytes: Option<usize>)
    ensures
        match bytes {
            Some(n) => n == image_of(gfa@).len(),
            None => image_of(gfa@).len() > usize::MAX,
        },
{
    let ghost g = gfa@;
    proof {
        lemma_pool_sizes(g);
        lemma_toc_len(g, POOLS as int);
    }
    let at = grow(TOC_BYTES, 8, gfa.segs.len(), 40, Ghost(g), Ghost(0));
    let at = grow_more(at, 8, gfa.paths.len(), 48, Ghost(g), Ghost(1));
    let at = grow_more(at, 8, gfa.links.len(), 48, Ghost(g), Ghost(2));
    let at = grow_more(at, 8, gfa.steps.len(), 16, Ghost(g), Ghost(3));
    let at = grow_more(at, 1, gfa.seqdata.len(), 1, Ghost(g), Ghost(4));
    let at = grow_more(at, 1, gfa.namedata.len(), 1, Ghost(g), Ghost(5));
    let at = grow_more(at, 1, gfa.optional_data.len(), 1, Ghost(g), Ghost(6));
    let at = grow_more(at, 8, gfa.overlaps.len(), 16, Ghost(g), Ghost(7));
    let at = grow_more(at, 8, gfa.alignment.len(), 8, Ghost(g), Ghost(8));
    let at = grow_more(at, 1, gfa.line_order.len(), 1, Ghost(g), Ghost(9));
    let header_len = match gfa.header {
        Some(text) => text.len(),
        None => 0,
    };
    grow_more(at, 1, header_len, 1, Ghost(g), Ghost(10))
}

/// Why a block of bytes could not be read as a graph.
#[derive(Debug, Clone, Copy, PartialEq, Eq)]
pub enum FileError {
    /// The block is shorter than the table.
    Truncated,
    /// The pool with this index starts before the end of the pool before
    /// it, or inside the table.
    Overlap(usize),
    /// The pool with this index ends after the end of the block.
    OutOfBounds(usize),
    /// The pool with this index does not take a whole number of items.
    Ragged(usize),
}

/// The entry with index `i` of the table at the start of a block.
pub open spec fn entry_at(bytes: Seq<u8>, i: int) -> (nat, nat) {
    (word_at(bytes, 2 * i) as nat, word_at(bytes, 2 * i + 1) as nat)
}

/// The table says that there is no header.
pub open spec fn header_absent(bytes: Seq<u8>) -> bool {
    entry_at(bytes, 10).0 == 0
}

/// What is wrong with the entry with index `i`, if anything is: the pool
/// must start at or after `floor`, end inside the block, and take a whole
/// number of items. The entry of a header that is not there must give its
/// length as zero.
pub open spec fn span_error(bytes: Seq<u8>, i: int, floor: nat) -> Option<FileError> {
    let (start, len) = entry_at(bytes, i);
    if i == 10 && start == 0 {
        if len == 0 {
            None
        } else {
            Some(FileError::OutOfBounds(10))
        }
    } else if start < floor {
        Some(FileError::Overlap(i as usize))
    } else if start + len > bytes.len() {
        Some(FileError::OutOfBounds(i as usize))
    } else if len % pool_unit(i) != 0 {
        Some(FileError::Ragged(i as usize))
    } else {
        None
    }
}

/// What is wrong with the first entry from index `i` on that has something
/// wrong. Each pool must start at or after the end of the one before it.
pub open spec fn spans_error(bytes: Seq<u8>, i: int, floor: nat) -> Option<FileError>
    decreases POOLS - i,
{
    if i < 0 || i >= POOLS {
        None
    } else {
        match span_error(bytes, i, floor) {
            Some(e) => Some(e),
            None => spans_error(bytes, i + 1, entry_at(bytes, i).0 + entry_at(bytes, i).1),
        }
    }
}

/// The bytes of the pool with index `i` in a block.
pub open spec fn pool_slice(bytes: Seq<u8>, i: int) -> Seq<u8> {
    bytes.subrange(
        entry_at(bytes, i).0 as int,
        (entry_at(bytes, i).0 + entry_at(bytes, i).1) as int,
    )
}

/// The graph that a block holds, where its table is sound.
pub open spec fn graph_in(bytes: Seq<u8>) -> GraphView {
    GraphView {
        header: if header_absent(bytes) {
            None
        } else {
            Some(pool_slice(bytes, 10))
        },
        segs: decode_all::<Segment>(pool_slice(bytes, 0)),
        paths: decode_all::<Path>(pool_slice(bytes, 1)),
        links: decode_all::<Link>(pool_slice(bytes, 2)),
        steps: decode_all::<Handle>(pool_slice(bytes, 3)),
        seqdata: pool_slice(bytes, 4),
        namedata: pool_slice(bytes, 5),
        optional_data: pool_slice(bytes, 6),
        overlaps: decode_all::<Range<usize>>(pool_slice(bytes, 7)),
        alignment: decode_all::<AlignOp>(pool_slice(bytes, 8)),
        line_order: decode_all::<LineKind>(pool_slice(bytes, 9)),
    }
}

/// The graph that a block of bytes stands for. The table is checked,
/// entry by entry; the pools are taken as they lie.
pub open spec fn loaded(bytes: Seq<u8>) -> Result<GraphView, FileError> {
    if bytes.len() < TOC_BYTES {
        Err(FileError::Truncated)
    } else {
        match spans_error(bytes, 0, TOC_BYTES as nat) {
            Some(e) => Err(e),
            None => Ok(graph_in(bytes)),
        }
    }
}

/// The number of bytes that one item of the pool with index `i` takes.
fn unit_of(i: usize) -> (n: u64)
    requires
        i < POOLS,
    ensures
        n == pool_unit(i as int),
        n > 0,
{
    if i == 0 {
        40
    } else if i == 1 || i == 2 {
        48
    } else if i == 3 || i == 7 {
        16
    } else if i == 8 {
        8
    } else {
        1
    }
}

/// The entry with index `i` of the table.
fn read_entry(bytes: &[u8], i: usize) -> (entry: (u64, u64))
    requires
        i < POOLS,
        bytes@.len() >= TOC_BYTES,
    ensures
        entry.0 == entry_at(bytes@, i as int).0,
        entry.1 == entry_at(bytes@, i as int).1,
{
    (read_word(bytes, 2 * i), read_word(bytes, 2 * i + 1))
}

/// The spans of all the pools are sound: the table has been checked.
pub open spec fn spans_sound(bytes: Seq<u8>) -> bool {
    &&& bytes.len() >= TOC_BYTES
    &&& forall|i: int|
        0 <= i < POOLS ==> {
            ||| i == 10 && header_absent(bytes)
            ||| (#[trigger] entry_at(bytes, i)).0 + entry_at(bytes, i).1 <= bytes.len()
                && entry_at(bytes, i).1 % pool_unit(i) == 0
        }
}

/// Check the table: every pool after the one before it, inside the block,
/// and of a whole number of items.
fn check_table(bytes: &[u8]) -> (error: Option<FileError>)
    requires
        bytes@.len() >= TOC_BYTES,
    ensures
        error == spans_error(bytes@, 0, TOC_BYTES as nat),
        error is None ==> spans_sound(bytes@),
{
    let mut floor: u64 = TOC_BYTES as u64;
    let mut i: usize = 0;
    while i < POOLS
        invariant
            i <= POOLS,
            bytes@.len() >= TOC_BYTES,
            floor <= bytes@.len(),
            spans_error(bytes@, i as int, floor as nat) == spans_error(
                bytes@,
                0,
                TOC_BYTES as nat,
            ),
            forall|j: int|
                0 <= j < i ==> {
                    ||| j == 10 && header_absent(bytes@)
                    ||| (#[trigger] entry_at(bytes@, j)).0 + entry_at(bytes@, j).1 <= bytes@.len()
                        && entry_at(bytes@, j).1 % pool_unit(j) == 0
                },
        decreases POOLS - i,
    {
        let (start, len) = read_entry(bytes, i);
        proof {
            assert(bytes@.len() == bytes.len());
        }
        if i == 10 && start == 0 {
            if len != 0 {
                return Some(FileError::OutOfBounds(10));
            }
            proof {
                assert(spans_error(bytes@, 11, floor as nat) is None);
                assert(spans_error(bytes@, 11, 0) is None);
            }
        } else {
            if start < floor {
                return Some(FileError::Overlap(i));
            }
            let end = match start.checked_add(len) {
                Some(end) => end,
                None => {
                    return Some(FileError::OutOfBounds(i));
                },
            };
            if end > bytes.len() as u64 {
                return Some(FileError::OutOfBounds(i));
            }
            if len % unit_of(i) != 0 {
                return Some(FileError::Ragged(i));
            }
            floor = end;
        }
        i += 1;
    }
    None
}

/// The bytes of the pool with index `i`, once the table has been checked.
fn pool_bytes<'a>(bytes: &'a [u8], i: usize) -> (pool: &'a [u8])
    requires
        i < POOLS,
        spans_sound(bytes@),
        !(i == 10 && header_absent(bytes@)),
    ensures
        pool@ == pool_slice(bytes@, i as int),
        pool@.len() % pool_unit(i as int) == 0,
{
    let (start, len) = read_entry(bytes, i);
    proof {
        assert(bytes@.len() == bytes.len());
        assert(entry_at(bytes@, i as int).0 + entry_at(bytes@, i as int).1 <= bytes@.len());
    }
    slice_subrange(bytes, start as usize, (start + len) as usize)
}

/// Read a graph in place from a block of bytes, such as a mapped file.
/// Only the table is looked at: no record is read, and nothing is copied.
/// The view borrows the block.
pub fn view(bytes: &[u8]) -> (graph: Result<FlatView<'_>, FileError>)
    ensures
        match graph {
            Ok(v) => loaded(bytes@) == Ok::<_, FileError>(v@),
            Err(e) => loaded(bytes@) == Err::<GraphView, _>(e),
        },
{
    if bytes.len() < TOC_BYTES {
        return Err(FileError::Truncated);
    }
    match check_table(bytes) {
        Some(e) => {
            return Err(e);
        },
        None => {},
    }
    let header = if read_entry(bytes, 10).0 == 0 {
        None
    } else {
        Some(pool_bytes(bytes, 10))
    };
    Ok(
        FlatView {
            header,
            segs: Records::mapped(pool_bytes(bytes, 0)),
            paths: Records::mapped(pool_bytes(bytes, 1)),
            links: Records::mapped(pool_bytes(bytes, 2)),
            steps: Records::mapped(pool_bytes(bytes, 3)),
            seqdata: pool_bytes(bytes, 4),
            overlaps: Records::mapped(pool_bytes(bytes, 7)),
            alignment: Records::mapped(pool_bytes(bytes, 8)),
            namedata: pool_bytes(bytes, 5),
            optional_data: pool_bytes(bytes, 6),
            line_order: Records::mapped(pool_bytes(bytes, 9)),
        },
    )
}

/// Read a graph from a block of bytes into memory.
pub fn load(bytes: &[u8]) -> (graph: Result<FlatGFA, FileError>)
    ensures
        match graph {
            Ok(g) => loaded(bytes@) == Ok::<_, FileError>(g@),
            Err(e) => loaded(bytes@) == Err::<GraphView, _>(e),
        },
{
    match view(bytes) {
        Ok(v) => Ok(v.to_heap()),
        Err(e) => Err(e),
    }
}

/// Where the pool with index `i` ends in the block.
pub open spec fn pool_end(g: GraphView, i: int) -> nat {
    pool_start(g, i) + pool_image(g, i).len()
}

/// What follows the table grows pool by pool: what has been written for
/// the first pools stays where it is, and each pool lies where its entry
/// says.
pub proof fn lemma_body(g: GraphView, i: int, n: int)
    requires
        0 <= i < n,
    ensures
        TOC_BYTES + body_upto(g, i).len() <= pool_start(g, i),
        pool_end(g, i) == TOC_BYTES + body_upto(g, i + 1).len(),
        pool_end(g, i) <= TOC_BYTES + body_upto(g, n).len(),
        body_upto(g, n).subrange(
            pool_start(g, i) - TOC_BYTES,
            pool_end(g, i) - TOC_BYTES,
        ) == pool_image(g, i),
    decreases n - i,
{
    let before = body_upto(g, i);
    let pad = zeros(padding(TOC_BYTES as nat + before.len(), pool_align(i)));
    let mine = pool_image(g, i);
    assert(body_upto(g, i + 1) == before + pad + mine);
    if n == i + 1 {
        assert((before + pad + mine).subrange(
            pool_start(g, i) - TOC_BYTES,
            pool_end(g, i) - TOC_BYTES,
        ) == mine);
    } else {
        lemma_body(g, i, n - 1);
        let shorter = body_upto(g, n - 1);
        let longer = body_upto(g, n);
        let tail = zeros(padding(TOC_BYTES as nat + shorter.len(), pool_align(n - 1)))
            + pool_image(g, n - 1);
        assert(longer == shorter + tail);
        assert(longer.subrange(pool_start(g, i) - TOC_BYTES, pool_end(g, i) - TOC_BYTES)
            == shorter.subrange(pool_start(g, i) - TOC_BYTES, pool_end(g, i) - TOC_BYTES));
    }
}

/// The entries of the table lie where they are looked for.
pub proof fn lemma_toc(g: GraphView, i: int, n: int)
    requires
        0 <= i < n,
    ensures
        toc_upto(g, n).len() == 16 * n,
        toc_upto(g, n).subrange(16 * i, 16 * i + 8) == table_word(entry_of(g, i).0),
        toc_upto(g, n).subrange(16 * i + 8, 16 * i + 16) == table_word(entry_of(g, i).1),
    decreases n - i,
{
    lemma_auto_spec_u64_to_from_le_bytes();
    lemma_toc_len(g, n);
    lemma_toc_len(g, n - 1);
    let shorter = toc_upto(g, n - 1);
    let a = table_word(entry_of(g, n - 1).0);
    let b = table_word(entry_of(g, n - 1).1);
    assert(toc_upto(g, n) == shorter + a + b);
    if n == i + 1 {
        assert((shorter + a + b).subrange(16 * i, 16 * i + 8) == a);
        assert((shorter + a + b).subrange(16 * i + 8, 16 * i + 16) == b);
    } else {
        lemma_toc(g, i, n - 1);
        assert((shorter + a + b).subrange(16 * i, 16 * i + 8) == shorter.subrange(
            16 * i,
            16 * i + 8,
        ));
        assert((shorter + a + b).subrange(16 * i + 8, 16 * i + 16) == shorter.subrange(
            16 * i + 8,
            16 * i + 16,
        ));
    }
}

/// A block written from a graph holds, at each entry of its table, what
/// the graph gives for it; and each pool that is there lies inside the
/// block and holds the bytes of the pool of the graph.
pub proof fn lemma_image_entry(g: GraphView, i: int)
    requires
        0 <= i < POOLS,
        image_of(g).len() <= u64::MAX,
    ensures
        image_of(g).len() == TOC_BYTES + body_upto(g, POOLS as int).len(),
        entry_at(image_of(g), i) == entry_of(g, i),
        !(i == 10 && g.header is None) ==> {
            &&& TOC_BYTES <= pool_start(g, i)
            &&& pool_end(g, i) <= image_of(g).len()
            &&& pool_slice(image_of(g), i) == pool_image(g, i)
        },
{
    let image = image_of(g);
    let toc = toc_upto(g, POOLS as int);
    let body = body_upto(g, POOLS as int);
    lemma_auto_spec_u64_to_from_le_bytes();
    lemma_toc(g, i, POOLS as int);
    lemma_body(g, i, POOLS as int);
    assert(image.subrange(8 * (2 * i), 8 * (2 * i) + 8) == toc.subrange(16 * i, 16 * i + 8));
    assert(image.subrange(8 * (2 * i + 1), 8 * (2 * i + 1) + 8) == toc.subrange(
        16 * i + 8,
        16 * i + 16,
    ));
    if !(i == 10 && g.header is None) {
        assert(image.subrange(pool_start(g, i) as int, pool_end(g, i) as int) == body.subrange(
            pool_start(g, i) - TOC_BYTES,
            pool_end(g, i) - TOC_BYTES,
        ));
    }
}

/// The pool with index `i` of a graph takes a whole number of items.
pub proof fn lemma_pool_whole(g: GraphView, i: int)
    requires
        0 <= i < POOLS,
    ensures
        pool_image(g, i).len() % pool_unit(i) == 0,
{
    if i == 0 {
        lemma_encode_all(g.segs);
        lemma_whole(g.segs.len(), 40);
    } else if i == 1 {
        lemma_encode_all(g.paths);
        lemma_whole(g.paths.len(), 48);
    } else if i == 2 {
        lemma_encode_all(g.links);
        lemma_whole(g.links.len(), 48);
    } else if i == 3 {
        lemma_encode_all(g.steps);
        lemma_whole(g.steps.len(), 16);
    } else if i == 7 {
        lemma_encode_all(g.overlaps);
        lemma_whole(g.overlaps.len(), 16);
    } else if i == 8 {
        lemma_encode_all(g.alignment);
        lemma_whole(g.alignment.len(), 8);
    } else if i == 9 {
        lemma_encode_all(g.line_order);
    }
}

/// A multiple of a number leaves no remainder when divided by it.
pub proof fn lemma_whole(n: nat, unit: nat)
    requires
        unit > 0,
    ensures
        (n * unit) % unit == 0,
{
    assert((n * unit) % unit == 0) by (nonlinear_arith)
        requires
            unit > 0,
    ;
}

/// The table of a block written from a graph passes the check, from the
/// entry with index `i` on.
pub proof fn lemma_image_spans(g: GraphView, i: int, floor: nat)
    requires
        0 <= i <= POOLS,
        image_of(g).len() <= u64::MAX,
        floor <= TOC_BYTES + body_upto(g, i).len(),
    ensures
        spans_error(image_of(g), i, floor) is None,
    decreases POOLS - i,
{
    if i < POOLS {
        lemma_image_entry(g, i);
        lemma_pool_whole(g, i);
        if i + 1 < POOLS {
            lemma_image_entry(g, i + 1);
        }
        let image = image_of(g);
        if i == 10 && g.header is None {
            assert(span_error(image, i, floor) is None);
            assert(spans_error(image, 11, 0) is None);
        } else {
            lemma_body(g, i, POOLS as int);
            lemma_image_spans(g, i + 1, pool_end(g, i));
            assert(span_error(image, i, floor) is None);
            assert(entry_at(image, i).0 + entry_at(image, i).1 == pool_end(g, i));
        }
    }
}

/// Writing a graph as a block of bytes and reading the block gives the
/// graph back: every pool, the header and the log of line kinds are what
/// they were, and with them what every accessor returns.
pub proof fn lemma_load_dump(g: GraphView)
    requires
        image_of(g).len() <= u64::MAX,
    ensures
        loaded(image_of(g)) == Ok::<_, FileError>(g),
{
    let image = image_of(g);
    lemma_image_entry(g, 0);
    lemma_image_entry(g, 1);
    lemma_image_entry(g, 2);
    lemma_image_entry(g, 3);
    lemma_image_entry(g, 4);
    lemma_image_entry(g, 5);
    lemma_image_entry(g, 6);
    lemma_image_entry(g, 7);
    lemma_image_entry(g, 8);
    lemma_image_entry(g, 9);
    lemma_image_entry(g, 10);
    lemma_image_spans(g, 0, TOC_BYTES as nat);
    lemma_encode_all(g.segs);
    lemma_encode_all(g.paths);
    lemma_encode_all(g.links);
    lemma_encode_all(g.steps);
    lemma_encode_all(g.overlaps);
    lemma_encode_all(g.alignment);
    lemma_encode_all(g.line_order);
    let back = graph_in(image);
    assert(back.header == g.header);
    assert(back == g);
}

/// Reading is a function of the bytes alone: two blocks that hold the same
/// bytes give the same graph, or fail in the same way.
pub proof fn lemma_load_same(a: Seq<u8>, b: Seq<u8>)
    requires
        a =~= b,
    ensures
        loaded(a) == loaded(b),
{
}

} // verus!
