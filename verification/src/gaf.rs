//! Looking up where the reads of a GAF file lie in a graph.
//!
//! Each line of a GAF file describes one read: its name, the path it was
//! aligned to (a string like `>12<34>5`), and where on that path the
//! alignment starts and ends. The lookup walks the path, adding up the
//! lengths of its segments, and says in which segment each of the two
//! offsets falls.

use crate::bytestr::{as_bstr, bstr_bytes};
use crate::flatgfa::GraphView;
use crate::memfile::{split, MemchrSplit};
use crate::store::FlatView;
use bstr::BStr;
use vstd::prelude::*;
use vstd::slice::slice_subrange;

verus! {

/// The arguments of the lookup command.
#[derive(Debug, PartialEq, Eq)]
pub struct GafLookup {
    /// The name of the GAF file.
    pub gaf: String,
}

/// Whether a byte is an ASCII decimal digit.
pub open spec fn is_digit(byte: u8) -> bool {
    48 <= byte <= 57
}

/// The index just past the run of digits that starts at `from`.
pub open spec fn digits_end(bytes: Seq<u8>, from: int) -> int
    decreases bytes.len() - from,
{
    if 0 <= from < bytes.len() && is_digit(bytes[from]) {
        digits_end(bytes, from + 1)
    } else {
        from
    }
}

/// The number that a string of decimal digits stands for.
pub open spec fn decimal_value(digits: Seq<u8>) -> nat
    decreases digits.len(),
{
    if digits.len() == 0 {
        0
    } else {
        decimal_value(digits.drop_last()) * 10 + (digits.last() - 48) as nat
    }
}

/// What `parse_int` returns for the digits `bytes[from..to]`: nothing if
/// there are none or if their value does not fit, else their value.
pub open spec fn int_of_digits(bytes: Seq<u8>, from: int, to: int) -> Option<usize> {
    if to <= from || decimal_value(bytes.subrange(from, to)) > usize::MAX {
        None
    } else {
        Some(decimal_value(bytes.subrange(from, to)) as usize)
    }
}

/// The run of digits that starts at `from` ends inside the string, holds
/// digits only, and is not followed by a digit.
pub proof fn lemma_digits_end(bytes: Seq<u8>, from: int)
    requires
        0 <= from <= bytes.len(),
    ensures
        from <= digits_end(bytes, from) <= bytes.len(),
        forall|j: int| from <= j < digits_end(bytes, from) ==> is_digit(#[trigger] bytes[j]),
        digits_end(bytes, from) < bytes.len() ==> !is_digit(bytes[digits_end(bytes, from)]),
    decreases bytes.len() - from,
{
    if from < bytes.len() && is_digit(bytes[from]) {
        lemma_digits_end(bytes, from + 1);
    }
}

/// The run of digits that starts at `from` ends at `end`, where every byte
/// before `end` is a digit and the one at `end`, if there is one, is not.
pub proof fn lemma_digits_end_is(bytes: Seq<u8>, from: int, end: int)
    requires
        0 <= from <= end <= bytes.len(),
        forall|j: int| from <= j < end ==> is_digit(#[trigger] bytes[j]),
        end < bytes.len() ==> !is_digit(bytes[end]),
    ensures
        digits_end(bytes, from) == end,
    decreases end - from,
{
    if from < end {
        lemma_digits_end_is(bytes, from + 1, end);
    }
}

/// Whether a byte is an ASCII decimal digit.
pub fn is_ascii_digit(byte: u8) -> (yes: bool)
    ensures
        yes == is_digit(byte),
{
    48 <= byte && byte <= 57
}

/// Parse an integer from a byte string starting at `index`, and move `index`
/// just past its digits. There is no integer where there is no digit, or
/// where the digits stand for a number too large for a `usize`.
pub fn parse_int(bytes: &[u8], index: &mut usize) -> (num: Option<usize>)
    ensures
        *final(index) == digits_end(bytes@, *old(index) as int),
        num == int_of_digits(bytes@, *old(index) as int, *final(index) as int),
        *old(index) <= bytes@.len() ==> *old(index) <= *final(index) <= bytes@.len(),
{
    let start: usize = *index;
    if start > bytes.len() {
        return None;
    }
    let mut num: usize = 0;
    let mut fits = true;
    proof {
        assert(bytes@.subrange(start as int, start as int) == Seq::<u8>::empty());
    }
    while *index < bytes.len() && is_ascii_digit(bytes[*index])
        invariant
            start <= *index <= bytes@.len(),
            digits_end(bytes@, start as int) == digits_end(bytes@, *index as int),
            fits ==> num == decimal_value(bytes@.subrange(start as int, *index as int)),
            !fits ==> decimal_value(bytes@.subrange(start as int, *index as int)) > usize::MAX,
        decreases bytes@.len() - *index,
    {
        let digit: usize = (bytes[*index] - 48) as usize;
        proof {
            let longer = bytes@.subrange(start as int, *index as int + 1);
            assert(longer.drop_last() == bytes@.subrange(start as int, *index as int));
            assert(longer.last() == bytes@[*index as int]);
        }
        if fits {
            match num.checked_mul(10) {
                Some(tens) => match tens.checked_add(digit) {
                    Some(sum) => {
                        num = sum;
                    },
                    None => {
                        fits = false;
                    },
                },
                None => {
                    fits = false;
                },
            }
        }
        *index += 1;
    }
    if *index == start || !fits {
        None
    } else {
        Some(num)
    }
}

/// Parse an integer from a byte string, which should hold the integer and
/// nothing else.
pub fn parse_int_all(bytes: &[u8]) -> (num: Option<usize>)
    ensures
        num == if digits_end(bytes@, 0) == bytes@.len() {
            int_of_digits(bytes@, 0, bytes@.len() as int)
        } else {
            None
        },
{
    let mut index: usize = 0;
    let num = parse_int(bytes, &mut index);
    if index == bytes.len() {
        num
    } else {
        None
    }
}

/// The token that starts at `pos` in a path string, and where the parser
/// stands after reading it. A token is `>` or `<` and then a number; where
/// the byte at `pos` is neither, it is consumed and there is no token.
pub open spec fn next_token(bytes: Seq<u8>, pos: int) -> (Option<(usize, bool)>, int) {
    if pos < 0 || pos >= bytes.len() {
        (None, pos)
    } else if bytes[pos] != 62 && bytes[pos] != 60 {
        (None, pos + 1)
    } else {
        let end = digits_end(bytes, pos + 1);
        match int_of_digits(bytes, pos + 1, end) {
            Some(name) => (Some((name, bytes[pos] == 62)), end),
            None => (None, end),
        }
    }
}

/// All the tokens from `pos` up to the first place with no token, and where
/// the parser stands then.
pub open spec fn tokens_from(bytes: Seq<u8>, pos: int) -> (Seq<(usize, bool)>, int)
    decreases bytes.len() - pos,
    via tokens_from_decreases
{
    match next_token(bytes, pos).0 {
        Some(token) => {
            let rest = tokens_from(bytes, next_token(bytes, pos).1);
            (seq![token] + rest.0, rest.1)
        },
        None => (Seq::empty(), next_token(bytes, pos).1),
    }
}

#[via_fn]
proof fn tokens_from_decreases(bytes: Seq<u8>, pos: int) {
    if 0 <= pos < bytes.len() {
        lemma_digits_end(bytes, pos + 1);
    }
}

/// Parses a GAF path string, which looks like `>12<34>56`.
pub struct PathParser<'a> {
    str: &'a [u8],
    index: usize,
}

impl<'a> PathParser<'a> {
    #[verifier::type_invariant]
    spec fn inv(self) -> bool {
        self.index <= self.str@.len()
    }

    /// The string being parsed.
    pub closed spec fn source(self) -> Seq<u8> {
        self.str@
    }

    /// How many bytes have been consumed.
    pub closed spec fn position(self) -> int {
        self.index as int
    }

    /// Start at the beginning of `str`.
    pub fn new(str: &'a [u8]) -> (parser: Self)
        ensures
            parser.source() == str@,
            parser.position() == 0,
    {
        Self { str, index: 0 }
    }

    /// The bytes not yet consumed.
    pub fn rest(&self) -> (bytes: &[u8])
        ensures
            0 <= self.position() <= self.source().len(),
            bytes@ == self.source().subrange(self.position(), self.source().len() as int),
    {
        proof {
            use_type_invariant(self);
        }
        slice_subrange(self.str, self.index, self.str.len())
    }

    /// Read the next token: a segment name, and whether it is traversed
    /// forwards.
    pub fn next(&mut self) -> (token: Option<(usize, bool)>)
        ensures
            final(self).source() == old(self).source(),
            token == next_token(old(self).source(), old(self).position()).0,
            final(self).position() == next_token(old(self).source(), old(self).position()).1,
    {
        proof {
            use_type_invariant(&*self);
        }
        if self.index >= self.str.len() {
            return None;
        }
        // The first character must be a direction.
        let byte = self.str[self.index];
        self.index += 1;
        let forward = if byte == 62 {
            true
        } else if byte == 60 {
            false
        } else {
            return None;
        };
        // Then comes the name of the segment.
        let mut index: usize = self.index;
        let name = parse_int(self.str, &mut index);
        self.index = index;
        match name {
            Some(seg_name) => Some((seg_name, forward)),
            None => None,
        }
    }

    /// Read tokens until there is none, and return them in order.
    pub fn collect(&mut self) -> (tokens: Vec<(usize, bool)>)
        ensures
            final(self).source() == old(self).source(),
            tokens@ == tokens_from(old(self).source(), old(self).position()).0,
            final(self).position() == tokens_from(old(self).source(), old(self).position()).1,
    {
        let mut tokens: Vec<(usize, bool)> = Vec::new();
        proof {
            use_type_invariant(&*self);
        }
        loop
            invariant
                self.source() == old(self).source(),
                0 <= self.position() <= self.source().len(),
                tokens@ + tokens_from(self.source(), self.position()).0 == tokens_from(
                    old(self).source(),
                    old(self).position(),
                ).0,
                tokens_from(self.source(), self.position()).1 == tokens_from(
                    old(self).source(),
                    old(self).position(),
                ).1,
            decreases self.source().len() - self.position(),
        {
            proof {
                use_type_invariant(&*self);
                if self.position() < self.source().len() {
                    lemma_digits_end(self.source(), self.position() + 1);
                }
            }
            match self.next() {
                Some(token) => {
                    proof {
                        use_type_invariant(&*self);
                        let rest = tokens_from(self.source(), self.position()).0;
                        assert(tokens@.push(token) + rest == tokens@ + (seq![token] + rest));
                    }
                    tokens.push(token);
                },
                None => {
                    return tokens;
                },
            }
        }
    }
}

/// The number that a byte string stands for when it holds decimal digits
/// and nothing else.
pub open spec fn whole_int(bytes: Seq<u8>) -> Option<usize> {
    if digits_end(bytes, 0) == bytes.len() {
        int_of_digits(bytes, 0, bytes.len() as int)
    } else {
        None
    }
}

/// One read of a GAF file: its name, the path it is aligned to, and the
/// offsets on that path where the alignment starts and ends.
#[derive(Debug)]
pub struct GAFRead<'a> {
    pub name: &'a BStr,
    pub start: usize,
    pub end: usize,
    pub path: &'a [u8],
}

/// What a read holds.
pub struct ReadView {
    pub name: Seq<u8>,
    pub start: usize,
    pub end: usize,
    pub path: Seq<u8>,
}

impl<'a> View for GAFRead<'a> {
    type V = ReadView;

    open spec fn view(&self) -> ReadView {
        ReadView {
            name: bstr_bytes(self.name),
            start: self.start,
            end: self.end,
            path: self.path@,
        }
    }
}

/// The read that a line of a GAF file describes. The line is split at tabs;
/// the first field is the name, the sixth the path, and the seventh to ninth
/// must be numbers: the length of the path, and the two offsets.
pub open spec fn read_of_line(line: Seq<u8>) -> Option<ReadView> {
    let fields = split(line, 9);
    if fields.len() >= 9 {
        match (whole_int(fields[6]), whole_int(fields[7]), whole_int(fields[8])) {
            (Some(_), Some(start), Some(end)) => Some(
                ReadView { name: fields[0], start, end, path: fields[5] },
            ),
            _ => None,
        }
    } else {
        None
    }
}

impl<'a> GAFRead<'a> {
    /// Read one line of a GAF file.
    pub fn parse(line: &'a [u8]) -> (read: Option<GAFRead<'a>>)
        ensures
            match read {
                Some(r) => read_of_line(line@) == Some(r@),
                None => read_of_line(line@) is None,
            },
    {
        let ghost fields = split(line@, 9);
        // Lines in a GAF are tab-separated.
        let mut field_iter = MemchrSplit::new(9, line);
        let name = match field_iter.next() {
            Some(f) => f,
            None => {
                return None;
            },
        };
        // Skip the other fields up to the actual path.
        let mut skipped: usize = 0;
        while skipped < 4
            invariant
                skipped <= 4,
                fields == split(line@, 9),
                field_iter.remaining() == fields.skip(skipped + 1),
                fields.len() >= skipped + 1,
            decreases 4 - skipped,
        {
            match field_iter.next() {
                Some(_) => {},
                None => {
                    assert(fields.skip(skipped + 1).len() == 0);
                    return None;
                },
            }
            proof {
                assert(fields.skip(skipped + 1).skip(1) == fields.skip(skipped + 2));
            }
            skipped += 1;
        }
        // The actual path string, which is parsed later.
        let path = match field_iter.next() {
            Some(f) => f,
            None => {
                return None;
            },
        };
        proof {
            assert(fields.skip(5).skip(1) == fields.skip(6));
        }
        // The length of the path and the read's coordinates.
        let path_len = match field_iter.next() {
            Some(f) => parse_int_all(f),
            None => {
                return None;
            },
        };
        proof {
            assert(fields.skip(6).skip(1) == fields.skip(7));
        }
        let start = match field_iter.next() {
            Some(f) => parse_int_all(f),
            None => {
                return None;
            },
        };
        proof {
            assert(fields.skip(7).skip(1) == fields.skip(8));
        }
        let end = match field_iter.next() {
            Some(f) => parse_int_all(f),
            None => {
                return None;
            },
        };
        match (path_len, start, end) {
            (Some(_), Some(start), Some(end)) => Some(
                GAFRead { name: as_bstr(name), start, end, path },
            ),
            _ => None,
        }
    }
}

/// A place in a graph: a segment, by its name, and an offset into it.
#[derive(Debug, Clone, Copy, PartialEq, Eq)]
pub struct GafPosition {
    pub seg_name: usize,
    pub offset: usize,
}

/// Where a read lies in the graph: the place where it starts and the place
/// where it ends, each as far as the path reaches it.
#[derive(Debug, Clone, Copy, PartialEq, Eq)]
pub struct GafSpan {
    pub started: Option<GafPosition>,
    pub ended: Option<GafPosition>,
}

/// Why a lookup failed.
#[derive(Debug, Clone, Copy, PartialEq, Eq)]
pub enum GafError {
    /// The line with this index, counted from zero, does not describe a read.
    MalformedRead(usize),
    /// A path names a segment that the graph does not have.
    UnknownSegment(usize),
}

/// The walk along the tokens of `path` from byte `pos` on, where `offset`
/// bases lie before the next segment and `started` says whether the start of
/// the read has been found. The start is where `start` falls into a segment;
/// the end is looked for from that segment on, and the walk stops there. A
/// token whose segment the graph does not have fails the walk.
pub open spec fn walk(
    g: GraphView,
    path: Seq<u8>,
    pos: int,
    offset: nat,
    start: usize,
    end: usize,
    started: Option<GafPosition>,
) -> Result<GafSpan, GafError>
    decreases path.len() - pos,
    via walk_decreases
{
    match next_token(path, pos).0 {
        None => Ok(GafSpan { started, ended: None }),
        Some(token) => match g.find_seg(token.0) {
            None => Err(GafError::UnknownSegment(token.0)),
            Some(id) => {
                let next = offset + g.seg_len(id as int);
                let started = if started is None && offset <= start < next {
                    Some(GafPosition { seg_name: token.0, offset: (start - offset) as usize })
                } else {
                    started
                };
                if started is Some && offset <= end < next {
                    Ok(
                        GafSpan {
                            started,
                            ended: Some(
                                GafPosition { seg_name: token.0, offset: (end - offset) as usize },
                            ),
                        },
                    )
                } else {
                    walk(g, path, next_token(path, pos).1, next, start, end, started)
                }
            },
        },
    }
}

#[via_fn]
proof fn walk_decreases(
    g: GraphView,
    path: Seq<u8>,
    pos: int,
    offset: nat,
    start: usize,
    end: usize,
    started: Option<GafPosition>,
) {
    if 0 <= pos < path.len() {
        lemma_digits_end(path, pos + 1);
    }
}

/// Where a read lies in a graph.
pub open spec fn span_of_read(g: GraphView, read: ReadView) -> Result<GafSpan, GafError> {
    walk(g, read.path, 0, 0, read.start, read.end, None)
}

/// Find where a read starts and ends in the graph, by walking down its path.
pub fn locate(gfa: &FlatView, read: &GAFRead) -> (span: Result<GafSpan, GafError>)
    ensures
        span == span_of_read(gfa@, read@),
{
    let mut parser = PathParser::new(read.path);
    // The bases before the next segment, unless they are too many to count.
    let mut pos: usize = 0;
    let mut countable = true;
    let ghost mut offset: nat = 0;
    let mut started: Option<GafPosition> = None;
    loop
        invariant
            parser.source() == read.path@,
            0 <= parser.position() <= read.path@.len(),
            countable ==> pos == offset,
            !countable ==> offset > usize::MAX,
            walk(gfa@, read.path@, parser.position(), offset, read.start, read.end, started)
                == span_of_read(gfa@, read@),
        decreases read.path@.len() - parser.position(),
    {
        proof {
            if parser.position() < read.path@.len() {
                lemma_digits_end(read.path@, parser.position() + 1);
            }
        }
        let (seg_name, _forward) = match parser.next() {
            Some(token) => token,
            None => {
                return Ok(GafSpan { started, ended: None });
            },
        };
        let seg_id = match gfa.find_seg(seg_name) {
            Some(id) => id,
            None => {
                return Err(GafError::UnknownSegment(seg_name));
            },
        };
        // Add up the lengths to follow our position in the path.
        let len = gfa.segs.get(seg_id).len();
        let next_pos = if countable {
            pos.checked_add(len)
        } else {
            None
        };
        let holds_start = countable && pos <= read.start && match next_pos {
            Some(next) => read.start < next,
            None => true,
        };
        let holds_end = countable && pos <= read.end && match next_pos {
            Some(next) => read.end < next,
            None => true,
        };
        if started.is_none() && holds_start {
            started = Some(GafPosition { seg_name, offset: read.start - pos });
        }
        if started.is_some() && holds_end {
            return Ok(
                GafSpan {
                    started,
                    ended: Some(GafPosition { seg_name, offset: read.end - pos }),
                },
            );
        }
        proof {
            offset = offset + gfa@.seg_len(seg_id as int);
            use_type_invariant(&parser);
        }
        match next_pos {
            Some(next) => {
                pos = next;
            },
            None => {
                countable = false;
            },
        }
    }
}

/// One read together with where it lies in the graph.
#[derive(Debug)]
pub struct GafHit<'a> {
    /// The name of the read.
    pub name: &'a BStr,
    pub span: GafSpan,
}

/// What the lookup of one line gives: the name of its read and where the
/// read lies.
pub open spec fn hit_of_line(g: GraphView, line: Seq<u8>, index: int) -> Result<
    (Seq<u8>, GafSpan),
    GafError,
> {
    match read_of_line(line) {
        None => Err(GafError::MalformedRead(index as usize)),
        Some(read) => match span_of_read(g, read) {
            Ok(span) => Ok((read.name, span)),
            Err(e) => Err(e),
        },
    }
}

/// What the lookup of the lines from index `i` on adds to the hits found so
/// far: a hit for each line, or the failure of the first line that fails.
pub open spec fn hits_from(
    g: GraphView,
    lines: Seq<Seq<u8>>,
    i: int,
    found: Seq<(Seq<u8>, GafSpan)>,
) -> Result<Seq<(Seq<u8>, GafSpan)>, GafError>
    decreases lines.len() - i,
{
    if i < 0 || i >= lines.len() {
        Ok(found)
    } else {
        match hit_of_line(g, lines[i], i) {
            Err(e) => Err(e),
            Ok(hit) => hits_from(g, lines, i + 1, found.push(hit)),
        }
    }
}

/// What the lookup of a whole GAF file gives.
pub open spec fn hits_of_file(g: GraphView, gaf: Seq<u8>) -> Result<
    Seq<(Seq<u8>, GafSpan)>,
    GafError,
> {
    hits_from(g, split(gaf, 10), 0, Seq::empty())
}

/// The names and spans of a list of hits.
pub open spec fn hits_view(hits: Seq<GafHit>) -> Seq<(Seq<u8>, GafSpan)> {
    Seq::new(hits.len(), |i: int| (bstr_bytes(hits[i].name), hits[i].span))
}

/// Look up every read of a GAF file in a graph. The file is split into
/// lines at line feeds; each line gives one hit, in order.
pub fn gaf_lookup<'a>(gfa: &FlatView, gaf: &'a [u8]) -> (hits: Result<Vec<GafHit<'a>>, GafError>)
    ensures
        match hits {
            Ok(found) => hits_of_file(gfa@, gaf@) == Ok::<_, GafError>(hits_view(found@)),
            Err(e) => hits_of_file(gfa@, gaf@) == Err::<Seq<(Seq<u8>, GafSpan)>, _>(e),
        },
{
    let ghost lines = split(gaf@, 10);
    let mut hits: Vec<GafHit<'a>> = Vec::new();
    let mut line_iter = MemchrSplit::new(10, gaf);
    proof {
        assert(hits_view(hits@) == Seq::<(Seq<u8>, GafSpan)>::empty());
        assert(lines.skip(0) == lines);
    }
    loop
        invariant
            hits@.len() <= lines.len(),
            lines == split(gaf@, 10),
            line_iter.remaining() == lines.skip(hits@.len() as int),
            hits_from(gfa@, lines, hits@.len() as int, hits_view(hits@)) == hits_of_file(
                gfa@,
                gaf@,
            ),
        decreases lines.len() - hits@.len(),
    {
        let ghost n = hits@.len() as int;
        let line = match line_iter.next() {
            Some(line) => line,
            None => {
                assert(lines.skip(n).len() == 0);
                return Ok(hits);
            },
        };
        proof {
            assert(lines.skip(n).skip(1) == lines.skip(n + 1));
            assert(lines.skip(n)[0] == lines[n]);
        }
        let read = match GAFRead::parse(line) {
            Some(read) => read,
            None => {
                return Err(GafError::MalformedRead(hits.len()));
            },
        };
        let span = match locate(gfa, &read) {
            Ok(span) => span,
            Err(e) => {
                return Err(e);
            },
        };
        let ghost before = hits@;
        hits.push(GafHit { name: read.name, span });
        proof {
            assert(hits_view(hits@) == hits_view(before).push((bstr_bytes(read.name), span)));
            assert(hit_of_line(gfa@, lines[n], n) == Ok::<_, GafError>(
                (bstr_bytes(read.name), span),
            ));
        }
    }
}

} // verus!
