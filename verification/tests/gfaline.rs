use flatgfa::flatgfa::{AlignOp, AlignOpcode, Orientation};
use flatgfa::gfaline::{
    parse_align, parse_cigar, parse_line, parse_orient, parse_overlap_list, parse_step,
    parse_steps, Line, Link, Segment,
};
use flatgfa::memfile::{find, MemchrSplit};

fn pieces(delim: u8, bytes: &[u8]) -> Vec<Vec<u8>> {
    let mut split = MemchrSplit::new(delim, bytes);
    let mut out = vec![];
    while let Some(piece) = split.next() {
        out.push(piece.to_vec());
    }
    out
}

#[test]
fn split_at_line_feeds() {
    assert_eq!(pieces(b'\n', b"a\nbc\n"), vec![b"a".to_vec(), b"bc".to_vec()]);
    assert_eq!(pieces(b'\n', b"a\nbc"), vec![b"a".to_vec(), b"bc".to_vec()]);
    assert_eq!(pieces(b'\n', b"a\n\nb"), vec![b"a".to_vec(), vec![], b"b".to_vec()]);
    assert_eq!(pieces(b'\n', b"\n"), vec![Vec::<u8>::new()]);
    assert_eq!(pieces(b'\n', b""), Vec::<Vec<u8>>::new());
}

#[test]
fn find_a_byte() {
    assert_eq!(find(b"abcabc", b'c', 0), 2);
    assert_eq!(find(b"abcabc", b'c', 3), 5);
    assert_eq!(find(b"abcabc", b'x', 1), 6);
    assert_eq!(find(b"abc", b'a', 3), 3);
}

#[test]
fn header_line() {
    assert_eq!(parse_line(b"H\tVN:Z:1.0"), Some(Line::Header(b"VN:Z:1.0".to_vec())));
    assert_eq!(parse_line(b"H\t"), Some(Line::Header(vec![])));
    assert_eq!(parse_line(b"H"), None);
    assert_eq!(parse_line(b"HVN"), None);
}

#[test]
fn segment_line() {
    assert_eq!(
        parse_line(b"S\t12\tACGT\tLN:i:4 x"),
        Some(Line::Segment(Segment {
            name: 12,
            seq: b"ACGT".to_vec(),
            data: b"LN:i:4 x".to_vec(),
        }))
    );
    assert_eq!(
        parse_line(b"S\t12\t"),
        Some(Line::Segment(Segment { name: 12, seq: vec![], data: vec![] }))
    );
    assert_eq!(parse_line(b"S\t12"), None);
    assert_eq!(parse_line(b"S\t\tACGT"), None);
    assert_eq!(parse_line(b"S\t1x\tACGT"), None);
}

#[test]
fn link_line() {
    assert_eq!(
        parse_line(b"L\t1\t+\t2\t-\t3M1N"),
        Some(Line::Link(Link {
            from_seg: 1,
            from_orient: Orientation::Forward,
            to_seg: 2,
            to_orient: Orientation::Backward,
            overlap: vec![
                AlignOp { op: AlignOpcode::Match, len: 3 },
                AlignOp { op: AlignOpcode::Gap, len: 1 },
            ],
        }))
    );
    assert_eq!(parse_line(b"L\t1\t+\t2\t-\t3M\textra"), None);
    assert_eq!(parse_line(b"L\t1\t+\t2\t-\t3"), None);
    assert_eq!(parse_line(b"L\t1\t+\t2\t-\t3X"), None);
    assert_eq!(parse_line(b"L\t1\t++\t2\t-\t3M"), None);
}

#[test]
fn unknown_marker() {
    assert_eq!(parse_line(b"W\t1\t2"), None);
    assert_eq!(parse_line(b""), None);
}

#[test]
fn orientation_field() {
    assert_eq!(parse_orient(b"+"), Some(Orientation::Forward));
    assert_eq!(parse_orient(b"-"), Some(Orientation::Backward));
    assert_eq!(parse_orient(b""), None);
    assert_eq!(parse_orient(b"+-"), None);
    assert_eq!(parse_orient(b">"), None);
}

#[test]
fn alignment_fields() {
    assert_eq!(parse_cigar(b"*"), Some(vec![]));
    assert_eq!(parse_cigar(b""), Some(vec![]));
    assert_eq!(parse_align(b"*"), None);
    assert_eq!(
        parse_cigar(b"10D"),
        Some(vec![AlignOp { op: AlignOpcode::Insertion, len: 10 }])
    );
    assert_eq!(
        parse_cigar(b"10I"),
        Some(vec![AlignOp { op: AlignOpcode::Deletion, len: 10 }])
    );
    assert_eq!(parse_cigar(b"M"), None);
    assert_eq!(parse_cigar(b"1M,2M"), None);
}

#[test]
fn overlap_lists() {
    assert_eq!(parse_overlap_list(b"*"), Some(vec![]));
    assert_eq!(parse_overlap_list(b""), Some(vec![]));
    assert_eq!(
        parse_overlap_list(b"4M,*"),
        Some(vec![vec![AlignOp { op: AlignOpcode::Match, len: 4 }], vec![]])
    );
    assert_eq!(parse_overlap_list(b"*,*"), Some(vec![vec![], vec![]]));
    assert_eq!(
        parse_overlap_list(b"1M,"),
        Some(vec![vec![AlignOp { op: AlignOpcode::Match, len: 1 }], vec![]])
    );
    assert_eq!(parse_overlap_list(b"1M,x"), None);
}

#[test]
fn step_lists() {
    assert_eq!(parse_step(b"12+"), Some((12, Orientation::Forward)));
    assert_eq!(parse_step(b"12"), None);
    assert_eq!(parse_step(b"+"), None);
    assert_eq!(parse_steps(b""), Some(vec![]));
    assert_eq!(
        parse_steps(b"1+,2-"),
        Some(vec![(1, Orientation::Forward), (2, Orientation::Backward)])
    );
    assert_eq!(parse_steps(b"1+,"), None);
    assert_eq!(parse_steps(b"1+,,2-"), None);
    assert_eq!(parse_steps(b"1+ 2-"), None);
}
