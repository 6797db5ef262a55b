use bstr::BString;
use flatgfa::flatgfa::{AlignOp, AlignOpcode, FlatGFA, Handle, LineKind, Orientation};
use flatgfa::gfaline::{parse_line, Line};
use flatgfa::parse::{ParseError, Parser};

fn ops_of(gfa: &FlatGFA, range: &std::ops::Range<usize>) -> Vec<AlignOp> {
    gfa.get_alignment(range).ops.to_vec()
}

#[test]
fn two_segments_and_a_link() {
    let gfa = Parser::parse(b"S 1 ACGT\nS 2 GGTA\nL 1 + 2 + 4M\n").unwrap();
    assert_eq!(gfa.segs.len(), 2);
    assert_eq!(gfa.get_seq(&gfa.segs[0]), b"ACGT");
    assert_eq!(gfa.get_seq(&gfa.segs[1]), b"GGTA");
    assert_eq!(gfa.links.len(), 1);
    let link = &gfa.links[0];
    assert_eq!(link.from, Handle { segment: 0, orient: Orientation::Forward });
    assert_eq!(link.to, Handle { segment: 1, orient: Orientation::Forward });
    assert_eq!(
        ops_of(&gfa, &link.overlap),
        vec![AlignOp { op: AlignOpcode::Match, len: 4 }]
    );
    assert_eq!(
        gfa.line_order,
        vec![LineKind::Segment, LineKind::Segment, LineKind::Link]
    );
}

#[test]
fn two_segments_and_a_link_with_tabs() {
    let gfa = Parser::parse(b"S\t1\tACGT\nS\t2\tGGTA\nL\t1\t+\t2\t+\t4M\n").unwrap();
    assert_eq!(gfa.segs.len(), 2);
    assert_eq!(gfa.get_seq(&gfa.segs[1]), b"GGTA");
    assert_eq!(gfa.links.len(), 1);
}

#[test]
fn a_path_with_two_steps() {
    let gfa = Parser::parse(b"S 1 ACGT\nS 2 GGTA\nP p1 1+,2+ 4M,*\n").unwrap();
    assert_eq!(gfa.paths.len(), 1);
    let path = &gfa.paths[0];
    assert_eq!(gfa.get_path_name(path), b"p1");
    assert_eq!(
        gfa.get_steps(path),
        &[
            Handle { segment: 0, orient: Orientation::Forward },
            Handle { segment: 1, orient: Orientation::Forward },
        ]
    );
    let overlaps = gfa.get_overlaps(path);
    assert_eq!(overlaps.len(), 2);
    assert_eq!(
        ops_of(&gfa, &overlaps[0]),
        vec![AlignOp { op: AlignOpcode::Match, len: 4 }]
    );
    assert_eq!(ops_of(&gfa, &overlaps[1]), vec![]);
}

#[test]
fn link_to_undeclared_segment() {
    let parsed = Parser::parse(b"S 1 ACGT\nL 1 + 99 + 4M\n");
    assert_eq!(parsed.err(), Some(ParseError::UnknownSegment(99)));
}

#[test]
fn path_through_undeclared_segment() {
    let parsed = Parser::parse(b"S 1 ACGT\nP p 1+,5- *\n");
    assert_eq!(parsed.err(), Some(ParseError::UnknownSegment(5)));
}

#[test]
fn link_before_its_segments() {
    let gfa = Parser::parse(b"L 2 - 1 + 0M\nS 1 A\nS 2 C\n").unwrap();
    assert_eq!(gfa.links[0].from, Handle { segment: 1, orient: Orientation::Backward });
    assert_eq!(gfa.links[0].to, Handle { segment: 0, orient: Orientation::Forward });
    assert_eq!(
        gfa.line_order,
        vec![LineKind::Link, LineKind::Segment, LineKind::Segment]
    );
}

#[test]
fn names_out_of_sequence() {
    let gfa = Parser::parse(b"S 7 AA\nS 3 CCC\nS 1 G\nL 3 + 1 - *\nL 7 + 3 + *\n").unwrap();
    assert_eq!(gfa.links[0].from.segment, 1);
    assert_eq!(gfa.links[0].to.segment, 2);
    assert_eq!(gfa.links[1].from.segment, 0);
    assert_eq!(gfa.links[1].to.segment, 1);
}

#[test]
fn segment_named_zero() {
    let gfa = Parser::parse(b"S 0 AA\nS 1 C\nL 0 + 1 + *\n").unwrap();
    assert_eq!(gfa.links[0].from.segment, 0);
    assert_eq!(gfa.links[0].to.segment, 1);
}

#[test]
fn malformed_line_comes_with_the_error() {
    let parsed = Parser::parse(b"S 1 ACGT\nX what\nS 2 A\n");
    assert_eq!(parsed.err(), Some(ParseError::Malformed(b"X what".to_vec())));
}

#[test]
fn empty_line_is_malformed() {
    let parsed = Parser::parse(b"S 1 ACGT\n\nS 2 A\n");
    assert_eq!(parsed.err(), Some(ParseError::Malformed(vec![])));
}

#[test]
fn segment_name_must_be_a_number() {
    let parsed = Parser::parse(b"S one ACGT\n");
    assert_eq!(parsed.err(), Some(ParseError::Malformed(b"S one ACGT".to_vec())));
}

#[test]
fn link_with_too_few_fields() {
    let parsed = Parser::parse(b"S 1 A\nL 1 + 1\n");
    assert_eq!(parsed.err(), Some(ParseError::Malformed(b"L 1 + 1".to_vec())));
}

#[test]
fn link_with_bad_orientation() {
    let parsed = Parser::parse(b"S 1 A\nL 1 > 1 + 1M\n");
    assert_eq!(parsed.err(), Some(ParseError::Malformed(b"L 1 > 1 + 1M".to_vec())));
}

#[test]
fn second_header() {
    let parsed = Parser::parse(b"H VN:Z:1.0\nH VN:Z:2.0\n");
    assert_eq!(parsed.err(), Some(ParseError::DuplicateHeader));
}

#[test]
fn segment_name_given_twice() {
    let parsed = Parser::parse(b"S 1 A\nS 2 C\nS 1 G\n");
    assert_eq!(parsed.err(), Some(ParseError::DuplicateSegment(1)));
}

#[test]
fn header_and_optional_fields() {
    let gfa = Parser::parse(b"H\tVN:Z:1.0\nS\t1\tACGT\tLN:i:4\tRC:i:7\n").unwrap();
    assert_eq!(gfa.header, Some(BString::from("VN:Z:1.0")));
    assert_eq!(gfa.get_optional_data(&gfa.segs[0]), b"LN:i:4\tRC:i:7");
    assert_eq!(gfa.line_order, vec![LineKind::Header, LineKind::Segment]);
}

#[test]
fn empty_text_gives_empty_graph() {
    let gfa = Parser::parse(b"").unwrap();
    assert!(gfa.segs.is_empty());
    assert!(gfa.line_order.is_empty());
    assert_eq!(gfa.header, None);
}

#[test]
fn last_line_without_line_feed() {
    let gfa = Parser::parse(b"S 1 ACGT").unwrap();
    assert_eq!(gfa.get_seq(&gfa.segs[0]), b"ACGT");
}

#[test]
fn every_opcode() {
    let gfa = Parser::parse(b"S 1 A\nL 1 + 1 - 1M2N3D4I\n").unwrap();
    assert_eq!(
        ops_of(&gfa, &gfa.links[0].overlap),
        vec![
            AlignOp { op: AlignOpcode::Match, len: 1 },
            AlignOp { op: AlignOpcode::Gap, len: 2 },
            AlignOp { op: AlignOpcode::Insertion, len: 3 },
            AlignOp { op: AlignOpcode::Deletion, len: 4 },
        ]
    );
}

#[test]
fn run_length_must_fit_32_bits() {
    assert!(parse_line(b"L 1 + 1 + 4294967295M").is_some());
    assert!(parse_line(b"L 1 + 1 + 4294967296M").is_none());
}

#[test]
fn ranges_stay_inside_their_pools() {
    let gfa = Parser::parse(
        b"H v\nS 1 ACGT x\nS 2 GG\nP p 1+,2- 2M,1M1D\nL 1 + 2 + 3M\nP q 2+ *\n",
    )
    .unwrap();
    assert!(gfa.is_valid());
    assert_eq!(gfa.alignment.len(), 4);
    assert_eq!(gfa.overlaps, vec![1..2, 2..4]);
    assert_eq!(gfa.links[0].overlap, 0..1);
}

#[test]
fn path_line_parts() {
    match parse_line(b"P\tname\t1+,22-\t*") {
        Some(Line::Path(path)) => {
            assert_eq!(path.name, b"name");
            assert_eq!(
                path.steps,
                vec![(1, Orientation::Forward), (22, Orientation::Backward)]
            );
            assert!(path.overlaps.is_empty());
        }
        other => panic!("not a path: {:?}", other),
    }
}
