use flatgfa::flatgfa::{AlignOp, AlignOpcode, FlatGFA, Handle, LineKind, Orientation};
use flatgfa::parse::Parser;
use flatgfa::print::{print, push_decimal};

fn reprinted(text: &[u8]) -> Vec<u8> {
    print(&Parser::parse(text).unwrap().as_view()).unwrap()
}

#[test]
fn print_gives_the_lines_back_in_order() {
    let text = b"H\tVN:Z:1.0\nS\t1\tACGT\tLN:i:4\nL\t1\t+\t2\t-\t4M\nS\t2\tGGTA\nP\tp1\t1+,2-\t2M1D,*\n";
    assert_eq!(reprinted(text), text.to_vec());
}

#[test]
fn print_divides_fields_by_tabs() {
    assert_eq!(
        reprinted(b"S 1 ACGT\nS 2 GGTA\nL 1 + 2 + 4M\n"),
        b"S\t1\tACGT\nS\t2\tGGTA\nL\t1\t+\t2\t+\t4M\n".to_vec()
    );
}

#[test]
fn print_writes_names_not_ids() {
    assert_eq!(
        reprinted(b"S\t30\tA\nS\t10\tC\nL\t10\t-\t30\t+\t*\nP\tx\t10+,30-\t*\n"),
        b"S\t30\tA\nS\t10\tC\nL\t10\t-\t30\t+\t*\nP\tx\t10+,30-\t*\n".to_vec()
    );
}

#[test]
fn print_empty_alignments_as_stars() {
    assert_eq!(
        reprinted(b"S\t1\tA\nL\t1\t+\t1\t+\t\nP\tp\t1+,1+,1+\t*,2M\n"),
        b"S\t1\tA\nL\t1\t+\t1\t+\t*\nP\tp\t1+,1+,1+\t*,2M\n".to_vec()
    );
}

#[test]
fn print_path_without_steps() {
    assert_eq!(reprinted(b"P\tp\t\t*\n"), b"P\tp\t\t*\n".to_vec());
}

#[test]
fn parse_print_parse_gives_the_same_graph() {
    let text: &[u8] =
        b"H v1\nS 3 ACGT x y\nP p 3+,1- 4M,*\nL 3 + 1 - 007M2I\nS 1 GG\nL 1 - 1 - \nP q 1+ *\n";
    let first = Parser::parse(text).unwrap();
    let second = Parser::parse(&print(&first.as_view()).unwrap()).unwrap();
    assert_eq!(first.header, second.header);
    assert_eq!(first.segs, second.segs);
    assert_eq!(first.paths, second.paths);
    assert_eq!(first.links, second.links);
    assert_eq!(first.steps, second.steps);
    assert_eq!(first.seqdata, second.seqdata);
    assert_eq!(first.overlaps, second.overlaps);
    assert_eq!(first.alignment, second.alignment);
    assert_eq!(first.namedata, second.namedata);
    assert_eq!(first.optional_data, second.optional_data);
    assert_eq!(first.line_order, second.line_order);
}

#[test]
fn print_is_settled_after_one_round() {
    let text: &[u8] = b"S 3 ACGT x y\nL 3 + 3 - 007M2I\n";
    let once = reprinted(text);
    assert_eq!(once, b"S\t3\tACGT\tx y\nL\t3\t+\t3\t-\t7M2I\n".to_vec());
    assert_eq!(reprinted(&once), once);
}

#[test]
fn no_text_where_a_record_is_missing() {
    let mut gfa = FlatGFA::new();
    gfa.record_line(LineKind::Segment);
    assert_eq!(print(&gfa.as_view()), None);
    let mut gfa = FlatGFA::new();
    gfa.record_line(LineKind::Header);
    assert_eq!(print(&gfa.as_view()), None);
}

#[test]
fn no_text_where_a_link_has_no_segment() {
    let mut gfa = FlatGFA::new();
    gfa.add_seg(1, b"A".to_vec(), vec![]);
    gfa.add_link(
        Handle { segment: 0, orient: Orientation::Forward },
        Handle { segment: 5, orient: Orientation::Forward },
        vec![AlignOp { op: AlignOpcode::Match, len: 1 }],
    );
    gfa.record_line(LineKind::Segment);
    gfa.record_line(LineKind::Link);
    assert_eq!(print(&gfa.as_view()), None);
}

#[test]
fn records_without_lines_are_not_printed() {
    let mut gfa = FlatGFA::new();
    gfa.add_seg(1, b"A".to_vec(), vec![]);
    assert_eq!(print(&gfa.as_view()), Some(vec![]));
}

#[test]
fn decimal_digits() {
    let mut out = b"x".to_vec();
    push_decimal(&mut out, 0);
    push_decimal(&mut out, 9);
    push_decimal(&mut out, 10);
    push_decimal(&mut out, 1234567890);
    assert_eq!(out, b"x09101234567890".to_vec());
}
