use bstr::BStr;
use flatgfa::flatgfa::FlatGFA;
use flatgfa::gaf::{
    gaf_lookup, locate, parse_int, parse_int_all, GAFRead, GafError, GafPosition, GafSpan,
    PathParser,
};

#[test]
fn test_parse_gaf_path() {
    let s = b">12<34>5 suffix";
    let mut parser = PathParser::new(s);
    let path: Vec<_> = parser.collect();
    assert_eq!(path, vec![(12, true), (34, false), (5, true)]);
    assert_eq!(parser.rest(), b"suffix");
}

#[test]
fn path_parser_next_by_next() {
    let mut parser = PathParser::new(b">1<2");
    assert_eq!(parser.next(), Some((1, true)));
    assert_eq!(parser.rest(), b"<2");
    assert_eq!(parser.next(), Some((2, false)));
    assert_eq!(parser.next(), None);
    assert_eq!(parser.rest(), b"");
}

#[test]
fn path_parser_direction_without_name() {
    let mut parser = PathParser::new(b">x");
    assert_eq!(parser.next(), None);
    assert_eq!(parser.rest(), b"x");
}

#[test]
fn parse_int_reads_digits_and_moves_index() {
    let mut index = 2;
    assert_eq!(parse_int(b"ab123cd", &mut index), Some(123));
    assert_eq!(index, 5);
}

#[test]
fn parse_int_without_digit() {
    let mut index = 0;
    assert_eq!(parse_int(b"x12", &mut index), None);
    assert_eq!(index, 0);
}

#[test]
fn parse_int_past_the_end() {
    let mut index = 7;
    assert_eq!(parse_int(b"12", &mut index), None);
    assert_eq!(index, 7);
}

#[test]
fn parse_int_too_large() {
    let mut index = 0;
    let digits = b"99999999999999999999999999999999x";
    assert_eq!(parse_int(digits, &mut index), None);
    assert_eq!(index, 32);
}

#[test]
fn parse_int_largest() {
    let text = format!("{}", usize::MAX);
    assert_eq!(parse_int_all(text.as_bytes()), Some(usize::MAX));
}

#[test]
fn parse_int_all_wants_digits_only() {
    assert_eq!(parse_int_all(b"42"), Some(42));
    assert_eq!(parse_int_all(b"007"), Some(7));
    assert_eq!(parse_int_all(b"42 "), None);
    assert_eq!(parse_int_all(b""), None);
}

#[test]
fn gaf_read_fields() {
    let line = b"read1\t100\t0\t100\t+\t>1<2\t8\t2\t6\t100";
    let read = GAFRead::parse(line).unwrap();
    assert_eq!(read.name, b"read1");
    assert_eq!(read.path, b">1<2");
    assert_eq!(read.start, 2);
    assert_eq!(read.end, 6);
}

#[test]
fn gaf_read_too_few_fields() {
    assert!(GAFRead::parse(b"read1\t100\t0\t100\t+\t>1<2\t8\t2").is_none());
    assert!(GAFRead::parse(b"").is_none());
}

#[test]
fn gaf_read_bad_number() {
    assert!(GAFRead::parse(b"read1\t100\t0\t100\t+\t>1<2\t8\tx\t6").is_none());
    assert!(GAFRead::parse(b"read1\t100\t0\t100\t+\t>1<2\t\t2\t6").is_none());
}

fn two_segments() -> FlatGFA {
    let mut gfa = FlatGFA::new();
    gfa.add_seg(1, b"ACGT".to_vec(), vec![]);
    gfa.add_seg(2, b"GGTA".to_vec(), vec![]);
    gfa
}

#[test]
fn locate_across_two_segments() {
    let gfa = two_segments();
    let read = GAFRead { name: BStr::new(b"r"), start: 2, end: 6, path: b">1<2" };
    assert_eq!(
        locate(&gfa.as_view(), &read),
        Ok(GafSpan {
            started: Some(GafPosition { seg_name: 1, offset: 2 }),
            ended: Some(GafPosition { seg_name: 2, offset: 2 }),
        })
    );
}

#[test]
fn locate_within_one_segment() {
    let gfa = two_segments();
    let read = GAFRead { name: BStr::new(b"r"), start: 1, end: 3, path: b">1>2" };
    assert_eq!(
        locate(&gfa.as_view(), &read),
        Ok(GafSpan {
            started: Some(GafPosition { seg_name: 1, offset: 1 }),
            ended: Some(GafPosition { seg_name: 1, offset: 3 }),
        })
    );
}

#[test]
fn locate_end_beyond_the_path() {
    let gfa = two_segments();
    let read = GAFRead { name: BStr::new(b"r"), start: 5, end: 8, path: b">1>2" };
    assert_eq!(
        locate(&gfa.as_view(), &read),
        Ok(GafSpan { started: Some(GafPosition { seg_name: 2, offset: 1 }), ended: None })
    );
}

#[test]
fn locate_unknown_segment() {
    let gfa = two_segments();
    let read = GAFRead { name: BStr::new(b"r"), start: 5, end: 8, path: b">1>7" };
    assert_eq!(locate(&gfa.as_view(), &read), Err(GafError::UnknownSegment(7)));
}

#[test]
fn locate_stops_at_the_end_of_the_read() {
    let gfa = two_segments();
    let read = GAFRead { name: BStr::new(b"r"), start: 0, end: 1, path: b">1>7" };
    assert_eq!(
        locate(&gfa.as_view(), &read),
        Ok(GafSpan {
            started: Some(GafPosition { seg_name: 1, offset: 0 }),
            ended: Some(GafPosition { seg_name: 1, offset: 1 }),
        })
    );
}

#[test]
fn gaf_lookup_whole_file() {
    let gfa = two_segments();
    let gaf = b"a\t0\t0\t0\t+\t>1>2\t8\t2\t6\nb\t0\t0\t0\t+\t<2\t4\t0\t3\n";
    let hits = gaf_lookup(&gfa.as_view(), gaf).unwrap();
    assert_eq!(hits.len(), 2);
    assert_eq!(hits[0].name, b"a");
    assert_eq!(hits[0].span.started, Some(GafPosition { seg_name: 1, offset: 2 }));
    assert_eq!(hits[0].span.ended, Some(GafPosition { seg_name: 2, offset: 2 }));
    assert_eq!(hits[1].name, b"b");
    assert_eq!(hits[1].span.started, Some(GafPosition { seg_name: 2, offset: 0 }));
    assert_eq!(hits[1].span.ended, Some(GafPosition { seg_name: 2, offset: 3 }));
}

#[test]
fn gaf_lookup_malformed_line() {
    let gfa = two_segments();
    let gaf = b"a\t0\t0\t0\t+\t>1>2\t8\t2\t6\nnonsense\n";
    assert_eq!(gaf_lookup(&gfa.as_view(), gaf).err(), Some(GafError::MalformedRead(1)));
}

#[test]
fn gaf_lookup_unknown_segment() {
    let gfa = two_segments();
    let gaf = b"a\t0\t0\t0\t+\t>1>9\t8\t5\t6\n";
    assert_eq!(gaf_lookup(&gfa.as_view(), gaf).err(), Some(GafError::UnknownSegment(9)));
}
