use bstr::BString;
use flatgfa::flatgfa::{
    AlignOp, AlignOpcode, FlatGFA, Handle, LineKind, Orientation, Path, Segment,
};
use flatgfa::pool::{pool_append, pool_extend, pool_push, range_ok};

fn op(op: AlignOpcode, len: u32) -> AlignOp {
    AlignOp { op, len }
}

#[test]
fn push_gives_the_index() {
    let mut pool = vec![7, 8];
    assert_eq!(pool_push(&mut pool, 9), 2);
    assert_eq!(pool_push(&mut pool, 10), 3);
    assert_eq!(pool, vec![7, 8, 9, 10]);
}

#[test]
fn append_gives_the_range() {
    let mut pool = vec![1u8, 2];
    assert_eq!(pool_append(&mut pool, vec![3, 4, 5]), 2..5);
    assert_eq!(pool_append(&mut pool, vec![]), 5..5);
    assert_eq!(pool, vec![1, 2, 3, 4, 5]);
}

#[test]
fn extend_gives_the_range() {
    let mut pool: Vec<u8> = vec![];
    assert_eq!(pool_extend(&mut pool, vec![3, 4], 2), 0..2);
    assert_eq!(pool, vec![3, 4]);
}

#[test]
fn range_inside_a_pool() {
    assert!(range_ok(&(0..0), 0));
    assert!(range_ok(&(2..5), 5));
    assert!(!range_ok(&(2..6), 5));
    #[allow(clippy::reversed_empty_ranges)]
    let backwards = 3..2;
    assert!(!range_ok(&backwards, 5));
}

#[test]
fn new_graph_is_empty() {
    let gfa = FlatGFA::new();
    assert_eq!(gfa.header, None);
    assert!(gfa.segs.is_empty());
    assert!(gfa.namedata.is_empty());
    assert!(gfa.is_valid());
    let gfa = FlatGFA::default();
    assert!(gfa.line_order.is_empty());
}

#[test]
fn segments_get_ids_in_order() {
    let mut gfa = FlatGFA::new();
    assert_eq!(gfa.add_seg(5, b"ACGT".to_vec(), b"x".to_vec()), 0);
    assert_eq!(gfa.add_seg(6, b"GG".to_vec(), vec![]), 1);
    assert_eq!(
        gfa.segs,
        vec![
            Segment { name: 5, seq: 0..4, optional: 0..1 },
            Segment { name: 6, seq: 4..6, optional: 1..1 },
        ]
    );
    assert_eq!(gfa.seqdata, b"ACGTGG".to_vec());
    assert_eq!(gfa.optional_data, BString::from("x"));
    assert_eq!(gfa.get_seq(&gfa.segs[1]), b"GG");
    assert_eq!(gfa.get_optional_data(&gfa.segs[0]), b"x");
    assert_eq!(gfa.segs[0].len(), 4);
    assert_eq!(gfa.segs[1].len(), 2);
}

#[test]
fn path_overlaps_are_flattened() {
    let mut gfa = FlatGFA::new();
    gfa.add_link(
        Handle::new(0, Orientation::Forward),
        Handle::new(0, Orientation::Backward),
        vec![op(AlignOpcode::Gap, 9)],
    );
    let id = gfa.add_path(
        b"walk".to_vec(),
        vec![
            Handle::new(0, Orientation::Forward),
            Handle::new(1, Orientation::Backward),
            Handle::new(2, Orientation::Forward),
        ],
        vec![
            vec![op(AlignOpcode::Match, 1), op(AlignOpcode::Deletion, 2)],
            vec![],
            vec![op(AlignOpcode::Insertion, 3)],
        ],
    );
    assert_eq!(id, 0);
    assert_eq!(gfa.paths, vec![Path { name: 0..4, steps: 0..3, overlaps: 0..3 }]);
    assert_eq!(gfa.overlaps, vec![1..3, 3..3, 3..4]);
    assert_eq!(
        gfa.alignment,
        vec![
            op(AlignOpcode::Gap, 9),
            op(AlignOpcode::Match, 1),
            op(AlignOpcode::Deletion, 2),
            op(AlignOpcode::Insertion, 3),
        ]
    );
    let path = &gfa.paths[0];
    assert_eq!(gfa.get_path_name(path), b"walk");
    assert_eq!(gfa.get_steps(path).len(), 3);
    let overlaps = gfa.get_overlaps(path);
    assert_eq!(gfa.get_alignment(&overlaps[0]).ops.len(), 2);
    assert_eq!(gfa.get_alignment(&overlaps[1]).ops.len(), 0);
    assert_eq!(gfa.get_alignment(&overlaps[2]).ops, &[op(AlignOpcode::Insertion, 3)]);
    assert_eq!(gfa.get_alignment(&gfa.links[0].overlap).ops, &[op(AlignOpcode::Gap, 9)]);
    assert!(gfa.is_valid());
}

#[test]
fn second_path_starts_where_the_first_ends() {
    let mut gfa = FlatGFA::new();
    gfa.add_path(b"a".to_vec(), vec![], vec![vec![op(AlignOpcode::Match, 1)]]);
    let id = gfa.add_path(b"bc".to_vec(), vec![Handle::new(4, Orientation::Forward)], vec![]);
    assert_eq!(id, 1);
    assert_eq!(gfa.paths[1], Path { name: 1..3, steps: 0..1, overlaps: 1..1 });
    assert!(gfa.is_valid());
}

#[test]
fn ranges_are_valid_after_every_addition() {
    let mut gfa = FlatGFA::new();
    assert!(gfa.is_valid());
    gfa.add_header(b"VN:Z:1.0".to_vec());
    assert!(gfa.is_valid());
    for name in 1..20usize {
        gfa.add_seg(name, vec![b'A'; name], vec![b'x'; name % 3]);
        assert!(gfa.is_valid());
        gfa.add_link(
            Handle::new(name - 1, Orientation::Forward),
            Handle::new(0, Orientation::Backward),
            vec![op(AlignOpcode::Match, name as u32); name % 4],
        );
        assert!(gfa.is_valid());
        gfa.add_path(
            vec![b'p'; name % 5],
            vec![Handle::new(0, Orientation::Forward); name % 3],
            vec![vec![op(AlignOpcode::Match, 1); name % 2]; name % 4],
        );
        assert!(gfa.is_valid());
        gfa.record_line(LineKind::Segment);
        assert!(gfa.is_valid());
    }
    assert_eq!(gfa.header, Some(BString::from("VN:Z:1.0")));
}

#[test]
fn a_range_outside_its_pool_is_found() {
    let mut gfa = FlatGFA::new();
    gfa.add_seg(1, b"ACGT".to_vec(), vec![]);
    gfa.segs[0].seq = 0..5;
    assert!(!gfa.is_valid());
    gfa.segs[0].seq = 0..4;
    assert!(gfa.is_valid());
    gfa.overlaps.push(0..1);
    assert!(!gfa.is_valid());
}

#[test]
fn find_the_first_segment_of_a_name() {
    let mut gfa = FlatGFA::new();
    gfa.add_seg(3, vec![], vec![]);
    gfa.add_seg(9, vec![], vec![]);
    gfa.add_seg(3, vec![], vec![]);
    assert_eq!(gfa.find_seg(3), Some(0));
    assert_eq!(gfa.find_seg(9), Some(1));
    assert_eq!(gfa.find_seg(4), None);
}

#[test]
fn line_kinds_are_logged_in_order() {
    let mut gfa = FlatGFA::new();
    gfa.record_line(LineKind::Header);
    gfa.record_line(LineKind::Path);
    gfa.record_line(LineKind::Segment);
    gfa.record_line(LineKind::Link);
    assert_eq!(
        gfa.line_order,
        vec![LineKind::Header, LineKind::Path, LineKind::Segment, LineKind::Link]
    );
}
