use bstr::BString;
use flatgfa::file::{dump, load, size, view, FileError, TOC_BYTES};
use flatgfa::flatgfa::{AlignOp, AlignOpcode, FlatGFA, Handle, LineKind, Orientation};
use flatgfa::parse::Parser;

fn sample() -> FlatGFA {
    Parser::parse(
        b"H\tVN:Z:1.0\nS\t1\tACGT\tLN:i:4\nS\t2\tGGTAC\nL\t1\t+\t2\t-\t4M\nP\tp1\t1+,2-\t2M1D,*\n",
    )
    .unwrap()
}

fn same_graph(a: &FlatGFA, b: &FlatGFA) {
    assert_eq!(a.header, b.header);
    assert_eq!(a.segs, b.segs);
    assert_eq!(a.paths, b.paths);
    assert_eq!(a.links, b.links);
    assert_eq!(a.steps, b.steps);
    assert_eq!(a.seqdata, b.seqdata);
    assert_eq!(a.overlaps, b.overlaps);
    assert_eq!(a.alignment, b.alignment);
    assert_eq!(a.namedata, b.namedata);
    assert_eq!(a.optional_data, b.optional_data);
    assert_eq!(a.line_order, b.line_order);
}

fn word(image: &[u8], k: usize) -> u64 {
    let mut bytes = [0u8; 8];
    bytes.copy_from_slice(&image[8 * k..8 * k + 8]);
    u64::from_le_bytes(bytes)
}

fn set_word(image: &mut [u8], k: usize, value: u64) {
    image[8 * k..8 * k + 8].copy_from_slice(&value.to_le_bytes());
}

#[test]
fn dump_then_load_gives_the_graph_back() {
    let gfa = sample();
    let back = load(&dump(&gfa.as_view())).unwrap();
    same_graph(&gfa, &back);
}

#[test]
fn accessors_agree_after_dump_and_load() {
    let gfa = sample();
    let back = load(&dump(&gfa.as_view())).unwrap();
    for (seg, seg_back) in gfa.segs.iter().zip(back.segs.iter()) {
        assert_eq!(gfa.get_seq(seg), back.get_seq(seg_back));
        assert_eq!(gfa.get_optional_data(seg), back.get_optional_data(seg_back));
    }
    for (path, path_back) in gfa.paths.iter().zip(back.paths.iter()) {
        assert_eq!(gfa.get_path_name(path), back.get_path_name(path_back));
        assert_eq!(gfa.get_steps(path), back.get_steps(path_back));
        let overlaps = gfa.get_overlaps(path);
        let overlaps_back = back.get_overlaps(path_back);
        assert_eq!(overlaps, overlaps_back);
        for (o, o_back) in overlaps.iter().zip(overlaps_back.iter()) {
            assert_eq!(gfa.get_alignment(o).ops, back.get_alignment(o_back).ops);
        }
    }
    for (link, link_back) in gfa.links.iter().zip(back.links.iter()) {
        assert_eq!(
            gfa.get_alignment(&link.overlap).ops,
            back.get_alignment(&link_back.overlap).ops
        );
    }
}

#[test]
fn loading_twice_gives_the_same_graph() {
    let image = dump(&sample().as_view());
    let first = load(&image).unwrap();
    let second = load(&image).unwrap();
    same_graph(&first, &second);
}

#[test]
fn empty_graph_is_the_table_alone() {
    let gfa = FlatGFA::new();
    let image = dump(&gfa.as_view());
    assert_eq!(image.len(), TOC_BYTES);
    assert_eq!(size(&gfa.as_view()), Some(176));
    for pool in 0..10 {
        assert_eq!(word(&image, 2 * pool), 176);
        assert_eq!(word(&image, 2 * pool + 1), 0);
    }
    assert_eq!(word(&image, 20), 0);
    assert_eq!(word(&image, 21), 0);
    same_graph(&gfa, &load(&image).unwrap());
}

#[test]
fn layout_of_a_small_graph() {
    let mut gfa = FlatGFA::new();
    gfa.add_seg(7, b"ACG".to_vec(), vec![]);
    gfa.record_line(LineKind::Segment);
    gfa.add_link(
        Handle { segment: 0, orient: Orientation::Forward },
        Handle { segment: 0, orient: Orientation::Backward },
        vec![AlignOp { op: AlignOpcode::Insertion, len: 5 }],
    );
    gfa.record_line(LineKind::Link);
    let image = dump(&gfa.as_view());
    // One segment of 40 bytes, then one link of 48 bytes.
    assert_eq!((word(&image, 0), word(&image, 1)), (176, 40));
    assert_eq!((word(&image, 2), word(&image, 3)), (216, 0));
    assert_eq!((word(&image, 4), word(&image, 5)), (216, 48));
    assert_eq!((word(&image, 6), word(&image, 7)), (264, 0));
    // Three bases, then two empty byte pools.
    assert_eq!((word(&image, 8), word(&image, 9)), (264, 3));
    assert_eq!((word(&image, 10), word(&image, 11)), (267, 0));
    assert_eq!((word(&image, 12), word(&image, 13)), (267, 0));
    // The next pool of records starts at the next multiple of eight.
    assert_eq!((word(&image, 14), word(&image, 15)), (272, 0));
    assert_eq!((word(&image, 16), word(&image, 17)), (272, 8));
    assert_eq!((word(&image, 18), word(&image, 19)), (280, 2));
    assert_eq!((word(&image, 20), word(&image, 21)), (0, 0));
    assert_eq!(image.len(), 282);
    assert_eq!(size(&gfa.as_view()), Some(282));
    assert_eq!(&image[264..267], b"ACG");
    assert_eq!(&image[267..272], &[0, 0, 0, 0, 0]);
    // The segment: its name, then its two ranges.
    assert_eq!(word(&image, 22), 7);
    assert_eq!((word(&image, 23), word(&image, 24)), (0, 3));
    // The operation: the length below, the number of the operation above.
    assert_eq!(word(&image, 34), (2 << 32) + 5);
    assert_eq!(&image[280..282], &[1, 3]);
}

#[test]
fn header_present_but_empty() {
    let gfa = Parser::parse(b"H\t\n").unwrap();
    assert_eq!(gfa.header, Some(BString::from("")));
    let image = dump(&gfa.as_view());
    assert_eq!((word(&image, 20), word(&image, 21)), (177, 0));
    let back = load(&image).unwrap();
    assert_eq!(back.header, Some(BString::from("")));
}

#[test]
fn too_short_for_the_table() {
    assert_eq!(load(&[0u8; 175]).err(), Some(FileError::Truncated));
    assert_eq!(load(&[]).err(), Some(FileError::Truncated));
}

#[test]
fn pool_inside_the_table() {
    let mut image = dump(&sample().as_view());
    set_word(&mut image, 0, 100);
    assert_eq!(load(&image).err(), Some(FileError::Overlap(0)));
}

#[test]
fn pool_before_the_end_of_the_one_before() {
    let mut image = dump(&sample().as_view());
    let start = word(&image, 2);
    set_word(&mut image, 2, start - 8);
    assert_eq!(load(&image).err(), Some(FileError::Overlap(1)));
}

#[test]
fn pool_past_the_end_of_the_block() {
    let mut image = dump(&sample().as_view());
    let len = image.len() as u64;
    set_word(&mut image, 19, len);
    assert_eq!(load(&image).err(), Some(FileError::OutOfBounds(9)));
    let mut image = dump(&sample().as_view());
    set_word(&mut image, 19, u64::MAX);
    assert_eq!(load(&image).err(), Some(FileError::OutOfBounds(9)));
}

#[test]
fn absent_header_with_a_length() {
    let mut image = dump(&FlatGFA::new().as_view());
    set_word(&mut image, 21, 1);
    assert_eq!(load(&image).err(), Some(FileError::OutOfBounds(10)));
}

#[test]
fn pool_of_half_an_item() {
    let mut image = dump(&sample().as_view());
    let len = word(&image, 1);
    set_word(&mut image, 1, len - 1);
    assert_eq!(load(&image).err(), Some(FileError::Ragged(0)));
}

#[test]
fn any_bytes_of_the_right_length_stand_for_a_record() {
    let gfa = sample();
    let mut image = dump(&gfa.as_view());
    // The kind of the first line: nine stands for what one stands for.
    let kinds = word(&image, 18) as usize;
    assert_eq!(image[kinds], 0);
    image[kinds] = 9;
    assert_eq!(load(&image).unwrap().line_order[0], LineKind::Segment);
    // The orientation of the first step: an odd number is backwards.
    let steps = word(&image, 6) as usize;
    image[steps + 8] = 3;
    assert_eq!(
        load(&image).unwrap().steps[0],
        Handle { segment: 0, orient: Orientation::Backward }
    );
    image[steps + 8] = 2;
    assert_eq!(
        load(&image).unwrap().steps[0],
        Handle { segment: 0, orient: Orientation::Forward }
    );
    // The number of the first operation: five stands for what one stands for.
    let ops = word(&image, 16) as usize;
    image[ops + 4] = 5;
    assert_eq!(
        load(&image).unwrap().alignment[0],
        AlignOp { op: AlignOpcode::Gap, len: 4 }
    );
}

#[test]
fn loaded_graph_can_be_checked() {
    let mut image = dump(&sample().as_view());
    assert!(load(&image).unwrap().is_valid());
    // Make the first segment's bases end far outside the pool.
    let segs = word(&image, 0) as usize;
    image[segs + 16..segs + 24].copy_from_slice(&1000u64.to_le_bytes());
    assert!(!load(&image).unwrap().is_valid());
}

#[test]
fn size_is_the_length_of_the_dump() {
    let gfa = sample();
    assert_eq!(size(&gfa.as_view()), Some(dump(&gfa.as_view()).len()));
}

#[test]
fn viewing_in_place_reads_what_the_graph_holds() {
    let gfa = sample();
    let image = dump(&gfa.as_view());
    let mapped = view(&image).unwrap();
    let held = gfa.as_view();
    assert_eq!(mapped.header, held.header);
    assert_eq!(mapped.segs.len(), gfa.segs.len());
    for i in 0..gfa.segs.len() {
        let seg = mapped.segs.get(i);
        assert_eq!(seg, gfa.segs[i]);
        assert_eq!(mapped.get_seq(&seg), gfa.get_seq(&gfa.segs[i]));
        assert_eq!(mapped.get_optional_data(&seg), gfa.get_optional_data(&gfa.segs[i]));
    }
    assert_eq!(mapped.paths.len(), gfa.paths.len());
    for i in 0..gfa.paths.len() {
        let path = mapped.paths.get(i);
        assert_eq!(path, gfa.paths[i]);
        assert_eq!(mapped.get_path_name(&path), gfa.get_path_name(&gfa.paths[i]));
        assert_eq!(mapped.get_steps(&path), gfa.get_steps(&gfa.paths[i]));
        let overlaps = mapped.get_overlaps(&path);
        assert_eq!(overlaps, gfa.get_overlaps(&gfa.paths[i]));
        for overlap in overlaps.iter() {
            assert_eq!(mapped.get_alignment(overlap), gfa.get_alignment(overlap).ops);
        }
    }
    assert_eq!(mapped.links.len(), gfa.links.len());
    for i in 0..gfa.links.len() {
        let link = mapped.links.get(i);
        assert_eq!(link, gfa.links[i]);
        assert_eq!(
            mapped.get_alignment(&link.overlap),
            gfa.get_alignment(&gfa.links[i].overlap).ops
        );
    }
    assert_eq!(mapped.line_order.len(), gfa.line_order.len());
    for i in 0..gfa.line_order.len() {
        assert_eq!(mapped.line_order.get(i), gfa.line_order[i]);
    }
    assert!(mapped.is_valid());
    assert_eq!(mapped.find_seg(2), Some(1));
    assert_eq!(mapped.find_seg(3), None);
}

#[test]
fn view_in_place_writes_the_same_block_and_text() {
    let gfa = sample();
    let image = dump(&gfa.as_view());
    let mapped = view(&image).unwrap();
    assert_eq!(dump(&mapped), image);
    assert_eq!(size(&mapped), Some(image.len()));
    assert_eq!(
        flatgfa::print::print(&mapped),
        flatgfa::print::print(&gfa.as_view())
    );
    same_graph(&mapped.to_heap(), &gfa);
}

#[test]
fn view_rejects_what_load_rejects() {
    let mut image = dump(&sample().as_view());
    assert_eq!(view(&image[..100]).err(), Some(FileError::Truncated));
    set_word(&mut image, 0, 100);
    assert_eq!(view(&image).err(), Some(FileError::Overlap(0)));
    assert_eq!(load(&image).err(), Some(FileError::Overlap(0)));
}
