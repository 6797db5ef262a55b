use flatgfa::namemap::NameMap;

#[test]
fn names_in_sequence() {
    let mut map = NameMap::new();
    for id in 0..100 {
        map.insert(id + 1, id);
    }
    for id in 0..100 {
        assert_eq!(map.get(id + 1), Some(id));
    }
    assert_eq!(map.get(101), None);
    assert_eq!(map.get(0), None);
}

#[test]
fn insertions_out_of_sequence() {
    let mut map = NameMap::new();
    map.insert(10, 0);
    map.insert(5, 1);
    map.insert(1, 2);
    map.insert(2, 3);
    assert_eq!(map.get(10), Some(0));
    assert_eq!(map.get(5), Some(1));
    assert_eq!(map.get(1), Some(2));
    assert_eq!(map.get(2), Some(3));
    assert_eq!(map.get(3), None);
}

#[test]
fn sequence_broken_and_resumed() {
    let mut map = NameMap::new();
    map.insert(1, 0);
    map.insert(2, 1);
    map.insert(7, 2);
    map.insert(3, 3);
    map.insert(4, 4);
    assert_eq!(map.get(1), Some(0));
    assert_eq!(map.get(2), Some(1));
    assert_eq!(map.get(7), Some(2));
    assert_eq!(map.get(3), Some(3));
    assert_eq!(map.get(4), Some(4));
}

#[test]
fn any_order_gives_the_ids_back() {
    let names = [4usize, 1, 3, 2, 9, 5];
    let mut map = NameMap::new();
    for (id, name) in names.iter().enumerate() {
        map.insert(*name, id);
    }
    for (id, name) in names.iter().enumerate() {
        assert_eq!(map.get(*name), Some(id));
    }
}

#[test]
fn name_zero_goes_to_the_table() {
    let mut map = NameMap::new();
    assert_eq!(map.get(0), None);
    map.insert(0, 3);
    assert_eq!(map.get(0), Some(3));
    map.insert(1, 0);
    assert_eq!(map.get(0), Some(3));
    assert_eq!(map.get(1), Some(0));
}

#[test]
fn last_insertion_wins_in_the_table() {
    let mut map = NameMap::new();
    map.insert(8, 1);
    map.insert(8, 2);
    assert_eq!(map.get(8), Some(2));
}

#[test]
fn name_in_sequence_keeps_its_id() {
    let mut map = NameMap::new();
    map.insert(1, 0);
    map.insert(1, 5);
    assert_eq!(map.get(1), Some(0));
}

#[test]
fn largest_name() {
    let mut map = NameMap::default();
    map.insert(usize::MAX, usize::MAX - 1);
    assert_eq!(map.get(usize::MAX), Some(usize::MAX - 1));
}
