use bathtub_db::chaos::Name;
use bathtub_db::dvcs::{
    compare_trees, compute_diff, Commit, Dir, Item, ItemMap, Kind, TrackedItem, TrackedKind,
    TrackingList,
};

#[test]
fn test_compare() {
    let mut a: ItemMap<30> = ItemMap::new();
    let mut b: ItemMap<30> = ItemMap::new();
    let status = compare_trees::<30>(&a, &b);
    assert_eq!(status.removed.len(), 0);
    assert_eq!(status.changed.len(), 0);
    assert_eq!(status.unknown.len(), 0);

    a.insert("same".to_string(), Item::EmptyFile);
    b.insert("same".to_string(), Item::EmptyFile);
    let status = compare_trees::<30>(&a, &b);
    assert_eq!(status.removed.len(), 0);
    assert_eq!(status.changed.len(), 0);
    assert_eq!(status.unknown.len(), 0);

    a.insert("foo".to_string(), Item::EmptyFile);
    let status = compare_trees::<30>(&a, &b);
    assert_eq!(status.removed, vec!["foo".to_string()]);
    assert_eq!(status.changed.len(), 0);
    assert_eq!(status.unknown.len(), 0);

    a.insert("bar".to_string(), Item::EmptyFile);
    b.insert("bar".to_string(), Item::EmptyDir);
    let status = compare_trees::<30>(&a, &b);
    assert_eq!(status.removed, vec!["foo".to_string()]);
    assert_eq!(status.changed, vec!["bar".to_string()]);
    assert_eq!(status.unknown.len(), 0);

    b.insert("baz".to_string(), Item::EmptyDir);
    let status = compare_trees::<30>(&a, &b);
    assert_eq!(status.removed, vec!["foo".to_string()]);
    assert_eq!(status.changed, vec!["bar".to_string()]);
    assert_eq!(status.unknown, vec!["baz".to_string()]);
}

#[test]
fn test_compare_newch_and_order() {
    let mut a: ItemMap<30> = ItemMap::new();
    let mut b: ItemMap<30> = ItemMap::new();
    a.insert("z".to_string(), Item::EmptyFile);
    a.insert("m".to_string(), Item::EmptyFile);
    a.insert("c".to_string(), Item::SymLink("x".to_string()));
    b.insert("c".to_string(), Item::SymLink("y".to_string()));
    b.insert("y".to_string(), Item::EmptyDir);
    b.insert("b".to_string(), Item::EmptyDir);
    let status = compare_trees::<30>(&a, &b);
    assert_eq!(status.removed, vec!["m".to_string(), "z".to_string()]);
    assert_eq!(status.changed, vec!["c".to_string()]);
    assert_eq!(
        status.newch,
        vec![("c".to_string(), Item::SymLink("x".to_string()), Item::SymLink("y".to_string()))]
    );
    assert_eq!(status.unknown, vec!["b".to_string(), "y".to_string()]);
}

#[test]
fn test_tree() {
    let mut hash = Name::<15>::new();
    let tree: Dir<15> = Dir::new();
    let mut buf = Vec::new();
    tree.serialize(&mut buf);
    assert_eq!(buf, vec![]);

    let mut tree: Dir<15> = Dir::new();
    tree.add_empty_dir("a".to_string());
    let mut buf = Vec::new();
    tree.serialize(&mut buf);
    assert_eq!(buf, [0, 1, 97]);
    assert_eq!(Dir::deserialize(&buf), tree);

    let mut tree: Dir<15> = Dir::new();
    tree.add_empty_file("bb".to_string());
    let mut buf = Vec::new();
    tree.serialize(&mut buf);
    assert_eq!(buf, [1, 2, 98, 98]);
    assert_eq!(Dir::deserialize(&buf), tree);

    let mut tree: Dir<15> = Dir::new();
    hash.as_mut_buf().fill(7);
    tree.add_dir("c".to_string(), hash.clone());
    let mut buf = Vec::new();
    tree.serialize(&mut buf);
    assert_eq!(buf, [2, 1, 99, 7, 7, 7, 7, 7, 7, 7, 7, 7, 7, 7, 7, 7, 7, 7]);
    assert_eq!(Dir::deserialize(&buf), tree);

    let mut tree: Dir<15> = Dir::new();
    hash.as_mut_buf().fill(5);
    tree.add_file("d".to_string(), hash.clone());
    let mut buf = Vec::new();
    tree.serialize(&mut buf);
    assert_eq!(buf, [3, 1, 100, 5, 5, 5, 5, 5, 5, 5, 5, 5, 5, 5, 5, 5, 5, 5]);
    assert_eq!(Dir::deserialize(&buf), tree);

    let mut tree: Dir<15> = Dir::new();
    hash.as_mut_buf().fill(3);
    tree.add_exefile("e".to_string(), hash.clone());
    let mut buf = Vec::new();
    tree.serialize(&mut buf);
    assert_eq!(buf, [4, 1, 101, 3, 3, 3, 3, 3, 3, 3, 3, 3, 3, 3, 3, 3, 3, 3]);
    assert_eq!(Dir::deserialize(&buf), tree);

    let mut tree: Dir<15> = Dir::new();
    tree.add_symlink("f".to_string(), "g".to_string());
    let mut buf = Vec::new();
    tree.serialize(&mut buf);
    assert_eq!(buf, [5, 1, 102, 1, 0, 103]);
    assert_eq!(Dir::deserialize(&buf), tree);
}

#[test]
fn test_tree_roundtrip() {
    let mut hash = Name::<15>::new();
    let mut tree: Dir<15> = Dir::new();

    tree.add_empty_dir("F".to_string());
    tree.add_empty_file("E".to_string());
    hash.as_mut_buf().fill(7);
    tree.add_dir("D".to_string(), hash.clone());
    hash.as_mut_buf().fill(5);
    tree.add_file("C".to_string(), hash.clone());
    hash.as_mut_buf().fill(3);
    tree.add_exefile("B".to_string(), hash.clone());
    tree.add_symlink("A".to_string(), "foo/bar".to_string());

    let mut buf = Vec::new();
    tree.serialize(&mut buf);
    assert_eq!(Dir::deserialize(&buf), tree);
    assert_eq!(
        buf,
        [
            5, 1, 65, 7, 0, 102, 111, 111, 47, 98, 97, 114,
            4, 1, 66, 3, 3, 3, 3, 3, 3, 3, 3, 3, 3, 3, 3, 3, 3, 3,
            3, 1, 67, 5, 5, 5, 5, 5, 5, 5, 5, 5, 5, 5, 5, 5, 5, 5,
            2, 1, 68, 7, 7, 7, 7, 7, 7, 7, 7, 7, 7, 7, 7, 7, 7, 7,
            1, 1, 69,
            0, 1, 70,
        ]
    );
}

#[test]
fn test_dir_rejects_bad_listing() {
    assert!(Dir::<15>::try_deserialize(&[6, 1, 97]).is_none());
    assert!(Dir::<15>::try_deserialize(&[0, 0]).is_none());
    assert!(Dir::<15>::try_deserialize(&[0, 2, 97]).is_none());
    assert!(Dir::<15>::try_deserialize(&[0, 1, 255]).is_none());
    assert!(Dir::<15>::try_deserialize(&[2, 1, 97, 1, 2]).is_none());
    assert!(Dir::<15>::try_deserialize(&[5, 1, 97, 2, 0, 98]).is_none());
    let d = Dir::<15>::try_deserialize(&[0, 1, 97, 1, 1, 97]).unwrap();
    assert_eq!(d.len(), 1);
    assert_eq!(d.as_map().get(&"a".to_string()), Some(&Item::EmptyFile));
}

#[test]
fn test_kind_codes() {
    assert_eq!(Kind::from_code(0), Kind::EmptyDir);
    assert_eq!(Kind::from_code(5), Kind::SymLink);
    assert_eq!(Kind::ExeFile.code(), 4);
    assert_eq!(TrackedKind::from(3), TrackedKind::Renamed);
    assert_eq!(TrackedKind::from(9), TrackedKind::Unknown);
}

#[test]
fn test_tracking_list() {
    let mut tl = TrackingList::new();
    assert_eq!(tl.len(), 0);
    let mut buf = Vec::new();
    tl.serialize(&mut buf);
    assert_eq!(buf, vec![]);
    assert_eq!(TrackingList::deserialize(&buf), tl);

    let pb = String::from("test");
    assert!(!tl.contains(&pb));
    tl.add(pb.clone());
    assert!(tl.contains(&pb));
    assert_eq!(tl.len(), 1);
    assert_eq!(tl.as_sorted_vec(), vec![(&String::from("test"), &TrackedItem::Added)]);
    tl.serialize(&mut buf);
    assert_eq!(buf, vec![1, 4, 0, 116, 101, 115, 116]);
    assert_eq!(TrackingList::deserialize(&buf), tl);

    let pb = String::from("foo");
    assert!(!tl.contains(&pb));
    tl.rename(pb.clone(), "bar".to_owned());
    assert!(tl.contains(&pb));
    assert_eq!(tl.len(), 2);
    assert_eq!(
        tl.as_sorted_vec(),
        vec![
            (&String::from("foo"), &TrackedItem::Renamed("bar".to_owned())),
            (&String::from("test"), &TrackedItem::Added),
        ]
    );
    buf.clear();
    tl.serialize(&mut buf);
    assert_eq!(
        buf,
        vec![3, 3, 0, 102, 111, 111, 3, 0, 98, 97, 114, 1, 4, 0, 116, 101, 115, 116,]
    );
    assert_eq!(TrackingList::deserialize(&buf), tl);

    let pb = String::from("sparse");
    assert!(!tl.contains(&pb));
    tl.remove(pb.clone());
    assert!(tl.contains(&pb));
    assert_eq!(tl.len(), 3);
    assert_eq!(
        tl.as_sorted_vec(),
        vec![
            (&String::from("foo"), &TrackedItem::Renamed("bar".to_owned())),
            (&String::from("sparse"), &TrackedItem::Removed),
            (&String::from("test"), &TrackedItem::Added),
        ]
    );
    buf.clear();
    tl.serialize(&mut buf);
    assert_eq!(
        buf,
        vec![
            3, 3, 0, 102, 111, 111, 3, 0, 98, 97, 114, 2, 6, 0, 115, 112, 97, 114, 115, 101, 1,
            4, 0, 116, 101, 115, 116,
        ]
    );
    assert_eq!(TrackingList::deserialize(&buf), tl);
}

#[test]
fn test_tracking_list_clear() {
    let mut tl = TrackingList::new();
    assert_eq!(tl.add("a".to_string()), None);
    assert_eq!(tl.remove("a".to_string()), Some(TrackedItem::Added));
    assert_eq!(tl.clear(&"a".to_string()), Some(TrackedItem::Removed));
    assert_eq!(tl.clear(&"a".to_string()), None);
    assert!(tl.is_empty());
    assert!(TrackingList::try_deserialize(&[4, 1, 0, 97]).is_none());
    assert!(TrackingList::try_deserialize(&[1, 2, 0, 97]).is_none());
}

#[test]
fn test_compute_diff() {
    let bad = [255_u8; 10];
    assert_eq!(compute_diff(&bad, &bad), None);

    let a = b"foo\nbar\nbaz\n";
    let b = b"foo\nbaz\nbar\n";

    assert_eq!(compute_diff(a, &bad), None);
    assert_eq!(compute_diff(&bad, b), None);

    let expected = "@@ -1,3 +1,3 @@\n foo\n-bar\n baz\n+bar\n";
    assert_eq!(compute_diff(a, b), Some(expected.to_owned()));
}

#[test]
fn test_commit_roundtrip() {
    let mut tree = Name::<15>::new();
    tree.as_mut_buf().fill(9);
    let c = Commit::new(tree, "hello".to_string());
    let mut buf = Vec::new();
    c.serialize(&mut buf);
    assert_eq!(buf.len(), 20);
    assert_eq!(&buf[15..], b"hello");
    let d = Commit::<15>::deserialize(&buf);
    assert_eq!(d.tree, tree);
    assert_eq!(d.msg, "hello");
}

#[test]
fn test_compare_with_itself() {
    let mut a: ItemMap<30> = ItemMap::new();
    a.insert("x".to_string(), Item::File(Name::from(&[1_u8; 30])));
    a.insert("y".to_string(), Item::EmptyDir);
    a.insert("y/z".to_string(), Item::SymLink("x".to_string()));
    let status = compare_trees::<30>(&a, &a);
    assert!(status.removed.is_empty());
    assert!(status.changed.is_empty());
    assert!(status.unknown.is_empty());
    assert!(status.newch.is_empty());
}
