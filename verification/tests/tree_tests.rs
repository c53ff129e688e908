use bathtub_db::base::{DOTDIR, OBJECT_MAX_SIZE};
use bathtub_db::chaos::{DefaultObject, Name};
use bathtub_db::dvcs::{
    add_found, compute_diff, is_executable, join_path, tree_object, DefaultCommit, Dir, Found, Item,
};
use bathtub_db::ignore::IgnoreList;
use bathtub_db::importer::{scan_action, within_depth, EntryKind, ScanAction, Scanner, MAX_DEPTH};
use bathtub_db::inception::{chunk_size, leaf_hashes_object, LeafHashes};

#[test]
fn test_imara() {
    let a = "foo\nbar\nbaz\n";
    let b = "foo\nbaz\nbar\n";
    let expected = "@@ -1,3 +1,3 @@\n foo\n-bar\n baz\n+bar\n";

    assert_eq!(compute_diff(a.as_bytes(), b.as_bytes()).unwrap(), expected);

    let input = imara_diff::intern::InternedInput::new(a, b);
    let d = imara_diff::diff(
        imara_diff::Algorithm::Histogram,
        &input,
        imara_diff::UnifiedDiffBuilder::new(&input),
    );
    assert_eq!(d, expected);
}

#[test]
fn test_ignore_list() {
    let mut l = IgnoreList::new();
    assert!(l.sorted_vec().is_empty());
    assert!(l.ignore("b".to_string()));
    assert!(l.ignore("a/c".to_string()));
    assert!(!l.ignore("b".to_string()));
    assert!(l.contains(&"b".to_string()));
    assert!(!l.contains(&"c".to_string()));
    assert_eq!(l.sorted_vec(), vec!["a/c", "b"]);
    assert_eq!(l.to_bytes(), b"a/c\nb\n".to_vec());
    assert!(l.unignore(&"b".to_string()));
    assert!(!l.unignore(&"b".to_string()));
    assert_eq!(l.sorted_vec(), vec!["a/c"]);

    l.reset();
    assert_eq!(l.sorted_vec(), vec![".git", DOTDIR]);
}

#[test]
fn test_ignore_load_lines() {
    let mut l = IgnoreList::new();
    l.reset();
    assert!(l.load_lines(b"target\r\nfoo/bar\n\nzed"));
    assert_eq!(l.sorted_vec(), vec!["", ".git", DOTDIR, "foo/bar", "target", "zed"]);

    // What `to_bytes` writes reads back as the same list.
    let bytes = l.to_bytes();
    let mut again = IgnoreList::new();
    assert!(again.load_lines(&bytes));
    assert_eq!(again.sorted_vec(), l.sorted_vec());

    let mut bad = IgnoreList::new();
    assert!(!bad.load_lines(b"ok\n\xff\xfe\n"));
    assert!(bad.contains(&"ok".to_string()));
}

#[test]
fn test_scan_action() {
    let name = |s: &str| s.to_string();
    assert_eq!(scan_action(&name(".hidden"), EntryKind::File, 10), ScanAction::SkipHidden);
    assert_eq!(scan_action(&name(".git"), EntryKind::Dir, 0), ScanAction::SkipHidden);
    assert_eq!(scan_action(&name("link"), EntryKind::SymLink, 0), ScanAction::SkipSymlink);
    assert_eq!(scan_action(&name("empty"), EntryKind::File, 0), ScanAction::SkipEmpty);
    assert_eq!(scan_action(&name("file"), EntryKind::File, 7), ScanAction::Take);
    assert_eq!(scan_action(&name("dir"), EntryKind::Dir, 0), ScanAction::Descend);
    assert_eq!(scan_action(&name("fifo"), EntryKind::Other, 0), ScanAction::Pass);
    assert!(within_depth(0));
    assert!(within_depth(MAX_DEPTH - 1));
    assert!(!within_depth(MAX_DEPTH));
}

#[test]
fn test_scanner() {
    let mut s = Scanner::new();
    assert_eq!(s.count(), 0);
    assert_eq!(s.total(), 0);
    s.push("Z".to_string(), 7);
    s.push("A/B/C/Y".to_string(), 11);
    assert_eq!(s.count(), 2);
    assert_eq!(s.total(), 18);
    let files: Vec<(String, u64)> = s.iter().map(|f| (f.0.clone(), f.1)).collect();
    assert_eq!(files, vec![("Z".to_string(), 7), ("A/B/C/Y".to_string(), 11)]);
}

#[test]
fn test_join_path_and_mode() {
    assert_eq!(join_path(&"".to_string(), &"a".to_string()), "a");
    assert_eq!(join_path(&"a".to_string(), &"b".to_string()), "a/b");
    assert_eq!(join_path(&"a/b".to_string(), &"c.txt".to_string()), "a/b/c.txt");
    assert!(is_executable(0o755));
    assert!(is_executable(0o100));
    assert!(is_executable(0o001));
    assert!(!is_executable(0o644));
    assert!(!is_executable(0o100644));
}

#[test]
fn test_tree_object() {
    let mut obj = DefaultObject::new();
    let empty: Dir<30> = Dir::new();
    assert!(tree_object(&empty, &mut obj).is_none());
    assert_eq!(obj.as_buf(), &[0_u8; 34]);

    let mut dir: Dir<30> = Dir::new();
    dir.add_file("a".to_string(), Name::from(&[1_u8; 30]));
    dir.add_empty_dir("d".to_string());
    let hash = tree_object(&dir, &mut obj).unwrap();
    assert_eq!(obj.hash(), hash);
    assert!(obj.is_valid());
    assert_eq!(obj.info().kind(), 6);
    let mut wire = Vec::new();
    dir.serialize(&mut wire);
    assert_eq!(obj.as_data(), &wire[..]);
    assert_eq!(Dir::<30>::try_deserialize(obj.as_data()).unwrap(), dir);

    // The name depends on the listing.
    let mut other = dir;
    other.add_empty_file("e".to_string());
    let mut obj2 = DefaultObject::new();
    assert_ne!(tree_object(&other, &mut obj2).unwrap(), hash);
}

#[test]
fn test_commit_object() {
    let commit = DefaultCommit::new(Name::from(&[9_u8; 30]), "a message".to_string());
    let mut obj = DefaultObject::new();
    obj.clear();
    commit.serialize(obj.as_mut_vec());
    obj.finalize_with_kind(69);
    assert!(obj.is_valid());
    let back = DefaultCommit::deserialize(obj.as_data());
    assert_eq!(back.tree, commit.tree);
    assert_eq!(back.msg, "a message");
}

#[test]
fn test_chunk_size() {
    assert_eq!(chunk_size(1), 1);
    assert_eq!(chunk_size(OBJECT_MAX_SIZE as u64 - 1), OBJECT_MAX_SIZE as u64 - 1);
    assert_eq!(chunk_size(OBJECT_MAX_SIZE as u64), OBJECT_MAX_SIZE as u64);
    assert_eq!(chunk_size(OBJECT_MAX_SIZE as u64 + 1), OBJECT_MAX_SIZE as u64);
    assert_eq!(chunk_size(u64::MAX), OBJECT_MAX_SIZE as u64);
}

#[test]
fn test_leaf_hashes_object() {
    let mut leaves: LeafHashes<30> = LeafHashes::new();
    leaves.append_leaf(Name::from(&[1_u8; 30]), OBJECT_MAX_SIZE);
    leaves.append_leaf(Name::from(&[2_u8; 30]), 5);
    let mut obj = DefaultObject::new();
    let root = leaf_hashes_object(&leaves, &mut obj);
    assert_eq!(obj.hash(), root);
    assert!(obj.is_valid());
    assert_eq!(obj.info().kind(), 1);
    assert_eq!(obj.info().size(), 8 + 60);
    let data = obj.as_data();
    assert_eq!(&data[0..8], &(OBJECT_MAX_SIZE as u64 + 5).to_le_bytes());
    assert_eq!(&data[8..38], &[1_u8; 30]);
    assert_eq!(&data[38..68], &[2_u8; 30]);
    let back = LeafHashes::<30>::deserialize(data);
    let names: Vec<Name<30>> = back.iter().copied().collect();
    assert_eq!(names, vec![Name::from(&[1_u8; 30]), Name::from(&[2_u8; 30])]);
}

use bathtub_db::tree::Tree;

fn random_hash() -> [u8; 30] {
    let mut buf = [0_u8; 30];
    bathtub_db::util::getrandom(&mut buf);
    buf
}

#[test]
fn it_works() {
    let mut tree = Tree::new();
    tree.add(&[0u8; 30]);
    let _ret = tree.read_next_id();
}

#[test]
fn iterable() {
    let mut tree = Tree::new();
    let oid1 = random_hash();
    tree.add(&oid1);
    let aid1 = tree.read_next_id();
    tree.cur = 0;

    while let Some(id) = tree.next() {
        assert_eq!(id, aid1);
    }
}

#[test]
fn get_tree_obj() {
    let mut tree = Tree::new();
    let mut oid1 = [0u8; 30];
    let mut oid2 = [1u8; 30];
    tree.add(&oid1);

    tree.add(&oid2);

    let aid1 = tree.read_next_id();
    let aid2 = tree.read_next_id();

    let ret = tree.get_tree_object();
    if ret[18] == 1 {
        let tmpoid = oid1;
        oid1 = oid2;
        oid2 = tmpoid;
    }

    let mut right = [0u8; 91];
    right[0] = 0;
    right[1..16].copy_from_slice(&aid1);
    right[16..46].copy_from_slice(oid1.as_slice());
    right[46..61].copy_from_slice(&aid2);
    right[61..91].copy_from_slice(oid2.as_slice());

    assert_eq!(ret, right);
}

#[test]
fn test_tree_abs_ids_sorted_and_found() {
    let mut tree = Tree::new();
    tree.add_with_abs_id(&[5_u8; 15], &[50_u8; 30]);
    tree.add_with_abs_id(&[1_u8; 15], &[10_u8; 30]);
    tree.add_with_abs_id(&[9_u8; 15], &[90_u8; 30]);
    // A taken id keeps its first name.
    tree.add_with_abs_id(&[5_u8; 15], &[55_u8; 30]);
    assert_eq!(tree.len(), 3);
    assert_eq!(tree.read_next_id(), [1_u8; 15]);
    assert_eq!(tree.read_next_id(), [5_u8; 15]);
    assert_eq!(tree.read_next_id(), [9_u8; 15]);
    assert_eq!(tree.next(), None);
    assert_eq!(tree.nth(1), Some([5_u8; 15]));
    assert_eq!(tree.get_object_id([1_u8; 15]), [10_u8; 30]);
    assert_eq!(tree.get_object_id([5_u8; 15]), [50_u8; 30]);
    assert_eq!(tree.get_object_id([9_u8; 15]), [90_u8; 30]);

    let mut many = Tree::new();
    for b in (0..=255_u8).rev() {
        let mut id = [b; 15];
        id[14] = 255 - b;
        many.add_with_abs_id(&id, &[b; 30]);
    }
    for b in 0..=255_u8 {
        let mut id = [b; 15];
        id[14] = 255 - b;
        assert_eq!(many.get_object_id(id), [b; 30]);
    }
}

#[test]
fn test_add_found() {
    let mut dir: Dir<30> = Dir::new();
    let h = Name::from(&[4_u8; 30]);
    assert_eq!(add_found(&mut dir, "l".to_string(), Found::SymLink("t".to_string())), Item::SymLink("t".to_string()));
    assert_eq!(add_found(&mut dir, "e".to_string(), Found::File(None, 0o755)), Item::EmptyFile);
    assert_eq!(add_found(&mut dir, "f".to_string(), Found::File(Some(h), 0o644)), Item::File(h));
    assert_eq!(add_found(&mut dir, "x".to_string(), Found::File(Some(h), 0o755)), Item::ExeFile(h));
    assert_eq!(add_found(&mut dir, "d".to_string(), Found::Dir(None)), Item::EmptyDir);
    assert_eq!(add_found(&mut dir, "s".to_string(), Found::Dir(Some(h))), Item::Dir(h));
    assert_eq!(dir.len(), 6);
    assert_eq!(dir.as_map().get(&"x".to_string()), Some(&Item::ExeFile(h)));
}
