use bathtub_db::base::{ObjectType, LEAF_SIZE, TUB_HASH_LEN, TUB_ID_LEN};
use bathtub_db::leaf_io::get_preamble_size;
use bathtub_db::store::{
    object_path, old_pack_path, pack_path, partial_path, tmp_path, Entry, Stats, Summary,
};

#[test]
fn test_entry() {
    let entry = Entry::new(1, 7);
    assert_eq!(entry.size, 1);
    assert_eq!(entry.offset, 7);
    assert_eq!(entry.data_offset(), 7 + get_preamble_size(1));
    assert_eq!(entry.is_large(), false);
    assert_eq!(entry.is_small(), true);

    let entry = Entry::new(LEAF_SIZE + 1, 11);
    assert_eq!(entry.size, LEAF_SIZE + 1);
    assert_eq!(entry.offset, 11);
    assert_eq!(entry.data_offset(), 11 + get_preamble_size(LEAF_SIZE + 1));
    assert_eq!(entry.is_large(), true);
    assert_eq!(entry.is_small(), false);
}

#[test]
fn test_push_pack_path() {
    assert_eq!(pack_path(), "bathtub.db");
}

#[test]
fn test_old_pack_path() {
    assert_eq!(old_pack_path(), "bathtub.db.old");
}

#[test]
fn test_push_object_path() {
    let id = [0_u8; TUB_HASH_LEN];
    assert_eq!(object_path(&id), "objects/33/3333333333333333333333333333333333333333333333");
}

#[test]
fn test_push_partial_path() {
    let id = [0_u8; TUB_HASH_LEN];
    assert_eq!(partial_path(&id), "partial/333333333333333333333333333333333333333333333333");
}

#[test]
fn test_push_tmp_path() {
    let key = [0_u8; TUB_ID_LEN];
    assert_eq!(tmp_path(&key), "tmp/333333333333333333333333");
}

#[test]
fn test_summary_and_stats() {
    let mut s = Summary::new();
    s.increment(&Entry::new(5, 0));
    s.increment(&Entry::new(7, 0));
    assert_eq!(s.count(), 2);
    assert_eq!(s.total(), 12);

    let mut stats = Stats::new();
    stats.increment(&Entry::new(5, 0));
    stats.increment(&Entry::new(LEAF_SIZE + 1, 0));
    stats.increment(&Entry { kind: ObjectType::Tree, size: 3, offset: 0 });
    assert_eq!(stats.large().count(), 1);
    assert_eq!(stats.large().total(), LEAF_SIZE + 1);
    assert_eq!(stats.small().count(), 2);
    assert_eq!(stats.small().total(), 8);
    assert_eq!(stats.data().count(), 2);
    assert_eq!(stats.data().total(), LEAF_SIZE + 6);
    assert_eq!(stats.tree().count(), 1);
    assert_eq!(stats.tree().total(), 3);
}

use bathtub_db::base::HEADER_LEN;
use bathtub_db::leaf_io::{ReindexBuf, TubBuf};
use bathtub_db::store::{tombstone_header, HeaderKind, PackIndex};

/// Appends a small object to `pack` and records it in `index`.
fn commit_small(index: &mut PackIndex, pack: &mut Vec<u8>, data: &[u8]) -> ([u8; 30], bool) {
    let mut tbuf = TubBuf::new();
    let hash = tbuf.hash_data(data);
    let new = index.commit(&hash, tbuf.size(), tbuf.as_commit().len() as u64);
    if new {
        pack.extend_from_slice(tbuf.as_commit());
    }
    (hash, new)
}

/// Rebuilds an index from the bytes of a pack file.
fn reindex_pack(pack: &[u8]) -> PackIndex {
    let mut index = PackIndex::new();
    let mut rbuf = ReindexBuf::new();
    loop {
        let at = index.offset() as usize;
        if at + HEADER_LEN > pack.len() {
            break;
        }
        rbuf.as_mut_buf().copy_from_slice(&pack[at..at + HEADER_LEN]);
        let kind = index.reindex_header(&rbuf);
        assert!(kind == HeaderKind::Object || kind == HeaderKind::Tombstone);
        rbuf.reset();
    }
    index
}

#[test]
fn test_pack_index_commit_get_delete() {
    let mut index = PackIndex::new();
    let mut pack: Vec<u8> = Vec::new();
    assert_eq!(index.len(), 0);
    assert_eq!(index.offset(), 0);

    let (a, new) = commit_small(&mut index, &mut pack, b"first object");
    assert!(new);
    assert_eq!(index.len(), 1);
    assert_eq!(index.offset(), HEADER_LEN as u64 + 12);
    let e = index.get(&a).unwrap();
    assert_eq!(e.size, 12);
    assert_eq!(e.offset, 0);

    // The same object is not appended again.
    let (a2, new) = commit_small(&mut index, &mut pack, b"first object");
    assert_eq!(a2, a);
    assert!(!new);
    assert_eq!(index.offset(), HEADER_LEN as u64 + 12);

    let (b, new) = commit_small(&mut index, &mut pack, b"second");
    assert!(new);
    assert_eq!(index.get(&b).unwrap().offset, HEADER_LEN as u64 + 12);
    assert_eq!(index.len(), 2);
    let mut keys = vec![a, b];
    keys.sort();
    assert_eq!(index.keys(), keys);

    // Deleting writes a tombstone: the offset moves by one header.
    let before = index.offset();
    let gone = index.delete(&a).unwrap();
    assert_eq!(gone.size, 12);
    pack.extend_from_slice(&tombstone_header(&a));
    assert_eq!(index.offset(), before + HEADER_LEN as u64);
    assert!(index.get(&a).is_none());
    assert!(index.delete(&a).is_none());
    assert_eq!(index.offset(), before + HEADER_LEN as u64);
    assert_eq!(index.len(), 1);
    assert_eq!(pack.len() as u64, index.offset());

    // Reading the pack back gives the same index.
    let again = reindex_pack(&pack);
    assert_eq!(again.offset(), index.offset());
    assert_eq!(again.keys(), index.keys());
    assert_eq!(again.get(&b), index.get(&b));
    assert!(again.get(&a).is_none());

    index.clear();
    assert_eq!(index.len(), 0);
    assert_eq!(index.offset(), 0);
}

#[test]
fn test_pack_index_stats() {
    let mut index = PackIndex::new();
    let mut pack: Vec<u8> = Vec::new();
    commit_small(&mut index, &mut pack, b"abc");
    commit_small(&mut index, &mut pack, b"defgh");
    let stats = index.stats();
    assert_eq!(stats.small().count(), 2);
    assert_eq!(stats.small().total(), 8);
    assert_eq!(stats.large().count(), 0);
    assert_eq!(stats.large().total(), 0);
    assert_eq!(stats.data().count(), 2);
    assert_eq!(stats.tree().count(), 0);
}

#[test]
fn test_tombstone_header() {
    let hash = [7_u8; 30];
    let buf = tombstone_header(&hash);
    assert_eq!(&buf[0..30], &hash);
    let mut rbuf = ReindexBuf::new();
    rbuf.as_mut_buf().copy_from_slice(&buf);
    assert!(rbuf.is_tombstone());
    assert!(!rbuf.is_object());
    assert_eq!(rbuf.hash(), hash);
    assert_eq!(rbuf.offset_size(), HEADER_LEN as u64);
}

#[test]
fn test_reindex_header_kinds() {
    let mut index = PackIndex::new();
    let mut rbuf = ReindexBuf::new();
    // All zeros: neither an object nor a tombstone.
    assert_eq!(index.reindex_header(&rbuf), HeaderKind::Bad);
    assert_eq!(index.offset(), 0);

    // A tombstone of an object the index does not hold.
    rbuf.as_mut_buf().copy_from_slice(&tombstone_header(&[3_u8; 30]));
    assert_eq!(index.reindex_header(&rbuf), HeaderKind::OrphanTombstone);
    assert_eq!(index.offset(), 0);
    assert_eq!(index.len(), 0);

    // An object, then its tombstone.
    let mut tbuf = TubBuf::new();
    let hash = tbuf.hash_data(b"xyz");
    rbuf.as_mut_buf().copy_from_slice(&tbuf.as_commit()[0..HEADER_LEN]);
    assert_eq!(index.reindex_header(&rbuf), HeaderKind::Object);
    assert_eq!(index.offset(), HEADER_LEN as u64 + 3);
    assert_eq!(index.get(&hash).unwrap().offset, 0);
    rbuf.as_mut_buf().copy_from_slice(&tombstone_header(&hash));
    assert_eq!(index.reindex_header(&rbuf), HeaderKind::Tombstone);
    assert_eq!(index.offset(), 2 * HEADER_LEN as u64 + 3);
    assert!(index.get(&hash).is_none());
}
