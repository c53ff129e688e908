use bathtub_db::base::{HEADER_LEN, LEAF_SIZE, TUB_HASH_LEN};
use bathtub_db::leaf_io::{
    get_buffer_size, get_full_object_size, get_leaf_count, get_leaf_range, get_leaf_size,
    get_preamble_size, Header, LeafOffset, LeafOffsetIter, LeafRangeIter, LeafState, ReindexBuf,
    TubBuf,
};

fn range_leaves(size: u64) -> Vec<(u64, u64)> {
    let mut it = LeafRangeIter::new(size);
    let mut v = Vec::new();
    while let Some(r) = it.next() {
        v.push(r);
    }
    v
}

fn offset_leaves(size: u64, offset: u64) -> Vec<LeafOffset> {
    let mut it = LeafOffsetIter::new(size, offset);
    let mut v = Vec::new();
    while let Some(r) = it.next() {
        v.push(r);
    }
    v
}

#[test]
fn test_leafstate() {
    for leaf_index in [0, 1, 2, 3] {
        let state = LeafState::new_raw(0, leaf_index);
        assert_eq!(state, LeafState {
            closed: true,
            object_size: 0,
            leaf_index: 0,
            file_start: 0,
            file_stop: 0,
            leaf_start: 0,
            leaf_stop: 0,
            leaf_hash_start: 0,
            leaf_hash_stop: 0,
        });
        assert!(! state.can_read());
        assert!(! state.can_write());
    }

    for size in [1, 2, 3, LEAF_SIZE - 1, LEAF_SIZE] {
        let state = LeafState::new_raw(size, 0);
        assert_eq!(state, LeafState {
            closed: false,
            object_size: size,
            leaf_index: 0,
            file_start: 0,
            file_stop: size,
            leaf_start: HEADER_LEN,
            leaf_stop: HEADER_LEN + size as usize,
            leaf_hash_start: HEADER_LEN,
            leaf_hash_stop: HEADER_LEN,
        });
        let state = state.next_leaf();
        assert_eq!(state, LeafState::new_raw(size, 1));
        assert_eq!(state, LeafState {
            closed: true,
            object_size: size,
            leaf_index: 0,
            file_start: 0,
            file_stop: size,
            leaf_start: HEADER_LEN,
            leaf_stop: HEADER_LEN + size as usize,
            leaf_hash_start: HEADER_LEN,
            leaf_hash_stop: HEADER_LEN,
        });
    }

    let state = LeafState::new(1);
    assert_eq!(state.leaf_range(), 69..70);
    assert_eq!(state.commit_range(), 0..70);
    assert_eq!(state.is_small(), true);
    assert_eq!(state.is_large(), false);
    for size in [LEAF_SIZE + 1, 2 * LEAF_SIZE - 1, 2 * LEAF_SIZE] {
        let state = LeafState::new_raw(size, 0);
        assert_eq!(state, LeafState {
            closed: false,
            object_size: size,
            leaf_index: 0,
            file_start: 0,
            file_stop: LEAF_SIZE,
            leaf_start: HEADER_LEN + TUB_HASH_LEN * 2,
            leaf_stop: HEADER_LEN + TUB_HASH_LEN * 2 + LEAF_SIZE as usize,
            leaf_hash_start: HEADER_LEN,
            leaf_hash_stop: HEADER_LEN +  TUB_HASH_LEN,
        });
        let state = state.next_leaf();
        assert_eq!(state, LeafState::new_raw(size, 1));
        assert_eq!(state, LeafState {
            closed: false,
            object_size: size,
            leaf_index: 1,
            file_start: LEAF_SIZE,
            file_stop: size,
            leaf_start: HEADER_LEN + TUB_HASH_LEN * 2,
            leaf_stop: HEADER_LEN + TUB_HASH_LEN * 2 + (size - LEAF_SIZE) as usize,
            leaf_hash_start: HEADER_LEN + TUB_HASH_LEN,
            leaf_hash_stop: HEADER_LEN + TUB_HASH_LEN * 2,
        });
        let state = state.next_leaf();
        assert_eq!(state, LeafState::new_raw(size, 2));
        assert_eq!(state, LeafState {
            closed: true,
            object_size: size,
            leaf_index: 1,
            file_start: LEAF_SIZE,
            file_stop: size,
            leaf_start: HEADER_LEN + TUB_HASH_LEN * 2,
            leaf_stop: HEADER_LEN + TUB_HASH_LEN * 2 + (size - LEAF_SIZE) as usize,
            leaf_hash_start: HEADER_LEN + TUB_HASH_LEN,
            leaf_hash_stop: HEADER_LEN + TUB_HASH_LEN * 2,
        });
    }
}

#[test]
fn test_leafstate_ranges() {
    for size in [1, 2, 3, LEAF_SIZE - 1, LEAF_SIZE] {
        let state = LeafState::new(size);
        assert!(state.is_small());
        assert_eq!(state.leaf_index, 0);
        assert_eq!(state.leaf_hashes_range(), 69..69);
        assert_eq!(state.leaf_range(), 69..69 + size as usize);
        assert_eq!(state.payload_range(), state.leaf_range());
        assert_eq!(state.commit_range(), 0..69 + size as usize);
    }

    for size in [LEAF_SIZE + 1, 2 * LEAF_SIZE - 1, 2 * LEAF_SIZE] {
        let state = LeafState::new(size);
        assert!(state.is_large());
        assert_eq!(state.payload_range(), state.leaf_hashes_range());
        assert_eq!(state.leaf_index, 0);
        assert_eq!(state.leaf_hashes_range(), 69..129);
        assert_eq!(state.leaf_range(), 129..129 + LEAF_SIZE as usize);
        assert_eq!(state.payload_range(), state.leaf_hashes_range());
        assert_eq!(state.commit_range(), 0..129);

        let state = state.next_leaf();
        assert!(state.is_large());
        assert_eq!(state.payload_range(), state.leaf_hashes_range());
        assert_eq!(state, LeafState::new_raw(size, 1));
        assert_eq!(state.leaf_index, 1);
        assert_eq!(state.leaf_hashes_range(), 69..129);
        assert_eq!(state.leaf_range(), 129..129 + (size - LEAF_SIZE) as usize);
        assert_eq!(state.commit_range(), 0..129);
    }
}

#[test]
fn test_get_leaf_count() {
    assert_eq!(get_leaf_count(0), 0);
    assert_eq!(get_leaf_count(1), 1);
    assert_eq!(get_leaf_count(2), 1);

    assert_eq!(get_leaf_count(LEAF_SIZE - 1), 1);
    assert_eq!(get_leaf_count(LEAF_SIZE), 1);
    assert_eq!(get_leaf_count(LEAF_SIZE + 1), 2);

    assert_eq!(get_leaf_count(2 * LEAF_SIZE - 1), 2);
    assert_eq!(get_leaf_count(2 * LEAF_SIZE), 2);
    assert_eq!(get_leaf_count(2 * LEAF_SIZE + 1), 3);
}

#[test]
fn test_get_preamble_size() {
    let head = TUB_HASH_LEN as u64 + 9;
    let tub = TUB_HASH_LEN as u64;
    assert_eq!(get_preamble_size(0), head);

    assert_eq!(get_preamble_size(1), head + tub);
    assert_eq!(get_preamble_size(2), head + tub);
    assert_eq!(get_preamble_size(LEAF_SIZE - 1), head + tub);
    assert_eq!(get_preamble_size(LEAF_SIZE), head + tub);

    assert_eq!(get_preamble_size(LEAF_SIZE + 1), head + tub * 2);
    assert_eq!(get_preamble_size(2 * LEAF_SIZE - 1), head + tub * 2);
    assert_eq!(get_preamble_size(2 * LEAF_SIZE), head + tub * 2);

    assert_eq!(get_preamble_size(2 * LEAF_SIZE + 1), head + tub * 3);
    assert_eq!(get_preamble_size(3 * LEAF_SIZE - 1), head + tub * 3);
    assert_eq!(get_preamble_size(3 * LEAF_SIZE), head + tub * 3);
}

#[test]
fn test_get_full_object_size() {
    assert_eq!(get_full_object_size(1), (HEADER_LEN + 1) as u64);
    assert_eq!(get_full_object_size(2), (HEADER_LEN + 2) as u64);
    assert_eq!(get_full_object_size(3), (HEADER_LEN + 3) as u64);
    assert_eq!(get_full_object_size(LEAF_SIZE), HEADER_LEN as u64 + LEAF_SIZE);
    assert_eq!(get_full_object_size(LEAF_SIZE + 1),
        HEADER_LEN as u64 + TUB_HASH_LEN as u64 + LEAF_SIZE + 1
    );
}

#[test]
fn test_get_buffer_size() {
    assert_eq!(get_buffer_size(1), (HEADER_LEN + 1) as u64);
    assert_eq!(get_buffer_size(2), (HEADER_LEN + 2) as u64);
    assert_eq!(get_buffer_size(3), (HEADER_LEN + 3) as u64);
    assert_eq!(get_buffer_size(LEAF_SIZE), HEADER_LEN as u64 + LEAF_SIZE);
    assert_eq!(get_buffer_size(LEAF_SIZE + 1),
        HEADER_LEN as u64 + TUB_HASH_LEN as u64 + LEAF_SIZE
    );
    assert_eq!(get_buffer_size(LEAF_SIZE + 1),
        HEADER_LEN as u64 + TUB_HASH_LEN as u64 + LEAF_SIZE
    );

    for size in [42 * LEAF_SIZE, 420 * LEAF_SIZE, u64::MAX - 1, u64::MAX] {
        assert_eq!(
            get_buffer_size(size),
            get_preamble_size(size) + LEAF_SIZE
        );
    }
}

#[test]
fn test_get_leaf_range() {
    assert_eq!(get_leaf_range(0, 0), None);
    assert_eq!(get_leaf_range(0, 1), Some((0, 1)));
    assert_eq!(get_leaf_range(0, LEAF_SIZE - 1), Some((0, LEAF_SIZE - 1)));
    assert_eq!(get_leaf_range(0, LEAF_SIZE), Some((0, LEAF_SIZE)));
    assert_eq!(get_leaf_range(0, LEAF_SIZE + 1), Some((0, LEAF_SIZE)));

    assert_eq!(get_leaf_range(1, 0), None);
    assert_eq!(get_leaf_range(1, 1), None);
    assert_eq!(get_leaf_range(1, LEAF_SIZE - 1), None);
    assert_eq!(get_leaf_range(1, LEAF_SIZE), None);
    assert_eq!(get_leaf_range(1, LEAF_SIZE + 1), Some((LEAF_SIZE, LEAF_SIZE + 1)));

    assert_eq!(get_leaf_range(2, 0), None);
    assert_eq!(get_leaf_range(2, LEAF_SIZE + 1), None);
    assert_eq!(get_leaf_range(2, 2 * LEAF_SIZE), None);
    assert_eq!(get_leaf_range(2, 2 * LEAF_SIZE), None);
    assert_eq!(get_leaf_range(2, 2 * LEAF_SIZE + 1),
        Some((2 * LEAF_SIZE, 2 * LEAF_SIZE + 1))
    );
}

#[test]
fn test_leaf_range_iter() {
    assert_eq!(range_leaves(0), vec![]);
    assert_eq!(range_leaves(1), vec![(0, 1)]);
    assert_eq!(range_leaves(2), vec![(0, 2)]);
    assert_eq!(range_leaves(LEAF_SIZE - 1),
        vec![(0, LEAF_SIZE - 1)]
    );
    assert_eq!(range_leaves(LEAF_SIZE),
        vec![(0, LEAF_SIZE)]
    );
    assert_eq!(range_leaves(LEAF_SIZE + 1),
        vec![(0, LEAF_SIZE), (LEAF_SIZE, LEAF_SIZE + 1)]
    );
    assert_eq!(range_leaves(2* LEAF_SIZE - 1),
        vec![(0, LEAF_SIZE), (LEAF_SIZE, 2* LEAF_SIZE - 1)]
    );
    assert_eq!(range_leaves(2* LEAF_SIZE),
        vec![(0, LEAF_SIZE), (LEAF_SIZE, 2* LEAF_SIZE)]
    );
    assert_eq!(range_leaves(2* LEAF_SIZE + 1), vec![
        (0, LEAF_SIZE),
        (LEAF_SIZE, 2* LEAF_SIZE),
        (2 * LEAF_SIZE, 2 * LEAF_SIZE + 1),
    ]);
}

#[test]
fn test_leaf_offset_iter() {
    // 0
    assert_eq!(offset_leaves(0, 0), vec![]);
    // 1
    assert_eq!(offset_leaves(1, 0), vec![
        LeafOffset{index:0, size:1, offset:0},
    ]);
    // LEAF_SIZE - 1
    assert_eq!(offset_leaves(LEAF_SIZE - 1, 0),  vec![
        LeafOffset{index:0, size:LEAF_SIZE - 1, offset:0},
    ]);
    // LEAF_SIZE
    assert_eq!(offset_leaves(LEAF_SIZE, 0),  vec![
        LeafOffset{index:0, size:LEAF_SIZE, offset:0},
    ]);
    // LEAF_SIZE + 1
    assert_eq!(offset_leaves(LEAF_SIZE + 1, 0),  vec![
        LeafOffset{index:0, size:LEAF_SIZE, offset:0},
        LeafOffset{index:1, size:1, offset:LEAF_SIZE},
    ]);
    // 2 * LEAF_SIZE - 1
    assert_eq!(offset_leaves(2 * LEAF_SIZE - 1, 0),  vec![
        LeafOffset{index:0, size:LEAF_SIZE, offset:0},
        LeafOffset{index:1, size:LEAF_SIZE - 1, offset:LEAF_SIZE},
    ]);
    // 2 * LEAF_SIZE
    assert_eq!(offset_leaves(2 * LEAF_SIZE, 0),  vec![
        LeafOffset{index:0, size:LEAF_SIZE, offset:0},
        LeafOffset{index:1, size:LEAF_SIZE, offset:LEAF_SIZE},
    ]);
    // 2 * LEAF_SIZE + 1
    assert_eq!(offset_leaves(2 * LEAF_SIZE + 1, 0),  vec![
        LeafOffset{index:0, size:LEAF_SIZE, offset:0},
        LeafOffset{index:1, size:LEAF_SIZE, offset:LEAF_SIZE},
        LeafOffset{index:2, size:1, offset:2 * LEAF_SIZE},
    ]);
    // 3 * LEAF_SIZE - 1
    assert_eq!(offset_leaves(3 * LEAF_SIZE - 1, 0),  vec![
        LeafOffset{index:0, size:LEAF_SIZE, offset:0},
        LeafOffset{index:1, size:LEAF_SIZE, offset:LEAF_SIZE},
        LeafOffset{index:2, size:LEAF_SIZE - 1, offset:2 * LEAF_SIZE},
    ]);
    // 3 * LEAF_SIZE
    assert_eq!(offset_leaves(3 * LEAF_SIZE, 0),  vec![
        LeafOffset{index:0, size:LEAF_SIZE, offset:0},
        LeafOffset{index:1, size:LEAF_SIZE, offset:LEAF_SIZE},
        LeafOffset{index:2, size:LEAF_SIZE, offset:2 * LEAF_SIZE},
    ]);

    for ofst in [0_u64, 1, 2, LEAF_SIZE - 1, LEAF_SIZE, LEAF_SIZE + 1] {
        // 0
        assert_eq!(offset_leaves(0, ofst), vec![]);
        // 1
        assert_eq!(offset_leaves(1, ofst), vec![
            LeafOffset{index:0, size:1, offset:ofst},
        ]);
        // LEAF_SIZE - 1
        assert_eq!(offset_leaves(LEAF_SIZE - 1, ofst),  vec![
            LeafOffset{index:0, size:LEAF_SIZE - 1, offset:ofst},
        ]);
        // LEAF_SIZE
        assert_eq!(offset_leaves(LEAF_SIZE, ofst),  vec![
            LeafOffset{index:0, size:LEAF_SIZE, offset:ofst},
        ]);
        // LEAF_SIZE + 1
        assert_eq!(offset_leaves(LEAF_SIZE + 1, ofst),  vec![
            LeafOffset{index:0, size:LEAF_SIZE, offset:ofst},
            LeafOffset{index:1, size:1, offset:ofst + LEAF_SIZE},
        ]);
        // 2 * LEAF_SIZE - 1
        assert_eq!(offset_leaves(2 * LEAF_SIZE - 1, ofst),  vec![
            LeafOffset{index:0, size:LEAF_SIZE, offset:ofst},
            LeafOffset{index:1, size:LEAF_SIZE - 1, offset:ofst + LEAF_SIZE},
        ]);
        // 2 * LEAF_SIZE
        assert_eq!(offset_leaves(2 * LEAF_SIZE, ofst),  vec![
            LeafOffset{index:0, size:LEAF_SIZE, offset:ofst},
            LeafOffset{index:1, size:LEAF_SIZE, offset:ofst + LEAF_SIZE},
        ]);
        // 2 * LEAF_SIZE + 1
        assert_eq!(offset_leaves(2 * LEAF_SIZE + 1, ofst),  vec![
            LeafOffset{index:0, size:LEAF_SIZE, offset:ofst},
            LeafOffset{index:1, size:LEAF_SIZE, offset:ofst + LEAF_SIZE},
            LeafOffset{index:2, size:1, offset:ofst + 2 * LEAF_SIZE},
        ]);
        // 3 * LEAF_SIZE - 1
        assert_eq!(offset_leaves(3 * LEAF_SIZE - 1, ofst),  vec![
            LeafOffset{index:0, size:LEAF_SIZE, offset:ofst},
            LeafOffset{index:1, size:LEAF_SIZE, offset:ofst + LEAF_SIZE},
            LeafOffset{index:2, size:LEAF_SIZE - 1, offset:ofst + 2 * LEAF_SIZE},
        ]);
        // 3 * LEAF_SIZE
        assert_eq!(offset_leaves(3 * LEAF_SIZE, ofst),  vec![
            LeafOffset{index:0, size:LEAF_SIZE, offset:ofst},
            LeafOffset{index:1, size:LEAF_SIZE, offset:ofst + LEAF_SIZE},
            LeafOffset{index:2, size:LEAF_SIZE, offset:ofst + 2 * LEAF_SIZE},
        ]);
    }
}

#[test]
fn test_get_leaf_size() {
    assert_eq!(get_leaf_size(0, 0), None);
    assert_eq!(get_leaf_size(0, 5), Some(5));
    assert_eq!(get_leaf_size(1, LEAF_SIZE + 7), Some(7));
    assert_eq!(get_leaf_size(2, LEAF_SIZE + 7), None);
}

#[test]
fn test_tub_buf2() {
    let tbuf = TubBuf::new();
    assert_eq!(tbuf.len(), 0);
}

#[test]
fn test_tub_buf_hash_data() {
    let mut tbuf = TubBuf::new();
    let hash = tbuf.hash_data(b"hello");
    assert_eq!(tbuf.len(), HEADER_LEN + 5);
    assert_eq!(tbuf.hash(), hash);
    assert_eq!(tbuf.size(), 5);
    assert!(tbuf.is_small());
    assert!(!tbuf.is_large());
    assert!(tbuf.is_valid_for_commit());
    assert_eq!(tbuf.as_payload(), b"hello");
    assert_eq!(tbuf.as_leaf(), b"hello");
    assert_eq!(tbuf.as_commit().len(), HEADER_LEN + 5);
    assert_ne!(hash, [0_u8; 30]);

    let mut other = TubBuf::new();
    assert_ne!(other.hash_data(b"hellp"), hash);
    let mut same = TubBuf::new();
    assert_eq!(same.hash_data(b"hello"), hash);
}

#[test]
fn test_tub_buf_large() {
    let mut tbuf = TubBuf::new();
    tbuf.resize(LEAF_SIZE + 3);
    assert!(tbuf.is_large());
    assert_eq!(tbuf.len(), HEADER_LEN + 2 * TUB_HASH_LEN + LEAF_SIZE as usize);
    assert_eq!(tbuf.as_leaf_hashes().len(), 2 * TUB_HASH_LEN);
    {
        let leaf = tbuf.as_mut_leaf().unwrap();
        leaf.fill(1);
    }
    tbuf.hash_leaf();
    assert_eq!(tbuf.as_leaf().len(), 3);
    tbuf.hash_leaf();
    tbuf.finalize();
    assert!(tbuf.is_valid_for_commit());
    assert_eq!(tbuf.size(), LEAF_SIZE + 3);
    assert_eq!(tbuf.as_commit().len(), HEADER_LEN + 2 * TUB_HASH_LEN);
}

#[test]
fn test_reindex_buf() {
    let mut rbuf = ReindexBuf::new();
    assert!(!rbuf.is_object());
    assert!(!rbuf.is_tombstone());
    assert_eq!(rbuf.size(), 0);
    assert_eq!(rbuf.as_mut_buf().len(), HEADER_LEN);
    assert_eq!(rbuf.offset_size(), HEADER_LEN as u64);
}

#[test]
fn test_reindex_buf_object() {
    let mut tbuf = TubBuf::new();
    tbuf.hash_data(b"some data");
    let mut rbuf = ReindexBuf::new();
    rbuf.as_mut_buf().copy_from_slice(&tbuf.as_commit()[0..HEADER_LEN]);
    assert!(rbuf.is_object());
    assert!(!rbuf.is_tombstone());
    assert_eq!(rbuf.size(), 9);
    assert_eq!(rbuf.hash(), tbuf.hash());
    assert_eq!(rbuf.payload_hash(), tbuf.payload_hash());
    assert_eq!(rbuf.offset_size(), HEADER_LEN as u64 + 9);
    rbuf.reset();
    assert!(!rbuf.is_object());
    assert_eq!(rbuf.hash(), [0_u8; 30]);
}

#[test]
fn test_header_fields() {
    let buf: Vec<u8> = (0..69_u8).collect();
    let h = Header::new(&buf);
    assert_eq!(h.as_root_hash(), &buf[0..30]);
    assert_eq!(h.as_size(), &buf[30..38]);
    assert_eq!(h.as_payload_hash(), &buf[0..30]);
    assert_eq!(h.as_tail(), &buf[30..69]);
}

#[test]
fn test_leaf_sizes_sum() {
    for size in [1_u64, 5, LEAF_SIZE - 1, LEAF_SIZE, LEAF_SIZE + 1, 3 * LEAF_SIZE, 3 * LEAF_SIZE + 7] {
        let count = bathtub_db::leaf_io::get_leaf_count(size);
        let mut total = 0;
        for i in 0..count {
            let z = bathtub_db::leaf_io::get_leaf_size(i, size).unwrap();
            assert!(z >= 1 && z <= LEAF_SIZE);
            if i + 1 < count {
                assert_eq!(z, LEAF_SIZE);
            }
            total += z;
        }
        assert_eq!(total, size);
        assert_eq!(bathtub_db::leaf_io::get_leaf_size(count, size), None);
    }
}

#[test]
fn test_tub_buf_leaf_walk_count() {
    for size in [LEAF_SIZE + 1, 2 * LEAF_SIZE, 3 * LEAF_SIZE + 7] {
        let mut tbuf = TubBuf::new();
        tbuf.resize(size);
        let count = get_leaf_count(size);
        let mut k = 0;
        loop {
            let len = match tbuf.as_mut_leaf() {
                Some(leaf) => leaf.len() as u64,
                None => break,
            };
            assert_eq!(Some(len), get_leaf_size(k, size));
            tbuf.hash_leaf();
            k += 1;
        }
        assert_eq!(k, count);
    }
}
