use std::collections::HashSet;
use bathtub_db::base::OBJECT_MAX_SIZE;
use bathtub_db::chaos::{DefaultName, Info, Name};

#[test]
fn test_name() {
    let mut n = Name::<30>::new();
    assert_eq!(n.len(), 30);
    assert_eq!(n.as_buf(), [0_u8; 30]);
    assert_eq!(n.as_mut_buf(), [0_u8; 30]);
    assert_eq!(n.to_string(), "333333333333333333333333333333333333333333333333");
    n.as_mut_buf().fill(255);
    assert_eq!(n.len(), 30);
    assert_eq!(n.as_buf(), [255_u8; 30]);
    assert_eq!(n.as_mut_buf(), [255_u8; 30]);
    assert_eq!(n.to_string(), "YYYYYYYYYYYYYYYYYYYYYYYYYYYYYYYYYYYYYYYYYYYYYYYY");

    let mut n = Name::<20>::new();
    assert_eq!(n.len(), 20);
    assert_eq!(n.as_buf(), [0_u8; 20]);
    assert_eq!(n.as_mut_buf(), [0_u8; 20]);
    assert_eq!(n.to_string(), "33333333333333333333333333333333");
    n.as_mut_buf().fill(255);
    assert_eq!(n.len(), 20);
    assert_eq!(n.as_buf(), [255_u8; 20]);
    assert_eq!(n.as_mut_buf(), [255_u8; 20]);
    assert_eq!(n.to_string(), "YYYYYYYYYYYYYYYYYYYYYYYYYYYYYYYY");
}

#[test]
fn test_name_randomize() {
    let mut set: HashSet<DefaultName> = HashSet::new();
    let mut name = DefaultName::new();
    for _ in 0..777 {
        name.randomize();
        set.insert(name.clone());
    }
    assert_eq!(set.len(), 777);
}

#[test]
fn chaos_test_info() {
    let info = Info::from_le_bytes(&[0; 4]);
    assert_eq!(info.size(), 1);
    assert_eq!(info.kind(), 0);
    assert_eq!(info.raw(), 0);
    assert_eq!(info.to_le_bytes(), [0; 4]);

    let info = Info::from_le_bytes(&[255; 4]);
    assert_eq!(info.size(), OBJECT_MAX_SIZE);
    assert_eq!(info.kind(), 255);
    assert_eq!(info.raw(), u32::MAX);
    assert_eq!(info.to_le_bytes(), [255; 4]);

    let info = Info::new(1, 0);
    assert_eq!(info.size(), 1);
    assert_eq!(info.kind(), 0);
    assert_eq!(info.raw(), 0);
    assert_eq!(info.to_le_bytes(), [0; 4]);

    let info = Info::new(OBJECT_MAX_SIZE, 255);
    assert_eq!(info.size(), OBJECT_MAX_SIZE);
    assert_eq!(info.kind(), 255);
    assert_eq!(info.raw(), u32::MAX);
    assert_eq!(info.to_le_bytes(), [255; 4]);
}

#[test]
fn object_test_info() {
    let info = Info::from_le_bytes(&[0; 4]);
    assert_eq!(info.size(), 1);
    assert_eq!(info.kind(), 0);

    let info = Info::new(1, 0);
    assert_eq!(info.raw(), 0);
    assert_eq!(info.size(), 1);
}

#[test]
fn test_info_roundtrip_values() {
    let info = Info::new(300, 7);
    assert_eq!(info.raw(), 299 | (7 << 24));
    let back = Info::from_le_bytes(&info.to_le_bytes());
    assert_eq!(back.size(), 300);
    assert_eq!(back.kind(), 7);
}

#[test]
fn test_name_from_str_roundtrip() {
    let mut n = Name::<15>::new();
    n.as_mut_buf().copy_from_slice(b"binary foo12345");
    let txt = n.to_string();
    let m = Name::<15>::from_str(&txt);
    assert_eq!(m.as_buf(), n.as_buf());
    let c = Name::<15>::from(n.as_buf());
    assert_eq!(c, n);
}

use bathtub_db::chaos::Object;
use bathtub_db::helpers::flip_bit_in;
use bathtub_db::protocol::{Blake3, Hasher, Protocol, ProtocolZero};

#[test]
fn chaos_test_object() {
    let mut obj: Object<Blake3, 30> = Object::new();
    assert_eq!(obj.len(), 34);
    obj.clear();
    assert_eq!(obj.len(), 34);

    assert_eq!(obj.info().size(), 1);
    assert_eq!(obj.info().kind(), 0);
    assert_eq!(obj.as_buf(), &[0; 34]);

    obj.as_mut_buf().fill(255);
    assert_eq!(obj.info().size(), 16 * 1024 * 1024);
    assert_eq!(obj.info().kind(), 255);

    assert_eq!(obj.len(), 34);
    assert_eq!(obj.as_buf(), &[255; 34]);

    obj.clear();
    assert_eq!(obj.len(), 34);
    assert_eq!(obj.as_buf(), &[0; 34]);
    assert_eq!(obj.as_payload(), &[0; 4]);
}

#[test]
fn test_object_validity() {
    let mut obj: Object<Blake3, 30> = Object::new();
    obj.randomize(true);
    assert!(obj.is_valid());
    for bit in 0..obj.len() * 8 {
        flip_bit_in(obj.as_mut_buf(), bit);
        assert!(!obj.is_valid());
        flip_bit_in(obj.as_mut_buf(), bit);
        assert!(obj.is_valid());
    }

    let mut hash = obj.hash();
    for bit in 0..hash.len() * 8 {
        flip_bit_in(hash.as_mut_buf(), bit);
        assert!(!obj.validate_against(&hash));
        flip_bit_in(hash.as_mut_buf(), bit);
        assert!(obj.validate_against(&hash));
    }
}

#[test]
fn test_blake3() {
    let mut hash = [0_u8; 30];
    let mut data = [0_u8; 69];
    getrandom::fill(&mut data).unwrap();
    let b3 = Blake3::new();
    b3.hash_into(&data, &mut hash);
    let mut set: HashSet<[u8; 30]> = HashSet::new();
    let og = hash.clone();
    set.insert(hash.clone());
    for bit in 0..data.len() * 8 {
        flip_bit_in(&mut data, bit);
        b3.hash_into(&data, &mut hash);
        assert_ne!(hash, og);
        assert!(set.insert(hash.clone()));
        flip_bit_in(&mut data, bit);
        b3.hash_into(&data, &mut hash);
        assert_eq!(hash, og);
    }
    assert_eq!(set.len(), 69 * 8 + 1);
}

#[test]
fn test_getrandom() {
    let mut buf = [0_u8; 30];
    bathtub_db::util::getrandom(&mut buf);
    assert_ne!(buf, [0; 30]);
    let og = buf.clone();
    bathtub_db::util::getrandom(&mut buf);
    assert_ne!(buf, og);

    let mut set: HashSet<[u8; 30]> = HashSet::new();
    for _ in 0..6942 {
        bathtub_db::util::getrandom(&mut buf);
        set.insert(buf.clone());
    }
    assert_eq!(set.len(), 6942);
}

use bathtub_db::chaos::StoreIndex;

#[test]
fn test_store_index_save_get() {
    let mut index: StoreIndex<30> = StoreIndex::new();
    assert_eq!(index.len(), 0);
    assert_eq!(index.offset(), 0);
    let mut obj: Object<Blake3, 30> = Object::new();
    let mut hashes = Vec::new();
    let mut offsets = Vec::new();
    for _ in 0..8 {
        obj.randomize(true);
        let at = index.offset();
        assert!(index.save(&obj));
        assert!(!index.save(&obj));
        assert_eq!(index.offset(), at + obj.len() as u64);
        let entry = index.get(&obj.hash()).unwrap();
        assert_eq!(entry.offset, at);
        assert_eq!(entry.info.size(), obj.info().size());
        assert_eq!(entry.info.kind(), obj.info().kind());
        hashes.push(obj.hash());
        offsets.push(at);
    }
    assert_eq!(index.len(), 8);
    for (h, at) in hashes.iter().zip(offsets.iter()) {
        assert!(index.contains_key(h));
        assert_eq!(index.get(h).unwrap().offset, *at);
    }
    let mut sorted = hashes.clone();
    sorted.sort();
    assert_eq!(index.keys(), sorted);
    index.clear();
    assert_eq!(index.len(), 0);
    assert_eq!(index.offset(), 0);
    assert!(index.get(&hashes[0]).is_none());
}

#[test]
fn test_store_index_reindex_bytes() {
    let mut objs: Vec<Object<Blake3, 30>> = Vec::new();
    let mut data: Vec<u8> = Vec::new();
    let mut offsets = Vec::new();
    for _ in 0..10 {
        let mut obj: Object<Blake3, 30> = Object::new();
        obj.randomize(true).unwrap();
        offsets.push(data.len() as u64);
        data.extend_from_slice(obj.as_buf());
        objs.push(obj);
    }
    // The first object again, at the end: the index keeps its last place.
    let last_at = data.len() as u64;
    data.extend_from_slice(objs[0].as_buf());
    let whole = data.len() as u64;
    // Fewer bytes than a header after the objects are left alone.
    data.extend_from_slice(&[7_u8; 20]);

    let mut index: StoreIndex<30> = StoreIndex::new();
    assert!(index.reindex_bytes::<Blake3>(&data, true));
    assert_eq!(index.len(), 10);
    assert_eq!(index.offset(), whole);
    for (i, obj) in objs.iter().enumerate() {
        let e = index.get(&obj.hash()).unwrap();
        let at = if i == 0 { last_at } else { offsets[i] };
        assert_eq!(e.offset, at);
        let len = obj.len();
        assert_eq!(&data[at as usize..at as usize + len], obj.as_buf());
    }

    // A second reindex gives the same index.
    assert!(index.reindex_bytes::<Blake3>(&data, true));
    assert_eq!(index.len(), 10);
    assert_eq!(index.offset(), whole);

    // A corrupt object fails a checked reindex but not an unchecked one.
    let mut bad = data.clone();
    bad[40] ^= 1;
    assert!(!index.reindex_bytes::<Blake3>(&bad, true));
    assert!(index.reindex_bytes::<Blake3>(&bad, false));

    // An object cut short fails either way.
    let cut = &data[0..objs[0].len() + 40];
    assert!(!index.reindex_bytes::<Blake3>(cut, false));
}

#[test]
fn test_protocol_zero_header() {
    assert_eq!(ProtocolZero::digest(), 30);
    assert_eq!(ProtocolZero::size(), 3);
    assert_eq!(ProtocolZero::header(), 34);
}

use bathtub_db::chaos::clamp_info;

#[test]
fn test_clamp_info() {
    // Large objects keep the drawn bytes.
    assert_eq!(clamp_info([1, 2, 3, 4], false), [1, 2, 3, 4]);
    // Small objects raise the first byte to at least 15 and clear the next two.
    assert_eq!(clamp_info([1, 2, 3, 4], true), [15, 0, 0, 4]);
    assert_eq!(clamp_info([200, 255, 255, 7], true), [200, 0, 0, 7]);
    assert_eq!(clamp_info([15, 9, 9, 9], true), [15, 0, 0, 9]);
}

#[test]
fn test_randomize_small_sizes() {
    for _ in 0..50 {
        let mut obj: Object<Blake3, 30> = Object::new();
        obj.randomize(true).unwrap();
        let size = obj.info().size();
        assert!((16..=256).contains(&size));
        assert_eq!(obj.len(), 34 + size);
        assert!(obj.is_valid());
    }
}
