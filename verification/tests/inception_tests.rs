use bathtub_db::chaos::{DefaultObject, Name};
use bathtub_db::inception::{Container, LeafHashes, LocationMap, ReadFrom, WriteTo};

#[test]
fn test_leaf_hashes() {
    let lh: LeafHashes<30> = LeafHashes::new();
    let mut buf = Vec::new();
    lh.serialize(&mut buf);
    assert_eq!(buf, vec![0; 8]);
}

#[test]
fn test_leaf_hashes_roundtrip() {
    let mut lh: LeafHashes<15> = LeafHashes::new();
    let mut h = Name::<15>::new();
    h.as_mut_buf().fill(4);
    lh.append_leaf(h, 300);
    h.as_mut_buf().fill(9);
    lh.append_leaf(h, 2);
    let mut buf = Vec::new();
    lh.serialize(&mut buf);
    assert_eq!(buf.len(), 8 + 30);
    assert_eq!(&buf[0..8], &302_u64.to_le_bytes());
    let back = LeafHashes::<15>::deserialize(&buf);
    let mut buf2 = Vec::new();
    back.serialize(&mut buf2);
    assert_eq!(buf, buf2);
    let hashes: Vec<&Name<15>> = back.iter().collect();
    assert_eq!(hashes.len(), 2);
    assert_eq!(hashes[1].as_buf(), &[9_u8; 15]);
}

#[test]
fn test_location_map() {
    let mut m: LocationMap<5> = LocationMap::new();
    let mut k = Name::<5>::new();
    let mut v = Name::<5>::new();
    k.as_mut_buf().fill(1);
    v.as_mut_buf().fill(2);
    assert_eq!(m.insert(k, v), None);
    let mut k2 = Name::<5>::new();
    k2.as_mut_buf().fill(3);
    assert_eq!(m.insert(k2, k), None);
    assert_eq!(m.insert(k, k2), Some(v));
    assert_eq!(m.get(&k), Some(&k2));
    let mut buf = Vec::new();
    m.serialize(&mut buf);
    assert_eq!(buf, [3, 3, 3, 3, 3, 1, 1, 1, 1, 1, 1, 1, 1, 1, 1, 3, 3, 3, 3, 3]);
    let mut m2: LocationMap<5> = LocationMap::new();
    m2.deserialize(&buf);
    assert_eq!(m2.get(&k), Some(&k2));
    assert_eq!(m2.get(&k2), Some(&k));
    m2.clear();
    assert_eq!(m2.get(&k), None);
}

#[test]
fn test_read_from_and_write_to() {
    let obj = DefaultObject::new();
    let mut wto = WriteTo::new(obj);
    assert_eq!(wto.write(&[7_u8; 42]), 42);
    let obj = wto.into_inner();
    assert_eq!(obj.len(), 34 + 42);
    let container = Container::new(DefaultObject::new());
    assert!(container.has_space(&obj));

    let mut rfo = ReadFrom::new(obj);
    let mut buf = [0_u8; 69];
    assert_eq!(rfo.read(&mut buf), 42);
    assert_eq!(&buf[0..42], &[7_u8; 42]);
    assert_eq!(&buf[42..69], &[0_u8; 27]);
    assert_eq!(rfo.read(&mut buf), 0);
}

use std::io;
use std::io::Read;
use std::io::Write;
use bathtub_db::base::OBJECT_MAX_SIZE;
use bathtub_db::protocol::Blake3;
use bathtub_db::util::getrandom;

#[test]
fn test_rfo_empty() {
    let obj = DefaultObject::new();
    let mut rfo = ReadFrom::new(obj);
    let mut buf = [0; 69];
    assert_eq!(rfo.read(&mut buf), 0);
    assert_eq!(buf, [0; 69]);
}

#[test]
fn test_rfo_42() {
    let mut buf = [0; 69];
    let mut obj = DefaultObject::new();
    let mut data = [0; 42];
    getrandom(&mut data);
    obj.as_mut_vec().extend_from_slice(&data);
    let mut rfo = ReadFrom::new(obj);
    assert_eq!(rfo.read(&mut buf), 42);
    assert_eq!(buf[0..42], data);
    assert_eq!(buf[42..69], [0; 27]);
    buf.fill(0);
    assert_eq!(rfo.read(&mut buf), 0);
    assert_eq!(buf, [0; 69]);
}

#[test]
fn test_rfo_max() {
    let mut obj = DefaultObject::new();
    obj.reset(OBJECT_MAX_SIZE, 0);
    getrandom(obj.as_mut_data());
    let mut rfo = ReadFrom::new(obj);
    let mut buf = [0; 69];
    let mut output = Vec::new();
    loop {
        let s = rfo.read(&mut buf);
        if s == 0 {
            break;
        }
        output.extend_from_slice(&buf[0..s]);
    }
    buf.fill(0);
    assert_eq!(rfo.read(&mut buf), 0);
    assert_eq!(buf, [0; 69]);
    let obj = rfo.into_inner();
    assert_eq!(&output, obj.as_data());
}

#[test]
fn test_wto_till_full() {
    let obj = DefaultObject::new();
    let mut wto = WriteTo::new(obj);
    let mut buf = [0; 69];
    getrandom(&mut buf);
    let mut expected = Vec::new();
    loop {
        let s = wto.write(&buf);
        if s == 0 {
            break;
        }
        expected.extend_from_slice(&buf[0..s]);
        getrandom(&mut buf);
    }
    assert_eq!(expected.len(), OBJECT_MAX_SIZE);
    let obj = wto.into_inner();
    assert_eq!(obj.as_data(), &expected[..]);
}

/// `io::Write` over `WriteTo`, as the application wraps it for zstd.
struct ObjWriter(WriteTo<Blake3, 30>);

impl io::Write for ObjWriter {
    fn write(&mut self, buf: &[u8]) -> io::Result<usize> {
        Ok(self.0.write(buf))
    }
    fn flush(&mut self) -> io::Result<()> {
        Ok(())
    }
}

/// `io::Read` over `ReadFrom`, as the application wraps it for zstd.
struct ObjReader(ReadFrom<Blake3, 30>);

impl io::Read for ObjReader {
    fn read(&mut self, buf: &mut [u8]) -> io::Result<usize> {
        Ok(self.0.read(buf))
    }
}

#[test]
fn test_zstd_roundtrip() {
    let dst = DefaultObject::new();
    let wto = ObjWriter(WriteTo::new(dst));
    let mut enc: zstd::Encoder<'static, ObjWriter> = zstd::Encoder::new(wto, 0).unwrap();
    let mut obj = DefaultObject::new();
    let mut expected = Vec::new();
    for _ in 0..100 {
        obj.randomize(true);
        assert_eq!(enc.write(obj.as_buf()).unwrap(), obj.len());
        expected.extend_from_slice(obj.as_buf());
    }

    let src: DefaultObject = enc.finish().unwrap().0.into_inner();
    let rfo = ObjReader(ReadFrom::new(src));
    let mut dec: zstd::Decoder<'static, io::BufReader<ObjReader>> = zstd::Decoder::new(rfo).unwrap();
    let mut buf = vec![0; expected.len()];
    assert_eq!(dec.read(&mut buf).unwrap(), expected.len());
    assert_eq!(expected, buf);
}

use bathtub_db::inception::{decode_objects, encode_objects};

#[test]
fn test_container_roundtrip() {
    let mut objs: Vec<DefaultObject> = Vec::new();
    let mut expected: Vec<Vec<u8>> = Vec::new();
    for _ in 0..100 {
        let mut obj = DefaultObject::new();
        assert!(obj.randomize(true).is_some());
        expected.push(Vec::from(obj.as_buf()));
        objs.push(obj);
    }
    let inner: DefaultObject = encode_objects(&objs, 0).unwrap();
    assert!(inner.is_valid());
    assert_eq!(inner.info().kind(), 0);

    let back = decode_objects(&inner).unwrap();
    assert_eq!(back.len(), 100);
    for i in 0..100 {
        assert!(back[i].is_valid());
        assert_eq!(back[i].as_buf(), &expected[i][..]);
    }
}

#[test]
fn test_decode_objects_rejects() {
    // Data that is not a zstd stream.
    let mut bad = DefaultObject::new();
    bad.extend(b"not zstd at all");
    bad.finalize();
    assert!(decode_objects(&bad).is_none());

    // A zstd stream whose bytes are not whole objects.
    let mut obj = DefaultObject::new();
    obj.randomize(true).unwrap();
    let mut broken = Vec::from(obj.as_buf());
    broken[0] ^= 1;
    let z = zstd::stream::encode_all(&broken[..], 0).unwrap();
    let mut c = DefaultObject::new();
    c.extend(&z);
    c.finalize();
    assert!(decode_objects(&c).is_none());

    // No objects at all compress to a container holding none.
    let none: Vec<DefaultObject> = Vec::new();
    let empty = encode_objects(&none, 3).unwrap();
    assert_eq!(decode_objects(&empty).unwrap().len(), 0);
}
