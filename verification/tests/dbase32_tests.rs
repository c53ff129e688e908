use std::collections::HashSet;
use bathtub_db::dbase32::{
    check_bin_txt, db32dec, db32dec_into, db32enc, db32enc_into, forward_table, isdb32,
    reverse_table, DirNameIter,
};

#[test]
fn test_forward_table() {
    let forward = forward_table();
    assert_eq!(forward.len(), 32);

    let mut set: HashSet<u8> = HashSet::new();
    for v in forward.iter() {
        assert!(set.insert(v.clone()))
    }
    assert_eq!(set.len(), forward.len());

    let mut table = Vec::from_iter(forward.iter().cloned());
    table.sort();
    assert_eq!(table, forward);
}

#[test]
fn test_reverse_table() {
    let reverse = reverse_table();
    assert_eq!(reverse.len(), 256);

    let mut set: HashSet<u8> = HashSet::new();
    for v in reverse.iter() {
        let v = v.clone();
        let new = set.insert(v);
        if v < 32 {
            assert!(new);
        } else {
            assert_eq!(v, 255);
        }
    }
    assert_eq!(set.len(), 33);
}

fn dir_names() -> Vec<String> {
    let mut it = DirNameIter::new();
    let mut names = Vec::new();
    while let Some(n) = it.next() {
        names.push(n);
    }
    names
}

#[test]
fn test_name2iter() {
    let names = dir_names();
    assert_eq!(names.len(), 1024);
    assert_eq!(names[0], "33");
    assert_eq!(names[1], "34");
    assert_eq!(names[2], "35");
    assert_eq!(names[1021], "YW");
    assert_eq!(names[1022], "YX");
    assert_eq!(names[1023], "YY");

    let mut set: HashSet<String> = HashSet::new();
    for n in names.iter() {
        let n = n.clone();
        assert_eq!(n.len(), 2);
        assert!(set.insert(n));
    }

    let mut copy = names.clone();
    copy.sort();
    assert_eq!(copy, names);
}

#[test]
fn test_check_bin_txt() {
    assert!(check_bin_txt(&[0_u8; 30], &[0_u8; 48]));
}

#[test]
fn test_check_bin_txt_rejects() {
    assert!(!check_bin_txt(&[], &[0_u8; 48]));
    assert!(!check_bin_txt(&[0_u8; 31], &[0_u8; 48]));
    assert!(!check_bin_txt(&[0_u8; 30], &[]));
    assert!(!check_bin_txt(&[0_u8; 30], &[0_u8; 49]));
    assert!(!check_bin_txt(&[0_u8; 30], &[0_u8; 24]));
}

#[test]
fn test_isdb32() {
    assert_eq!(isdb32(b""), false);
    assert_eq!(isdb32(b"A"), false);
    assert_eq!(isdb32(b"AA"), false);
    assert_eq!(isdb32(b"AAA"), false);
    assert_eq!(isdb32(b"AAAA"), false);
    assert_eq!(isdb32(b"AAAAA"), false);
    assert_eq!(isdb32(b"AAAAAA"), false);
    assert_eq!(isdb32(b"AAAAAAA"), false);
    assert_eq!(isdb32(b"AAAAAAAA"), true);
    assert_eq!(isdb32(b"AAAAAAAAA"), false);

    assert_eq!(isdb32(b"ABCDEFGH"), true);
    assert_eq!(isdb32(b"ZBCDEFGH"), false);
    assert_eq!(isdb32(b"AZCDEFGH"), false);
    assert_eq!(isdb32(b"ABZDEFGH"), false);
    assert_eq!(isdb32(b"ABCZEFGH"), false);
    assert_eq!(isdb32(b"ABCDZFGH"), false);
    assert_eq!(isdb32(b"ABCDEZGH"), false);
    assert_eq!(isdb32(b"ABCDEFZH"), false);
    assert_eq!(isdb32(b"ABCDEFGZ"), false);
}

#[test]
fn test_db32dec_into() {
    let txt = b"FCNPVRELI7J9FUUI";
    let mut bin = [0_u8; 10];
    assert_eq!(db32dec_into(txt, &mut bin), true);
    assert_eq!(&bin, b"binary foo");
}

#[test]
fn test_db32dec() {
    assert_eq!(db32dec(b"FCNPVRELI7J9FUUI").unwrap(), b"binary foo");
    assert_eq!(db32dec(b"fcnpvreli7j9fuui"), None);
}

#[test]
fn test_db32enc_values() {
    let mut txt = [0_u8; 16];
    db32enc_into(b"binary foo", &mut txt);
    assert_eq!(&txt, b"FCNPVRELI7J9FUUI");
    assert_eq!(db32enc(b"binary foo"), "FCNPVRELI7J9FUUI");
    assert_eq!(db32enc(&[0_u8; 5]), "33333333");
    assert_eq!(db32enc(&[255_u8; 5]), "YYYYYYYY");
}

#[test]
fn test_db32_roundtrip_values() {
    let bin: Vec<u8> = (0..=255_u8).take(250).collect();
    let txt = db32enc(&bin);
    assert_eq!(db32dec(txt.as_bytes()).unwrap(), bin);
}

#[test]
fn dbase32_test_roundtrip() {
    let mut bin = [0_u8; 15];
    let mut set: HashSet<[u8; 15]> = HashSet::new();
    for _ in 0..4269 {
        bathtub_db::util::getrandom(&mut bin);
        set.insert(bin.clone());
        let txt = db32enc(&bin);
        let bin2 = db32dec(&txt.as_bytes()).unwrap();
        assert_eq!(&bin, &bin2[..]);
    }
    assert_eq!(set.len(), 4269);
}

#[test]
fn test_bad_txt() {
    let mut bin = [0_u8; 15];
    bathtub_db::util::getrandom(&mut bin);
    let bin = bin;
    let txt = db32enc(&bin).into_bytes();
    assert_eq!(isdb32(&txt), true);
    for i in 0..txt.len() {
        for v in 0..=255_u8 {
            let mut copy = txt.clone();
            copy[i] = v;
            if bathtub_db::dbase32::FORWARD.contains(&v) {
                assert_eq!(isdb32(&copy), true);
                if copy == txt {
                    assert_eq!(db32dec(&copy).unwrap(), bin);
                } else {
                    assert_ne!(db32dec(&copy).unwrap(), bin);
                }
            } else {
                assert_eq!(isdb32(&copy), false);
                assert_eq!(db32dec(&copy), None);
            }
        }
    }
}

#[test]
fn test_sort_order_kept() {
    let mut bins: Vec<[u8; 10]> = Vec::new();
    let mut bin = [0_u8; 10];
    for _ in 0..500 {
        bathtub_db::util::getrandom(&mut bin);
        bins.push(bin);
    }
    bins.push([0_u8; 10]);
    bins.push([255_u8; 10]);
    bins.push([1, 0, 0, 0, 0, 0, 0, 0, 0, 0]);
    bins.push([0, 0, 0, 0, 0, 0, 0, 0, 0, 1]);
    for a in bins.iter() {
        for b in bins.iter().take(50) {
            let ta = db32enc(a);
            let tb = db32enc(b);
            assert_eq!(a.cmp(b), ta.cmp(&tb));
        }
    }
}
