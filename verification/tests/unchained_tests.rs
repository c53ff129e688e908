use bathtub_db::unchained::{Block, Math, MutBlock, Read, Write};

type Math30 = Math<30>;
type Math40 = Math<40>;

#[test]
fn test_stuff() {
    let mut buf = [0_u8; 30];
    let _r = Read::new(&buf);
    let _w = Write::new(&mut buf);
}

#[test]
fn test_math() {
    assert_eq!(Math30::hash_range(), 0..30);
    assert_eq!(Math30::signature_range(), 30..94);
    assert_eq!(Math30::pubkey_range(), 94..126);
    assert_eq!(Math30::next_range(), 126..156);
    assert_eq!(Math30::previous_range(), 156..186);
    assert_eq!(Math30::payload_range(), 186..216);

    assert_eq!(Math40::hash_range(), 0..40);
    assert_eq!(Math40::signature_range(), 40..104);
    assert_eq!(Math40::pubkey_range(), 104..136);
    assert_eq!(Math40::next_range(), 136..176);
    assert_eq!(Math40::previous_range(), 176..216);
    assert_eq!(Math40::payload_range(), 216..256);
}

#[test]
fn test_block_fields() {
    let buf: Vec<u8> = (0..216_u32).map(|i| i as u8).collect();
    let b: Block<30> = Block::new(&buf);
    assert_eq!(b.as_hash(), &buf[0..30]);
    assert_eq!(b.as_signature(), &buf[30..94]);
    assert_eq!(b.as_pubkey(), &buf[94..126]);
    assert_eq!(b.as_next(), &buf[126..156]);
    assert_eq!(b.as_previous(), &buf[156..186]);
    assert_eq!(b.as_payload(), &buf[186..216]);
    assert_eq!(Math30::size(), 216);
}

#[test]
fn test_mut_block_fields() {
    let mut buf = [0_u8; 216];
    {
        let mut m: MutBlock<30> = MutBlock::new(&mut buf);
        m.as_signature().fill(1);
        m.as_payload().fill(2);
    }
    assert_eq!(&buf[0..30], &[0_u8; 30]);
    assert_eq!(&buf[30..94], &[1_u8; 64]);
    assert_eq!(&buf[186..216], &[2_u8; 30]);
}
