use bathtub_db::blockchain::Header;
use bathtub_db::helpers::flip_bit_in;

#[test]
fn test_block_chain() {}

#[test]
fn test_header_hash() {
    let mut header = Header::new();
    assert_eq!(header.len(), 126);
    assert!(!header.verify_hash());
    let h = header.compute();
    header.set_hash(&h);
    assert!(header.verify_hash());
    assert_eq!(header.hash(), h);
    let count = header.as_mut_buf().len() * 8;
    for bit in 0..count {
        flip_bit_in(header.as_mut_buf(), bit);
        assert!(!header.verify_hash());
        flip_bit_in(header.as_mut_buf(), bit);
        assert!(header.verify_hash());
    }
}

#[test]
fn test_block_header_fields() {
    let mut header = Header::new();
    header.set_pubkey(&[5_u8; 32]);
    assert_eq!(header.pubkey(), [5_u8; 32]);
    assert_eq!(header.signature(), Some([0_u8; 64]));
    let mut sig = [1_u8; 64];
    header.set_signature(&sig);
    assert_eq!(header.signature(), Some(sig));
    sig[63] = 0xff;
    header.set_signature(&sig);
    assert_eq!(header.signature(), None);
    assert!(!header.verify_signature());
    assert_eq!(&header.as_buf()[94..126], &[5_u8; 32]);
}

#[test]
fn test_header_sign_hash() {
    let mut header = Header::new();
    let sk = [3_u8; 64];
    let sig = header.sign(&sk);
    assert_eq!(header.signature(), Some(sig));
    assert!(header.verify_hash());
    assert_eq!(&header.as_buf()[94..126], &sk[32..64]);
}

use bathtub_db::blockchain::{Block, ChainState};
use bathtub_db::chaos::DefaultName;
use bathtub_db::util::getrandom;
use sodiumoxide::crypto::sign;

#[test]
fn test_header_get_set() {
    let mut header = Header::new();

    let mut hash = DefaultName::new();
    assert_eq!(header.hash(), hash);
    hash.randomize();
    assert_ne!(header.hash(), hash);
    header.set_hash(&hash);
    assert_eq!(header.hash(), hash);

    assert_eq!(header.signature().unwrap().as_ref(), [0; 64]);
    let (pk, sk) = sign::gen_keypair();
    let sig = sign::sign_detached(pk.as_ref(), &sk).to_bytes();
    assert_ne!(header.signature().unwrap(), sig);
    header.set_signature(&sig);
    assert_eq!(header.signature().unwrap(), sig);

    assert_eq!(header.pubkey().as_ref(), [0; 32]);
    assert_ne!(header.pubkey(), pk.0);
    header.set_pubkey(&pk.0);
    assert_eq!(header.pubkey(), pk.0);
}

#[test]
fn test_header_verify_hash() {
    let mut header = Header::new();
    assert!(!header.verify_hash());
    getrandom(header.as_mut_buf());
    assert!(!header.verify_hash());
    header.set_hash(&header.compute());
    assert!(header.verify_hash());
    let count = header.as_mut_buf().len() * 8;
    for bit in 0..count {
        flip_bit_in(header.as_mut_buf(), bit);
        assert!(!header.verify_hash());
        flip_bit_in(header.as_mut_buf(), bit);
        assert!(header.verify_hash());
    }
}

#[test]
fn test_header_verify_signature() {
    let mut header = Header::new();
    assert!(!header.verify_signature());

    let (_pk, sk) = sign::gen_keypair();
    header.sign(&sk.0);
    assert!(header.verify_signature());

    let start = 30 * 8;
    let stop = header.as_mut_buf().len() * 8;
    for bit in 0..start {
        flip_bit_in(header.as_mut_buf(), bit);
        assert!(header.verify_signature());
    }
    for bit in start..stop {
        flip_bit_in(header.as_mut_buf(), bit);
        assert!(!header.verify_signature());
        flip_bit_in(header.as_mut_buf(), bit);
        assert!(header.verify_signature());
    }
}

#[test]
fn test_block_get_set() {
    let (pk, sk) = sign::gen_keypair();
    let mut block = Block::new(pk.0);

    let mut hash = DefaultName::new();
    assert_eq!(block.hash(), hash);
    hash.randomize();
    assert_ne!(block.hash(), hash);
    block.set_hash(&hash);
    assert_eq!(block.hash(), hash);

    assert_eq!(block.signature().unwrap().as_ref(), [0; 64]);
    let sig = sign::sign_detached(pk.as_ref(), &sk).to_bytes();
    assert_ne!(block.signature().unwrap(), sig);
    block.set_signature(&sig);
    assert_eq!(block.signature().unwrap(), sig);

    assert_eq!(block.previous(), DefaultName::new());
    hash.randomize();
    assert_ne!(block.previous(), hash);
    block.set_previous(&hash);
    assert_eq!(block.previous(), hash);

    assert_eq!(block.payload(), DefaultName::new());
    hash.randomize();
    assert_ne!(block.payload(), hash);
    block.set_payload(&hash);
    assert_eq!(block.payload(), hash);

    assert_eq!(block.index(), 0);
    block.set_index(420);
    assert_eq!(block.index(), 420);
}

#[test]
fn test_block_verify_hash() {
    let mut block = Header::new();
    assert!(!block.verify_hash());
    getrandom(block.as_mut_buf());
    assert!(!block.verify_hash());
    block.set_hash(&block.compute());
    assert!(block.verify_hash());
    let count = block.as_mut_buf().len() * 8;
    for bit in 0..count {
        flip_bit_in(block.as_mut_buf(), bit);
        assert!(!block.verify_hash());
        flip_bit_in(block.as_mut_buf(), bit);
        assert!(block.verify_hash());
    }
}

#[test]
fn test_chain_state_sign_and_accept() {
    let (pk, sk) = sign::gen_keypair();
    let mut header = Header::new();
    header.sign(&sk.0);
    assert!(header.verify());
    assert_eq!(header.pubkey(), pk.0);

    let mut writer = ChainState::new(header.hash());
    let mut blocks: Vec<Vec<u8>> = Vec::new();
    let mut block = Block::new(header.pubkey());
    for i in 0..3_u64 {
        let mut payload = DefaultName::new();
        payload.randomize();
        let before = writer.previous;
        writer.sign_next(&mut block, &payload, &sk.0);
        assert_eq!(block.previous(), before);
        assert_eq!(block.payload(), payload);
        assert_eq!(block.index(), i);
        assert!(block.verify());
        assert!(block.verify_against(&before));
        assert_eq!(writer.previous, block.hash());
        assert_eq!(writer.index, i + 1);
        blocks.push(block.as_buf().to_vec());
    }

    let mut reader = ChainState::new(header.hash());
    let mut check = Block::new(header.pubkey());
    for buf in blocks.iter() {
        check.as_mut_buf().copy_from_slice(buf);
        assert!(reader.accept(&check));
    }
    assert_eq!(reader.previous, writer.previous);
    assert_eq!(reader.index, 3);

    // A block out of order is refused and leaves the state alone.
    let mut again = ChainState::new(header.hash());
    check.as_mut_buf().copy_from_slice(&blocks[1]);
    assert!(!again.accept(&check));
    assert_eq!(again.index, 0);
    assert_eq!(again.previous, header.hash());

    // So is a block with a flipped bit.
    check.as_mut_buf().copy_from_slice(&blocks[0]);
    flip_bit_in(check.as_mut_buf(), 1000);
    assert!(!again.accept(&check));
}
