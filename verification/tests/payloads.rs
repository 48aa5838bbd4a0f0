use rschain::block::Block;
use rschain::block_data::{BlockData, TransactionData, WalletData};
use rschain::hash::{ByteHash, Hashable};
use sha2::{Digest, Sha256};

fn transfer() -> TransactionData {
    TransactionData { from: String::from("ab"), to: String::from("c"), currency: 1, amount: 258 }
}

#[test]
fn wire_form_of_the_empty_payload() {
    assert_eq!(BlockData::Empty.to_bytes(), vec![0u8]);
}

#[test]
fn wire_form_of_a_registration() {
    let data = BlockData::Wallet(WalletData { pubkey: String::from("ab") });
    assert_eq!(data.to_bytes(), vec![1u8, 2, 0, 0, 0, 0, 0, 0, 0, 0x61, 0x62]);
}

#[test]
fn wire_form_of_a_registration_counts_bytes_not_characters() {
    let data = BlockData::Wallet(WalletData { pubkey: String::from("\u{e9}") });
    assert_eq!(data.to_bytes(), vec![1u8, 2, 0, 0, 0, 0, 0, 0, 0, 0xc3, 0xa9]);
}

#[test]
fn wire_form_of_a_transfer() {
    let data = BlockData::Transaction(transfer());
    let expected: Vec<u8> = vec![
        2, // variant
        2, 0, 0, 0, 0, 0, 0, 0, 0x61, 0x62, // from
        1, 0, 0, 0, 0, 0, 0, 0, 0x63, // to
        1, 0, 0, 0, 0, 0, 0, 0, // currency
        2, 1, 0, 0, 0, 0, 0, 0, // amount
    ];
    assert_eq!(data.to_bytes(), expected);
}

#[test]
fn payloads_that_differ_have_different_wire_forms() {
    let a = BlockData::Transaction(TransactionData {
        from: String::from("a"),
        to: String::from("bc"),
        currency: 1,
        amount: 1,
    });
    let b = BlockData::Transaction(TransactionData {
        from: String::from("ab"),
        to: String::from("c"),
        currency: 1,
        amount: 1,
    });
    assert_ne!(a.to_bytes(), b.to_bytes());
}

#[test]
fn content_hash_of_payloads() {
    assert_eq!(BlockData::Empty.hash(), ByteHash::new());
    let wallet = WalletData { pubkey: String::from("abc") };
    assert_eq!(BlockData::Wallet(wallet.clone()).hash(), wallet.hash());
    let t = transfer();
    assert_eq!(BlockData::Transaction(t.clone()).hash(), t.hash());
}

#[test]
fn content_hash_of_a_transfer() {
    let mut bytes: Vec<u8> = Vec::new();
    bytes.extend_from_slice(b"ab");
    bytes.extend_from_slice(b"c");
    bytes.extend_from_slice(&1u64.to_le_bytes());
    bytes.extend_from_slice(&258u64.to_le_bytes());
    let expected: [u8; 32] = Sha256::digest(&bytes).into();
    assert_eq!(transfer().hash().to_ne_bytes(), expected);
}

#[test]
fn new_block_has_no_nonce_no_signature_and_the_identifier_of_its_content() {
    let prev = ByteHash::from_bytes([9u8; 32]);
    let block = Block::new(prev, BlockData::Empty);
    let mut bytes: Vec<u8> = Vec::new();
    bytes.extend_from_slice(&[9u8; 32]);
    bytes.extend_from_slice(&[0u8; 8]);
    bytes.push(0);
    let expected: [u8; 32] = Sha256::digest(&bytes).into();
    assert_eq!(block.hash.to_ne_bytes(), expected);
    assert_eq!(block.hash, block.hash());
    assert_ne!(block.hash, ByteHash::new());
    assert_eq!(block.previous_hash, prev);
    assert_eq!(block.nonce, 0);
    assert_eq!(block.signature, "");
    assert!(matches!(block.data, BlockData::Empty));
}

#[test]
fn new_block_is_the_block_with_nonce_zero() {
    let prev = ByteHash::from_bytes([9u8; 32]);
    let data = BlockData::Wallet(WalletData { pubkey: String::from("key") });
    let fresh = Block::new(prev, data.clone());
    let mut set = Block::new(prev, data);
    set.update_nonce(7);
    assert_ne!(fresh.hash, set.hash);
    set.update_nonce(0);
    assert_eq!(fresh.hash, set.hash);
}

#[test]
fn update_nonce_sets_the_identifier() {
    let prev = ByteHash::from_bytes([9u8; 32]);
    let mut block = Block::new(prev, BlockData::Wallet(WalletData { pubkey: String::from("key") }));
    block.update_nonce(0x0102);
    let mut bytes: Vec<u8> = Vec::new();
    bytes.extend_from_slice(&[9u8; 32]);
    bytes.extend_from_slice(&[2, 1, 0, 0, 0, 0, 0, 0]);
    bytes.extend_from_slice(&[1, 3, 0, 0, 0, 0, 0, 0, 0]);
    bytes.extend_from_slice(b"key");
    let expected: [u8; 32] = Sha256::digest(&bytes).into();
    assert_eq!(block.nonce, 0x0102);
    assert_eq!(block.hash.to_ne_bytes(), expected);
    assert_eq!(block.hash, block.hash());
    assert_eq!(block.previous_hash, prev);
}

#[test]
fn identifier_depends_on_nonce_previous_block_and_payload() {
    let prev = ByteHash::from_bytes([9u8; 32]);
    let mut a = Block::new(prev, BlockData::Empty);
    a.update_nonce(1);
    let mut b = Block::new(prev, BlockData::Empty);
    b.update_nonce(2);
    let mut c = Block::new(ByteHash::new(), BlockData::Empty);
    c.update_nonce(1);
    let mut d = Block::new(prev, BlockData::Wallet(WalletData { pubkey: String::new() }));
    d.update_nonce(1);
    assert_ne!(a.hash, b.hash);
    assert_ne!(a.hash, c.hash);
    assert_ne!(a.hash, d.hash);
}

#[test]
fn identifier_does_not_depend_on_the_signature() {
    let mut a = Block::new(ByteHash::new(), BlockData::Empty);
    a.update_nonce(5);
    let mut b = Block::new(ByteHash::new(), BlockData::Empty);
    b.signature = String::from("00ff");
    b.update_nonce(5);
    assert_eq!(a.hash, b.hash);
}

#[test]
fn cloned_block_is_the_same_block() {
    let mut a = Block::new(ByteHash::new(), BlockData::Transaction(transfer()));
    a.signature = String::from("0a");
    a.update_nonce(3);
    let b = a.clone();
    assert_eq!(a.hash, b.hash);
    assert_eq!(a.previous_hash, b.previous_hash);
    assert_eq!(a.nonce, b.nonce);
    assert_eq!(a.signature, b.signature);
    assert_eq!(a.data.to_bytes(), b.data.to_bytes());
}
