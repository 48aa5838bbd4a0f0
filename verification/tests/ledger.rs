use openssl::hash::MessageDigest;
use openssl::pkey::{PKey, Private};
use openssl::rsa::Rsa;
use openssl::sign::Signer;
use rschain::bank::{Bank, BankError, Wallet};
use rschain::block::Block;
use rschain::block_data::{BlockData, TransactionData, WalletData};
use rschain::hash::{ByteHash, Hashable};
use rschain::signature::{accepted, check, no_pass_phrase};

struct Owner {
    key: PKey<Private>,
    pem: String,
    id: ByteHash,
}

fn owner() -> Owner {
    let rsa = Rsa::generate(1024).unwrap();
    let pem = String::from_utf8(rsa.public_key_to_pem().unwrap()).unwrap();
    let id = WalletData { pubkey: pem.clone() }.hash();
    Owner { key: PKey::from_rsa(rsa).unwrap(), pem, id }
}

fn sign(key: &PKey<Private>, data: &[u8]) -> Vec<u8> {
    let mut signer = Signer::new(MessageDigest::sha256(), key).unwrap();
    signer.update(data).unwrap();
    signer.sign_to_vec().unwrap()
}

fn registration(o: &Owner) -> Block {
    let data = BlockData::Wallet(WalletData { pubkey: o.pem.clone() });
    let mut b = Block::new(ByteHash::new(), data);
    b.update_nonce(0);
    b
}

fn payment(from: &ByteHash, to: &ByteHash, currency: u64, amount: u64) -> BlockData {
    BlockData::Transaction(TransactionData {
        from: from.to_hex(),
        to: to.to_hex(),
        currency,
        amount,
    })
}

fn transfer(signer: &Owner, from: &ByteHash, to: &ByteHash, currency: u64, amount: u64) -> Block {
    let data = payment(from, to, currency, amount);
    let signature = sign(&signer.key, &data.to_bytes());
    let mut b = Block::new(ByteHash::new(), data);
    b.signature = hex::encode(signature);
    b.update_nonce(0);
    b
}

fn held(bank: &Bank, id: &ByteHash, currency: u64) -> u128 {
    bank.get_wallet(*id).unwrap().balance(currency)
}

fn two_wallets() -> (Bank, Owner, Owner) {
    let a = owner();
    let b = owner();
    let mut bank = Bank::new();
    bank.do_block(&registration(&a)).unwrap();
    bank.do_block(&registration(&b)).unwrap();
    (bank, a, b)
}

#[test]
fn signature_of_the_key_holder_is_accepted() {
    let o = owner();
    let signature = sign(&o.key, b"message");
    assert!(check(o.pem.as_bytes(), b"message", &signature));
}

#[test]
fn signature_over_another_message_is_refused() {
    let o = owner();
    let signature = sign(&o.key, b"message");
    assert!(!check(o.pem.as_bytes(), b"massage", &signature));
}

#[test]
fn signature_under_another_key_is_refused() {
    let o = owner();
    let other = owner();
    let signature = sign(&o.key, b"message");
    assert!(!check(other.pem.as_bytes(), b"message", &signature));
}

#[test]
fn tampered_or_empty_signature_is_refused() {
    let o = owner();
    let mut signature = sign(&o.key, b"message");
    signature[0] ^= 1;
    assert!(!check(o.pem.as_bytes(), b"message", &signature));
    assert!(!check(o.pem.as_bytes(), b"message", &[]));
}

#[test]
fn key_that_cannot_be_read_refuses_every_signature() {
    let o = owner();
    let signature = sign(&o.key, b"message");
    assert!(!check(b"not a key", b"message", &signature));
    assert!(!check(b"", b"message", &signature));
}

#[test]
fn key_text_marked_encrypted_is_refused_without_asking() {
    let o = owner();
    let signature = sign(&o.key, b"message");
    let mut lines = o.pem.lines();
    let mut text = String::new();
    text.push_str(lines.next().unwrap());
    text.push_str("\nProc-Type: 4,ENCRYPTED\n");
    text.push_str("DEK-Info: AES-128-CBC,00112233445566778899AABBCCDDEEFF\n\n");
    for line in lines {
        text.push_str(line);
        text.push('\n');
    }
    assert!(check(o.pem.as_bytes(), b"message", &signature));
    assert!(!check(text.as_bytes(), b"message", &signature));
    assert!(!check(text.as_bytes(), b"message", &signature));
}

#[test]
fn no_pass_phrase_is_offered() {
    let mut buffer = [7u8; 8];
    assert!(matches!(no_pass_phrase(&mut buffer), Ok(0)));
    assert_eq!(buffer, [7u8; 8]);
    let mut none: [u8; 0] = [];
    assert!(matches!(no_pass_phrase(&mut none), Ok(0)));
}

#[test]
fn transfer_block_keeps_wallets_and_totals_accepted_or_not() {
    let (mut bank, w1, w2) = two_wallets();
    let before = (bank.len(), bank.total(1), bank.total(2));
    bank.do_block(&transfer(&w1, &w1.id, &w2.id, 1, 30)).unwrap();
    assert_eq!((bank.len(), bank.total(1), bank.total(2)), before);
    assert!(bank.do_block(&transfer(&w1, &w1.id, &w2.id, 1, 1000)).is_err());
    assert_eq!((bank.len(), bank.total(1), bank.total(2)), before);
    assert_eq!(bank.wallet(0).hash, w1.id);
    assert_eq!(bank.wallet(1).hash, w2.id);
}

#[test]
fn only_a_clear_yes_is_accepted() {
    assert!(accepted(Some(true)));
    assert!(!accepted(Some(false)));
    assert!(!accepted(None));
}

#[test]
fn new_wallet_holds_nothing() {
    let w = Wallet::new(ByteHash::new(), vec![1, 2, 3]);
    assert_eq!(w.hash, ByteHash::new());
    assert_eq!(w.pubkey, vec![1, 2, 3]);
    assert_eq!(w.balance(1), 0);
    assert_eq!(w.balance(0), 0);
    assert_eq!(w.balance(u64::MAX), 0);
}

#[test]
fn wallet_add_and_deduct() {
    let mut w = Wallet::new(ByteHash::new(), Vec::new());
    w.add(7, 50);
    w.add(7, 25);
    w.add(8, 1);
    assert_eq!(w.balance(7), 75);
    assert_eq!(w.balance(8), 1);
    assert_eq!(w.deduct(7, 30), Ok(()));
    assert_eq!(w.balance(7), 45);
    assert_eq!(w.deduct(7, 45), Ok(()));
    assert_eq!(w.balance(7), 0);
    assert_eq!(w.balance(8), 1);
}

#[test]
fn wallet_deduct_more_than_held() {
    let mut w = Wallet::new(ByteHash::new(), Vec::new());
    w.add(7, 50);
    assert_eq!(w.deduct(7, 51), Err(BankError::InsufficientCurrency));
    assert_eq!(w.balance(7), 50);
    assert_eq!(w.deduct(9, 1), Err(BankError::InsufficientCurrency));
    assert_eq!(w.balance(9), 0);
}

#[test]
fn wallet_deduct_nothing_from_nothing() {
    let mut w = Wallet::new(ByteHash::new(), Vec::new());
    assert_eq!(w.deduct(9, 0), Ok(()));
    assert_eq!(w.balance(9), 0);
}

#[test]
fn wallet_holds_more_than_64_bits() {
    let mut w = Wallet::new(ByteHash::new(), Vec::new());
    w.add(1, u64::MAX);
    w.add(1, u64::MAX);
    assert_eq!(w.balance(1), 2 * (u64::MAX as u128));
}

#[test]
fn cloned_wallet_is_independent() {
    let mut w = Wallet::new(ByteHash::new(), vec![4]);
    w.add(1, 10);
    let mut c = w.clone();
    c.add(1, 5);
    assert_eq!(w.balance(1), 10);
    assert_eq!(c.balance(1), 15);
    assert_eq!(c.pubkey, vec![4]);
}

#[test]
fn new_ledger_is_empty() {
    let bank = Bank::new();
    assert_eq!(bank.len(), 0);
    assert_eq!(bank.total(1), 0);
    assert!(matches!(bank.get_wallet(ByteHash::new()), Err(BankError::WalletNotFound)));
}

#[test]
fn register_funds_the_wallet() {
    let mut bank = Bank::new();
    let id = ByteHash::from_bytes([1u8; 32]);
    assert_eq!(bank.register(id, vec![9, 9]), Ok(()));
    assert_eq!(bank.len(), 1);
    let w = bank.get_wallet(id).unwrap();
    assert_eq!(w.hash, id);
    assert_eq!(w.pubkey, vec![9, 9]);
    assert_eq!(w.balance(1), 100);
    assert_eq!(w.balance(2), 0);
    assert_eq!(bank.total(1), 100);
    assert_eq!(bank.total(2), 0);
}

#[test]
fn register_twice_is_a_duplicate() {
    let mut bank = Bank::new();
    let id = ByteHash::from_bytes([1u8; 32]);
    bank.register(id, vec![9]).unwrap();
    assert_eq!(bank.register(id, vec![8]), Err(BankError::WalletDuplicate));
    assert_eq!(bank.len(), 1);
    assert_eq!(bank.get_wallet(id).unwrap().pubkey, vec![9]);
    assert_eq!(bank.total(1), 100);
}

#[test]
fn unregister_removes_the_wallet() {
    let mut bank = Bank::new();
    let a = ByteHash::from_bytes([1u8; 32]);
    let b = ByteHash::from_bytes([2u8; 32]);
    let c = ByteHash::from_bytes([3u8; 32]);
    bank.register(a, vec![1]).unwrap();
    bank.register(b, vec![2]).unwrap();
    bank.register(c, vec![3]).unwrap();
    assert_eq!(bank.unregister(&b), Ok(()));
    assert_eq!(bank.len(), 2);
    assert!(matches!(bank.get_wallet(b), Err(BankError::WalletNotFound)));
    assert_eq!(bank.get_wallet(a).unwrap().pubkey, vec![1]);
    assert_eq!(bank.get_wallet(c).unwrap().pubkey, vec![3]);
    assert_eq!(bank.total(1), 200);
    assert_eq!(bank.unregister(&b), Err(BankError::WalletNotFound));
    assert_eq!(bank.len(), 2);
}

#[test]
fn transfer_moves_the_amount() {
    let mut bank = Bank::new();
    let a = ByteHash::from_bytes([1u8; 32]);
    let b = ByteHash::from_bytes([2u8; 32]);
    bank.register(a, vec![1]).unwrap();
    bank.register(b, vec![2]).unwrap();
    assert_eq!(bank.transfer(&a, &b, 1, 30, true, false), Ok(()));
    assert_eq!(held(&bank, &a, 1), 70);
    assert_eq!(held(&bank, &b, 1), 130);
    assert_eq!(bank.total(1), 200);
}

#[test]
fn transfer_rolled_back_moves_the_amount_back() {
    let mut bank = Bank::new();
    let a = ByteHash::from_bytes([1u8; 32]);
    let b = ByteHash::from_bytes([2u8; 32]);
    bank.register(a, vec![1]).unwrap();
    bank.register(b, vec![2]).unwrap();
    bank.transfer(&a, &b, 1, 100, true, false).unwrap();
    assert_eq!(held(&bank, &a, 1), 0);
    assert_eq!(held(&bank, &b, 1), 200);
    assert_eq!(bank.transfer(&a, &b, 1, 100, true, true), Ok(()));
    assert_eq!(held(&bank, &a, 1), 100);
    assert_eq!(held(&bank, &b, 1), 100);
}

#[test]
fn transfer_tests_wallets_before_signature_before_balance() {
    let mut bank = Bank::new();
    let a = ByteHash::from_bytes([1u8; 32]);
    let b = ByteHash::from_bytes([2u8; 32]);
    let nobody = ByteHash::from_bytes([3u8; 32]);
    bank.register(a, vec![1]).unwrap();
    bank.register(b, vec![2]).unwrap();
    assert_eq!(bank.transfer(&nobody, &b, 1, 1000, false, false), Err(BankError::WalletNotFound));
    assert_eq!(bank.transfer(&a, &nobody, 1, 1000, false, false), Err(BankError::WalletNotFound));
    assert_eq!(bank.transfer(&a, &b, 1, 1000, false, false), Err(BankError::SignatureInvalid));
    assert_eq!(bank.transfer(&a, &b, 1, 1000, true, false), Err(BankError::InsufficientCurrency));
    assert_eq!(bank.transfer(&a, &b, 1, 101, true, false), Err(BankError::InsufficientCurrency));
    assert_eq!(bank.transfer(&a, &b, 2, 1, true, false), Err(BankError::InsufficientCurrency));
    assert_eq!(held(&bank, &a, 1), 100);
    assert_eq!(held(&bank, &b, 1), 100);
}

#[test]
fn transfer_rolled_back_wants_the_receiver_to_hold_the_amount() {
    let mut bank = Bank::new();
    let a = ByteHash::from_bytes([1u8; 32]);
    let b = ByteHash::from_bytes([2u8; 32]);
    bank.register(a, vec![1]).unwrap();
    bank.register(b, vec![2]).unwrap();
    assert_eq!(bank.transfer(&a, &b, 1, 101, true, true), Err(BankError::InsufficientCurrency));
    assert_eq!(bank.transfer(&a, &b, 1, 100, true, true), Ok(()));
    assert_eq!(held(&bank, &a, 1), 200);
    assert_eq!(held(&bank, &b, 1), 0);
}

#[test]
fn transfer_to_oneself_and_of_nothing() {
    let mut bank = Bank::new();
    let a = ByteHash::from_bytes([1u8; 32]);
    let b = ByteHash::from_bytes([2u8; 32]);
    bank.register(a, vec![1]).unwrap();
    bank.register(b, vec![2]).unwrap();
    assert_eq!(bank.transfer(&a, &a, 1, 100, true, false), Ok(()));
    assert_eq!(held(&bank, &a, 1), 100);
    assert_eq!(bank.transfer(&a, &a, 1, 101, true, false), Err(BankError::InsufficientCurrency));
    assert_eq!(bank.transfer(&a, &b, 5, 0, true, false), Ok(()));
    assert_eq!(held(&bank, &a, 5), 0);
    assert_eq!(held(&bank, &b, 5), 0);
    assert_eq!(bank.total(1), 200);
}

#[test]
fn empty_block_changes_nothing() {
    let (mut bank, a, b) = two_wallets();
    let mut block = Block::new(ByteHash::new(), BlockData::Empty);
    block.update_nonce(0);
    assert_eq!(bank.do_block(&block), Ok(()));
    assert_eq!(bank.undo_block(&block), Ok(()));
    assert_eq!(bank.len(), 2);
    assert_eq!(held(&bank, &a.id, 1), 100);
    assert_eq!(held(&bank, &b.id, 1), 100);
}

#[test]
fn registration_block_registers_under_the_hash_of_the_key() {
    let o = owner();
    let mut bank = Bank::new();
    assert_eq!(bank.do_block(&registration(&o)), Ok(()));
    let w = bank.get_wallet(o.id).unwrap();
    assert_eq!(w.pubkey, o.pem.as_bytes().to_vec());
    assert_eq!(w.balance(1), 100);
    assert_eq!(bank.do_block(&registration(&o)), Err(BankError::WalletDuplicate));
    assert_eq!(bank.len(), 1);
}

#[test]
fn registration_rolled_back_removes_the_wallet() {
    let o = owner();
    let mut bank = Bank::new();
    assert_eq!(bank.undo_block(&registration(&o)), Err(BankError::WalletNotFound));
    bank.do_block(&registration(&o)).unwrap();
    assert_eq!(bank.undo_block(&registration(&o)), Ok(()));
    assert_eq!(bank.len(), 0);
    assert!(matches!(bank.get_wallet(o.id), Err(BankError::WalletNotFound)));
}

#[test]
fn scenario_transfer_of_30_leaves_70_and_130() {
    let (mut bank, w1, w2) = two_wallets();
    assert_eq!(held(&bank, &w1.id, 1), 100);
    assert_eq!(bank.do_block(&transfer(&w1, &w1.id, &w2.id, 1, 30)), Ok(()));
    assert_eq!(held(&bank, &w1.id, 1), 70);
    assert_eq!(held(&bank, &w2.id, 1), 130);
    assert_eq!(held(&bank, &w1.id, 1) + held(&bank, &w2.id, 1), 200);
    assert_eq!(bank.total(1), 200);
}

#[test]
fn scenario_transfer_of_30_to_a_wallet_that_holds_nothing() {
    let (mut bank, w1, w2) = two_wallets();
    let w3 = owner();
    bank.do_block(&registration(&w3)).unwrap();
    bank.do_block(&transfer(&w2, &w2.id, &w3.id, 1, 100)).unwrap();
    assert_eq!(held(&bank, &w1.id, 1), 100);
    assert_eq!(held(&bank, &w2.id, 1), 0);
    assert_eq!(bank.do_block(&transfer(&w1, &w1.id, &w2.id, 1, 30)), Ok(()));
    assert_eq!(held(&bank, &w1.id, 1), 70);
    assert_eq!(held(&bank, &w2.id, 1), 30);
    assert_eq!(held(&bank, &w1.id, 1) + held(&bank, &w2.id, 1), 100);
    assert_eq!(bank.total(1), 300);
}

#[test]
fn scenario_unknown_sender_changes_nothing() {
    let (mut bank, w1, w2) = two_wallets();
    let stranger = owner();
    let block = transfer(&stranger, &stranger.id, &w2.id, 1, 30);
    assert_eq!(bank.do_block(&block), Err(BankError::WalletNotFound));
    assert_eq!(bank.len(), 2);
    assert_eq!(held(&bank, &w1.id, 1), 100);
    assert_eq!(held(&bank, &w2.id, 1), 100);
    assert_eq!(held(&bank, &w1.id, 2), 0);
    assert_eq!(bank.total(1), 200);
    assert!(matches!(bank.get_wallet(stranger.id), Err(BankError::WalletNotFound)));
}

#[test]
fn transfer_block_to_an_unknown_receiver() {
    let (mut bank, w1, _w2) = two_wallets();
    let stranger = owner();
    let block = transfer(&w1, &w1.id, &stranger.id, 1, 30);
    assert_eq!(bank.do_block(&block), Err(BankError::WalletNotFound));
    assert_eq!(held(&bank, &w1.id, 1), 100);
}

#[test]
fn transfer_block_naming_no_identifier() {
    let (mut bank, w1, w2) = two_wallets();
    let data = BlockData::Transaction(TransactionData {
        from: String::from("not hexadecimal"),
        to: w2.id.to_hex(),
        currency: 1,
        amount: 1,
    });
    let mut block = Block::new(ByteHash::new(), data);
    block.signature = hex::encode(sign(&w1.key, &block.data.to_bytes()));
    assert_eq!(bank.do_block(&block), Err(BankError::WalletNotFound));
    let short = BlockData::Transaction(TransactionData {
        from: w1.id.to_hex(),
        to: String::from("00ff"),
        currency: 1,
        amount: 1,
    });
    let mut block = Block::new(ByteHash::new(), short);
    block.signature = hex::encode(sign(&w1.key, &block.data.to_bytes()));
    assert_eq!(bank.do_block(&block), Err(BankError::WalletNotFound));
    assert_eq!(bank.total(1), 200);
}

#[test]
fn transfer_block_signed_by_the_receiver_is_invalid() {
    let (mut bank, w1, w2) = two_wallets();
    let block = transfer(&w2, &w1.id, &w2.id, 1, 30);
    assert_eq!(bank.do_block(&block), Err(BankError::SignatureInvalid));
    assert_eq!(held(&bank, &w1.id, 1), 100);
    assert_eq!(held(&bank, &w2.id, 1), 100);
}

#[test]
fn transfer_block_without_or_with_malformed_signature_is_invalid() {
    let (mut bank, w1, w2) = two_wallets();
    let mut block = Block::new(ByteHash::new(), payment(&w1.id, &w2.id, 1, 30));
    assert_eq!(bank.do_block(&block), Err(BankError::SignatureInvalid));
    block.signature = String::from("xyz");
    assert_eq!(bank.do_block(&block), Err(BankError::SignatureInvalid));
    block.signature = String::from("00ff");
    assert_eq!(bank.do_block(&block), Err(BankError::SignatureInvalid));
    assert_eq!(held(&bank, &w1.id, 1), 100);
}

#[test]
fn transfer_block_with_signature_over_another_amount_is_invalid() {
    let (mut bank, w1, w2) = two_wallets();
    let signed = transfer(&w1, &w1.id, &w2.id, 1, 30);
    let mut block = Block::new(ByteHash::new(), payment(&w1.id, &w2.id, 1, 31));
    block.signature = signed.signature.clone();
    assert_eq!(bank.do_block(&block), Err(BankError::SignatureInvalid));
    assert_eq!(held(&bank, &w2.id, 1), 100);
}

#[test]
fn transfer_block_of_more_than_the_sender_holds() {
    let (mut bank, w1, w2) = two_wallets();
    assert_eq!(
        bank.do_block(&transfer(&w1, &w1.id, &w2.id, 1, 101)),
        Err(BankError::InsufficientCurrency)
    );
    assert_eq!(
        bank.do_block(&transfer(&w1, &w1.id, &w2.id, 2, 1)),
        Err(BankError::InsufficientCurrency)
    );
    assert_eq!(bank.do_block(&transfer(&w1, &w1.id, &w2.id, 1, 100)), Ok(()));
    assert_eq!(held(&bank, &w1.id, 1), 0);
    assert_eq!(held(&bank, &w2.id, 1), 200);
}

#[test]
fn rollback_undoes_apply() {
    let (mut bank, w1, w2) = two_wallets();
    let block = transfer(&w1, &w1.id, &w2.id, 1, 30);
    bank.do_block(&block).unwrap();
    assert_eq!(bank.undo_block(&block), Ok(()));
    assert_eq!(held(&bank, &w1.id, 1), 100);
    assert_eq!(held(&bank, &w2.id, 1), 100);
    assert_eq!(bank.len(), 2);
}

#[test]
fn rollback_of_a_transfer_that_was_never_applied() {
    let (mut bank, w1, w2) = two_wallets();
    let block = transfer(&w1, &w1.id, &w2.id, 1, 130);
    assert_eq!(bank.undo_block(&block), Err(BankError::InsufficientCurrency));
    let unsigned = Block::new(ByteHash::new(), payment(&w1.id, &w2.id, 1, 30));
    assert_eq!(bank.undo_block(&unsigned), Err(BankError::SignatureInvalid));
    assert_eq!(held(&bank, &w1.id, 1), 100);
    assert_eq!(held(&bank, &w2.id, 1), 100);
}

#[test]
fn transfers_conserve_and_registrations_add_funding() {
    let (mut bank, w1, w2) = two_wallets();
    assert_eq!(bank.total(1), 200);
    bank.do_block(&transfer(&w1, &w1.id, &w2.id, 1, 30)).unwrap();
    assert_eq!(bank.total(1), 200);
    bank.do_block(&transfer(&w2, &w2.id, &w1.id, 1, 115)).unwrap();
    assert_eq!(bank.total(1), 200);
    assert_eq!(held(&bank, &w1.id, 1), 185);
    assert_eq!(held(&bank, &w2.id, 1), 15);
    let w3 = owner();
    bank.do_block(&registration(&w3)).unwrap();
    assert_eq!(bank.total(1), 300);
    assert_eq!(bank.total(2), 0);
}

#[test]
fn cloned_ledger_is_independent() {
    let (mut bank, w1, w2) = two_wallets();
    let copy = bank.clone();
    bank.do_block(&transfer(&w1, &w1.id, &w2.id, 1, 30)).unwrap();
    assert_eq!(held(&copy, &w1.id, 1), 100);
    assert_eq!(held(&copy, &w2.id, 1), 100);
    assert_eq!(held(&bank, &w1.id, 1), 70);
    assert_eq!(copy.len(), 2);
}
