use openssl::hash::MessageDigest;
use openssl::pkey::{PKey, Private};
use openssl::rsa::Rsa;
use openssl::sign::Signer;
use rschain::block::Block;
use rschain::block_data::{BlockData, TransactionData, WalletData};
use rschain::hash::{ByteHash, Hashable};
use rschain::miner::{deadline_passed, mine_block, next_attempt, MiningError};
use rschain::shard::{Shard, ShardError};

struct Owner {
    key: PKey<Private>,
    pem: String,
    id: ByteHash,
}

fn owner() -> Owner {
    let rsa = Rsa::generate(1024).unwrap();
    let pem = String::from_utf8(rsa.public_key_to_pem().unwrap()).unwrap();
    let id = WalletData { pubkey: pem.clone() }.hash();
    Owner { key: PKey::from_rsa(rsa).unwrap(), pem, id }
}

fn sealed(prev: ByteHash, nonce: u64) -> Block {
    let mut b = Block::new(prev, BlockData::Empty);
    b.update_nonce(nonce);
    b
}

fn registration(prev: ByteHash, o: &Owner) -> Block {
    let mut b = Block::new(prev, BlockData::Wallet(WalletData { pubkey: o.pem.clone() }));
    b.update_nonce(0);
    b
}

fn transfer(prev: ByteHash, from: &Owner, to: &Owner, amount: u64) -> Block {
    let data = BlockData::Transaction(TransactionData {
        from: from.id.to_hex(),
        to: to.id.to_hex(),
        currency: 1,
        amount,
    });
    let mut signer = Signer::new(MessageDigest::sha256(), &from.key).unwrap();
    signer.update(&data.to_bytes()).unwrap();
    let mut b = Block::new(prev, data);
    b.signature = hex::encode(signer.sign_to_vec().unwrap());
    b.update_nonce(0);
    b
}

fn lengths(shard: &Shard) -> Vec<usize> {
    (0..shard.len()).map(|i| shard.chain(i).len()).collect()
}

fn tips(shard: &Shard) -> Vec<ByteHash> {
    (0..shard.len()).map(|i| shard.chain(i).last_block().hash).collect()
}

/// Pushes a run of empty blocks, each on top of the one before, and gives
/// the identifier of the last.
fn extend(shard: &mut Shard, mut tip: ByteHash, count: usize, nonce: u64) -> ByteHash {
    for _ in 0..count {
        let b = sealed(tip, nonce);
        tip = b.hash;
        shard.push(b).unwrap();
    }
    tip
}

#[test]
fn new_shard_has_one_empty_branch_and_no_leader() {
    let shard = Shard::new();
    assert_eq!(shard.len(), 1);
    assert_eq!(shard.chain(0).len(), 0);
    assert_eq!(shard.leader(), None);
    assert_eq!(shard.difficulty(), 0);
    assert_eq!(shard.cleanup_threshold(), 3);
}

#[test]
fn shard_with_config() {
    let shard = Shard::with_config(2, 7);
    assert_eq!(shard.len(), 1);
    assert_eq!(shard.leader(), None);
    assert_eq!(shard.difficulty(), 2);
    assert_eq!(shard.cleanup_threshold(), 7);
}

#[test]
fn first_block_goes_into_the_empty_branch() {
    let mut shard = Shard::new();
    let b = sealed(ByteHash::from_bytes([7u8; 32]), 0);
    let id = b.hash;
    assert_eq!(shard.push(b), Ok(()));
    assert_eq!(lengths(&shard), vec![1]);
    assert_eq!(shard.leader(), Some(0));
    assert!(shard.knows(&id));
    assert!(!shard.knows(&ByteHash::new()));
}

#[test]
fn block_on_the_tip_extends_the_branch() {
    let mut shard = Shard::new();
    let tip = extend(&mut shard, ByteHash::new(), 3, 0);
    assert_eq!(lengths(&shard), vec![3]);
    assert_eq!(tips(&shard), vec![tip]);
    assert_eq!(shard.leader(), Some(0));
}

#[test]
fn same_block_twice_is_a_duplicate_and_changes_nothing() {
    let mut shard = Shard::new();
    let tip = extend(&mut shard, ByteHash::new(), 2, 0);
    let b = sealed(tip, 0);
    assert_eq!(shard.push(b.clone()), Ok(()));
    let before = (lengths(&shard), tips(&shard), shard.leader());
    assert_eq!(shard.push(b.clone()), Err(ShardError::Duplicate));
    assert_eq!((lengths(&shard), tips(&shard), shard.leader()), before);
    assert_eq!(shard.push(b), Err(ShardError::Duplicate));
    assert_eq!((lengths(&shard), tips(&shard), shard.leader()), before);
}

#[test]
fn block_with_a_known_identifier_is_a_duplicate_whatever_it_holds() {
    let mut shard = Shard::new();
    let first = sealed(ByteHash::new(), 0);
    let id = first.hash;
    shard.push(first).unwrap();
    let mut other = Block::new(id, BlockData::Empty);
    other.hash = id;
    assert_eq!(shard.push(other), Err(ShardError::Duplicate));
    assert_eq!(lengths(&shard), vec![1]);
}

#[test]
fn block_short_of_the_difficulty_is_refused() {
    let mut shard = Shard::with_config(1, 3);
    let mut nonce = 0;
    let mut b = sealed(ByteHash::new(), nonce);
    while b.hash.index(0) == 0 {
        nonce += 1;
        b = sealed(ByteHash::new(), nonce);
    }
    assert!(!shard.check_difficulty(&b));
    assert_eq!(shard.push(b), Err(ShardError::Difficulty));
    assert_eq!(lengths(&shard), vec![0]);
    assert_eq!(shard.leader(), None);
}

#[test]
fn duplicate_is_tested_before_difficulty() {
    let mut shard = Shard::new();
    let b = sealed(ByteHash::new(), 0);
    shard.push(b.clone()).unwrap();
    assert_eq!(shard.push(b), Err(ShardError::Duplicate));
}

#[test]
fn block_without_attach_point_is_rejected_and_changes_nothing() {
    let mut shard = Shard::new();
    extend(&mut shard, ByteHash::new(), 2, 0);
    let before = (lengths(&shard), tips(&shard), shard.leader());
    let stray = sealed(ByteHash::from_bytes([0xee; 32]), 0);
    assert_eq!(shard.push(stray), Err(ShardError::Rejected));
    assert_eq!((lengths(&shard), tips(&shard), shard.leader()), before);
}

#[test]
fn block_refused_by_the_ledger_is_rejected() {
    let mut shard = Shard::new();
    let tip = extend(&mut shard, ByteHash::new(), 1, 0);
    let a = owner();
    let b = owner();
    let block = transfer(tip, &a, &b, 1);
    assert_eq!(shard.push(block), Err(ShardError::Rejected));
    assert_eq!(lengths(&shard), vec![1]);
    assert_eq!(shard.leader(), Some(0));
}

#[test]
fn scenario_two_extensions_of_one_tip_make_two_branches() {
    let mut shard = Shard::new();
    let tip = extend(&mut shard, ByteHash::new(), 2, 0);
    let b3a = sealed(tip, 0);
    let b3b = sealed(tip, 1);
    let (id_a, id_b) = (b3a.hash, b3b.hash);
    assert_eq!(shard.push(b3a), Ok(()));
    assert_eq!(shard.push(b3b), Ok(()));
    assert_eq!(lengths(&shard), vec![3, 3]);
    assert_eq!(tips(&shard), vec![id_a, id_b]);
    assert!(shard.chain(0).contains(&id_a) && !shard.chain(0).contains(&id_b));
    assert!(shard.chain(1).contains(&id_b) && !shard.chain(1).contains(&id_a));
    assert_eq!(shard.chain(1).block(1).hash, tip);
    assert_eq!(shard.leader(), Some(0));

    let b4a = sealed(id_a, 0);
    let id_4a = b4a.hash;
    assert_eq!(shard.push(b4a), Ok(()));
    assert_eq!(lengths(&shard), vec![4, 3]);
    assert_eq!(tips(&shard), vec![id_4a, id_b]);
    assert_eq!(shard.leader(), Some(0));

    let tip_a = extend(&mut shard, id_4a, 2, 0);
    assert_eq!(lengths(&shard), vec![6, 3]);
    extend(&mut shard, tip_a, 1, 0);
    assert_eq!(lengths(&shard), vec![7]);
    assert_eq!(shard.leader(), Some(0));
    assert!(!shard.knows(&id_b));
}

#[test]
fn leader_moves_to_the_branch_that_grows_longer() {
    let mut shard = Shard::new();
    let tip = extend(&mut shard, ByteHash::new(), 1, 0);
    let a = sealed(tip, 0);
    let b = sealed(tip, 1);
    let id_b = b.hash;
    shard.push(a).unwrap();
    shard.push(b).unwrap();
    assert_eq!(shard.leader(), Some(0));
    extend(&mut shard, id_b, 1, 0);
    assert_eq!(lengths(&shard), vec![2, 3]);
    assert_eq!(shard.leader(), Some(1));
}

#[test]
fn leader_follows_when_branches_before_it_are_evicted() {
    let mut shard = Shard::with_config(0, 1);
    let tip = extend(&mut shard, ByteHash::new(), 1, 0);
    let a = sealed(tip, 0);
    let b = sealed(tip, 1);
    let id_b = b.hash;
    shard.push(a).unwrap();
    shard.push(b).unwrap();
    assert_eq!(lengths(&shard), vec![2, 2]);
    let tip_b = extend(&mut shard, id_b, 1, 0);
    assert_eq!(lengths(&shard), vec![2, 3]);
    assert_eq!(shard.leader(), Some(1));
    let tip_b = extend(&mut shard, tip_b, 1, 0);
    assert_eq!(lengths(&shard), vec![4]);
    assert_eq!(tips(&shard), vec![tip_b]);
    assert_eq!(shard.leader(), Some(0));
}

#[test]
fn threshold_zero_keeps_only_the_longest() {
    let mut shard = Shard::with_config(0, 0);
    let tip = extend(&mut shard, ByteHash::new(), 2, 0);
    let a = sealed(tip, 0);
    let b = sealed(tip, 1);
    let id_a = a.hash;
    shard.push(a).unwrap();
    shard.push(b).unwrap();
    assert_eq!(lengths(&shard), vec![3, 3]);
    extend(&mut shard, id_a, 1, 0);
    assert_eq!(lengths(&shard), vec![4]);
}

#[test]
fn fork_that_is_stale_at_once_is_evicted_in_the_same_push() {
    let mut shard = Shard::with_config(0, 1);
    let first = sealed(ByteHash::new(), 0);
    let root = first.hash;
    shard.push(first).unwrap();
    extend(&mut shard, root, 4, 0);
    assert_eq!(lengths(&shard), vec![5]);
    let late = sealed(root, 1);
    let id = late.hash;
    assert_eq!(shard.push(late.clone()), Ok(()));
    assert_eq!(lengths(&shard), vec![5]);
    assert!(!shard.knows(&id));
    assert_eq!(shard.push(late), Ok(()));
    assert_eq!(lengths(&shard), vec![5]);
}

#[test]
fn branches_keep_their_own_ledgers() {
    let mut shard = Shard::new();
    let a = owner();
    let b = owner();
    let r1 = registration(ByteHash::new(), &a);
    let r2 = registration(r1.hash, &b);
    let pay_1 = transfer(r2.hash, &a, &b, 30);
    let pay_2 = transfer(r2.hash, &b, &a, 50);
    shard.push(r1).unwrap();
    shard.push(r2).unwrap();
    shard.push(pay_1).unwrap();
    shard.push(pay_2).unwrap();
    assert_eq!(lengths(&shard), vec![3, 3]);
    let first = shard.chain(0).bank();
    let second = shard.chain(1).bank();
    assert_eq!(first.get_wallet(a.id).unwrap().balance(1), 70);
    assert_eq!(first.get_wallet(b.id).unwrap().balance(1), 130);
    assert_eq!(second.get_wallet(a.id).unwrap().balance(1), 150);
    assert_eq!(second.get_wallet(b.id).unwrap().balance(1), 50);
    assert_eq!(first.total(1), 200);
    assert_eq!(second.total(1), 200);
}

#[test]
fn block_taken_by_one_branch_and_refused_by_another() {
    let mut shard = Shard::new();
    let a = owner();
    let b = owner();
    let r1 = registration(ByteHash::new(), &a);
    let r2 = registration(r1.hash, &b);
    let r2_id = r2.hash;
    let drain = transfer(r2_id, &a, &b, 100);
    let keep = sealed(r2_id, 1);
    let keep_id = keep.hash;
    shard.push(r1).unwrap();
    shard.push(r2).unwrap();
    shard.push(drain).unwrap();
    shard.push(keep).unwrap();
    assert_eq!(lengths(&shard), vec![3, 3]);
    let spend = transfer(keep_id, &a, &b, 10);
    let spend_id = spend.hash;
    assert_eq!(shard.push(spend), Ok(()));
    assert_eq!(lengths(&shard), vec![3, 4]);
    assert!(shard.chain(1).contains(&spend_id));
    assert_eq!(shard.leader(), Some(1));
}

#[test]
fn deadline_is_five_seconds() {
    assert!(!deadline_passed(0));
    assert!(!deadline_passed(4_999_999_999));
    assert!(!deadline_passed(5_000_000_000));
    assert!(deadline_passed(5_000_000_001));
    assert!(deadline_passed(6_000_000_000));
    assert!(deadline_passed(u128::MAX));
}

#[test]
fn next_attempt_follows_until_time_or_nonces_run_out() {
    assert_eq!(next_attempt(0, 0), Some(1));
    assert_eq!(next_attempt(41, 5_000_000_000), Some(42));
    assert_eq!(next_attempt(41, 5_000_000_001), None);
    assert_eq!(next_attempt(u64::MAX - 1, 0), Some(u64::MAX));
    assert_eq!(next_attempt(u64::MAX, 0), None);
    assert_eq!(next_attempt(u64::MAX, 9_000_000_000), None);
}

#[test]
fn block_that_was_never_mined_does_not_pass_for_work() {
    let mut shard = Shard::with_config(32, 3);
    let block = Block::new(ByteHash::new(), BlockData::Empty);
    assert!(!shard.check_difficulty(&block));
    assert_eq!(shard.push(block), Err(ShardError::Difficulty));
    assert_eq!(lengths(&shard), vec![0]);
}

#[test]
fn payment_naming_a_block_before_the_receiver_is_registered_is_rejected() {
    let mut shard = Shard::new();
    let a = owner();
    let b = owner();
    let genesis = sealed(ByteHash::new(), 0);
    let r1 = registration(genesis.hash, &a);
    let r2 = registration(r1.hash, &b);
    let payment = transfer(r1.hash, &a, &b, 1);
    shard.push(genesis).unwrap();
    shard.push(r1).unwrap();
    shard.push(r2).unwrap();
    assert_eq!(shard.push(payment), Err(ShardError::Rejected));
    assert_eq!(lengths(&shard), vec![3]);
    assert_eq!(shard.leader(), Some(0));
}

#[test]
fn block_that_extends_the_only_longest_branch_leads_and_evicts() {
    let mut shard = Shard::with_config(0, 2);
    let root = extend(&mut shard, ByteHash::new(), 1, 0);
    let short = sealed(root, 1);
    let short_id = short.hash;
    let tip = extend(&mut shard, root, 2, 0);
    shard.push(short).unwrap();
    assert_eq!(lengths(&shard), vec![3, 2]);
    let tip = extend(&mut shard, tip, 1, 0);
    assert_eq!(lengths(&shard), vec![4, 2]);
    assert!(shard.knows(&short_id));
    extend(&mut shard, tip, 1, 0);
    assert_eq!(lengths(&shard), vec![5]);
    assert!(!shard.knows(&short_id));
    assert_eq!(shard.leader(), Some(0));
}

#[test]
fn mining_without_difficulty_takes_nonce_zero() {
    let shard = Shard::new();
    let given = Block::new(ByteHash::from_bytes([3u8; 32]), BlockData::Empty);
    let mined = mine_block(&shard, given).unwrap();
    assert_eq!(mined.nonce, 0);
    assert_eq!(mined.hash, mined.hash());
    assert_eq!(mined.previous_hash, ByteHash::from_bytes([3u8; 32]));
}

#[test]
fn mined_block_meets_the_difficulty_with_the_least_nonce() {
    let shard = Shard::with_config(1, 3);
    let mut given = Block::new(ByteHash::from_bytes([3u8; 32]), BlockData::Empty);
    given.signature = String::from("0a");
    match mine_block(&shard, given) {
        Ok(mined) => {
            assert_eq!(mined.hash.index(0), 0);
            assert!(shard.check_difficulty(&mined));
            assert_eq!(mined.hash, mined.hash());
            assert_eq!(mined.signature, "0a");
            assert_eq!(mined.previous_hash, ByteHash::from_bytes([3u8; 32]));
            for nonce in 0..mined.nonce {
                assert!(!shard.check_difficulty(&sealed(ByteHash::from_bytes([3u8; 32]), nonce)));
            }
        }
        Err(e) => assert_eq!(e, MiningError::MaxTimeExceeded),
    }
}

#[test]
fn mining_gives_up_when_the_time_is_over() {
    let shard = Shard::with_config(33, 3);
    let given = Block::new(ByteHash::new(), BlockData::Empty);
    assert_eq!(mine_block(&shard, given).err(), Some(MiningError::MaxTimeExceeded));
}

#[test]
fn mined_blocks_are_accepted_by_the_shard() {
    let mut shard = Shard::with_config(1, 3);
    let first = mine_block(&shard, Block::new(ByteHash::new(), BlockData::Empty)).unwrap();
    let id = first.hash;
    assert_eq!(shard.push(first), Ok(()));
    let o = owner();
    let data = BlockData::Wallet(WalletData { pubkey: o.pem.clone() });
    let second = mine_block(&shard, Block::new(id, data)).unwrap();
    assert_eq!(shard.push(second), Ok(()));
    assert_eq!(lengths(&shard), vec![2]);
    assert_eq!(shard.chain(0).bank().get_wallet(o.id).unwrap().balance(1), 100);
}
