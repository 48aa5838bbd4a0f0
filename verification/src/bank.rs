//! The bank of one branch: wallets and their balances in memory, changed by
//! applying a block or by rolling one back.

use crate::block::Block;
use crate::block_data::{
    wallet_id, BlockData, Payload, TransactionData, WalletData, BOOTSTRAP_AMOUNT,
    BOOTSTRAP_CURRENCY,
};
use crate::hash::{ByteHash, Hashable};
use crate::hexcode::decode;
use crate::ledger::{
    applied, credited, debited, distinct_ids, fresh_wallet, funded_once, has_room, has_wallet,
    lemma_moved_keeps_wallets, lemma_moved_total, lemma_total_bounds, lemma_total_prefix,
    lemma_total_push, lemma_total_remove, lemma_total_update, lemma_wallet_index, minted, moved,
    no_balances, outcome, processed, registered, rolled_back, same_totals, same_wallets, total,
    transferred, unregistered, wallet_index, well_formed, within_limits, LedgerView, WalletView,
};
use crate::signature::check;
use std::collections::HashMap;
use vstd::prelude::*;
use vstd::slice::slice_to_vec;
use vstd::utf8::encode_utf8;

verus! {

/// Why the ledger refused a block.
#[derive(Clone, Copy, Debug, PartialEq, Eq, Structural)]
pub enum BankError {
    /// A wallet that the block names is not in the ledger.
    WalletNotFound,
    /// The wallet that the block registers is in the ledger already.
    WalletDuplicate,
    /// The block's signature is missing, malformed, or not the sender's
    /// signature over the payload.
    SignatureInvalid,
    /// The wallet that is to pay holds less than the amount.
    InsufficientCurrency,
}

/// A wallet: an identifier, a public key, and what it holds in each currency.
#[derive(Debug)]
pub struct Wallet {
    pub hash: ByteHash,
    pub pubkey: Vec<u8>,
    pub accounts: HashMap<u64, u128>,
}

impl View for Wallet {
    type V = WalletView;

    open spec fn view(&self) -> WalletView {
        WalletView {
            id: self.hash@,
            pubkey: self.pubkey@,
            balances: Map::new(
                |c: u64| true,
                |c: u64|
                    if self.accounts@.contains_key(c) {
                        self.accounts@[c] as nat
                    } else {
                        0nat
                    },
            ),
        }
    }
}

impl Clone for Wallet {
    /// A wallet with the same identifier, key and balances.
    fn clone(&self) -> (w: Wallet)
        ensures
            w@ == self@,
    {
        let w = Wallet {
            hash: self.hash,
            pubkey: self.pubkey.clone(),
            accounts: self.accounts.clone(),
        };
        assert(w.pubkey@ =~= self.pubkey@);
        w
    }
}

impl Wallet {
    /// A wallet that holds nothing.
    pub fn new(hash: ByteHash, pubkey: Vec<u8>) -> (w: Wallet)
        ensures
            w@ == (WalletView { id: hash@, pubkey: pubkey@, balances: no_balances() }),
    {
        let w = Wallet { hash, pubkey, accounts: HashMap::new() };
        assert(w@.balances =~= no_balances());
        w
    }

    /// What the wallet holds in a currency.
    pub fn balance(&self, currency: u64) -> (amount: u128)
        ensures
            amount == self@.balances[currency],
    {
        match self.accounts.get(&currency) {
            Some(held) => *held,
            None => 0,
        }
    }

    /// Takes an amount out of the wallet, if it holds that much; otherwise the
    /// wallet stays as it is.
    pub fn deduct(&mut self, currency: u64, amount: u64) -> (r: Result<(), BankError>)
        ensures
            match r {
                Ok(_) => old(self)@.balances[currency] >= amount && final(self)@ == debited(
                    old(self)@,
                    currency,
                    amount as nat,
                ),
                Err(e) => e == BankError::InsufficientCurrency && old(self)@.balances[currency]
                    < amount && *final(self) == *old(self),
            },
    {
        let held = self.balance(currency);
        if held < amount as u128 {
            return Err(BankError::InsufficientCurrency);
        }
        self.accounts.insert(currency, held - amount as u128);
        assert(self@.balances =~= debited(old(self)@, currency, amount as nat).balances);
        Ok(())
    }

    /// Puts an amount into the wallet.
    pub fn add(&mut self, currency: u64, amount: u64)
        requires
            old(self)@.balances[currency] + amount <= u128::MAX,
        ensures
            final(self)@ == credited(old(self)@, currency, amount as nat),
    {
        let held = self.balance(currency);
        self.accounts.insert(currency, held + amount as u128);
        assert(self@.balances =~= credited(old(self)@, currency, amount as nat).balances);
    }
}

/// The ledger of one branch. It changes only by applying a block or rolling
/// one back.
#[derive(Debug)]
pub struct Bank {
    wallets: Vec<Wallet>,
}

impl View for Bank {
    type V = LedgerView;

    closed spec fn view(&self) -> LedgerView {
        Seq::new(self.wallets@.len(), |i: int| self.wallets@[i]@)
    }
}

impl Clone for Bank {
    /// A ledger with the same wallets, in the same order.
    fn clone(&self) -> (b: Bank)
        ensures
            b@ == self@,
    {
        let mut wallets: Vec<Wallet> = Vec::new();
        let mut i: usize = 0;
        while i < self.wallets.len()
            invariant
                i <= self.wallets.len(),
                wallets@.len() == i,
                forall|j: int| 0 <= j < i ==> wallets@[j]@ == self.wallets@[j]@,
            decreases self.wallets.len() - i,
        {
            wallets.push(self.wallets[i].clone());
            i += 1;
        }
        let b = Bank { wallets };
        assert(b@ =~= self@);
        b
    }
}

impl Bank {
    /// Well-formed: no identifier occurs twice, balances are defined
    /// throughout, and every total fits a balance.
    pub open spec fn wf(&self) -> bool {
        &&& well_formed(self@)
        &&& within_limits(self@)
    }

    /// A ledger without wallets.
    pub fn new() -> (b: Bank)
        ensures
            b.wf(),
            b@ == Seq::<WalletView>::empty(),
    {
        let b = Bank { wallets: Vec::new() };
        assert(b@ =~= Seq::<WalletView>::empty());
        b
    }

    /// The number of wallets.
    pub fn len(&self) -> (n: usize)
        ensures
            n == self@.len(),
    {
        self.wallets.len()
    }

    /// The wallet at a position, in the order of registration.
    pub fn wallet(&self, i: usize) -> (w: &Wallet)
        requires
            i < self@.len(),
        ensures
            w@ == self@[i as int],
    {
        &self.wallets[i]
    }

    /// The position of the wallet with this identifier.
    fn find(&self, id: &ByteHash) -> (r: Option<usize>)
        requires
            distinct_ids(self@),
        ensures
            match r {
                Some(i) => i < self@.len() && has_wallet(self@, id@) && wallet_index(self@, id@)
                    == i,
                None => !has_wallet(self@, id@),
            },
    {
        let mut i: usize = 0;
        while i < self.wallets.len()
            invariant
                i <= self.wallets.len(),
                distinct_ids(self@),
                forall|j: int| 0 <= j < i ==> (#[trigger] self@[j]).id != id@,
            decreases self.wallets.len() - i,
        {
            proof {
                self.wallets[i as int].hash.lemma_view(*id);
            }
            if self.wallets[i].hash == *id {
                proof {
                    assert(self@[i as int].id == id@);
                    lemma_wallet_index(self@, i as int);
                }
                return Some(i);
            }
            i += 1;
        }
        None
    }

    /// The wallet with this identifier.
    pub fn get_wallet(&self, hash: ByteHash) -> (r: Result<&Wallet, BankError>)
        requires
            self.wf(),
        ensures
            match r {
                Ok(w) => has_wallet(self@, hash@) && w@ == self@[wallet_index(self@, hash@)],
                Err(e) => e == BankError::WalletNotFound && !has_wallet(self@, hash@),
            },
    {
        match self.find(&hash) {
            Some(i) => Ok(&self.wallets[i]),
            None => Err(BankError::WalletNotFound),
        }
    }

    /// The sum of all balances in a currency.
    pub fn total(&self, currency: u64) -> (sum: u128)
        requires
            self.wf(),
        ensures
            sum == total(self@, currency),
    {
        let mut sum: u128 = 0;
        let mut i: usize = 0;
        while i < self.wallets.len()
            invariant
                i <= self.wallets.len(),
                sum == total(self@.take(i as int), currency),
                total(self@, currency) <= u128::MAX,
            decreases self.wallets.len() - i,
        {
            let held = self.wallets[i].balance(currency);
            proof {
                let next = self@.take(i + 1);
                assert(next.drop_last() =~= self@.take(i as int));
                assert(next.last() == self@[i as int]);
                lemma_total_prefix(self@, i + 1, currency);
            }
            sum = sum + held;
            i += 1;
        }
        assert(self@.take(i as int) =~= self@);
        sum
    }

    /// Registers a wallet under an identifier and funds it; fails
    /// `WalletDuplicate` where the identifier is taken. The ledger must have
    /// room for the funding: the total of the funding currency, with one more
    /// funding, must still fit a balance.
    pub fn register(&mut self, id: ByteHash, pubkey: Vec<u8>) -> (r: Result<(), BankError>)
        requires
            old(self).wf(),
            has_room(old(self)@),
        ensures
            final(self).wf(),
            outcome(old(self)@, final(self)@, r, registered(old(self)@, id@, pubkey@)),
            r is Ok ==> funded_once(old(self)@, final(self)@),
    {
        if self.find(&id).is_some() {
            return Err(BankError::WalletDuplicate);
        }
        let mut wallet = Wallet::new(id, pubkey);
        wallet.add(BOOTSTRAP_CURRENCY, BOOTSTRAP_AMOUNT);
        assert(wallet@.balances =~= fresh_wallet(id@, pubkey@).balances);
        self.wallets.push(wallet);
        proof {
            let before = old(self)@;
            let w = fresh_wallet(id@, pubkey@);
            assert(self@ =~= before.push(w));
            assert forall|c: u64| #[trigger] total(self@, c) <= u128::MAX by {
                lemma_total_push(before, w, c);
                assert(total(before, c) <= u128::MAX);
            }
            assert forall|c: u64| #[trigger] total(self@, c) == total(before, c) + minted(
                c,
                1,
            ) by {
                lemma_total_push(before, w, c);
            }
        }
        Ok(())
    }

    /// Removes the wallet with this identifier; fails `WalletNotFound` where
    /// there is none.
    pub fn unregister(&mut self, id: &ByteHash) -> (r: Result<(), BankError>)
        requires
            old(self).wf(),
        ensures
            final(self).wf(),
            outcome(old(self)@, final(self)@, r, unregistered(old(self)@, id@)),
    {
        match self.find(id) {
            None => Err(BankError::WalletNotFound),
            Some(i) => {
                self.wallets.remove(i);
                proof {
                    let before = old(self)@;
                    assert(self@ =~= before.remove(i as int));
                    assert forall|c: u64| #[trigger] total(self@, c) <= u128::MAX by {
                        lemma_total_remove(before, i as int, c);
                        assert(total(before, c) <= u128::MAX);
                    }
                }
                Ok(())
            },
        }
    }

    /// Carries out a transfer between two wallets, given whether the sender's
    /// signature was found valid. Rolled back (`invert`), the amount goes from
    /// `to` to `from`. On failure nothing changes.
    pub fn transfer(
        &mut self,
        from: &ByteHash,
        to: &ByteHash,
        currency: u64,
        amount: u64,
        signed: bool,
        invert: bool,
    ) -> (r: Result<(), BankError>)
        requires
            old(self).wf(),
        ensures
            final(self).wf(),
            outcome(
                old(self)@,
                final(self)@,
                r,
                transferred(old(self)@, from@, to@, currency, amount, signed, invert),
            ),
            same_wallets(old(self)@, final(self)@),
            same_totals(old(self)@, final(self)@),
    {
        let to_at = match self.find(to) {
            Some(i) => i,
            None => {
                return Err(BankError::WalletNotFound);
            },
        };
        let from_at = match self.find(from) {
            Some(i) => i,
            None => {
                return Err(BankError::WalletNotFound);
            },
        };
        if !signed {
            return Err(BankError::SignatureInvalid);
        }
        let payer = if invert { to_at } else { from_at };
        let payee = if invert { from_at } else { to_at };
        let ghost before = self@;
        match self.wallets[payer].deduct(currency, amount) {
            Err(e) => {
                assert(self@ =~= before);
                return Err(e);
            },
            Ok(_) => {},
        }
        let ghost taken = self@;
        proof {
            assert(taken =~= before.update(
                payer as int,
                debited(before[payer as int], currency, amount as nat),
            ));
            lemma_total_update(
                before,
                payer as int,
                debited(before[payer as int], currency, amount as nat),
                currency,
            );
            lemma_total_bounds(taken, payee as int, currency);
            assert(total(before, currency) <= u128::MAX);
        }
        self.wallets[payee].add(currency, amount);
        proof {
            assert(self@ =~= moved(before, payer as int, payee as int, currency, amount as nat));
            lemma_moved_keeps_wallets(before, payer as int, payee as int, currency, amount as nat);
            assert forall|c: u64| #[trigger] total(self@, c) == total(before, c) by {
                lemma_moved_total(before, payer as int, payee as int, currency, amount as nat, c);
            }
            assert forall|c: u64| #[trigger] total(self@, c) <= u128::MAX by {
                assert(total(before, c) <= u128::MAX);
            }
        }
        Ok(())
    }

    /// Applies a block. An empty payload changes nothing; a registration adds
    /// a funded wallet; a transfer moves its amount from sender to receiver
    /// once both wallets are found, the signature is valid under the sender's
    /// key and the sender holds the amount. On failure nothing changes. A
    /// transfer, accepted or not, leaves the wallets and the total of every
    /// currency as they were; an accepted registration adds the funding of
    /// one wallet and nothing else. For a registration the ledger must have
    /// room to fund one more wallet; the ledger of a branch always has.
    pub fn do_block(&mut self, block: &Block) -> (r: Result<(), BankError>)
        requires
            old(self).wf(),
            block@.payload is Wallet ==> has_room(old(self)@),
        ensures
            final(self).wf(),
            outcome(old(self)@, final(self)@, r, applied(old(self)@, block@)),
            block@.payload is Transfer ==> same_wallets(old(self)@, final(self)@) && same_totals(
                old(self)@,
                final(self)@,
            ),
            block@.payload is Wallet && r is Ok ==> funded_once(old(self)@, final(self)@),
    {
        self.process_block(block, false)
    }

    /// Rolls a block back. An empty payload changes nothing; a registration
    /// removes its wallet; a transfer passes the same tests as when it is
    /// applied, with the receiver as the one who must hold the amount, and
    /// moves the amount back. On failure nothing changes. A transfer, rolled
    /// back or not, leaves the wallets and the total of every currency as
    /// they were.
    pub fn undo_block(&mut self, block: &Block) -> (r: Result<(), BankError>)
        requires
            old(self).wf(),
        ensures
            final(self).wf(),
            outcome(old(self)@, final(self)@, r, rolled_back(old(self)@, block@)),
            block@.payload is Transfer ==> same_wallets(old(self)@, final(self)@) && same_totals(
                old(self)@,
                final(self)@,
            ),
    {
        self.process_block(block, true)
    }

    /// Applies a block or rolls it back, by the kind of its payload.
    fn process_block(&mut self, block: &Block, invert: bool) -> (r: Result<(), BankError>)
        requires
            old(self).wf(),
            !invert && block@.payload is Wallet ==> has_room(old(self)@),
        ensures
            final(self).wf(),
            outcome(old(self)@, final(self)@, r, processed(old(self)@, block@, invert)),
            block@.payload is Transfer ==> same_wallets(old(self)@, final(self)@) && same_totals(
                old(self)@,
                final(self)@,
            ),
            !invert && block@.payload is Wallet && r is Ok ==> funded_once(
                old(self)@,
                final(self)@,
            ),
    {
        match &block.data {
            BlockData::Transaction(data) => self.process_transaction_block(block, data, invert),
            BlockData::Wallet(data) => self.process_wallet_block(data, invert),
            BlockData::Empty => Ok(()),
        }
    }

    /// Registers the wallet of a registration under the hash of its key, or
    /// removes it.
    fn process_wallet_block(&mut self, data: &WalletData, invert: bool) -> (r: Result<
        (),
        BankError,
    >)
        requires
            old(self).wf(),
            !invert ==> has_room(old(self)@),
        ensures
            final(self).wf(),
            outcome(
                old(self)@,
                final(self)@,
                r,
                if invert {
                    unregistered(old(self)@, wallet_id(data@))
                } else {
                    registered(old(self)@, wallet_id(data@), encode_utf8(data@))
                },
            ),
            !invert && r is Ok ==> funded_once(old(self)@, final(self)@),
    {
        let hash = data.hash();
        if !invert {
            let pubkey = slice_to_vec(data.pubkey.as_str().as_bytes());
            self.register(hash, pubkey)
        } else {
            self.unregister(&hash)
        }
    }

    /// Reads the two identifiers of a transfer, finds the sender's key, has
    /// the block's signature tested under it, and carries the transfer out.
    /// Text that names no identifier names no wallet: `WalletNotFound`.
    fn process_transaction_block(
        &mut self,
        block: &Block,
        data: &TransactionData,
        invert: bool,
    ) -> (r: Result<(), BankError>)
        requires
            old(self).wf(),
            block@.payload == Payload::Transfer(data@),
        ensures
            final(self).wf(),
            outcome(old(self)@, final(self)@, r, processed(old(self)@, block@, invert)),
            same_wallets(old(self)@, final(self)@),
            same_totals(old(self)@, final(self)@),
    {
        let from = match ByteHash::try_from(&data.from) {
            Ok(id) => id,
            Err(_) => {
                return Err(BankError::WalletNotFound);
            },
        };
        let to = match ByteHash::try_from(&data.to) {
            Ok(id) => id,
            Err(_) => {
                return Err(BankError::WalletNotFound);
            },
        };
        if self.find(&to).is_none() {
            return Err(BankError::WalletNotFound);
        }
        let sender = match self.find(&from) {
            Some(i) => i,
            None => {
                return Err(BankError::WalletNotFound);
            },
        };
        let message = block.data.to_bytes();
        let signed = match decode(block.signature.as_str().as_bytes()) {
            Some(signature) => check(
                self.wallets[sender].pubkey.as_slice(),
                message.as_slice(),
                signature.as_slice(),
            ),
            None => false,
        };
        self.transfer(&from, &to, data.currency, data.amount, signed, invert)
    }
}

} // verus!
