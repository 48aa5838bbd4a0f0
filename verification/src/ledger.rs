//! The model of the ledger: what a ledger is, what applying a block and
//! rolling one back do to it, and the laws that follow.

use crate::bank::BankError;
use crate::block::BlockView;
use crate::block_data::{payload_bytes, wallet_id, Payload, BOOTSTRAP_AMOUNT, BOOTSTRAP_CURRENCY};
use crate::hexcode::parse_hex;
use crate::signature::signature_holds;
use vstd::prelude::*;
use vstd::utf8::encode_utf8;

verus! {

/// The model of a wallet: its identifier, its public key as PEM bytes, and its
/// balance in every currency (zero where it holds nothing).
pub struct WalletView {
    pub id: Seq<u8>,
    pub pubkey: Seq<u8>,
    pub balances: Map<u64, nat>,
}

/// The model of a ledger: its wallets in the order in which they were
/// registered.
pub type LedgerView = Seq<WalletView>;

/// Zero in every currency.
pub open spec fn no_balances() -> Map<u64, nat> {
    Map::new(|c: u64| true, |c: u64| 0nat)
}

/// The wallet with an amount added in one currency.
pub open spec fn credited(w: WalletView, currency: u64, amount: nat) -> WalletView {
    WalletView { balances: w.balances.insert(currency, w.balances[currency] + amount), ..w }
}

/// The wallet with an amount taken away in one currency; meaningful where the
/// wallet holds that much.
pub open spec fn debited(w: WalletView, currency: u64, amount: nat) -> WalletView {
    WalletView {
        balances: w.balances.insert(currency, (w.balances[currency] - amount) as nat),
        ..w
    }
}

/// A wallet as it is right after registration.
pub open spec fn fresh_wallet(id: Seq<u8>, pubkey: Seq<u8>) -> WalletView {
    WalletView {
        id,
        pubkey,
        balances: no_balances().insert(BOOTSTRAP_CURRENCY, BOOTSTRAP_AMOUNT as nat),
    }
}

/// The ledger holds a wallet with this identifier.
pub open spec fn has_wallet(l: LedgerView, id: Seq<u8>) -> bool {
    exists|i: int| 0 <= i < l.len() && (#[trigger] l[i]).id == id
}

/// The position of the wallet with this identifier; meaningful where the
/// ledger holds one.
pub open spec fn wallet_index(l: LedgerView, id: Seq<u8>) -> int {
    choose|i: int| 0 <= i < l.len() && (#[trigger] l[i]).id == id
}

/// No two wallets share an identifier.
pub open spec fn distinct_ids(l: LedgerView) -> bool {
    forall|i: int, j: int| 0 <= i < j < l.len() ==> (#[trigger] l[i]).id != (#[trigger] l[j]).id
}

/// Every wallet has a balance in every currency.
pub open spec fn full_balances(l: LedgerView) -> bool {
    forall|i: int, c: u64| 0 <= i < l.len() ==> #[trigger] l[i].balances.contains_key(c)
}

/// A ledger as the operations keep it: identifiers are distinct and balances
/// are defined throughout.
pub open spec fn well_formed(l: LedgerView) -> bool {
    &&& distinct_ids(l)
    &&& full_balances(l)
}

/// The sum of all wallets' balances in one currency.
pub open spec fn total(l: LedgerView, currency: u64) -> nat
    decreases l.len(),
{
    if l.len() == 0 {
        0
    } else {
        total(l.drop_last(), currency) + l.last().balances[currency]
    }
}

/// The ledger after registering a wallet, or why it cannot be registered.
pub open spec fn registered(l: LedgerView, id: Seq<u8>, pubkey: Seq<u8>) -> Result<
    LedgerView,
    BankError,
> {
    if has_wallet(l, id) {
        Err(BankError::WalletDuplicate)
    } else {
        Ok(l.push(fresh_wallet(id, pubkey)))
    }
}

/// The ledger after removing a wallet, or why it cannot be removed.
pub open spec fn unregistered(l: LedgerView, id: Seq<u8>) -> Result<LedgerView, BankError> {
    if has_wallet(l, id) {
        Ok(l.remove(wallet_index(l, id)))
    } else {
        Err(BankError::WalletNotFound)
    }
}

/// The ledger after moving an amount from the wallet at `payer` to the wallet
/// at `payee`. Paying oneself changes nothing.
pub open spec fn moved(l: LedgerView, payer: int, payee: int, currency: u64, amount: nat)
    -> LedgerView {
    let taken = l.update(payer, debited(l[payer], currency, amount));
    taken.update(payee, credited(taken[payee], currency, amount))
}

/// The ledger after a transfer, or why the transfer fails. `signed` says
/// whether the sender's signature was found valid. A transfer that is rolled
/// back (`invert`) passes the same tests and moves the amount the other way.
/// The tests come in this order: both wallets exist, the signature is valid,
/// the paying wallet holds the amount. A wallet may pay itself, and the
/// amount may be zero: such a transfer passes the same tests and leaves every
/// balance as it was.
pub open spec fn transferred(
    l: LedgerView,
    from: Seq<u8>,
    to: Seq<u8>,
    currency: u64,
    amount: u64,
    signed: bool,
    invert: bool,
) -> Result<LedgerView, BankError> {
    if !has_wallet(l, from) || !has_wallet(l, to) {
        Err(BankError::WalletNotFound)
    } else if !signed {
        Err(BankError::SignatureInvalid)
    } else {
        let payer = if invert { wallet_index(l, to) } else { wallet_index(l, from) };
        let payee = if invert { wallet_index(l, from) } else { wallet_index(l, to) };
        if l[payer].balances[currency] < amount {
            Err(BankError::InsufficientCurrency)
        } else {
            Ok(moved(l, payer, payee, currency, amount as nat))
        }
    }
}

/// The identifier that a transfer names by its hexadecimal text, if the text
/// names one.
pub open spec fn named_id(text: Seq<char>) -> Option<Seq<u8>> {
    match parse_hex(encode_utf8(text)) {
        Some(bytes) => if bytes.len() == 32 {
            Some(bytes)
        } else {
            None
        },
        None => None,
    }
}

/// The block's signature, read as hexadecimal, is a valid signature over the
/// wire form of its payload under this key.
pub open spec fn signed_by(key_pem: Seq<u8>, b: BlockView) -> bool {
    match parse_hex(encode_utf8(b.signature)) {
        Some(signature) => signature_holds(key_pem, payload_bytes(b.payload), signature),
        None => false,
    }
}

/// The ledger after a block was applied (`invert` false) or rolled back
/// (`invert` true), or why the ledger refuses.
pub open spec fn processed(l: LedgerView, b: BlockView, invert: bool) -> Result<
    LedgerView,
    BankError,
> {
    match b.payload {
        Payload::Empty => Ok(l),
        Payload::Wallet { pubkey } => if invert {
            unregistered(l, wallet_id(pubkey))
        } else {
            registered(l, wallet_id(pubkey), encode_utf8(pubkey))
        },
        Payload::Transfer(t) => match (named_id(t.from), named_id(t.to)) {
            (Some(from), Some(to)) => transferred(
                l,
                from,
                to,
                t.currency,
                t.amount,
                has_wallet(l, from) && signed_by(l[wallet_index(l, from)].pubkey, b),
                invert,
            ),
            _ => Err(BankError::WalletNotFound),
        },
    }
}

/// The ledger after applying a block.
pub open spec fn applied(l: LedgerView, b: BlockView) -> Result<LedgerView, BankError> {
    processed(l, b, false)
}

/// The ledger after rolling a block back.
pub open spec fn rolled_back(l: LedgerView, b: BlockView) -> Result<LedgerView, BankError> {
    processed(l, b, true)
}

/// What a ledger operation owes: on success the ledger that was expected, on
/// failure the expected error and the ledger as it was.
pub open spec fn outcome(
    before: LedgerView,
    after: LedgerView,
    result: Result<(), BankError>,
    expected: Result<LedgerView, BankError>,
) -> bool {
    match expected {
        Ok(l) => result is Ok && after == l,
        Err(e) => result == Err::<(), BankError>(e) && after == before,
    }
}

/// No currency's total has outgrown what a balance can hold.
pub open spec fn within_limits(l: LedgerView) -> bool {
    forall|c: u64| #[trigger] total(l, c) <= u128::MAX
}

/// One more wallet can be funded.
pub open spec fn has_room(l: LedgerView) -> bool {
    total(l, BOOTSTRAP_CURRENCY) + BOOTSTRAP_AMOUNT <= u128::MAX
}

/// As many wallets, with the same identifiers and keys, in the same order.
pub open spec fn same_wallets(before: LedgerView, after: LedgerView) -> bool {
    &&& after.len() == before.len()
    &&& forall|i: int|
        0 <= i < before.len() ==> (#[trigger] after[i]).id == before[i].id && after[i].pubkey
            == before[i].pubkey
}

/// The same total in every currency.
pub open spec fn same_totals(before: LedgerView, after: LedgerView) -> bool {
    forall|c: u64| #[trigger] total(after, c) == total(before, c)
}

/// In every currency the total of `before` and the funding of one wallet.
pub open spec fn funded_once(before: LedgerView, after: LedgerView) -> bool {
    forall|c: u64| #[trigger] total(after, c) == total(before, c) + minted(c, 1)
}

/// Pushing a wallet adds its balance to the total.
pub proof fn lemma_total_push(l: LedgerView, w: WalletView, currency: u64)
    ensures
        total(l.push(w), currency) == total(l, currency) + w.balances[currency],
{
    assert(l.push(w).drop_last() =~= l);
}

/// Replacing a wallet changes the total by the difference of the balances.
pub proof fn lemma_total_update(l: LedgerView, i: int, w: WalletView, currency: u64)
    requires
        0 <= i < l.len(),
    ensures
        total(l.update(i, w), currency) == total(l, currency) - l[i].balances[currency]
            + w.balances[currency],
    decreases l.len(),
{
    if i == l.len() - 1 {
        assert(l.update(i, w).drop_last() =~= l.drop_last());
    } else {
        lemma_total_update(l.drop_last(), i, w, currency);
        assert(l.update(i, w).drop_last() =~= l.drop_last().update(i, w));
    }
}

/// Removing a wallet takes its balance out of the total.
pub proof fn lemma_total_remove(l: LedgerView, i: int, currency: u64)
    requires
        0 <= i < l.len(),
    ensures
        total(l.remove(i), currency) == total(l, currency) - l[i].balances[currency],
    decreases l.len(),
{
    if i == l.len() - 1 {
        assert(l.remove(i) =~= l.drop_last());
    } else {
        lemma_total_remove(l.drop_last(), i, currency);
        assert(l.remove(i).drop_last() =~= l.drop_last().remove(i));
        assert(l.remove(i).last() == l.last());
    }
}

/// No wallet holds more than the total.
pub proof fn lemma_total_bounds(l: LedgerView, i: int, currency: u64)
    requires
        0 <= i < l.len(),
    ensures
        l[i].balances[currency] <= total(l, currency),
    decreases l.len(),
{
    if i < l.len() - 1 {
        lemma_total_bounds(l.drop_last(), i, currency);
    }
}

/// Where identifiers are distinct, a wallet's identifier tells its position.
pub proof fn lemma_wallet_index(l: LedgerView, i: int)
    requires
        distinct_ids(l),
        0 <= i < l.len(),
    ensures
        has_wallet(l, l[i].id),
        wallet_index(l, l[i].id) == i,
{
    let j = wallet_index(l, l[i].id);
    assert(0 <= j < l.len() && l[j].id == l[i].id);
    if j < i {
        assert(l[j].id != l[i].id);
    } else if i < j {
        assert(l[i].id != l[j].id);
    }
}

/// Moving an amount leaves every total as it was.
pub proof fn lemma_moved_total(
    l: LedgerView,
    payer: int,
    payee: int,
    currency: u64,
    amount: nat,
    c: u64,
)
    requires
        0 <= payer < l.len(),
        0 <= payee < l.len(),
        l[payer].balances[currency] >= amount,
    ensures
        total(moved(l, payer, payee, currency, amount), c) == total(l, c),
{
    let taken = l.update(payer, debited(l[payer], currency, amount));
    lemma_total_update(l, payer, debited(l[payer], currency, amount), c);
    lemma_total_update(taken, payee, credited(taken[payee], currency, amount), c);
}

/// The total of a prefix grows wallet by wallet and stays below the whole.
pub proof fn lemma_total_prefix(l: LedgerView, n: int, currency: u64)
    requires
        0 <= n <= l.len(),
    ensures
        total(l.take(n), currency) <= total(l, currency),
    decreases l.len() - n,
{
    if n < l.len() {
        lemma_total_prefix(l, n + 1, currency);
        assert(l.take(n + 1).drop_last() =~= l.take(n));
    } else {
        assert(l.take(n) =~= l);
    }
}

/// The ledger after applying a sequence of blocks, first to last, if every one
/// of them is accepted.
pub open spec fn applied_all(l: LedgerView, blocks: Seq<BlockView>) -> Option<LedgerView>
    decreases blocks.len(),
{
    if blocks.len() == 0 {
        Some(l)
    } else {
        match applied_all(l, blocks.drop_last()) {
            Some(m) => match applied(m, blocks.last()) {
                Ok(n) => Some(n),
                Err(_) => None,
            },
            None => None,
        }
    }
}

/// The ledger that a history gives when it is replayed from the empty ledger.
pub open spec fn replayed(blocks: Seq<BlockView>) -> Option<LedgerView> {
    applied_all(Seq::<WalletView>::empty(), blocks)
}

/// The number of registrations in a sequence of blocks.
pub open spec fn registrations(blocks: Seq<BlockView>) -> nat
    decreases blocks.len(),
{
    if blocks.len() == 0 {
        0
    } else {
        registrations(blocks.drop_last()) + if blocks.last().payload is Wallet {
            1nat
        } else {
            0nat
        }
    }
}

/// What one currency gains when that many wallets are registered.
pub open spec fn minted(currency: u64, wallets: nat) -> nat {
    if currency == BOOTSTRAP_CURRENCY {
        (BOOTSTRAP_AMOUNT * wallets) as nat
    } else {
        0
    }
}

/// Moving an amount leaves every wallet's identifier and key as they were.
pub proof fn lemma_moved_keeps_wallets(
    l: LedgerView,
    payer: int,
    payee: int,
    currency: u64,
    amount: nat,
)
    requires
        0 <= payer < l.len(),
        0 <= payee < l.len(),
    ensures
        moved(l, payer, payee, currency, amount).len() == l.len(),
        forall|i: int|
            0 <= i < l.len() ==> {
                &&& (#[trigger] moved(l, payer, payee, currency, amount)[i]).id == l[i].id
                &&& moved(l, payer, payee, currency, amount)[i].pubkey == l[i].pubkey
            },
{
}

/// A well-formed ledger stays well-formed when a wallet with a new
/// identifier and a balance in every currency is put last.
proof fn lemma_push_keeps_well_formed(l: LedgerView, w: WalletView)
    requires
        well_formed(l),
        !has_wallet(l, w.id),
        forall|c: u64| w.balances.contains_key(c),
    ensures
        well_formed(l.push(w)),
{
    let after = l.push(w);
    assert forall|i: int, j: int| 0 <= i < j < after.len() implies (#[trigger] after[i]).id
        != (#[trigger] after[j]).id by {
        assert(after[i] == l[i]);
        if j < l.len() {
            assert(after[j] == l[j]);
        }
    }
    assert forall|i: int, c: u64| 0 <= i < after.len() implies #[trigger] after[i].balances
        .contains_key(c) by {
        if i < l.len() {
            assert(l[i].balances.contains_key(c));
        }
    }
}

/// A well-formed ledger stays well-formed when a wallet is taken out.
proof fn lemma_remove_keeps_well_formed(l: LedgerView, at: int)
    requires
        well_formed(l),
        0 <= at < l.len(),
    ensures
        well_formed(l.remove(at)),
{
    let after = l.remove(at);
    assert forall|i: int, j: int| 0 <= i < j < after.len() implies (#[trigger] after[i]).id
        != (#[trigger] after[j]).id by {
        let i0 = if i < at { i } else { i + 1 };
        let j0 = if j < at { j } else { j + 1 };
        assert(after[i] == l[i0] && after[j] == l[j0]);
    }
    assert forall|i: int, c: u64| 0 <= i < after.len() implies #[trigger] after[i].balances
        .contains_key(c) by {
        let i0 = if i < at { i } else { i + 1 };
        assert(after[i] == l[i0]);
        assert(l[i0].balances.contains_key(c));
    }
}

/// A well-formed ledger stays well-formed when an amount is moved.
proof fn lemma_moved_keeps_well_formed(
    l: LedgerView,
    payer: int,
    payee: int,
    currency: u64,
    amount: nat,
)
    requires
        well_formed(l),
        0 <= payer < l.len(),
        0 <= payee < l.len(),
    ensures
        well_formed(moved(l, payer, payee, currency, amount)),
{
    let after = moved(l, payer, payee, currency, amount);
    lemma_moved_keeps_wallets(l, payer, payee, currency, amount);
    assert forall|i: int, j: int| 0 <= i < j < after.len() implies (#[trigger] after[i]).id
        != (#[trigger] after[j]).id by {
        assert(after[i].id == l[i].id && after[j].id == l[j].id);
    }
    assert forall|i: int, c: u64| 0 <= i < after.len() implies #[trigger] after[i].balances
        .contains_key(c) by {
        assert(l[i].balances.contains_key(c));
    }
}

/// Applying or rolling back a block keeps a ledger well-formed.
pub proof fn lemma_processed_keeps_well_formed(l: LedgerView, b: BlockView, invert: bool)
    requires
        well_formed(l),
        processed(l, b, invert) is Ok,
    ensures
        well_formed(processed(l, b, invert).unwrap()),
{
    match b.payload {
        Payload::Empty => {},
        Payload::Wallet { pubkey } => {
            if invert {
                lemma_remove_keeps_well_formed(l, wallet_index(l, wallet_id(pubkey)));
            } else {
                lemma_push_keeps_well_formed(
                    l,
                    fresh_wallet(wallet_id(pubkey), encode_utf8(pubkey)),
                );
            }
        },
        Payload::Transfer(t) => {
            let from = wallet_index(l, named_id(t.from).unwrap());
            let to = wallet_index(l, named_id(t.to).unwrap());
            if invert {
                lemma_moved_keeps_well_formed(l, to, from, t.currency, t.amount as nat);
            } else {
                lemma_moved_keeps_well_formed(l, from, to, t.currency, t.amount as nat);
            }
        },
    }
}

/// Rolling back the block that was applied last gives the ledger as it was
/// before.
pub proof fn lemma_rollback_undoes_apply(l: LedgerView, b: BlockView)
    requires
        well_formed(l),
        applied(l, b) is Ok,
    ensures
        rolled_back(applied(l, b).unwrap(), b) == Ok::<LedgerView, BankError>(l),
{
    let after = applied(l, b).unwrap();
    lemma_processed_keeps_well_formed(l, b, false);
    match b.payload {
        Payload::Empty => {},
        Payload::Wallet { pubkey } => {
            let id = wallet_id(pubkey);
            assert(after[l.len() as int].id == id);
            lemma_wallet_index(after, l.len() as int);
            assert(after.remove(l.len() as int) =~= l);
        },
        Payload::Transfer(t) => {
            let from = named_id(t.from).unwrap();
            let to = named_id(t.to).unwrap();
            let i = wallet_index(l, from);
            let j = wallet_index(l, to);
            let amount = t.amount as nat;
            lemma_moved_keeps_wallets(l, i, j, t.currency, amount);
            assert(after[i].id == from);
            assert(after[j].id == to);
            lemma_wallet_index(after, i);
            lemma_wallet_index(after, j);
            let back = moved(after, j, i, t.currency, amount);
            assert forall|k: int| 0 <= k < l.len() implies back[k] == l[k] by {
                assert(l[k].balances.contains_key(t.currency));
                assert(back[k].balances =~= l[k].balances);
            }
            assert(back =~= l);
        },
    }
}

/// What one block does to the total of a currency: a registration adds the
/// funding of one wallet, and nothing else adds or takes away.
pub proof fn lemma_applied_total(l: LedgerView, b: BlockView, currency: u64)
    requires
        applied(l, b) is Ok,
    ensures
        total(applied(l, b).unwrap(), currency) == total(l, currency) + minted(
            currency,
            if b.payload is Wallet {
                1
            } else {
                0
            },
        ),
{
    match b.payload {
        Payload::Empty => {},
        Payload::Wallet { pubkey } => {
            lemma_total_push(
                l,
                fresh_wallet(wallet_id(pubkey), encode_utf8(pubkey)),
                currency,
            );
        },
        Payload::Transfer(t) => {
            let from = named_id(t.from).unwrap();
            let to = named_id(t.to).unwrap();
            lemma_moved_total(
                l,
                wallet_index(l, from),
                wallet_index(l, to),
                t.currency,
                t.amount as nat,
                currency,
            );
        },
    }
}

/// A transfer, applied or rolled back, accepted or refused, leaves the
/// wallets' identifiers and keys and the total of every currency as they
/// were.
pub proof fn lemma_transfer_conserves(l: LedgerView, b: BlockView, invert: bool)
    requires
        b.payload is Transfer,
    ensures
        ({
            let after = match processed(l, b, invert) {
                Ok(done) => done,
                Err(_) => l,
            };
            same_wallets(l, after) && same_totals(l, after)
        }),
{
    if processed(l, b, invert) is Ok {
        let t = b.payload->Transfer_0;
        let from = wallet_index(l, named_id(t.from).unwrap());
        let to = wallet_index(l, named_id(t.to).unwrap());
        let payer = if invert { to } else { from };
        let payee = if invert { from } else { to };
        let after = processed(l, b, invert).unwrap();
        lemma_moved_keeps_wallets(l, payer, payee, t.currency, t.amount as nat);
        assert forall|c: u64| #[trigger] total(after, c) == total(l, c) by {
            lemma_moved_total(l, payer, payee, t.currency, t.amount as nat, c);
        }
    }
}

/// A registration that is accepted adds the funding of one wallet to the
/// funding currency and nothing to any other.
pub proof fn lemma_registration_funds(l: LedgerView, b: BlockView)
    requires
        b.payload is Wallet,
        applied(l, b) is Ok,
    ensures
        funded_once(l, applied(l, b).unwrap()),
{
    assert forall|c: u64| #[trigger] total(applied(l, b).unwrap(), c) == total(l, c) + minted(
        c,
        1,
    ) by {
        lemma_applied_total(l, b, c);
    }
}

/// Conservation: over any sequence of accepted blocks, the total of a
/// currency grows by the funding of the wallets that were registered, and by
/// nothing else.
pub proof fn lemma_supply(l: LedgerView, blocks: Seq<BlockView>, currency: u64)
    requires
        applied_all(l, blocks) is Some,
    ensures
        total(applied_all(l, blocks).unwrap(), currency) == total(l, currency) + minted(
            currency,
            registrations(blocks),
        ),
    decreases blocks.len(),
{
    if blocks.len() > 0 {
        let m = applied_all(l, blocks.drop_last()).unwrap();
        lemma_supply(l, blocks.drop_last(), currency);
        lemma_applied_total(m, blocks.last(), currency);
        assert(BOOTSTRAP_AMOUNT * (registrations(blocks.drop_last()) + 1) == BOOTSTRAP_AMOUNT
            * registrations(blocks.drop_last()) + BOOTSTRAP_AMOUNT) by (nonlinear_arith);
    }
}

/// Conservation under transfers: a sequence of accepted transfers leaves the
/// total of every currency as it was.
pub proof fn lemma_transfers_conserve(l: LedgerView, blocks: Seq<BlockView>, currency: u64)
    requires
        applied_all(l, blocks) is Some,
        forall|i: int| 0 <= i < blocks.len() ==> (#[trigger] blocks[i]).payload is Transfer,
    ensures
        total(applied_all(l, blocks).unwrap(), currency) == total(l, currency),
{
    lemma_supply(l, blocks, currency);
    lemma_no_registrations(blocks);
}

/// A sequence of transfers holds no registration.
proof fn lemma_no_registrations(blocks: Seq<BlockView>)
    requires
        forall|i: int| 0 <= i < blocks.len() ==> (#[trigger] blocks[i]).payload is Transfer,
    ensures
        registrations(blocks) == 0,
    decreases blocks.len(),
{
    if blocks.len() > 0 {
        assert(blocks.last() == blocks[blocks.len() - 1]);
        assert forall|i: int| 0 <= i < blocks.drop_last().len() implies (
        #[trigger] blocks.drop_last()[i]).payload is Transfer by {
            assert(blocks.drop_last()[i] == blocks[i]);
        }
        lemma_no_registrations(blocks.drop_last());
    }
}

/// An accepted sequence of blocks takes a well-formed ledger to a well-formed
/// ledger.
pub proof fn lemma_applied_all_keeps_well_formed(l: LedgerView, blocks: Seq<BlockView>)
    requires
        well_formed(l),
        applied_all(l, blocks) is Some,
    ensures
        well_formed(applied_all(l, blocks).unwrap()),
    decreases blocks.len(),
{
    if blocks.len() > 0 {
        lemma_applied_all_keeps_well_formed(l, blocks.drop_last());
        lemma_processed_keeps_well_formed(
            applied_all(l, blocks.drop_last()).unwrap(),
            blocks.last(),
            false,
        );
    }
}

/// A history counts no more registrations than it has blocks.
pub proof fn lemma_registrations_bound(blocks: Seq<BlockView>)
    ensures
        registrations(blocks) <= blocks.len(),
    decreases blocks.len(),
{
    if blocks.len() > 0 {
        lemma_registrations_bound(blocks.drop_last());
    }
}

} // verus!
