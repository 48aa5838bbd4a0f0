//! Branches: an append-only sequence of blocks together with the ledger that
//! the sequence gives.

use crate::bank::{Bank, BankError};
use crate::ledger::{
    applied, has_room, lemma_applied_all_keeps_well_formed, lemma_registrations_bound,
    lemma_rollback_undoes_apply, lemma_supply, minted, registrations, replayed, total,
    LedgerView, WalletView,
};
use crate::block::{Block, BlockView};
use crate::block_data::{BOOTSTRAP_AMOUNT, BOOTSTRAP_CURRENCY};
use crate::hash::ByteHash;
use std::rc::Rc;
use vstd::prelude::*;

verus! {

/// Why a branch cannot take a block.
#[derive(Clone, Copy, Debug, PartialEq, Eq, Structural)]
pub enum BlockchainError {
    /// The branch holds no block with the identifier that was asked for.
    NoAttachPoint,
}

/// One candidate history: blocks in the order in which they were appended,
/// and the ledger that they give.
#[derive(Debug)]
pub struct Blockchain {
    blocks: Vec<Rc<Block>>,
    bank: Bank,
}

/// The model of a branch.
pub struct ChainView {
    pub blocks: Seq<BlockView>,
    pub ledger: LedgerView,
}

/// The sequence holds a block with this identifier.
pub open spec fn has_block(blocks: Seq<BlockView>, id: Seq<u8>) -> bool {
    exists|i: int| 0 <= i < blocks.len() && (#[trigger] blocks[i]).id == id
}

/// `i` is the position of the first block with this identifier.
pub open spec fn is_first_position(blocks: Seq<BlockView>, id: Seq<u8>, i: int) -> bool {
    &&& 0 <= i < blocks.len()
    &&& blocks[i].id == id
    &&& forall|j: int| 0 <= j < i ==> (#[trigger] blocks[j]).id != id
}

/// The position of the first block with this identifier; meaningful where
/// the sequence holds one.
pub open spec fn first_position(blocks: Seq<BlockView>, id: Seq<u8>) -> int {
    choose|i: int| is_first_position(blocks, id, i)
}

/// Every block but the first names the block before it.
pub open spec fn linked(blocks: Seq<BlockView>) -> bool {
    forall|i: int| 0 < i < blocks.len() ==> (#[trigger] blocks[i]).previous_id == blocks[i - 1].id
}

/// The branch cut off after the first block with this identifier, with the
/// ledger that the shorter history gives when replayed; nothing where the
/// branch holds no such block.
pub open spec fn forked(c: ChainView, id: Seq<u8>) -> Option<ChainView> {
    if has_block(c.blocks, id) {
        let kept = c.blocks.take(first_position(c.blocks, id) + 1);
        Some(ChainView { blocks: kept, ledger: replayed(kept).unwrap() })
    } else {
        None
    }
}

/// What a branch answers to a candidate block: no fork where the branch is
/// empty or the candidate names its tip; a fork after the block that the
/// candidate names where the branch holds it; `NoAttachPoint` otherwise.
pub open spec fn fork_for(c: ChainView, candidate: BlockView) -> Result<
    Option<ChainView>,
    BlockchainError,
> {
    if c.blocks.len() == 0 || c.blocks.last().id == candidate.previous_id {
        Ok(None)
    } else {
        match forked(c, candidate.previous_id) {
            Some(f) => Ok(Some(f)),
            None => Err(BlockchainError::NoAttachPoint),
        }
    }
}

/// The branch after appending a block, or why the ledger refuses it.
pub open spec fn appended(c: ChainView, b: BlockView) -> Result<ChainView, BankError> {
    match applied(c.ledger, b) {
        Ok(l) => Ok(ChainView { blocks: c.blocks.push(b), ledger: l }),
        Err(e) => Err(e),
    }
}

/// Appending leaves the blocks that were there and puts the new one last.
pub proof fn lemma_appended(c: ChainView, b: BlockView)
    ensures
        appended(c, b) matches Ok(longer) ==> longer.blocks == c.blocks.push(b),
{
}

/// A branch's ledger is what replaying its blocks gives.
pub open spec fn consistent(c: ChainView) -> bool {
    replayed(c.blocks) == Some(c.ledger)
}

/// The first position is the only one that is first.
pub proof fn lemma_first_position(blocks: Seq<BlockView>, id: Seq<u8>, i: int)
    requires
        is_first_position(blocks, id, i),
    ensures
        has_block(blocks, id),
        first_position(blocks, id) == i,
{
    let j = first_position(blocks, id);
    assert(is_first_position(blocks, id, j));
    if j < i {
        assert(blocks[j].id != id);
    } else if i < j {
        assert(blocks[i].id != id);
    }
}

/// Where a block has an identifier, some block is the first to have it.
pub proof fn lemma_first_exists(blocks: Seq<BlockView>, id: Seq<u8>, i: int)
    requires
        0 <= i < blocks.len(),
        blocks[i].id == id,
    ensures
        is_first_position(blocks, id, first_position(blocks, id)),
        first_position(blocks, id) <= i,
    decreases i,
{
    if exists|j: int| 0 <= j < i && (#[trigger] blocks[j]).id == id {
        let j = choose|j: int| 0 <= j < i && (#[trigger] blocks[j]).id == id;
        lemma_first_exists(blocks, id, j);
    } else {
        assert(is_first_position(blocks, id, i));
        lemma_first_position(blocks, id, i);
    }
}

/// Every prefix of a history that replays does so too.
pub proof fn lemma_prefix_replays(blocks: Seq<BlockView>, n: int)
    requires
        replayed(blocks) is Some,
        0 <= n <= blocks.len(),
    ensures
        replayed(blocks.take(n)) is Some,
    decreases blocks.len() - n,
{
    if n < blocks.len() {
        lemma_prefix_replays(blocks, n + 1);
        assert(blocks.take(n + 1).drop_last() =~= blocks.take(n));
    } else {
        assert(blocks.take(n) =~= blocks);
    }
}

/// Conservation in a branch: the total of a currency in a branch's ledger is
/// the funding of the wallets that its history registered; no transfer adds
/// to it or takes from it.
pub proof fn lemma_branch_supply(c: ChainView, currency: u64)
    requires
        consistent(c),
    ensures
        total(c.ledger, currency) == minted(currency, registrations(c.blocks)),
{
    let none = Seq::<WalletView>::empty();
    lemma_supply(none, c.blocks, currency);
    assert(total(none, currency) == 0);
}

/// A history that replays leaves room to fund one more wallet.
pub proof fn lemma_replayed_has_room(blocks: Seq<BlockView>)
    requires
        replayed(blocks) is Some,
        blocks.len() <= usize::MAX,
    ensures
        has_room(replayed(blocks).unwrap()),
{
    let none = Seq::<WalletView>::empty();
    lemma_supply(none, blocks, BOOTSTRAP_CURRENCY);
    lemma_registrations_bound(blocks);
    assert(total(none, BOOTSTRAP_CURRENCY) == 0);
    assert(BOOTSTRAP_AMOUNT * registrations(blocks) <= BOOTSTRAP_AMOUNT * blocks.len())
        by (nonlinear_arith)
        requires
            registrations(blocks) <= blocks.len(),
    ;
}

/// Hands out another reference to a shared block: `Rc::clone` of the standard
/// library, which gives a pointer to the same block.
#[verifier::external_body]
fn share(block: &Rc<Block>) -> (r: Rc<Block>)
    ensures
        r == *block,
{
    Rc::clone(block)
}

impl View for Blockchain {
    type V = ChainView;

    closed spec fn view(&self) -> ChainView {
        ChainView {
            blocks: Seq::new(self.blocks@.len(), |i: int| (*self.blocks@[i])@),
            ledger: self.bank@,
        }
    }
}

impl Clone for Blockchain {
    /// A branch with the same blocks, shared, and a ledger of its own.
    fn clone(&self) -> (c: Blockchain)
        ensures
            c@ == self@,
            self.wf() ==> c.wf(),
    {
        let mut blocks: Vec<Rc<Block>> = Vec::new();
        let mut i: usize = 0;
        while i < self.blocks.len()
            invariant
                i <= self.blocks.len(),
                blocks@.len() == i,
                forall|j: int| 0 <= j < i ==> blocks@[j] == self.blocks@[j],
            decreases self.blocks.len() - i,
        {
            blocks.push(share(&self.blocks[i]));
            i += 1;
        }
        let c = Blockchain { blocks, bank: self.bank.clone() };
        assert(c@.blocks =~= self@.blocks);
        c
    }
}

impl Blockchain {
    /// Well-formed: the ledger is well-formed and is what the blocks give.
    pub closed spec fn wf(&self) -> bool {
        &&& self.bank.wf()
        &&& consistent(self@)
    }

    /// What well-formedness says of the model.
    pub proof fn lemma_wf(&self)
        requires
            self.wf(),
        ensures
            consistent(self@),
            self@.blocks.len() <= usize::MAX,
    {
        assert(self@.blocks.len() == self.blocks.len());
    }

    /// A branch without blocks.
    pub fn new() -> (c: Blockchain)
        ensures
            c.wf(),
            c@ == (ChainView { blocks: Seq::empty(), ledger: Seq::empty() }),
    {
        let c = Blockchain { blocks: Vec::new(), bank: Bank::new() };
        assert(c@.blocks =~= Seq::<BlockView>::empty());
        c
    }

    /// The number of blocks.
    pub fn len(&self) -> (n: usize)
        ensures
            n == self@.blocks.len(),
    {
        self.blocks.len()
    }

    /// The block at a position.
    pub fn block(&self, i: usize) -> (b: &Block)
        requires
            i < self@.blocks.len(),
        ensures
            b@ == self@.blocks[i as int],
    {
        &self.blocks[i]
    }

    /// The ledger of the branch.
    pub fn bank(&self) -> (bank: &Bank)
        ensures
            bank@ == self@.ledger,
            self.wf() ==> bank.wf(),
    {
        &self.bank
    }

    /// The position of the first block with this identifier.
    pub fn position(&self, id: &ByteHash) -> (r: Option<usize>)
        ensures
            match r {
                Some(i) => is_first_position(self@.blocks, id@, i as int),
                None => !has_block(self@.blocks, id@),
            },
    {
        let mut i: usize = 0;
        while i < self.blocks.len()
            invariant
                i <= self.blocks.len(),
                forall|j: int| 0 <= j < i ==> (#[trigger] self@.blocks[j]).id != id@,
            decreases self.blocks.len() - i,
        {
            proof {
                self.blocks@[i as int].hash.lemma_view(*id);
            }
            if self.blocks[i].hash == *id {
                return Some(i);
            }
            i += 1;
        }
        None
    }

    /// Whether the branch holds a block with this identifier.
    pub fn contains(&self, id: &ByteHash) -> (r: bool)
        ensures
            r == has_block(self@.blocks, id@),
    {
        self.position(id).is_some()
    }

    /// Appends a block if the ledger accepts it. The branch tests neither
    /// that the block names its tip nor the block's difficulty. On failure the
    /// branch stays as it is.
    pub fn append(&mut self, block: &Block) -> (r: Result<(), BankError>)
        requires
            old(self).wf(),
        ensures
            final(self).wf(),
            match appended(old(self)@, block@) {
                Ok(c) => r is Ok && final(self)@ == c,
                Err(e) => r == Err::<(), BankError>(e) && final(self)@ == old(self)@,
            },
    {
        let shared = Rc::new(block.clone());
        self.append_shared(&shared)
    }

    /// Appends a block that other branches may hold too: the branch takes a
    /// reference to the block, not a copy. In all else as `append`.
    pub fn append_shared(&mut self, block: &Rc<Block>) -> (r: Result<(), BankError>)
        requires
            old(self).wf(),
        ensures
            final(self).wf(),
            match appended(old(self)@, (**block)@) {
                Ok(c) => r is Ok && final(self)@ == c,
                Err(e) => r == Err::<(), BankError>(e) && final(self)@ == old(self)@,
            },
    {
        proof {
            self.lemma_wf();
            lemma_replayed_has_room(self@.blocks);
        }
        match self.bank.do_block(block) {
            Err(e) => {
                assert(self@.blocks =~= old(self)@.blocks);
                return Err(e);
            },
            Ok(_) => {},
        }
        self.blocks.push(share(block));
        proof {
            let after = old(self)@.blocks.push((**block)@);
            assert(self@.blocks =~= after);
            assert(after.drop_last() =~= old(self)@.blocks);
        }
        Ok(())
    }

    /// The last block.
    pub fn last_block(&self) -> (b: &Block)
        requires
            self@.blocks.len() > 0,
        ensures
            b@ == self@.blocks.last(),
    {
        &self.blocks[self.blocks.len() - 1]
    }

    /// A new branch that ends with the first block whose identifier is
    /// `last_hash`. Its ledger is a copy of this branch's ledger with the
    /// later blocks rolled back, last block first, and equals what replaying
    /// the shorter history from the empty ledger gives; none of the rollbacks
    /// can fail. Fails `NoAttachPoint` where the branch holds no such block.
    pub fn fork(&self, last_hash: ByteHash) -> (r: Result<Blockchain, BlockchainError>)
        requires
            self.wf(),
        ensures
            match forked(self@, last_hash@) {
                Some(f) => r matches Ok(c) && c.wf() && c@ == f,
                None => r matches Err(e) && e == BlockchainError::NoAttachPoint,
            },
    {
        let at = match self.position(&last_hash) {
            Some(i) => i,
            None => {
                return Err(BlockchainError::NoAttachPoint);
            },
        };
        proof {
            lemma_first_position(self@.blocks, last_hash@, at as int);
        }
        assert(self@.blocks.len() == self.blocks.len());
        let keep = at + 1;
        let mut bank = self.bank.clone();
        let mut k = self.blocks.len();
        assert(self@.blocks.take(k as int) =~= self@.blocks);
        while k > keep
            invariant
                keep <= k <= self.blocks.len(),
                self.wf(),
                bank.wf(),
                replayed(self@.blocks.take(k as int)) == Some(bank@),
            decreases k,
        {
            proof {
                let shorter = self@.blocks.take(k - 1);
                assert(self@.blocks.take(k as int).drop_last() =~= shorter);
                lemma_prefix_replays(self@.blocks, k - 1);
                lemma_applied_all_keeps_well_formed(Seq::<WalletView>::empty(), shorter);
                lemma_rollback_undoes_apply(replayed(shorter).unwrap(), self@.blocks[k - 1]);
            }
            // The block was the last one applied on the way to this ledger, so
            // rolling it back succeeds and gives the ledger before it.
            let undone = bank.undo_block(&self.blocks[k - 1]);
            assert(undone is Ok);
            k -= 1;
        }
        let mut blocks: Vec<Rc<Block>> = Vec::new();
        let mut i: usize = 0;
        while i < keep
            invariant
                i <= keep <= self.blocks.len(),
                blocks@.len() == i,
                forall|j: int| 0 <= j < i ==> blocks@[j] == self.blocks@[j],
            decreases keep - i,
        {
            blocks.push(share(&self.blocks[i]));
            i += 1;
        }
        let c = Blockchain { blocks, bank };
        assert(c@.blocks =~= self@.blocks.take(keep as int));
        Ok(c)
    }

    /// Answers a candidate block with the branch that it needs, if it needs a
    /// new one: none where this branch is empty or the candidate names its
    /// tip; a fork after the block that the candidate names where this branch
    /// holds that block below its tip; `NoAttachPoint` where it does not hold
    /// it at all.
    pub fn fork_if_needed(&self, block: &Block) -> (r: Result<
        Option<Blockchain>,
        BlockchainError,
    >)
        requires
            self.wf(),
        ensures
            match fork_for(self@, block@) {
                Ok(None) => r matches Ok(None),
                Ok(Some(f)) => r matches Ok(Some(c)) && c.wf() && c@ == f,
                Err(e) => r matches Err(x) && x == e,
            },
    {
        let n = self.blocks.len();
        if n == 0 {
            return Ok(None);
        }
        proof {
            self.blocks@[n - 1].hash.lemma_view(block.previous_hash);
        }
        if self.blocks[n - 1].hash == block.previous_hash {
            return Ok(None);
        }
        match self.fork(block.previous_hash) {
            Ok(c) => Ok(Some(c)),
            Err(e) => Err(e),
        }
    }
}

/// Fork and replay agree: the ledger of a fork is the ledger that replaying
/// the fork's blocks from the empty ledger gives, and those blocks are the
/// branch's blocks up to and including the attach point.
pub proof fn lemma_fork_is_replay(c: ChainView, id: Seq<u8>)
    requires
        consistent(c),
        has_block(c.blocks, id),
    ensures
        is_first_position(c.blocks, id, first_position(c.blocks, id)),
        forked(c, id) is Some,
        consistent(forked(c, id).unwrap()),
        forked(c, id).unwrap().blocks == c.blocks.take(first_position(c.blocks, id) + 1),
        forked(c, id).unwrap().blocks.last().id == id,
{
    let some = choose|i: int| 0 <= i < c.blocks.len() && (#[trigger] c.blocks[i]).id == id;
    lemma_first_exists(c.blocks, id, some);
    let at = first_position(c.blocks, id);
    lemma_prefix_replays(c.blocks, at + 1);
}

/// A fork of a linked history is linked, and so is a linked history with a
/// block appended that names its tip.
pub proof fn lemma_linked(blocks: Seq<BlockView>, n: int, b: BlockView)
    requires
        linked(blocks),
        0 <= n <= blocks.len(),
    ensures
        linked(blocks.take(n)),
        blocks.len() == 0 || b.previous_id == blocks.last().id ==> linked(blocks.push(b)),
{
    assert forall|i: int| 0 < i < blocks.take(n).len() implies (#[trigger] blocks.take(
        n,
    )[i]).previous_id == blocks.take(n)[i - 1].id by {
        assert(blocks.take(n)[i] == blocks[i]);
    }
    if blocks.len() == 0 || b.previous_id == blocks.last().id {
        let longer = blocks.push(b);
        assert forall|i: int| 0 < i < longer.len() implies (#[trigger] longer[i]).previous_id
            == longer[i - 1].id by {
            if i < blocks.len() {
                assert(longer[i] == blocks[i]);
            }
        }
    }
}

} // verus!
