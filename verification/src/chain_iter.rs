//! A cursor over the blocks of a branch, from either end.

use crate::block::{Block, BlockView};
use crate::chain::Blockchain;
use vstd::prelude::*;

verus! {

/// A cursor over a branch. Walking forward starts at the first block.
/// Walking backward starts behind the last block, wherever the cursor stood
/// before its first step back.
pub struct BlockchainIterator<'a> {
    idx: usize,
    first_call: bool,
    chain: &'a Blockchain,
}

impl<'a> BlockchainIterator<'a> {
    /// The cursor never stands behind the end of the branch.
    #[verifier::type_invariant]
    spec fn within(&self) -> bool {
        self.idx <= self.chain@.blocks.len()
    }

    /// The blocks that the cursor walks over.
    pub closed spec fn blocks(&self) -> Seq<BlockView> {
        self.chain@.blocks
    }

    /// The position of the cursor: the number of blocks before it.
    pub closed spec fn position(&self) -> nat {
        self.idx as nat
    }

    /// The cursor has not stepped back yet.
    pub closed spec fn fresh(&self) -> bool {
        self.first_call
    }

    /// A cursor before the first block of a branch.
    pub fn new(chain: &'a Blockchain) -> (it: BlockchainIterator<'a>)
        ensures
            it.blocks() == chain@.blocks,
            it.position() == 0,
            it.fresh(),
    {
        BlockchainIterator { chain, idx: 0, first_call: true }
    }

    /// The block at the cursor, and the cursor one block further; nothing
    /// where no block is left.
    pub fn next(&mut self) -> (r: Option<&'a Block>)
        ensures
            final(self).blocks() == old(self).blocks(),
            final(self).fresh() == old(self).fresh(),
            ({
                let blocks = old(self).blocks();
                let at = old(self).position();
                match r {
                    Some(b) => {
                        &&& at < blocks.len()
                        &&& b@ == blocks[at as int]
                        &&& final(self).position() == at + 1
                    },
                    None => at >= blocks.len() && final(self).position() == at,
                }
            }),
    {
        if self.chain.len() <= self.idx {
            None
        } else {
            self.idx += 1;
            Some(self.chain.block(self.idx - 1))
        }
    }

    /// The number of blocks in the branch.
    pub fn count(self) -> (n: usize)
        ensures
            n == self.blocks().len(),
    {
        self.chain.len()
    }

    /// The last block of the branch.
    pub fn last(self) -> (r: Option<&'a Block>)
        ensures
            match r {
                Some(b) => self.blocks().len() > 0 && b@ == self.blocks().last(),
                None => self.blocks().len() == 0,
            },
    {
        let n = self.chain.len();
        if n == 0 {
            None
        } else {
            Some(self.chain.block(n - 1))
        }
    }

    /// The block at position `n` of the branch; the cursor stays.
    pub fn nth(&mut self, n: usize) -> (r: Option<&'a Block>)
        ensures
            final(self).blocks() == old(self).blocks(),
            final(self).position() == old(self).position(),
            final(self).fresh() == old(self).fresh(),
            match r {
                Some(b) => n < old(self).blocks().len() && b@ == old(self).blocks()[n as int],
                None => n >= old(self).blocks().len(),
            },
    {
        if n < self.chain.len() {
            Some(self.chain.block(n))
        } else {
            None
        }
    }

    /// The block before the cursor, and the cursor one block back; nothing
    /// where the cursor stands before the first block. The first step back
    /// starts behind the last block.
    pub fn next_back(&mut self) -> (r: Option<&'a Block>)
        ensures
            final(self).blocks() == old(self).blocks(),
            !final(self).fresh(),
            ({
                let from: int = if old(self).fresh() {
                    old(self).blocks().len() as int
                } else {
                    old(self).position() as int
                };
                match r {
                    Some(b) => {
                        &&& from > 0
                        &&& b@ == old(self).blocks()[from - 1]
                        &&& final(self).position() == from - 1
                    },
                    None => from == 0 && final(self).position() == 0,
                }
            }),
    {
        proof {
            use_type_invariant(&*self);
        }
        if self.first_call {
            self.idx = self.chain.len();
            self.first_call = false;
        }
        if self.idx == 0 {
            None
        } else {
            self.idx -= 1;
            Some(self.chain.block(self.idx))
        }
    }
}

} // verus!
