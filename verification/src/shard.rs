//! The shard: the live branches of one node. It takes new blocks, keeps
//! track of the leading branch and drops the branches that fall behind.

use crate::branches::{
    any_takes, grown, height, in_place, is_leader, known, leader_of, lemma_leader,
    lemma_none_takes, lemma_sprouted_step, lemma_taken_up_linked, pushed, sprouted, survivors,
    taken_up, ShardView,
};
use crate::block::{Block, BlockView};
use crate::chain::{consistent, has_block, linked, Blockchain, ChainView};
use crate::hash::{meets_difficulty, ByteHash};
use std::rc::Rc;
use vstd::prelude::*;

verus! {

/// Why the shard refused a block.
#[derive(Clone, Copy, Debug, PartialEq, Eq, Structural)]
pub enum ShardError {
    /// Some branch already holds a block with this identifier.
    Duplicate,
    /// No branch accepted the block.
    Rejected,
    /// The block's identifier does not meet the shard's difficulty.
    Difficulty,
}

/// The branches of one node.
#[derive(Debug)]
pub struct Shard {
    lead_idx: Option<usize>,
    chains: Vec<Blockchain>,
    difficulty: usize,
    cleanup_threshold: usize,
}

/// The models of a sequence of branches.
spec fn views(chains: Seq<Blockchain>) -> Seq<ChainView> {
    Seq::new(chains.len(), |i: int| chains[i]@)
}

/// Every branch is well-formed and linked.
spec fn all_sound(chains: Seq<Blockchain>) -> bool {
    forall|i: int|
        0 <= i < chains.len() ==> (#[trigger] chains[i]).wf() && linked(chains[i]@.blocks)
}

/// Some branch before position `n` takes the block.
spec fn takes_before(chains: Seq<ChainView>, b: BlockView, n: int) -> bool {
    exists|j: int| 0 <= j < n && taken_up(#[trigger] chains[j], b) is Some
}

impl View for Shard {
    type V = ShardView;

    closed spec fn view(&self) -> ShardView {
        ShardView {
            chains: views(self.chains@),
            leader: match self.lead_idx {
                Some(i) => Some(i as int),
                None => None,
            },
            difficulty: self.difficulty as nat,
            threshold: self.cleanup_threshold as nat,
        }
    }
}

impl Shard {
    /// Well-formed: every branch is well-formed and linked, and the leader,
    /// if there is one, leads.
    pub closed spec fn wf(&self) -> bool {
        &&& all_sound(self.chains@)
        &&& self.lead_idx matches Some(i) ==> is_leader(views(self.chains@), i as int)
    }

    /// What well-formedness says of the model: every branch's ledger is what
    /// its blocks give, every block but the first of a branch names the block
    /// before it, and the leader is the first of the longest branches.
    pub proof fn lemma_wf(&self)
        requires
            self.wf(),
        ensures
            forall|i: int|
                0 <= i < self@.chains.len() ==> consistent(
                    #[trigger] self@.chains[i],
                ) && linked(self@.chains[i].blocks),
            self@.leader matches Some(i) ==> is_leader(self@.chains, i),
    {
        assert forall|i: int| 0 <= i < self@.chains.len() implies consistent(
            #[trigger] self@.chains[i],
        ) && linked(self@.chains[i].blocks) by {
            assert(self.chains@[i].wf());
            self.chains@[i].lemma_wf();
        }
    }

    /// A shard with one empty branch, no leader, no difficulty, and room for
    /// a branch to trail the leader by three blocks.
    pub fn new() -> (s: Shard)
        ensures
            s.wf(),
            s@ == (ShardView {
                chains: seq![ChainView { blocks: Seq::empty(), ledger: Seq::empty() }],
                leader: None,
                difficulty: 0,
                threshold: 3,
            }),
    {
        Shard::with_config(0, 3)
    }

    /// A shard with one empty branch and no leader, with the difficulty and
    /// the threshold given.
    pub fn with_config(difficulty: usize, cleanup_threshold: usize) -> (s: Shard)
        ensures
            s.wf(),
            s@ == (ShardView {
                chains: seq![ChainView { blocks: Seq::empty(), ledger: Seq::empty() }],
                leader: None,
                difficulty: difficulty as nat,
                threshold: cleanup_threshold as nat,
            }),
    {
        let mut chains: Vec<Blockchain> = Vec::new();
        chains.push(Blockchain::new());
        let s = Shard { chains, lead_idx: None, difficulty, cleanup_threshold };
        assert(s@.chains =~= seq![ChainView { blocks: Seq::empty(), ledger: Seq::empty() }]);
        assert(linked(s.chains@[0]@.blocks));
        s
    }

    /// The position of the leading branch.
    pub fn leader(&self) -> (r: Option<usize>)
        ensures
            match r {
                Some(i) => self@.leader == Some(i as int),
                None => self@.leader is None,
            },
    {
        self.lead_idx
    }

    /// The number of live branches.
    pub fn len(&self) -> (n: usize)
        ensures
            n == self@.chains.len(),
    {
        self.chains.len()
    }

    /// The branch at a position.
    pub fn chain(&self, i: usize) -> (c: &Blockchain)
        requires
            i < self@.chains.len(),
        ensures
            c@ == self@.chains[i as int],
            self.wf() ==> c.wf(),
    {
        &self.chains[i]
    }

    /// The number of leading zero bytes asked of an identifier.
    pub fn difficulty(&self) -> (d: usize)
        ensures
            d == self@.difficulty,
    {
        self.difficulty
    }

    /// How many blocks a branch may trail the leader by.
    pub fn cleanup_threshold(&self) -> (t: usize)
        ensures
            t == self@.threshold,
    {
        self.cleanup_threshold
    }

    /// Whether the block's identifier meets the shard's difficulty.
    pub fn check_difficulty(&self, block: &Block) -> (ok: bool)
        ensures
            ok == meets_difficulty(block@.id, self@.difficulty),
    {
        crate::hash::Hash::from_id(block.hash).check_difficulty(self.difficulty)
    }

    /// Whether some branch holds a block with this identifier.
    pub fn knows(&self, id: &ByteHash) -> (r: bool)
        ensures
            r == known(self@.chains, id@),
    {
        let mut i: usize = 0;
        while i < self.chains.len()
            invariant
                i <= self.chains.len(),
                forall|j: int| 0 <= j < i ==> !has_block((#[trigger] self@.chains[j]).blocks, id@),
            decreases self.chains.len() - i,
        {
            if self.chains[i].contains(id) {
                assert(has_block(self@.chains[i as int].blocks, id@));
                return true;
            }
            i += 1;
        }
        false
    }

    /// The first of the longest branches.
    fn longest(&self) -> (r: Option<usize>)
        ensures
            match r {
                Some(i) => leader_of(views(self.chains@)) == Some(i as int) && is_leader(
                    views(self.chains@),
                    i as int,
                ),
                None => leader_of(views(self.chains@)) is None && self.chains@.len() == 0,
            },
    {
        if self.chains.len() == 0 {
            return None;
        }
        let ghost models = views(self.chains@);
        let mut best: usize = 0;
        let mut top = self.chains[0].len();
        let mut i: usize = 1;
        while i < self.chains.len()
            invariant
                1 <= i <= self.chains.len(),
                models == views(self.chains@),
                best < i,
                top == models[best as int].blocks.len(),
                forall|j: int| 0 <= j < i ==> (#[trigger] models[j]).blocks.len() <= top,
                forall|j: int| 0 <= j < best ==> (#[trigger] models[j]).blocks.len() < top,
            decreases self.chains.len() - i,
        {
            let n = self.chains[i].len();
            assert(n == models[i as int].blocks.len());
            if n > top {
                best = i;
                top = n;
            }
            i += 1;
        }
        proof {
            lemma_leader(models, best as int);
        }
        Some(best)
    }

    /// Makes the first of the longest branches the leader.
    fn update_longest_chain_idx(&mut self)
        requires
            all_sound(old(self).chains@),
        ensures
            final(self).chains == old(self).chains,
            final(self).difficulty == old(self).difficulty,
            final(self).cleanup_threshold == old(self).cleanup_threshold,
            final(self)@.leader == leader_of(views(old(self).chains@)),
            final(self).wf(),
    {
        self.lead_idx = self.longest();
    }

    /// Offers the block to every branch in turn. A branch that the block
    /// extends takes it in place; a branch that holds the block's attach
    /// point below its tip stays as it is, and a fork of it that takes the
    /// block is put behind all the branches there were. The branches that
    /// take the block share it. Says whether any branch took the block; if
    /// none did, nothing has changed.
    fn push_impl(&mut self, block: &Rc<Block>) -> (accepted: bool)
        requires
            all_sound(old(self).chains@),
        ensures
            all_sound(final(self).chains@),
            final(self).lead_idx == old(self).lead_idx,
            final(self).difficulty == old(self).difficulty,
            final(self).cleanup_threshold == old(self).cleanup_threshold,
            accepted == any_takes(views(old(self).chains@), (**block)@),
            views(final(self).chains@) == grown(views(old(self).chains@), (**block)@) + sprouted(
                views(old(self).chains@),
                (**block)@,
            ),
    {
        let ghost before = views(self.chains@);
        let n = self.chains.len();
        let mut new_chains: Vec<Blockchain> = Vec::new();
        let mut accepted = false;
        let mut i: usize = 0;
        assert(before.take(0) =~= Seq::<ChainView>::empty());
        while i < n
            invariant
                i <= n,
                n == self.chains@.len(),
                before.len() == n,
                self.lead_idx == old(self).lead_idx,
                self.difficulty == old(self).difficulty,
                self.cleanup_threshold == old(self).cleanup_threshold,
                all_sound(self.chains@),
                all_sound(new_chains@),
                forall|j: int|
                    0 <= j < i ==> (#[trigger] self.chains@[j])@ == in_place(before[j], (**block)@),
                forall|j: int| i <= j < n ==> (#[trigger] self.chains@[j])@ == before[j],
                views(new_chains@) == sprouted(before.take(i as int), (**block)@),
                accepted == takes_before(before, (**block)@, i as int),
            decreases n - i,
        {
            let ghost c = before[i as int];
            proof {
                assert(self.chains@[i as int]@ == c);
                self.chains@[i as int].lemma_wf();
                lemma_sprouted_step(before, (**block)@, i as int);
                if taken_up(c, (**block)@) is Some {
                    lemma_taken_up_linked(c, (**block)@);
                }
            }
            match self.chains[i].fork_if_needed(block) {
                Ok(None) => {
                    if self.chains[i].append_shared(block).is_ok() {
                        accepted = true;
                    }
                },
                Ok(Some(fork)) => {
                    let mut fork = fork;
                    if fork.append_shared(block).is_ok() {
                        new_chains.push(fork);
                        accepted = true;
                        assert(views(new_chains@) =~= sprouted(
                            before.take(i as int),
                            (**block)@,
                        ).push(taken_up(c, (**block)@).unwrap()));
                    }
                },
                Err(_) => {},
            }
            proof {
                assert(self.chains@[i as int]@ == in_place(c, (**block)@));
                if takes_before(before, (**block)@, i as int) || taken_up(c, (**block)@) is Some {
                    let j = if taken_up(c, (**block)@) is Some {
                        i as int
                    } else {
                        choose|j: int|
                            0 <= j < i && taken_up(#[trigger] before[j], (**block)@) is Some
                    };
                    assert(0 <= j < i + 1 && taken_up(before[j], (**block)@) is Some);
                }
            }
            i += 1;
        }
        proof {
            assert(before.take(n as int) =~= before);
            assert(takes_before(before, (**block)@, n as int) == any_takes(before, (**block)@));
        }
        let ghost grown_now = views(self.chains@);
        let ghost sprouts = views(new_chains@);
        assert(grown_now =~= grown(before, (**block)@));
        self.chains.append(&mut new_chains);
        assert(views(self.chains@) =~= grown_now + sprouts);
        accepted
    }
    /// Removes every branch that trails the leader by more than the
    /// threshold, and finds the leader's new position.
    fn cleanup(&mut self)
        requires
            all_sound(old(self).chains@),
            old(self).lead_idx matches Some(i) && is_leader(views(old(self).chains@), i as int),
        ensures
            final(self).wf(),
            final(self).difficulty == old(self).difficulty,
            final(self).cleanup_threshold == old(self).cleanup_threshold,
            views(final(self).chains@) == survivors(
                views(old(self).chains@),
                height(views(old(self).chains@)),
                old(self).cleanup_threshold as nat,
            ),
            final(self)@.leader == leader_of(views(final(self).chains@)),
    {
        let lead = match self.lead_idx {
            Some(i) => i,
            None => {
                return ;
            },
        };
        let ghost before = views(self.chains@);
        let top = self.chains[lead].len();
        let mut i = self.chains.len();
        proof {
            lemma_leader(before, lead as int);
            assert(before.take(i as int) =~= before);
            assert(before.skip(i as int) =~= Seq::<ChainView>::empty());
            assert(views(self.chains@) =~= before.take(i as int) + survivors(
                before.skip(i as int),
                top as nat,
                self.cleanup_threshold as nat,
            ));
        }
        while i > 0
            invariant
                i <= self.chains@.len(),
                i <= before.len(),
                all_sound(self.chains@),
                top == height(before),
                self.difficulty == old(self).difficulty,
                self.cleanup_threshold == old(self).cleanup_threshold,
                views(self.chains@) == before.take(i as int) + survivors(
                    before.skip(i as int),
                    top as nat,
                    self.cleanup_threshold as nat,
                ),
            decreases i,
        {
            i -= 1;
            let ghost now = views(self.chains@);
            let ghost rest = survivors(
                before.skip(i + 1),
                top as nat,
                self.cleanup_threshold as nat,
            );
            proof {
                assert(now[i as int] == before.take(i + 1)[i as int]);
                assert(before.skip(i as int).drop_first() =~= before.skip(i + 1));
                assert(before.skip(i as int).first() == before[i as int]);
            }
            let n = self.chains[i].len();
            if top > n && top - n > self.cleanup_threshold {
                self.chains.remove(i);
                assert(now == before.take(i + 1) + rest);
                assert(views(self.chains@) =~= now.remove(i as int));
                assert(now.remove(i as int) =~= before.take(i as int) + rest);
            } else {
                assert(now =~= before.take(i as int) + (seq![before[i as int]] + rest));
            }
        }
        proof {
            assert(before.skip(0) =~= before);
            assert(views(self.chains@) =~= survivors(
                before,
                top as nat,
                self.cleanup_threshold as nat,
            ));
        }
        self.lead_idx = self.longest();
    }

    /// Pushes a block. Fails `Duplicate` where some branch holds a block with
    /// its identifier, `Difficulty` where the identifier does not meet the
    /// difficulty, `Rejected` where no branch takes the block; a failed push
    /// changes nothing. Otherwise every branch that the block extends has
    /// taken it in place, the forks that took it stand behind the old
    /// branches, the branches that trail the longest by more than the
    /// threshold are gone, and the leader is the first of the longest.
    pub fn push(&mut self, block: Block) -> (r: Result<(), ShardError>)
        requires
            old(self).wf(),
        ensures
            final(self).wf(),
            match pushed(old(self)@, block@) {
                Ok(s) => r is Ok && final(self)@ == s,
                Err(e) => r == Err::<(), ShardError>(e) && final(self)@ == old(self)@,
            },
    {
        if self.knows(&block.hash) {
            return Err(ShardError::Duplicate);
        }
        if !self.check_difficulty(&block) {
            return Err(ShardError::Difficulty);
        }
        let ghost given = block@;
        let shared = Rc::new(block);
        if !self.push_impl(&shared) {
            proof {
                lemma_none_takes(views(old(self).chains@), given);
                assert(views(self.chains@) =~= views(old(self).chains@));
            }
            return Err(ShardError::Rejected);
        }
        self.update_longest_chain_idx();
        self.cleanup();
        Ok(())
    }
}

} // verus!
