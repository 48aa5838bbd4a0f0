//! The model of a shard: how a block reaches the branches, which branch
//! leads, which branches are dropped, and the laws that follow.

use crate::block::BlockView;
use crate::chain::{
    appended, consistent, first_position, fork_for, forked, has_block, lemma_appended,
    lemma_fork_is_replay, lemma_linked, linked, BlockchainError, ChainView,
};
use crate::hash::meets_difficulty;
use crate::shard::ShardError;
use vstd::prelude::*;

verus! {

/// The model of a shard: its branches in the order in which they came to be,
/// the position of the leader among them, the number of leading zero bytes
/// asked of an identifier, and how far a branch may fall behind the leader.
pub struct ShardView {
    pub chains: Seq<ChainView>,
    pub leader: Option<int>,
    pub difficulty: nat,
    pub threshold: nat,
}

/// Some branch holds a block with this identifier.
pub open spec fn known(chains: Seq<ChainView>, id: Seq<u8>) -> bool {
    exists|i: int| 0 <= i < chains.len() && has_block((#[trigger] chains[i]).blocks, id)
}

/// The branch takes the block by growing a new branch, not by growing
/// itself.
pub open spec fn forks_off(c: ChainView, b: BlockView) -> bool {
    fork_for(c, b) matches Ok(Some(_))
}

/// The branch that holds the block after it was offered to `c`: `c` itself
/// with the block appended, or a fork of `c` with the block appended; nothing
/// where `c` has no attach point for the block or the ledger refuses it.
pub open spec fn taken_up(c: ChainView, b: BlockView) -> Option<ChainView> {
    match fork_for(c, b) {
        Ok(None) => match appended(c, b) {
            Ok(longer) => Some(longer),
            Err(_) => None,
        },
        Ok(Some(f)) => match appended(f, b) {
            Ok(longer) => Some(longer),
            Err(_) => None,
        },
        Err(_) => None,
    }
}

/// What becomes of `c` itself when the block is offered to it.
pub open spec fn in_place(c: ChainView, b: BlockView) -> ChainView {
    if !forks_off(c, b) && taken_up(c, b) is Some {
        taken_up(c, b).unwrap()
    } else {
        c
    }
}

/// The branches after the block was offered to each of them.
pub open spec fn grown(chains: Seq<ChainView>, b: BlockView) -> Seq<ChainView> {
    Seq::new(chains.len(), |i: int| in_place(chains[i], b))
}

/// The new branches that offering the block to each branch gives, in the
/// order of the branches they fork from.
pub open spec fn sprouted(chains: Seq<ChainView>, b: BlockView) -> Seq<ChainView>
    decreases chains.len(),
{
    if chains.len() == 0 {
        Seq::empty()
    } else if forks_off(chains.last(), b) && taken_up(chains.last(), b) is Some {
        sprouted(chains.drop_last(), b).push(taken_up(chains.last(), b).unwrap())
    } else {
        sprouted(chains.drop_last(), b)
    }
}

/// Some branch takes the block.
pub open spec fn any_takes(chains: Seq<ChainView>, b: BlockView) -> bool {
    exists|i: int| 0 <= i < chains.len() && taken_up(#[trigger] chains[i], b) is Some
}

/// The branch at `i` leads: none is longer, and none before it is as long.
pub open spec fn is_leader(chains: Seq<ChainView>, i: int) -> bool {
    &&& 0 <= i < chains.len()
    &&& forall|j: int|
        0 <= j < chains.len() ==> (#[trigger] chains[j]).blocks.len() <= chains[i].blocks.len()
    &&& forall|j: int| 0 <= j < i ==> (#[trigger] chains[j]).blocks.len() < chains[i].blocks.len()
}

/// The position of the leader: the first of the longest branches.
pub open spec fn leader_of(chains: Seq<ChainView>) -> Option<int> {
    if chains.len() == 0 {
        None
    } else {
        Some(choose|i: int| is_leader(chains, i))
    }
}

/// The length of the longest branch.
pub open spec fn height(chains: Seq<ChainView>) -> nat {
    match leader_of(chains) {
        Some(i) => chains[i].blocks.len(),
        None => 0,
    }
}

/// The branch trails a branch of length `top` by more than the threshold.
pub open spec fn stale(c: ChainView, top: nat, threshold: nat) -> bool {
    top - c.blocks.len() > threshold
}

/// The branches that are not stale, in their order.
pub open spec fn survivors(chains: Seq<ChainView>, top: nat, threshold: nat) -> Seq<ChainView>
    decreases chains.len(),
{
    if chains.len() == 0 {
        Seq::empty()
    } else if stale(chains.first(), top, threshold) {
        survivors(chains.drop_first(), top, threshold)
    } else {
        seq![chains.first()] + survivors(chains.drop_first(), top, threshold)
    }
}

/// The shard after a block was pushed, or why the push fails. The tests come
/// in this order: the identifier is new, it meets the difficulty, some branch
/// takes the block. Then every branch has been offered the block, the new
/// branches stand behind the old ones, the stale ones are gone, and the
/// leader is the first of the longest that are left.
pub open spec fn pushed(s: ShardView, b: BlockView) -> Result<ShardView, ShardError> {
    if known(s.chains, b.id) {
        Err(ShardError::Duplicate)
    } else if !meets_difficulty(b.id, s.difficulty) {
        Err(ShardError::Difficulty)
    } else if !any_takes(s.chains, b) {
        Err(ShardError::Rejected)
    } else {
        let all = grown(s.chains, b) + sprouted(s.chains, b);
        let kept = survivors(all, height(all), s.threshold);
        Ok(ShardView { chains: kept, leader: leader_of(kept), ..s })
    }
}

/// There is one leader at most.
pub proof fn lemma_leader(chains: Seq<ChainView>, i: int)
    requires
        is_leader(chains, i),
    ensures
        leader_of(chains) == Some(i),
        height(chains) == chains[i].blocks.len(),
{
    let j = choose|j: int| is_leader(chains, j);
    assert(is_leader(chains, j));
    if j < i {
        assert(chains[j].blocks.len() < chains[i].blocks.len());
        assert(chains[i].blocks.len() <= chains[j].blocks.len());
    } else if i < j {
        assert(chains[i].blocks.len() < chains[j].blocks.len());
        assert(chains[j].blocks.len() <= chains[i].blocks.len());
    }
}

/// Where there are branches, one of them leads.
pub proof fn lemma_leader_exists(chains: Seq<ChainView>)
    requires
        chains.len() > 0,
    ensures
        is_leader(chains, leader_of(chains).unwrap()),
    decreases chains.len(),
{
    if chains.len() == 1 {
        assert(is_leader(chains, 0));
    } else {
        let rest = chains.drop_last();
        lemma_leader_exists(rest);
        let i = leader_of(rest).unwrap();
        let last = chains.len() - 1;
        assert forall|j: int| 0 <= j < last implies #[trigger] chains[j] == rest[j] by {}
        if chains[last].blocks.len() > rest[i].blocks.len() {
            assert forall|j: int| 0 <= j < last implies (#[trigger] chains[j]).blocks.len()
                < chains[last].blocks.len() by {
                assert(rest[j].blocks.len() <= rest[i].blocks.len());
            }
            assert(is_leader(chains, last));
        } else {
            assert forall|j: int| 0 <= j < chains.len() implies (#[trigger] chains[j]).blocks.len()
                <= chains[i].blocks.len() by {
                if j < last {
                    assert(rest[j].blocks.len() <= rest[i].blocks.len());
                }
            }
            assert forall|j: int| 0 <= j < i implies (#[trigger] chains[j]).blocks.len()
                < chains[i].blocks.len() by {
                assert(rest[j].blocks.len() < rest[i].blocks.len());
            }
            assert(is_leader(chains, i));
        }
    }
}

/// Where no branch takes the block, offering it changes nothing.
pub proof fn lemma_none_takes(chains: Seq<ChainView>, b: BlockView)
    requires
        !any_takes(chains, b),
    ensures
        grown(chains, b) == chains,
        sprouted(chains, b) == Seq::<ChainView>::empty(),
    decreases chains.len(),
{
    assert forall|i: int| 0 <= i < chains.len() implies in_place(chains[i], b) == chains[i] by {
        assert(taken_up(chains[i], b) is None);
    }
    assert(grown(chains, b) =~= chains);
    if chains.len() > 0 {
        assert forall|i: int| 0 <= i < chains.drop_last().len() implies taken_up(
            #[trigger] chains.drop_last()[i],
            b,
        ) is None by {
            assert(chains.drop_last()[i] == chains[i]);
            assert(taken_up(chains[i], b) is None);
        }
        lemma_none_takes(chains.drop_last(), b);
        assert(taken_up(chains[chains.len() - 1], b) is None);
    }
}

/// A branch that is not stale is among the survivors.
pub proof fn lemma_survivor(chains: Seq<ChainView>, top: nat, threshold: nat, i: int)
    requires
        0 <= i < chains.len(),
        !stale(chains[i], top, threshold),
    ensures
        exists|k: int|
            0 <= k < survivors(chains, top, threshold).len() && #[trigger] survivors(
                chains,
                top,
                threshold,
            )[k] == chains[i],
    decreases chains.len(),
{
    let kept = survivors(chains, top, threshold);
    let rest = survivors(chains.drop_first(), top, threshold);
    if i == 0 {
        assert(kept[0] == chains[0]);
    } else {
        lemma_survivor(chains.drop_first(), top, threshold, i - 1);
        let k = choose|k: int|
            0 <= k < rest.len() && #[trigger] rest[k] == chains.drop_first()[i - 1];
        if stale(chains.first(), top, threshold) {
            assert(kept[k] == chains[i]);
        } else {
            assert(kept[k + 1] == chains[i]);
        }
    }
}

/// The leader is never dropped: it is among the survivors of its own height,
/// whatever the threshold.
pub proof fn lemma_leader_survives(chains: Seq<ChainView>, threshold: nat)
    requires
        chains.len() > 0,
    ensures
        exists|k: int|
            0 <= k < survivors(chains, height(chains), threshold).len() && #[trigger] survivors(
                chains,
                height(chains),
                threshold,
            )[k] == chains[leader_of(chains).unwrap()],
{
    lemma_leader_exists(chains);
    lemma_survivor(chains, height(chains), threshold, leader_of(chains).unwrap());
}

/// A fork that takes the block is among the new branches.
pub proof fn lemma_sprout(chains: Seq<ChainView>, b: BlockView, i: int)
    requires
        0 <= i < chains.len(),
        forks_off(chains[i], b),
        taken_up(chains[i], b) is Some,
    ensures
        exists|k: int|
            0 <= k < sprouted(chains, b).len() && #[trigger] sprouted(chains, b)[k] == taken_up(
                chains[i],
                b,
            ).unwrap(),
    decreases chains.len(),
{
    let new = sprouted(chains, b);
    if i == chains.len() - 1 {
        assert(new[new.len() - 1] == taken_up(chains[i], b).unwrap());
    } else {
        lemma_sprout(chains.drop_last(), b, i);
        let k = choose|k: int|
            0 <= k < sprouted(chains.drop_last(), b).len() && #[trigger] sprouted(
                chains.drop_last(),
                b,
            )[k] == taken_up(chains.drop_last()[i], b).unwrap();
        assert(new[k] == taken_up(chains[i], b).unwrap());
    }
}

/// After a push the shard holds the block, if one of the branches that took
/// it is not stale at once.
pub proof fn lemma_pushed_block_is_known(s: ShardView, b: BlockView, i: int)
    requires
        pushed(s, b) is Ok,
        0 <= i < s.chains.len(),
        taken_up(s.chains[i], b) is Some,
        !stale(
            taken_up(s.chains[i], b).unwrap(),
            height(grown(s.chains, b) + sprouted(s.chains, b)),
            s.threshold,
        ),
    ensures
        known(pushed(s, b).unwrap().chains, b.id),
{
    let all = grown(s.chains, b) + sprouted(s.chains, b);
    let t = taken_up(s.chains[i], b).unwrap();
    let kept = survivors(all, height(all), s.threshold);
    let j = if forks_off(s.chains[i], b) {
        lemma_sprout(s.chains, b, i);
        let k = choose|k: int|
            0 <= k < sprouted(s.chains, b).len() && #[trigger] sprouted(s.chains, b)[k] == t;
        s.chains.len() + k
    } else {
        i
    };
    assert(all[j] == t);
    lemma_survivor(all, height(all), s.threshold, j);
    let k = choose|k: int| 0 <= k < kept.len() && #[trigger] kept[k] == all[j];
    match fork_for(s.chains[i], b) {
        Ok(None) => {
            lemma_appended(s.chains[i], b);
        },
        Ok(Some(f)) => {
            lemma_appended(f, b);
        },
        Err(_) => {},
    }
    assert(t.blocks[t.blocks.len() - 1].id == b.id);
    assert(has_block(kept[k].blocks, b.id));
}

/// Pushing a block that the shard holds is refused as a duplicate, whatever
/// else the block says: a block that was pushed, and that the shard still
/// holds, cannot be pushed again.
pub proof fn lemma_pushed_twice(s: ShardView, b: BlockView, again: BlockView)
    requires
        pushed(s, b) is Ok,
        known(pushed(s, b).unwrap().chains, b.id),
        again.id == b.id,
    ensures
        pushed(pushed(s, b).unwrap(), again) == Err::<ShardView, ShardError>(ShardError::Duplicate),
{
}

/// Offering a block to a linked branch gives linked branches.
pub proof fn lemma_taken_up_linked(c: ChainView, b: BlockView)
    requires
        linked(c.blocks),
        consistent(c),
        taken_up(c, b) is Some,
    ensures
        linked(taken_up(c, b).unwrap().blocks),
{
    if c.blocks.len() == 0 || c.blocks.last().id == b.previous_id {
        assert(fork_for(c, b) == Ok::<Option<ChainView>, BlockchainError>(None));
        lemma_appended(c, b);
        lemma_linked(c.blocks, 0, b);
    } else {
        assert(has_block(c.blocks, b.previous_id));
        lemma_fork_is_replay(c, b.previous_id);
        let f = forked(c, b.previous_id).unwrap();
        assert(fork_for(c, b) == Ok::<Option<ChainView>, BlockchainError>(Some(f)));
        let n = first_position(c.blocks, b.previous_id) + 1;
        lemma_linked(c.blocks, n, b);
        lemma_appended(f, b);
        lemma_linked(f.blocks, 0, b);
    }
}

/// The new branches of a longer sequence of branches.
pub proof fn lemma_sprouted_step(chains: Seq<ChainView>, b: BlockView, n: int)
    requires
        0 <= n < chains.len(),
    ensures
        sprouted(chains.take(n + 1), b) == if forks_off(chains[n], b) && taken_up(chains[n], b)
            is Some {
            sprouted(chains.take(n), b).push(taken_up(chains[n], b).unwrap())
        } else {
            sprouted(chains.take(n), b)
        },
{
    assert(chains.take(n + 1).drop_last() =~= chains.take(n));
    assert(chains.take(n + 1).last() == chains[n]);
}

/// The block extends the branch: the branch is empty, or the block names its
/// tip.
pub open spec fn extends(c: ChainView, b: BlockView) -> bool {
    c.blocks.len() == 0 || c.blocks.last().id == b.previous_id
}

/// Dropping the stale branches of two runs of branches, one after the other,
/// is dropping them from each run.
pub proof fn lemma_survivors_concat(
    first: Seq<ChainView>,
    second: Seq<ChainView>,
    top: nat,
    threshold: nat,
)
    ensures
        survivors(first + second, top, threshold) == survivors(first, top, threshold) + survivors(
            second,
            top,
            threshold,
        ),
    decreases first.len(),
{
    if first.len() == 0 {
        assert(first + second =~= second);
        assert(survivors(first, top, threshold) + survivors(second, top, threshold) =~= survivors(
            second,
            top,
            threshold,
        ));
    } else {
        let both = first + second;
        assert(both.first() == first.first());
        assert(both.drop_first() =~= first.drop_first() + second);
        lemma_survivors_concat(first.drop_first(), second, top, threshold);
        let rest = survivors(first.drop_first(), top, threshold);
        let tail = survivors(second, top, threshold);
        if !stale(first.first(), top, threshold) {
            assert(seq![first.first()] + (rest + tail) =~= (seq![first.first()] + rest) + tail);
        }
    }
}

/// Every survivor was there before and is not stale.
pub proof fn lemma_survivors_are_fresh(chains: Seq<ChainView>, top: nat, threshold: nat, m: int)
    requires
        0 <= m < survivors(chains, top, threshold).len(),
    ensures
        !stale(survivors(chains, top, threshold)[m], top, threshold),
        exists|j: int|
            0 <= j < chains.len() && #[trigger] chains[j] == survivors(chains, top, threshold)[m],
    decreases chains.len(),
{
    let kept = survivors(chains, top, threshold);
    let rest = survivors(chains.drop_first(), top, threshold);
    if stale(chains.first(), top, threshold) {
        lemma_survivors_are_fresh(chains.drop_first(), top, threshold, m);
        let j = choose|j: int|
            0 <= j < chains.drop_first().len() && #[trigger] chains.drop_first()[j] == rest[m];
        assert(chains[j + 1] == kept[m]);
    } else if m == 0 {
        assert(chains[0] == kept[0]);
    } else {
        lemma_survivors_are_fresh(chains.drop_first(), top, threshold, m - 1);
        let j = choose|j: int|
            0 <= j < chains.drop_first().len() && #[trigger] chains.drop_first()[j] == rest[m - 1];
        assert(kept[m] == rest[m - 1]);
        assert(chains[j + 1] == kept[m]);
    }
}

/// A fork with the block on it is no longer than the branch it forks from.
pub proof fn lemma_fork_is_no_longer(c: ChainView, b: BlockView)
    requires
        forks_off(c, b),
        taken_up(c, b) is Some,
    ensures
        taken_up(c, b).unwrap().blocks.len() <= c.blocks.len(),
{
    let f = forked(c, b.previous_id).unwrap();
    let some = choose|i: int|
        0 <= i < c.blocks.len() && (#[trigger] c.blocks[i]).id == b.previous_id;
    crate::chain::lemma_first_exists(c.blocks, b.previous_id, some);
    let at = first_position(c.blocks, b.previous_id);
    assert(c.blocks[at].id == b.previous_id);
    assert(at != c.blocks.len() - 1);
    lemma_appended(f, b);
}

/// Where no branch is longer than `limit`, no new branch is.
pub proof fn lemma_sprouted_are_no_longer(chains: Seq<ChainView>, b: BlockView, limit: nat)
    requires
        forall|j: int| 0 <= j < chains.len() ==> (#[trigger] chains[j]).blocks.len() <= limit,
    ensures
        forall|m: int|
            0 <= m < sprouted(chains, b).len() ==> (#[trigger] sprouted(chains, b)[m]).blocks.len()
                <= limit,
    decreases chains.len(),
{
    if chains.len() > 0 {
        let rest = chains.drop_last();
        assert forall|j: int| 0 <= j < rest.len() implies (#[trigger] rest[j]).blocks.len()
            <= limit by {
            assert(rest[j] == chains[j]);
        }
        lemma_sprouted_are_no_longer(rest, b, limit);
        let last = chains.last();
        assert(last == chains[chains.len() - 1]);
        let new = sprouted(chains, b);
        let old = sprouted(rest, b);
        if forks_off(last, b) && taken_up(last, b) is Some {
            lemma_fork_is_no_longer(last, b);
            assert forall|m: int| 0 <= m < new.len() implies (#[trigger] new[m]).blocks.len()
                <= limit by {
                if m < old.len() {
                    assert(new[m] == old[m]);
                }
            }
        } else {
            assert(new == old);
        }
    }
}

/// What is asked of a block that is to make one branch the longest: the
/// block is new and meets the difficulty; the branch at `i` is among the
/// longest; the block extends it and its ledger accepts the block; and the
/// block extends no other branch.
pub open spec fn extends_only(s: ShardView, b: BlockView, i: int) -> bool {
    &&& !known(s.chains, b.id)
    &&& meets_difficulty(b.id, s.difficulty)
    &&& 0 <= i < s.chains.len()
    &&& forall|j: int|
        0 <= j < s.chains.len() ==> (#[trigger] s.chains[j]).blocks.len()
            <= s.chains[i].blocks.len()
    &&& extends(s.chains[i], b)
    &&& appended(s.chains[i], b) is Ok
    &&& forall|j: int| 0 <= j < s.chains.len() && j != i ==> !extends(#[trigger] s.chains[j], b)
}

/// All branches after the block was offered, where it extends the branch at
/// `i` only: the branch at `i` is one block longer and the longest of all,
/// every other old branch is as it was, and no new branch is longer than the
/// branch at `i` was.
proof fn lemma_extension_grows(s: ShardView, b: BlockView, i: int)
    requires
        extends_only(s, b, i),
    ensures
        any_takes(s.chains, b),
        ({
            let all = grown(s.chains, b) + sprouted(s.chains, b);
            let longer = appended(s.chains[i], b).unwrap();
            &&& longer.blocks == s.chains[i].blocks.push(b)
            &&& all.len() >= s.chains.len()
            &&& all[i] == longer
            &&& forall|j: int|
                0 <= j < s.chains.len() && j != i ==> #[trigger] all[j] == s.chains[j]
            &&& forall|j: int|
                0 <= j < all.len() && j != i ==> (#[trigger] all[j]).blocks.len()
                    < longer.blocks.len()
            &&& is_leader(all, i)
            &&& height(all) == longer.blocks.len()
        }),
{
    let all = grown(s.chains, b) + sprouted(s.chains, b);
    let n = s.chains[i].blocks.len();
    let longer = appended(s.chains[i], b).unwrap();
    lemma_appended(s.chains[i], b);
    assert(fork_for(s.chains[i], b) == Ok::<Option<ChainView>, BlockchainError>(None));
    assert(taken_up(s.chains[i], b) == Some(longer));
    assert(all[i] == in_place(s.chains[i], b));
    assert forall|j: int| 0 <= j < s.chains.len() && j != i implies #[trigger] all[j]
        == s.chains[j] by {
        assert(!extends(s.chains[j], b));
        assert(all[j] == in_place(s.chains[j], b));
    }
    lemma_sprouted_are_no_longer(s.chains, b, n);
    assert forall|j: int| 0 <= j < all.len() && j != i implies (#[trigger] all[j]).blocks.len()
        < longer.blocks.len() by {
        if j < s.chains.len() {
            assert(all[j] == s.chains[j]);
            assert(s.chains[j].blocks.len() <= n);
        } else {
            assert(all[j] == sprouted(s.chains, b)[j - s.chains.len()]);
        }
    }
    assert(is_leader(all, i));
    lemma_leader(all, i);
}

/// What a push gives once its three tests are passed.
pub proof fn lemma_pushed_ok(s: ShardView, b: BlockView)
    requires
        !known(s.chains, b.id),
        meets_difficulty(b.id, s.difficulty),
        any_takes(s.chains, b),
    ensures
        pushed(s, b) is Ok,
        ({
            let all = grown(s.chains, b) + sprouted(s.chains, b);
            let after = pushed(s, b).unwrap();
            &&& after.chains == survivors(all, height(all), s.threshold)
            &&& after.leader == leader_of(after.chains)
            &&& after.difficulty == s.difficulty
            &&& after.threshold == s.threshold
        }),
{
}

/// A branch that is not stale survives alone.
proof fn lemma_survivors_single(c: ChainView, top: nat, threshold: nat)
    requires
        !stale(c, top, threshold),
    ensures
        survivors(seq![c], top, threshold) == seq![c],
{
    let none = Seq::<ChainView>::empty();
    assert(seq![c].first() == c);
    assert(seq![c].drop_first() =~= none);
    assert(survivors(none, top, threshold) =~= none);
    assert(seq![c] + none =~= seq![c]);
}

/// A branch that is strictly longer than every other survives with its own
/// length as the height, leads the survivors, and is strictly longer than
/// every other of them.
pub proof fn lemma_longest_leads_survivors(all: Seq<ChainView>, i: int, threshold: nat)
    requires
        0 <= i < all.len(),
        forall|j: int|
            0 <= j < all.len() && j != i ==> (#[trigger] all[j]).blocks.len()
                < all[i].blocks.len(),
    ensures
        ({
            let kept = survivors(all, all[i].blocks.len(), threshold);
            &&& leader_of(kept) is Some
            &&& 0 <= leader_of(kept).unwrap() < kept.len()
            &&& kept[leader_of(kept).unwrap()] == all[i]
            &&& forall|m: int|
                0 <= m < kept.len() && m != leader_of(kept).unwrap() ==> (
                #[trigger] kept[m]).blocks.len() < all[i].blocks.len()
        }),
{
    let longest = all[i];
    let top = longest.blocks.len();
    let before = all.take(i);
    let behind = all.skip(i + 1);
    let kept = survivors(all, top, threshold);
    let kept_before = survivors(before, top, threshold);
    let kept_behind = survivors(behind, top, threshold);
    assert(all =~= before + (seq![longest] + behind));
    lemma_survivors_concat(before, seq![longest] + behind, top, threshold);
    lemma_survivors_concat(seq![longest], behind, top, threshold);
    lemma_survivors_single(longest, top, threshold);
    assert(kept == kept_before + (seq![longest] + kept_behind));
    let k = kept_before.len() as int;
    assert(kept[k] == longest);
    assert forall|m: int| 0 <= m < kept.len() && m != k implies (#[trigger] kept[m]).blocks.len()
        < top by {
        if m < k {
            assert(kept[m] == kept_before[m]);
            lemma_survivors_are_fresh(before, top, threshold, m);
            let j = choose|j: int| 0 <= j < before.len() && #[trigger] before[j] == kept_before[m];
            assert(before[j] == all[j]);
        } else {
            let m2 = m - k - 1;
            assert(kept[m] == kept_behind[m2]);
            lemma_survivors_are_fresh(behind, top, threshold, m2);
            let j = choose|j: int|
                0 <= j < behind.len() && #[trigger] behind[j] == kept_behind[m2];
            assert(behind[j] == all[i + 1 + j]);
        }
    }
    assert(is_leader(kept, k));
    lemma_leader(kept, k);
}

/// A block that extends one of the longest branches, and no other branch,
/// makes that branch the leader: the push succeeds, the leader is that branch
/// with the block appended, and every other branch that is left is strictly
/// shorter.
pub proof fn lemma_extension_leads(s: ShardView, b: BlockView, i: int)
    requires
        extends_only(s, b, i),
    ensures
        pushed(s, b) is Ok,
        ({
            let after = pushed(s, b).unwrap();
            let longer = appended(s.chains[i], b).unwrap();
            &&& longer.blocks == s.chains[i].blocks.push(b)
            &&& after.leader is Some
            &&& 0 <= after.leader.unwrap() < after.chains.len()
            &&& after.chains[after.leader.unwrap()] == longer
            &&& forall|m: int|
                0 <= m < after.chains.len() && m != after.leader.unwrap() ==> (
                #[trigger] after.chains[m]).blocks.len() < longer.blocks.len()
        }),
{
    lemma_extension_grows(s, b, i);
    lemma_pushed_ok(s, b);
    let all = grown(s.chains, b) + sprouted(s.chains, b);
    lemma_longest_leads_survivors(all, i, s.threshold);
}

/// Eviction after such a block: another branch is still there, as it was, if
/// it trails the grown branch by no more than the threshold, and is gone if
/// it trails it by more.
pub proof fn lemma_extension_evicts(s: ShardView, b: BlockView, i: int, j: int)
    requires
        extends_only(s, b, i),
        0 <= j < s.chains.len(),
        j != i,
    ensures
        pushed(s, b) is Ok,
        ({
            let after = pushed(s, b).unwrap();
            let top = s.chains[i].blocks.len() + 1;
            if top - s.chains[j].blocks.len() > s.threshold {
                forall|m: int|
                    0 <= m < after.chains.len() ==> #[trigger] after.chains[m] != s.chains[j]
            } else {
                exists|m: int|
                    0 <= m < after.chains.len() && #[trigger] after.chains[m] == s.chains[j]
            }
        }),
{
    lemma_extension_grows(s, b, i);
    lemma_pushed_ok(s, b);
    let all = grown(s.chains, b) + sprouted(s.chains, b);
    let after = pushed(s, b).unwrap();
    let top = height(all);
    let kept = survivors(all, top, s.threshold);
    assert(after.chains == kept);
    assert(top == s.chains[i].blocks.len() + 1);
    assert(all[j] == s.chains[j]);
    if top - s.chains[j].blocks.len() > s.threshold {
        assert(stale(s.chains[j], top, s.threshold));
        assert forall|m: int| 0 <= m < kept.len() implies #[trigger] kept[m] != s.chains[j] by {
            lemma_survivors_are_fresh(all, top, s.threshold, m);
        }
    } else {
        assert(!stale(all[j], top, s.threshold));
        lemma_survivor(all, top, s.threshold, j);
        let k = choose|k: int| 0 <= k < kept.len() && #[trigger] kept[k] == all[j];
        assert(after.chains[k] == s.chains[j]);
    }
}

} // verus!
