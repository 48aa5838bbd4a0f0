//! Proof of work: the search for a nonce that gives a block an identifier of
//! the shard's difficulty.

use crate::block::{block_id, Block, BlockView};
use crate::hash::meets_difficulty;
use crate::shard::Shard;
use std::time::{Duration, Instant};
use vstd::prelude::*;

verus! {

/// Why mining gave up.
#[derive(Clone, Copy, Debug, PartialEq, Eq, Structural)]
pub enum MiningError {
    /// The search ran longer than `MAX_SECONDS`, or no nonce is left to try.
    MaxTimeExceeded,
}

/// The time that one search may take, in seconds.
pub const MAX_SECONDS: u64 = 5;

/// The nanoseconds in a second.
pub const NANOS_PER_SECOND: u128 = 1_000_000_000;

/// A point in time of the standard library's clock, carried from the start
/// of a search to each reading of the time gone by.
#[verifier::external_type_specification]
#[verifier::external_body]
pub struct ExInstant(Instant);

/// The clock of the standard library. Nothing is known of what it shows.
pub assume_specification[ Instant::now ]() -> Instant;

/// The time gone by since an instant. Nothing is known of its length.
pub assume_specification[ Instant::elapsed ](start: &Instant) -> Duration;

/// The nanoseconds of a duration. Nothing is said of their number.
pub assume_specification[ Duration::as_nanos ](d: &Duration) -> u128;

/// Whether a search that has run for this many nanoseconds is over time: it
/// is as soon as it has run for more than `MAX_SECONDS`.
pub fn deadline_passed(elapsed_nanos: u128) -> (over: bool)
    ensures
        over == (elapsed_nanos > MAX_SECONDS * NANOS_PER_SECOND),
{
    elapsed_nanos > (MAX_SECONDS as u128) * NANOS_PER_SECOND
}

/// The nonce to try after one that failed, given the nanoseconds that the
/// search has run: none once the search is over time or the nonces have run
/// out, else the next.
pub fn next_attempt(attempt: u64, elapsed_nanos: u128) -> (next: Option<u64>)
    ensures
        next == if elapsed_nanos > MAX_SECONDS * NANOS_PER_SECOND || attempt == u64::MAX {
            None
        } else {
            Some((attempt + 1) as u64)
        },
{
    if deadline_passed(elapsed_nanos) || attempt == u64::MAX {
        None
    } else {
        Some(attempt + 1)
    }
}

/// The block with this nonce meets the difficulty.
pub open spec fn nonce_works(b: BlockView, nonce: u64, difficulty: nat) -> bool {
    meets_difficulty(block_id(b.previous_id, nonce, b.payload), difficulty)
}

/// What a mined block is to the block that was given: the same block but for
/// nonce and identifier, with the identifier that its content gives it, with
/// an identifier of the difficulty asked for, and with the least nonce that
/// does so.
pub open spec fn mined_from(mined: BlockView, given: BlockView, difficulty: nat) -> bool {
    &&& mined == (BlockView { id: mined.id, nonce: mined.nonce, ..given })
    &&& mined.sealed()
    &&& meets_difficulty(mined.id, difficulty)
    &&& forall|n: u64| n < mined.nonce ==> !nonce_works(given, n, difficulty)
}

/// Searches for the least nonce that gives the block an identifier of the
/// shard's difficulty, trying 0, 1, 2 and so on. The clock is read after each
/// nonce that fails: the search gives up once it is over time. A block that
/// comes back is never short of the difficulty, and a block whose nonce 0
/// works always comes back.
pub fn mine_block(shard: &Shard, block: Block) -> (r: Result<Block, MiningError>)
    ensures
        r matches Ok(mined) ==> mined_from(mined@, block@, shard@.difficulty),
        nonce_works(block@, 0, shard@.difficulty) ==> r is Ok,
{
    let start = Instant::now();
    let mut candidate = block;
    let mut attempt: u64 = 0;
    loop
        invariant
            candidate@ == (BlockView { id: candidate@.id, nonce: candidate@.nonce, ..block@ }),
            forall|n: u64| n < attempt ==> !nonce_works(block@, n, shard@.difficulty),
        decreases u64::MAX - attempt,
    {
        candidate.update_nonce(attempt);
        if shard.check_difficulty(&candidate) {
            return Ok(candidate);
        }
        assert(!nonce_works(block@, attempt, shard@.difficulty));
        match next_attempt(attempt, start.elapsed().as_nanos()) {
            Some(next) => {
                attempt = next;
            },
            None => {
                return Err(MiningError::MaxTimeExceeded);
            },
        }
    }
}

} // verus!
