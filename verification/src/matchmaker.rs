use vstd::prelude::*;

use crate::clock::{seconds_between, Timestamp};
use crate::match_pool::{drawn_ids, fresh_results, is_block_match, stamped_at, MatchPool};
use crate::models::{all_ranks_seq, rank_index, MatchResult, MatchResultView, Rank, RANK_COUNT};

verus! {

/// Seconds that a recorded match is kept.
pub const RESULT_RETENTION_SECONDS: u64 = 300;

/// The identifiers that a matching round takes from the queue of `r`: the
/// players of its whole blocks of ten.
pub open spec fn round_drawn(pool: MatchPool, r: Rank) -> Set<u128> {
    drawn_ids(pool.queue(r), 10 * (pool.queue(r).len() as int / 10))
}

/// The identifiers that a matching round takes from the queues of the first
/// `i` tiers.
pub open spec fn drawn_upto(pool: MatchPool, i: int) -> Set<u128> {
    Set::new(
        |id: u128|
            exists|j: int| 0 <= j < i && #[trigger] round_drawn(pool, all_ranks_seq()[j]).contains(id),
    )
}

proof fn lemma_all_ranks_index(r: Rank)
    ensures
        all_ranks_seq()[rank_index(r) as int] == r,
        0 <= rank_index(r) < RANK_COUNT,
{
}

proof fn lemma_all_ranks_distinct(i: int, j: int)
    requires
        0 <= i < RANK_COUNT,
        0 <= j < RANK_COUNT,
        i != j,
    ensures
        all_ranks_seq()[i] != all_ranks_seq()[j],
{
}

/// `m` is what a matching round over all tiers, with `rounds` the matches of
/// each tier, makes of the recorded matches of `pre`: every player drawn in
/// the round maps to the match of its block, and every other entry of `pre`
/// stays.
pub open spec fn round_recorded(
    pre: MatchPool,
    rounds: Seq<(Rank, Vec<MatchResult>)>,
    m: Map<u128, MatchResultView>,
) -> bool {
    let drawn = drawn_upto(pre, RANK_COUNT as int);
    &&& forall|id: u128| #[trigger]
        m.contains_key(id) <==> (pre.results().contains_key(id) || drawn.contains(id))
    &&& forall|id: u128|
        pre.results().contains_key(id) && !drawn.contains(id) ==> #[trigger] m[id]
            == pre.results()[id]
    &&& forall|i: int, p: int|
        0 <= i < RANK_COUNT && 0 <= p < 10 * (pre.queue(all_ranks_seq()[i]).len() as int / 10)
            ==> m[#[trigger] pre.queue(all_ranks_seq()[i])[p].player.id] == rounds[i].1@[p / 10]@
}

/// `post` is `pre` after one matchmaking round at the clock reading `now`,
/// with `rounds` the matches of each tier in ascending tier order: every
/// tier's whole blocks of ten were matched and stamped with `now`, the
/// matched players left the queues and the index, and the recorded matches
/// are those of the round's outcome that are fresh at `now`, which keeps
/// every match of this round.
pub open spec fn tick_outcome(
    pre: MatchPool,
    post: MatchPool,
    rounds: Seq<(Rank, Vec<MatchResult>)>,
    now: Timestamp,
) -> bool {
    &&& rounds.len() == RANK_COUNT
    &&& forall|i: int|
        0 <= i < RANK_COUNT ==> {
            let r = all_ranks_seq()[i];
            let q = pre.queue(r);
            &&& (#[trigger] rounds[i]).0 == r
            &&& rounds[i].1@.len() == q.len() / 10
            &&& forall|b: int|
                0 <= b < q.len() / 10 ==> is_block_match(q, b, #[trigger] rounds[i].1@[b]@)
            &&& stamped_at(rounds[i].1@, now)
        }
    &&& forall|r: Rank|
        #[trigger] post.queue(r) == pre.queue(r).skip(10 * (pre.queue(r).len() as int / 10))
    &&& post.index() == pre.index().remove_keys(drawn_upto(pre, RANK_COUNT as int))
    &&& exists|m: Map<u128, MatchResultView>|
        round_recorded(pre, rounds, m) && post.results() == #[trigger] fresh_results(
            m,
            now,
            RESULT_RETENTION_SECONDS,
        )
    &&& forall|id: u128| #[trigger]
        drawn_upto(pre, RANK_COUNT as int).contains(id) ==> post.results().contains_key(id)
}

/// One matchmaking round by the clock: matches are made in every tier, in
/// ascending tier order, and then the recorded matches older than the
/// retention time are dropped. Returns the matches of each tier.
pub fn tick(pool: &mut MatchPool) -> (rounds: Vec<(Rank, Vec<MatchResult>)>)
    requires
        old(pool).wf(),
    ensures
        final(pool).wf(),
        exists|now: Timestamp|
            now.valid() && #[trigger] tick_outcome(*old(pool), *final(pool), rounds@, now),
{
    let now = Timestamp::now();
    tick_at(pool, now)
}

/// One matchmaking round at the clock reading `now`.
pub fn tick_at(pool: &mut MatchPool, now: Timestamp) -> (rounds: Vec<(Rank, Vec<MatchResult>)>)
    requires
        old(pool).wf(),
    ensures
        final(pool).wf(),
        tick_outcome(*old(pool), *final(pool), rounds@, now),
{
    let ghost pre = *pool;
    let ranks = Rank::all_ranks();
    let mut rounds: Vec<(Rank, Vec<MatchResult>)> = Vec::new();
    let mut i: usize = 0;
    while i < ranks.len()
        invariant
            ranks@ == all_ranks_seq(),
            i <= RANK_COUNT,
            pre.wf(),
            pool.wf(),
            rounds@.len() == i,
            forall|j: int|
                0 <= j < i ==> {
                    let r = all_ranks_seq()[j];
                    let q = pre.queue(r);
                    &&& (#[trigger] rounds@[j]).0 == r
                    &&& rounds@[j].1@.len() == q.len() / 10
                    &&& forall|b: int|
                        0 <= b < q.len() / 10 ==> is_block_match(q, b, #[trigger] rounds@[j].1@[b]@)
                    &&& stamped_at(rounds@[j].1@, now)
                },
            forall|j: int|
                0 <= j < i ==> #[trigger] pool.queue(all_ranks_seq()[j]) == pre.queue(
                    all_ranks_seq()[j],
                ).skip(10 * (pre.queue(all_ranks_seq()[j]).len() as int / 10)),
            forall|j: int|
                i <= j < RANK_COUNT ==> #[trigger] pool.queue(all_ranks_seq()[j]) == pre.queue(
                    all_ranks_seq()[j],
                ),
            pool.index() == pre.index().remove_keys(drawn_upto(pre, i as int)),
            forall|id: u128| #[trigger]
                pool.results().contains_key(id) <==> (pre.results().contains_key(id) || drawn_upto(
                    pre,
                    i as int,
                ).contains(id)),
            forall|id: u128|
                pre.results().contains_key(id) && !drawn_upto(pre, i as int).contains(id)
                    ==> #[trigger] pool.results()[id] == pre.results()[id],
            forall|j: int, p: int|
                0 <= j < i && 0 <= p < 10 * (pre.queue(all_ranks_seq()[j]).len() as int / 10)
                    ==> pool.results()[#[trigger] pre.queue(all_ranks_seq()[j])[p].player.id]
                    == rounds@[j].1@[p / 10]@,
        decreases RANK_COUNT - i,
    {
        let rank = ranks[i];
        let ghost before = *pool;
        let matches = pool.try_match_rank_at(rank, now);
        let ghost ms = matches@.map_values(|m: MatchResult| m@);
        rounds.push((rank, matches));
        proof {
            let ii = i as int;
            assert(before.queue(rank) == pre.queue(rank));
            let q = pre.queue(rank);
            let k = q.len() as int / 10;
            assert(round_drawn(pre, rank) == drawn_ids(q, 10 * k));
            // identifiers drawn now were not drawn from an earlier tier
            assert forall|id: u128| #[trigger] drawn_upto(pre, ii + 1).contains(id) <==> (
            drawn_upto(pre, ii).contains(id) || round_drawn(pre, rank).contains(id)) by {
                if drawn_upto(pre, ii + 1).contains(id) {
                    let j = choose|j: int|
                        0 <= j < ii + 1 && #[trigger] round_drawn(pre, all_ranks_seq()[j]).contains(id);
                    if j < ii {
                        assert(drawn_upto(pre, ii).contains(id));
                    }
                }
                if drawn_upto(pre, ii).contains(id) {
                    let j = choose|j: int|
                        0 <= j < ii && #[trigger] round_drawn(pre, all_ranks_seq()[j]).contains(id);
                    assert(drawn_upto(pre, ii + 1).contains(id));
                }
                if round_drawn(pre, rank).contains(id) {
                    assert(round_drawn(pre, all_ranks_seq()[ii]).contains(id));
                    assert(drawn_upto(pre, ii + 1).contains(id));
                }
            }
            assert forall|id: u128|
                #[trigger] round_drawn(pre, rank).contains(id) implies !drawn_upto(pre, ii).contains(
                id,
            ) && pre.index().contains_key(id) && pre.index()[id] == rank by {
                let p = choose|p: int| 0 <= p < 10 * k && #[trigger] q[p].player.id == id;
                MatchPool::lemma_queued_is_indexed(pre, rank, p);
                if drawn_upto(pre, ii).contains(id) {
                    let j = choose|j: int|
                        0 <= j < ii && #[trigger] round_drawn(pre, all_ranks_seq()[j]).contains(id);
                    let r2 = all_ranks_seq()[j];
                    let q2 = pre.queue(r2);
                    let p2 = choose|p2: int|
                        0 <= p2 < 10 * (q2.len() as int / 10) && #[trigger] q2[p2].player.id == id;
                    MatchPool::lemma_queued_is_indexed(pre, r2, p2);
                    lemma_all_ranks_distinct(j, ii);
                }
            }
            assert(pool.index() =~= pre.index().remove_keys(drawn_upto(pre, ii + 1)));
            assert forall|j: int|
                0 <= j < ii + 1 implies #[trigger] pool.queue(all_ranks_seq()[j]) == pre.queue(
                all_ranks_seq()[j],
            ).skip(10 * (pre.queue(all_ranks_seq()[j]).len() as int / 10)) by {
                if j < ii {
                    lemma_all_ranks_distinct(j, ii);
                }
            }
            assert forall|j: int|
                ii + 1 <= j < RANK_COUNT implies #[trigger] pool.queue(all_ranks_seq()[j])
                == pre.queue(all_ranks_seq()[j]) by {
                lemma_all_ranks_distinct(j, ii);
            }
            assert forall|j: int|
                0 <= j < ii + 1 implies {
                    let r = all_ranks_seq()[j];
                    let q = pre.queue(r);
                    &&& (#[trigger] rounds@[j]).0 == r
                    &&& rounds@[j].1@.len() == q.len() / 10
                    &&& forall|b: int|
                        0 <= b < q.len() / 10 ==> is_block_match(q, b, #[trigger] rounds@[j].1@[b]@)
                    &&& stamped_at(rounds@[j].1@, now)
                } by {
                if j == ii {
                    assert forall|b: int| 0 <= b < q.len() / 10 implies is_block_match(
                        q,
                        b,
                        #[trigger] rounds@[j].1@[b]@,
                    ) by {
                        assert(ms[b] == rounds@[j].1@[b]@);
                    }
                }
            }
            assert forall|id: u128| #[trigger]
                pool.results().contains_key(id) <==> (pre.results().contains_key(id) || drawn_upto(
                    pre,
                    ii + 1,
                ).contains(id)) by {}
            assert forall|id: u128|
                pre.results().contains_key(id) && !drawn_upto(pre, ii + 1).contains(id)
                    implies #[trigger] pool.results()[id] == pre.results()[id] by {}
            assert forall|j: int, p: int|
                0 <= j < ii + 1 && 0 <= p < 10 * (pre.queue(all_ranks_seq()[j]).len() as int / 10)
                    implies pool.results()[#[trigger] pre.queue(all_ranks_seq()[j])[p].player.id]
                    == rounds@[j].1@[p / 10]@ by {
                let r2 = all_ranks_seq()[j];
                let id = pre.queue(r2)[p].player.id;
                if j < ii {
                    assert(round_drawn(pre, r2).contains(id));
                    assert(drawn_upto(pre, ii).contains(id));
                    assert(!round_drawn(pre, rank).contains(id));
                    assert(before.results()[id] == rounds@[j].1@[p / 10]@);
                } else {
                    assert(ms[p / 10] == rounds@[j].1@[p / 10]@);
                }
            }
        }
        i = i + 1;
    }
    let ghost mid = *pool;
    pool.clear_results_expired_at(now, RESULT_RETENTION_SECONDS);
    proof {
        assert(round_recorded(pre, rounds@, mid.results()));
        assert(pool.results() == fresh_results(mid.results(), now, RESULT_RETENTION_SECONDS));
        assert forall|id: u128| #[trigger]
            drawn_upto(pre, RANK_COUNT as int).contains(id) implies pool.results().contains_key(id) by {
            let j = choose|j: int|
                0 <= j < RANK_COUNT && #[trigger] round_drawn(pre, all_ranks_seq()[j]).contains(id);
            let q = pre.queue(all_ranks_seq()[j]);
            let p = choose|p: int|
                0 <= p < 10 * (q.len() as int / 10) && #[trigger] q[p].player.id == id;
            let mv = rounds@[j].1@[p / 10];
            assert(mid.results()[id] == mv@);
            assert(stamped_at(rounds@[j].1@, now));
            assert(mv.created_at == now);
            assert(seconds_between(now, now) == Some(0u64));
        }
        assert forall|r: Rank|
            #[trigger] pool.queue(r) == pre.queue(r).skip(10 * (pre.queue(r).len() as int / 10)) by {
            lemma_all_ranks_index(r);
            assert(mid.queue(all_ranks_seq()[rank_index(r) as int]) == pre.queue(
                all_ranks_seq()[rank_index(r) as int],
            ).skip(10 * (pre.queue(all_ranks_seq()[rank_index(r) as int]).len() as int / 10)));
        }
    }
    rounds
}

} // verus!
