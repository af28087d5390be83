use vstd::prelude::*;

use crate::clock::{seconds_between, Timestamp};
use crate::match_pool::{already_queued_message, score_in_match, MatchPool};
use crate::models::{
    all_ranks_seq, rank_for_score, rank_name, MatchRequest, MatchStatus, Player,
    PlayerMatchStatus, Rank, RANK_COUNT,
};

verus! {

/// A number of seconds, or 0 where there is none.
pub open spec fn or_zero(w: Option<u64>) -> u64 {
    match w {
        Some(w) => w,
        None => 0,
    }
}

/// The envelope of every reply: whether the request succeeded, a message,
/// and the data, if any.
pub struct ApiResponse<T> {
    pub success: bool,
    pub message: String,
    pub data: Option<T>,
}

/// The state of all queues: the size of each, by tier name in ascending
/// tier order, their total, and the queue timeout that the server announces.
pub struct PoolStatusResponse {
    pub pools: Vec<(String, usize)>,
    pub total_queued: usize,
    pub queue_timeout_seconds: u64,
}

/// A request to leave the queue.
pub struct CancelRequest {
    pub player_id: u128,
}

/// Queues the player that a join request describes, with the tier of its
/// score, and reports it as queued; refused where the player is already
/// queued. The join and the reported wait use one reading of the clock, so
/// the reported wait is 0.
pub fn join_match(pool: &mut MatchPool, payload: MatchRequest) -> (res: Result<
    PlayerMatchStatus,
    String,
>)
    requires
        old(pool).wf(),
    ensures
        final(pool).wf(),
        res is Err <==> old(pool).index().contains_key(payload.player_id),
        res matches Err(e) ==> e@ == already_queued_message() && *final(pool) == *old(pool),
        res matches Ok(st) ==> {
            &&& st.player_id == payload.player_id
            &&& st.status == MatchStatus::Queued
            &&& st.rank == rank_for_score(payload.score)
            &&& st.match_result is None
            &&& exists|now: Timestamp|
                st.wait_time_seconds == or_zero(
                    #[trigger] final(pool).wait_time(payload.player_id, now),
                )
            &&& st.wait_time_seconds == 0
            &&& final(pool).wait_time(
                payload.player_id,
                final(pool).queued_entry(payload.player_id).join_time,
            ) == Some(0u64)
            &&& MatchPool::joined(
                *old(pool),
                *final(pool),
                Player {
                    id: payload.player_id,
                    name: payload.player_name,
                    score: payload.score,
                    rank: rank_for_score(payload.score),
                },
            )
        },
{
    let player_id = payload.player_id;
    let player = Player::new(payload.player_id, payload.player_name, payload.score);
    let rank = player.rank;
    let now = Timestamp::now();
    let ghost pre = *pool;
    match pool.add_player_at(player, now) {
        Ok(_) => {
            proof {
                MatchPool::lemma_joined_entry(pre, *pool, player, now);
            }
            let wait_time = match pool.wait_time_at(&player_id, now) {
                Some(w) => w,
                None => 0,
            };
            Ok(
                PlayerMatchStatus {
                    player_id,
                    status: MatchStatus::Queued,
                    rank,
                    wait_time_seconds: wait_time,
                    match_result: None,
                },
            )
        },
        Err(e) => Err(e),
    }
}

/// `st` is the standing of player `id` in `pool` at `now`: matched where a
/// match is recorded for it (with the tier of its score in that match and
/// the whole seconds since the match was made, 0 where the match is stamped
/// later than `now`), else queued where it waits (with its tier and its wait,
/// 0 where it joined later than `now`), else unknown (`None`).
pub open spec fn is_status_at(
    pool: MatchPool,
    id: u128,
    now: Timestamp,
    st: Option<PlayerMatchStatus>,
) -> bool {
    if pool.results().contains_key(id) {
        st matches Some(st) && {
            let m = pool.results()[id];
            &&& st.player_id == id
            &&& st.status == MatchStatus::Matched
            &&& st.rank == rank_for_score(score_in_match(m, id))
            &&& st.wait_time_seconds == or_zero(seconds_between(m.created_at, now))
            &&& st.match_result matches Some(r) && r@ == m
        }
    } else if pool.index().contains_key(id) {
        st matches Some(st) && {
            &&& st.player_id == id
            &&& st.status == MatchStatus::Queued
            &&& st.rank == pool.index()[id]
            &&& st.wait_time_seconds == or_zero(pool.wait_time(id, now))
            &&& st.match_result is None
        }
    } else {
        st is None
    }
}

/// A player's standing at `now`.
pub fn status_at(pool: &MatchPool, player_id: u128, now: Timestamp) -> (st: Option<
    PlayerMatchStatus,
>)
    requires
        pool.wf(),
    ensures
        is_status_at(*pool, player_id, now, st),
{
    match pool.get_match_result(&player_id) {
        Some(result) => {
            let score = match crate::match_pool::find_score(&result.team1.players, player_id) {
                Some(s) => s,
                None => match crate::match_pool::find_score(&result.team2.players, player_id) {
                    Some(s) => s,
                    None => 0,
                },
            };
            let rank = Rank::from_score(score);
            let wait_time = match result.created_at.elapsed_secs_at(now) {
                Some(w) => w,
                None => 0,
            };
            Some(
                PlayerMatchStatus {
                    player_id,
                    status: MatchStatus::Matched,
                    rank,
                    wait_time_seconds: wait_time,
                    match_result: Some(result),
                },
            )
        },
        None => {
            if pool.is_player_in_queue(&player_id) {
                let wait_time = match pool.wait_time_at(&player_id, now) {
                    Some(w) => w,
                    None => 0,
                };
                let rank = match pool.queued_rank(&player_id) {
                    Some(r) => r,
                    None => Rank::Bronze,
                };
                Some(
                    PlayerMatchStatus {
                        player_id,
                        status: MatchStatus::Queued,
                        rank,
                        wait_time_seconds: wait_time,
                        match_result: None,
                    },
                )
            } else {
                None
            }
        },
    }
}

/// A player's standing by the clock.
pub fn get_status(pool: &MatchPool, player_id: u128) -> (st: Option<PlayerMatchStatus>)
    requires
        pool.wf(),
    ensures
        exists|now: Timestamp| now.valid() && #[trigger] is_status_at(*pool, player_id, now, st),
{
    let now = Timestamp::now();
    status_at(pool, player_id, now)
}

/// `r` reports the queues of `pool`: the size of each, by tier name in
/// ascending tier order, and their total, which is the number of indexed
/// players.
pub open spec fn reports_pools(pool: MatchPool, r: PoolStatusResponse) -> bool {
    &&& r.pools@.len() == RANK_COUNT
    &&& forall|i: int|
        0 <= i < RANK_COUNT ==> (#[trigger] r.pools@[i]).0@ == rank_name(all_ranks_seq()[i])
            && r.pools@[i].1 == pool.queue(all_ranks_seq()[i]).len()
    &&& r.total_queued == pool.queued_total()
    &&& r.total_queued == pool.index().len()
}

/// The total of a pool report is the sum of the sizes that it lists.
pub proof fn lemma_reported_total_is_sum(pool: MatchPool, r: PoolStatusResponse)
    requires
        reports_pools(pool, r),
    ensures
        r.total_queued == r.pools@[0].1 + r.pools@[1].1 + r.pools@[2].1 + r.pools@[3].1
            + r.pools@[4].1 + r.pools@[5].1 + r.pools@[6].1,
{
    assert(r.pools@[0].1 == pool.queue(Rank::Bronze).len());
    assert(r.pools@[1].1 == pool.queue(Rank::Silver).len());
    assert(r.pools@[2].1 == pool.queue(Rank::Gold).len());
    assert(r.pools@[3].1 == pool.queue(Rank::Platinum).len());
    assert(r.pools@[4].1 == pool.queue(Rank::Diamond).len());
    assert(r.pools@[5].1 == pool.queue(Rank::Master).len());
    assert(r.pools@[6].1 == pool.queue(Rank::Challenger).len());
}

/// The state of all queues, announcing `queue_timeout_seconds`.
pub fn get_pool_status(pool: &MatchPool, queue_timeout_seconds: u64) -> (r: PoolStatusResponse)
    requires
        pool.wf(),
    ensures
        reports_pools(*pool, r),
        r.queue_timeout_seconds == queue_timeout_seconds,
{
    let pools = pool.get_all_pool_sizes();
    let total_queued = pool.total_queued();
    PoolStatusResponse { pools, total_queued, queue_timeout_seconds }
}

} // verus!
