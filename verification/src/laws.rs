use vstd::prelude::*;

use crate::clock::{seconds_between, Timestamp, NANOS_PER_SEC};
use crate::handlers::is_status_at;
use crate::match_pool::{
    fresh_results, is_block_match, players_of, stamped_at, MatchPool, MATCH_SIZE, TEAM_SIZE,
};
use crate::matchmaker::{
    drawn_upto, round_drawn, round_recorded, tick_outcome, RESULT_RETENTION_SECONDS,
};
use crate::models::{
    all_ranks_seq, rank_for_score, rank_index, rank_name, MatchResult, MatchResultView,
    MatchStatus, Player, PlayerMatchStatus, Rank, RANK_COUNT,
};

verus! {

/// A higher score never falls in a lower tier.
pub proof fn lemma_rank_monotone(s1: u32, s2: u32)
    requires
        s1 <= s2,
    ensures
        rank_index(rank_for_score(s1)) <= rank_index(rank_for_score(s2)),
{
}

/// The list of all tiers holds every tier exactly once, in ascending order.
pub proof fn lemma_all_ranks_complete(r: Rank)
    ensures
        all_ranks_seq().len() == RANK_COUNT,
        all_ranks_seq()[rank_index(r) as int] == r,
        forall|i: int, j: int|
            0 <= i < j < RANK_COUNT ==> rank_index(all_ranks_seq()[i]) < rank_index(
                all_ranks_seq()[j],
            ),
{
}

/// Different tiers have different names.
pub proof fn lemma_rank_names_distinct(r1: Rank, r2: Rank)
    requires
        r1 != r2,
    ensures
        rank_name(r1) != rank_name(r2),
{
    let n1 = rank_name(r1);
    let n2 = rank_name(r2);
    if n1.len() == n2.len() {
        match r1 {
            Rank::Bronze => assert(n1[0] != n2[0]),
            Rank::Silver => assert(n1[0] != n2[0]),
            Rank::Gold => assert(n1[0] != n2[0]),
            Rank::Platinum => assert(n1[0] != n2[0]),
            Rank::Diamond => assert(n1[0] != n2[0]),
            Rank::Master => assert(n1[0] != n2[0]),
            Rank::Challenger => assert(n1[0] != n2[0]),
        }
    }
}

/// Leaving the queue right after joining it restores every queue, the
/// index and the recorded matches.
pub proof fn lemma_remove_undoes_add(s0: MatchPool, s1: MatchPool, s2: MatchPool, player: Player)
    requires
        s0.wf(),
        !s0.index().contains_key(player.id),
        MatchPool::joined(s0, s1, player),
        s1.wf(),
        MatchPool::left(s1, s2, player.id),
    ensures
        forall|r: Rank| #[trigger] s2.queue(r) == s0.queue(r),
        s2.index() == s0.index(),
        s2.results() == s0.results(),
{
    let r = player.rank;
    assert(s1.index()[player.id] == r);
    let q1 = s1.queue(r);
    let last = q1.len() - 1;
    let i = choose|i: int|
        0 <= i < q1.len() && #[trigger] q1[i].player.id == player.id && s2.queue(r) == q1.remove(i);
    if i != last {
        MatchPool::lemma_queue_ids_distinct(s1, r, i, last);
    }
    assert(q1.remove(last) =~= q1.drop_last());
    assert(s2.index() =~= s0.index());
}

/// The player at place `i` (0 to 9) of a match: team 1 takes places 0 to
/// 4, team 2 places 5 to 9.
pub open spec fn match_player(m: MatchResultView, i: int) -> Player {
    if i < TEAM_SIZE {
        m.team1.players[i]
    } else {
        m.team2.players[i - TEAM_SIZE]
    }
}

/// A matching round fills both teams of every match with exactly five
/// players; no player takes two places in the matches of a round; fewer than
/// ten players stay in the queue and every other one was matched; the
/// matched players carry the tier's rank, leave the queue and are recorded
/// with their match.
pub proof fn lemma_round_outcome(
    pre: MatchPool,
    post: MatchPool,
    rank: Rank,
    ms: Seq<MatchResultView>,
)
    requires
        pre.wf(),
        MatchPool::matched_round(pre, post, rank, ms),
    ensures
        forall|b: int|
            0 <= b < ms.len() ==> (#[trigger] ms[b]).team1.players.len() == TEAM_SIZE
                && ms[b].team2.players.len() == TEAM_SIZE,
        forall|b1: int, i1: int, b2: int, i2: int|
            0 <= b1 < ms.len() && 0 <= b2 < ms.len() && 0 <= i1 < MATCH_SIZE && 0 <= i2 < MATCH_SIZE
                && (b1 != b2 || i1 != i2) ==> #[trigger] match_player(ms[b1], i1).id
                != #[trigger] match_player(ms[b2], i2).id,
        post.queue(rank).len() < MATCH_SIZE,
        post.queue(rank).len() + MATCH_SIZE * ms.len() == pre.queue(rank).len(),
        forall|b: int, i: int|
            0 <= b < ms.len() && 0 <= i < MATCH_SIZE ==> (#[trigger] match_player(ms[b], i)).rank
                == rank,
        forall|b: int, i: int|
            0 <= b < ms.len() && 0 <= i < MATCH_SIZE ==> !post.index().contains_key(
                #[trigger] match_player(ms[b], i).id,
            ) && post.results()[match_player(ms[b], i).id] == ms[b],
{
    let q = pre.queue(rank);
    let k = q.len() as int / 10;
    assert forall|b: int, i: int|
        0 <= b < ms.len() && 0 <= i < MATCH_SIZE implies #[trigger] match_player(ms[b], i)
        == q[10 * b + i].player by {
        assert(is_block_match(q, b, ms[b]));
        if i < 5 {
            assert(players_of(q.subrange(10 * b, 10 * b + 5))[i] == q[10 * b + i].player);
        } else {
            assert(players_of(q.subrange(10 * b + 5, 10 * b + 10))[i - 5] == q[10 * b + i].player);
        }
    }
    assert forall|b: int, i: int|
        0 <= b < ms.len() && 0 <= i < MATCH_SIZE implies (#[trigger] match_player(ms[b], i)).rank
        == rank by {
        assert(match_player(ms[b], i) == q[10 * b + i].player);
        MatchPool::lemma_queued_is_indexed(pre, rank, 10 * b + i);
    }
    assert forall|b: int| 0 <= b < ms.len() implies (#[trigger] ms[b]).team1.players.len() == TEAM_SIZE
        && ms[b].team2.players.len() == TEAM_SIZE by {
        assert(is_block_match(q, b, ms[b]));
    }
    assert forall|b1: int, i1: int, b2: int, i2: int|
        0 <= b1 < ms.len() && 0 <= b2 < ms.len() && 0 <= i1 < MATCH_SIZE && 0 <= i2 < MATCH_SIZE
            && (b1 != b2 || i1 != i2) implies #[trigger] match_player(ms[b1], i1).id
        != #[trigger] match_player(ms[b2], i2).id by {
        let p1 = 10 * b1 + i1;
        let p2 = 10 * b2 + i2;
        assert(p1 != p2);
        assert(match_player(ms[b1], i1) == q[p1].player);
        assert(match_player(ms[b2], i2) == q[p2].player);
        if p1 < p2 {
            MatchPool::lemma_queue_ids_distinct(pre, rank, p1, p2);
        } else {
            MatchPool::lemma_queue_ids_distinct(pre, rank, p2, p1);
        }
    }
    assert forall|b: int, i: int|
        0 <= b < ms.len() && 0 <= i < MATCH_SIZE implies !post.index().contains_key(
        #[trigger] match_player(ms[b], i).id,
    ) && post.results()[match_player(ms[b], i).id] == ms[b] by {
        let p = 10 * b + i;
        assert(match_player(ms[b], i) == q[p].player);
        assert(crate::match_pool::drawn_ids(q, 10 * k).contains(q[p].player.id));
        assert(p / 10 == b);
    }
}

/// Right after a matching round, a second round on the same tier makes no
/// match and changes nothing in that queue.
pub proof fn lemma_second_round_is_empty(
    s0: MatchPool,
    s1: MatchPool,
    s2: MatchPool,
    rank: Rank,
    ms1: Seq<MatchResultView>,
    ms2: Seq<MatchResultView>,
)
    requires
        s0.wf(),
        MatchPool::matched_round(s0, s1, rank, ms1),
        s1.wf(),
        MatchPool::matched_round(s1, s2, rank, ms2),
    ensures
        ms2.len() == 0,
        s2.queue(rank) == s1.queue(rank),
        s2.index() == s1.index(),
        s2.results() == s1.results(),
{
    lemma_round_outcome(s0, s1, rank, ms1);
    assert(s1.queue(rank).skip(0) == s1.queue(rank));
    assert(s2.index() =~= s1.index());
    assert(s2.results() =~= s1.results());
}

/// The whole seconds from one time to a later reading never exceed those to
/// a still later reading.
pub proof fn lemma_seconds_between_monotone(from: Timestamp, t1: Timestamp, t2: Timestamp)
    requires
        from.valid(),
        t1.valid(),
        t2.valid(),
        t1.total_nanos() <= t2.total_nanos(),
    ensures
        seconds_between(from, t1) matches Some(w1) ==> (seconds_between(from, t2) matches Some(w2)
            && w1 <= w2),
{
    let a = t1.total_nanos() - from.total_nanos();
    let b = t2.total_nanos() - from.total_nanos();
    if a >= 0 {
        assert(a / 1_000_000_000int <= b / 1_000_000_000int) by (nonlinear_arith)
            requires
                0 <= a <= b,
        ;
        assert(b / 1_000_000_000int <= u64::MAX) by (nonlinear_arith)
            requires
                b == t2.total_nanos() - from.total_nanos(),
                t2.total_nanos() == t2.spec_secs() * 1_000_000_000int + t2.spec_subsec_nanos(),
                from.total_nanos() == from.spec_secs() * 1_000_000_000int
                    + from.spec_subsec_nanos(),
                t2.spec_subsec_nanos() < 1_000_000_000int,
                0 <= from.spec_subsec_nanos(),
                t2.spec_secs() <= i64::MAX,
                from.spec_secs() >= i64::MIN,
        ;
        assert(0 <= a / 1_000_000_000int) by (nonlinear_arith)
            requires
                0 <= a,
        ;
    }
}

/// A queued player's wait never shrinks: for two readings of the clock, the
/// later one no earlier, and a queue entry whose join time is unchanged in
/// between, the wait at the later reading is at least the wait at the
/// earlier one.
pub proof fn lemma_wait_time_monotone(
    p1: MatchPool,
    p2: MatchPool,
    id: u128,
    now1: Timestamp,
    now2: Timestamp,
)
    requires
        p1.index().contains_key(id),
        p2.index().contains_key(id),
        p1.queued_entry(id).join_time == p2.queued_entry(id).join_time,
        p1.queued_entry(id).join_time.valid(),
        now1.valid(),
        now2.valid(),
        now1.total_nanos() <= now2.total_nanos(),
    ensures
        p1.wait_time(id, now1) matches Some(w1) ==> (p2.wait_time(id, now2) matches Some(w2) && w1
            <= w2),
{
    lemma_seconds_between_monotone(p1.queued_entry(id).join_time, now1, now2);
}

/// Whole seconds between two valid times are what the clock advanced,
/// rounded down: at least `w` whole seconds and less than `w + 1` lie
/// between them, and there are none where the second time is earlier.
pub proof fn lemma_seconds_between_exact(from: Timestamp, to: Timestamp)
    requires
        from.valid(),
        to.valid(),
    ensures
        to.total_nanos() < from.total_nanos() <==> seconds_between(from, to) is None,
        seconds_between(from, to) matches Some(w) ==> w * NANOS_PER_SEC <= to.total_nanos()
            - from.total_nanos() < (w + 1) * NANOS_PER_SEC,
{
    let d = to.total_nanos() - from.total_nanos();
    if d >= 0 {
        lemma_seconds_between_monotone(from, to, to);
        assert(d / 1_000_000_000int * 1_000_000_000int <= d < (d / 1_000_000_000int + 1)
            * 1_000_000_000int) by (nonlinear_arith)
            requires
                0 <= d,
        ;
        assert(0 <= d / 1_000_000_000int <= u64::MAX) by (nonlinear_arith)
            requires
                d == to.total_nanos() - from.total_nanos(),
                to.total_nanos() == to.spec_secs() * 1_000_000_000int + to.spec_subsec_nanos(),
                from.total_nanos() == from.spec_secs() * 1_000_000_000int
                    + from.spec_subsec_nanos(),
                to.spec_subsec_nanos() < 1_000_000_000int,
                0 <= from.spec_subsec_nanos(),
                to.spec_secs() <= i64::MAX,
                from.spec_secs() >= i64::MIN,
                0 <= d,
        ;
    }
}

/// A queued player's wait at a reading `now` is the whole seconds that the
/// clock advanced since its join: there is a wait exactly when `now` is not
/// earlier than the join, and then the time between join and `now` is at
/// least the wait and less than one second more.
pub proof fn lemma_wait_is_time_since_join(pool: MatchPool, id: u128, now: Timestamp)
    requires
        pool.index().contains_key(id),
        pool.queued_entry(id).join_time.valid(),
        now.valid(),
    ensures
        pool.wait_time(id, now) is Some <==> now.total_nanos()
            >= pool.queued_entry(id).join_time.total_nanos(),
        pool.wait_time(id, now) matches Some(w) ==> w * NANOS_PER_SEC <= now.total_nanos()
            - pool.queued_entry(id).join_time.total_nanos() < (w + 1) * NANOS_PER_SEC,
{
    lemma_seconds_between_exact(pool.queued_entry(id).join_time, now);
}

/// Across two matchmaking rounds, at readings `t1` and then `t2`: a player
/// matched in the first round and not drawn again in the second keeps its
/// match recorded exactly while fewer than the retention seconds have passed
/// from `t1` to `t2`, and loses it once that many have passed (or `t2` is
/// earlier than `t1`).
pub proof fn lemma_matches_expire_across_rounds(
    pre: MatchPool,
    mid: MatchPool,
    post: MatchPool,
    rounds1: Seq<(Rank, Vec<MatchResult>)>,
    rounds2: Seq<(Rank, Vec<MatchResult>)>,
    t1: Timestamp,
    t2: Timestamp,
    id: u128,
)
    requires
        tick_outcome(pre, mid, rounds1, t1),
        tick_outcome(mid, post, rounds2, t2),
        drawn_upto(pre, RANK_COUNT as int).contains(id),
        !drawn_upto(mid, RANK_COUNT as int).contains(id),
    ensures
        mid.results().contains_key(id),
        mid.results()[id].created_at == t1,
        (seconds_between(t1, t2) matches Some(s) && s < RESULT_RETENTION_SECONDS) ==> (
        post.results().contains_key(id) && post.results()[id] == mid.results()[id]),
        !(seconds_between(t1, t2) matches Some(s) && s < RESULT_RETENTION_SECONDS)
            ==> !post.results().contains_key(id),
{
    let m1 = choose|m: Map<u128, MatchResultView>|
        round_recorded(pre, rounds1, m) && mid.results() == #[trigger] fresh_results(
            m,
            t1,
            RESULT_RETENTION_SECONDS,
        );
    let j = choose|j: int|
        0 <= j < RANK_COUNT && #[trigger] round_drawn(pre, all_ranks_seq()[j]).contains(id);
    let q = pre.queue(all_ranks_seq()[j]);
    let p = choose|p: int| 0 <= p < 10 * (q.len() as int / 10) && #[trigger] q[p].player.id == id;
    assert(m1[id] == rounds1[j].1@[p / 10]@);
    assert(rounds1[j].1@.len() == q.len() / 10);
    assert(stamped_at(rounds1[j].1@, t1));
    assert(rounds1[j].1@[p / 10].created_at == t1);
    assert(mid.results().contains_key(id));
    assert(mid.results()[id] == m1[id]);
    let m2 = choose|m: Map<u128, MatchResultView>|
        round_recorded(mid, rounds2, m) && post.results() == #[trigger] fresh_results(
            m,
            t2,
            RESULT_RETENTION_SECONDS,
        );
    assert(m2.contains_key(id));
    assert(m2[id] == mid.results()[id]);
}

/// The wait that a status reports at a reading `now` is the whole seconds
/// that the clock advanced since the player's match was made (when matched)
/// or since it joined (when queued), and 0 where `now` is earlier than that.
pub proof fn lemma_status_wait_is_time_since(
    pool: MatchPool,
    id: u128,
    now: Timestamp,
    st: PlayerMatchStatus,
)
    requires
        pool.wf(),
        is_status_at(pool, id, now, Some(st)),
        now.valid(),
        pool.results().contains_key(id) ==> pool.results()[id].created_at.valid(),
        pool.index().contains_key(id) ==> pool.queued_entry(id).join_time.valid(),
    ensures
        ({
            let since = if st.status == MatchStatus::Matched {
                pool.results()[id].created_at
            } else {
                pool.queued_entry(id).join_time
            };
            &&& now.total_nanos() < since.total_nanos() ==> st.wait_time_seconds == 0
            &&& now.total_nanos() >= since.total_nanos() ==> st.wait_time_seconds
                * NANOS_PER_SEC <= now.total_nanos() - since.total_nanos() < (
            st.wait_time_seconds + 1) * NANOS_PER_SEC
        }),
{
    if pool.results().contains_key(id) {
        lemma_seconds_between_exact(pool.results()[id].created_at, now);
    } else {
        lemma_seconds_between_exact(pool.queued_entry(id).join_time, now);
    }
}

} // verus!
