use std::collections::{HashMap, VecDeque};
use vstd::prelude::*;

use crate::clock::{seconds_between, Timestamp};
use crate::ids::{is_v4_uuid, new_v4_id};
use crate::models::{
    all_ranks_seq, rank_index, rank_name, sum_scores, MatchResult,
    MatchResultView, Player, QueuedPlayer, Rank, Team, RANK_COUNT,
};

verus! {

broadcast use vstd::std_specs::hash::group_hash_axioms;

/// Players per team; a match takes two teams.
pub const TEAM_SIZE: usize = 5;

/// Players that one match draws from a queue.
pub const MATCH_SIZE: usize = 10;

/// The identifiers of the players in a queue, in queue order.
pub open spec fn ids_of(q: Seq<QueuedPlayer>) -> Seq<u128> {
    q.map_values(|x: QueuedPlayer| x.player.id)
}

/// The players in a queue, in queue order.
pub open spec fn players_of(q: Seq<QueuedPlayer>) -> Seq<Player> {
    q.map_values(|x: QueuedPlayer| x.player)
}

/// Error text of a join by a player who is already queued.
pub open spec fn already_queued_message() -> Seq<char> {
    "玩家已在匹配队列中"@
}

/// Error text of a cancel by a player who is not queued.
pub open spec fn not_queued_message() -> Seq<char> {
    "玩家不在匹配队列中"@
}

/// The queues of waiting players, one per rank tier, with an index from
/// each queued player to its tier and the latest match of each matched
/// player.
pub struct MatchPool {
    pools: Vec<VecDeque<QueuedPlayer>>,
    player_index: HashMap<u128, Rank>,
    match_results: HashMap<u128, MatchResult>,
}

/// The identifiers of a sequence of players, as a set.
pub open spec fn player_ids(ps: Seq<Player>) -> Set<u128> {
    ps.map_values(|p: Player| p.id).to_set()
}

/// The identifiers of the first `n` players of a queue.
pub open spec fn drawn_ids(q: Seq<QueuedPlayer>, n: int) -> Set<u128> {
    Set::new(|id: u128| exists|p: int| 0 <= p < n && #[trigger] q[p].player.id == id)
}

/// `m` is the match made of the `b`-th block of ten players of `q`: the
/// first five of the block form team 1 and the next five team 2, in queue
/// order, each team's score sum is the sum of its players' scores, and the
/// match and both teams carry random (version 4) UUIDs.
pub open spec fn is_block_match(q: Seq<QueuedPlayer>, b: int, m: MatchResultView) -> bool {
    &&& m.team1.players == players_of(q.subrange(10 * b, 10 * b + 5))
    &&& m.team2.players == players_of(q.subrange(10 * b + 5, 10 * b + 10))
    &&& m.team1.score_sum == sum_scores(m.team1.players)
    &&& m.team2.score_sum == sum_scores(m.team2.players)
    &&& is_v4_uuid(m.match_id) && is_v4_uuid(m.team1.id) && is_v4_uuid(m.team2.id)
}

proof fn lemma_player_ids_of_queue(s: Seq<QueuedPlayer>)
    ensures
        forall|x: u128|
            #[trigger] player_ids(players_of(s)).contains(x) <==> exists|p: int|
                0 <= p < s.len() && #[trigger] s[p].player.id == x,
{
    assert forall|x: u128|
        #[trigger] player_ids(players_of(s)).contains(x) <==> exists|p: int|
            0 <= p < s.len() && #[trigger] s[p].player.id == x by {
        let ids = players_of(s).map_values(|p: Player| p.id);
        if ids.contains(x) {
            let p = choose|p: int| 0 <= p < ids.len() && ids[p] == x;
            assert(s[p].player.id == x);
        }
        if exists|p: int| 0 <= p < s.len() && #[trigger] s[p].player.id == x {
            let p = choose|p: int| 0 <= p < s.len() && #[trigger] s[p].player.id == x;
            assert(ids[p] == x);
        }
    }
}

/// A match made at `created_at` is still kept at `now` when it is less than
/// `max_age_seconds` whole seconds old; a match stamped later than `now`
/// is not kept.
pub open spec fn is_fresh(created_at: Timestamp, now: Timestamp, max_age_seconds: u64) -> bool {
    match seconds_between(created_at, now) {
        Some(s) => s < max_age_seconds,
        None => false,
    }
}

/// The entries of `m` that are still kept at `now`.
pub open spec fn fresh_results(
    m: Map<u128, MatchResultView>,
    now: Timestamp,
    max_age_seconds: u64,
) -> Map<u128, MatchResultView> {
    Map::new(
        |id: u128| m.contains_key(id) && is_fresh(m[id].created_at, now, max_age_seconds),
        |id: u128| m[id],
    )
}

/// The score of the first player with identifier `id` in `ps`.
pub open spec fn first_score(ps: Seq<Player>, id: u128) -> Option<u32>
    decreases ps.len(),
{
    if ps.len() == 0 {
        None
    } else if ps[0].id == id {
        Some(ps[0].score)
    } else {
        first_score(ps.drop_first(), id)
    }
}

/// The score that match `m` holds for player `id`: from team 1 first, then
/// team 2, and 0 where neither holds the player.
pub open spec fn score_in_match(m: MatchResultView, id: u128) -> u32 {
    match first_score(m.team1.players, id) {
        Some(s) => s,
        None => match first_score(m.team2.players, id) {
            Some(s) => s,
            None => 0,
        },
    }
}

/// Every match of `ms`, and both of its teams, were created at `now`.
pub open spec fn stamped_at(ms: Seq<MatchResult>, now: Timestamp) -> bool {
    forall|b: int|
        0 <= b < ms.len() ==> (#[trigger] ms[b]).created_at == now && ms[b].team1.created_at == now
            && ms[b].team2.created_at == now
}

/// No identifier occurs twice in the queue.
pub open spec fn ids_distinct(q: Seq<QueuedPlayer>) -> bool {
    forall|i: int, j: int| 0 <= i < j < q.len() ==> #[trigger] q[i].player.id != #[trigger] q[j].player.id
}

/// `post` records, over `pre`, the first `k` matches `ms` of the queue `q`:
/// every player of the first `k` blocks of ten maps to the match of its
/// block, and every other entry of `pre` stays.
pub open spec fn results_recorded(
    q: Seq<QueuedPlayer>,
    k: int,
    pre: Map<u128, MatchResultView>,
    post: Map<u128, MatchResultView>,
    ms: Seq<MatchResultView>,
) -> bool {
    let drawn = drawn_ids(q, 10 * k);
    &&& forall|p: int| 0 <= p < 10 * k ==> post[#[trigger] q[p].player.id] == ms[p / 10]
    &&& forall|id: u128| #[trigger]
        post.contains_key(id) <==> (pre.contains_key(id) || drawn.contains(id))
    &&& forall|id: u128|
        pre.contains_key(id) && !drawn.contains(id) ==> #[trigger] post[id] == pre[id]
}

/// The identifiers of the two teams of block `j` of `q`.
proof fn lemma_block_split(q: Seq<QueuedPlayer>, j: int)
    requires
        0 <= j,
        10 * j + 10 <= q.len(),
        ids_distinct(q),
    ensures
        ({
            let t1 = player_ids(players_of(q.subrange(10 * j, 10 * j + 5)));
            let t2 = player_ids(players_of(q.subrange(10 * j + 5, 10 * j + 10)));
            &&& forall|x: u128| #[trigger]
                drawn_ids(q, 10 * j + 10).contains(x) <==> (drawn_ids(q, 10 * j).contains(x)
                    || t1.contains(x) || t2.contains(x))
            &&& forall|x: u128|
                #[trigger] drawn_ids(q, 10 * j).contains(x) ==> !t1.contains(x) && !t2.contains(x)
            &&& forall|x: u128| #[trigger] t1.contains(x) ==> !t2.contains(x)
            &&& forall|p: int|
                10 * j <= p < 10 * j + 5 ==> #[trigger] t1.contains(q[p].player.id)
            &&& forall|p: int|
                10 * j + 5 <= p < 10 * j + 10 ==> #[trigger] t2.contains(q[p].player.id)
        }),
{
    let s1 = q.subrange(10 * j, 10 * j + 5);
    let s2 = q.subrange(10 * j + 5, 10 * j + 10);
    let t1 = player_ids(players_of(s1));
    let t2 = player_ids(players_of(s2));
    lemma_player_ids_of_queue(s1);
    lemma_player_ids_of_queue(s2);
    assert forall|x: u128| #[trigger]
        drawn_ids(q, 10 * j + 10).contains(x) <==> (drawn_ids(q, 10 * j).contains(x) || t1.contains(
            x,
        ) || t2.contains(x)) by {
        if drawn_ids(q, 10 * j + 10).contains(x) {
            let p = choose|p: int| 0 <= p < 10 * j + 10 && #[trigger] q[p].player.id == x;
            if p >= 10 * j + 5 {
                assert(s2[p - 10 * j - 5] == q[p]);
            } else if p >= 10 * j {
                assert(s1[p - 10 * j] == q[p]);
            }
        }
        if t1.contains(x) {
            let t = choose|t: int| 0 <= t < s1.len() && #[trigger] s1[t].player.id == x;
            assert(q[10 * j + t] == s1[t]);
        }
        if t2.contains(x) {
            let t = choose|t: int| 0 <= t < s2.len() && #[trigger] s2[t].player.id == x;
            assert(q[10 * j + 5 + t] == s2[t]);
        }
    }
    assert forall|x: u128| #[trigger]
        drawn_ids(q, 10 * j).contains(x) implies !t1.contains(x) && !t2.contains(x) by {
        let p = choose|p: int| 0 <= p < 10 * j && #[trigger] q[p].player.id == x;
        if t1.contains(x) {
            let t = choose|t: int| 0 <= t < s1.len() && #[trigger] s1[t].player.id == x;
            assert(q[10 * j + t] == s1[t]);
        }
        if t2.contains(x) {
            let t = choose|t: int| 0 <= t < s2.len() && #[trigger] s2[t].player.id == x;
            assert(q[10 * j + 5 + t] == s2[t]);
        }
    }
    assert forall|x: u128| #[trigger] t1.contains(x) implies !t2.contains(x) by {
        let t = choose|t: int| 0 <= t < s1.len() && #[trigger] s1[t].player.id == x;
        assert(q[10 * j + t] == s1[t]);
        if t2.contains(x) {
            let u = choose|u: int| 0 <= u < s2.len() && #[trigger] s2[u].player.id == x;
            assert(q[10 * j + 5 + u] == s2[u]);
        }
    }
    assert forall|p: int| 10 * j <= p < 10 * j + 5 implies #[trigger] t1.contains(q[p].player.id) by {
        assert(s1[p - 10 * j] == q[p]);
    }
    assert forall|p: int| 10 * j + 5 <= p < 10 * j + 10 implies #[trigger] t2.contains(
        q[p].player.id,
    ) by {
        assert(s2[p - 10 * j - 5] == q[p]);
    }
}

/// The index after block `j` of `q` left it.
proof fn lemma_index_step(
    pre: Map<u128, Rank>,
    before: Map<u128, Rank>,
    post: Map<u128, Rank>,
    q: Seq<QueuedPlayer>,
    j: int,
)
    requires
        0 <= j,
        10 * j + 10 <= q.len(),
        ids_distinct(q),
        before == pre.remove_keys(drawn_ids(q, 10 * j)),
        post == before.remove_keys(
            player_ids(players_of(q.subrange(10 * j, 10 * j + 5))),
        ).remove_keys(player_ids(players_of(q.subrange(10 * j + 5, 10 * j + 10)))),
    ensures
        post == pre.remove_keys(drawn_ids(q, 10 * j + 10)),
        post == before.remove_keys(ids_of(q.skip(10 * j).take(10)).to_set()),
{
    lemma_block_split(q, j);
    let t1 = player_ids(players_of(q.subrange(10 * j, 10 * j + 5)));
    let t2 = player_ids(players_of(q.subrange(10 * j + 5, 10 * j + 10)));
    let block = ids_of(q.skip(10 * j).take(10));
    assert forall|x: u128| block.to_set().contains(x) <==> (t1.contains(x) || t2.contains(x)) by {
        if block.contains(x) {
            let t = choose|t: int| 0 <= t < block.len() && block[t] == x;
            assert(q[10 * j + t].player.id == x);
        }
        if t1.contains(x) || t2.contains(x) {
            let p = choose|p: int| 0 <= p < 10 * j + 10 && #[trigger] q[p].player.id == x;
            assert(p >= 10 * j);
            assert(block[p - 10 * j] == x);
        }
    }
    assert(post =~= pre.remove_keys(drawn_ids(q, 10 * j + 10)));
    assert(post =~= before.remove_keys(block.to_set()));
}

/// The recorded matches after the match `m` of block `j` of `q` was
/// recorded for its first team (`mid` to `mid2`) and its second (`mid2` to
/// `post`).
proof fn lemma_results_step(
    q: Seq<QueuedPlayer>,
    j: int,
    pre: Map<u128, MatchResultView>,
    mid: Map<u128, MatchResult>,
    mid2: Map<u128, MatchResult>,
    post: Map<u128, MatchResult>,
    ms: Seq<MatchResultView>,
    m: MatchResultView,
)
    requires
        0 <= j,
        10 * j + 10 <= q.len(),
        ids_distinct(q),
        ms.len() == j,
        results_recorded(q, j, pre, mid.map_values(|r: MatchResult| r@), ms),
        ({
            let t1 = player_ids(players_of(q.subrange(10 * j, 10 * j + 5)));
            &&& forall|k: u128| #[trigger]
                mid2.contains_key(k) <==> (mid.contains_key(k) || t1.contains(k))
            &&& forall|k: u128| t1.contains(k) ==> #[trigger] mid2[k]@ == m
            &&& forall|k: u128|
                !t1.contains(k) && mid.contains_key(k) ==> #[trigger] mid2[k] == mid[k]
        }),
        ({
            let t2 = player_ids(players_of(q.subrange(10 * j + 5, 10 * j + 10)));
            &&& forall|k: u128| #[trigger]
                post.contains_key(k) <==> (mid2.contains_key(k) || t2.contains(k))
            &&& forall|k: u128| t2.contains(k) ==> #[trigger] post[k]@ == m
            &&& forall|k: u128|
                !t2.contains(k) && mid2.contains_key(k) ==> #[trigger] post[k] == mid2[k]
        }),
    ensures
        results_recorded(q, j + 1, pre, post.map_values(|r: MatchResult| r@), ms.push(m)),
{
    lemma_block_split(q, j);
    let t1 = player_ids(players_of(q.subrange(10 * j, 10 * j + 5)));
    let t2 = player_ids(players_of(q.subrange(10 * j + 5, 10 * j + 10)));
    let midv = mid.map_values(|r: MatchResult| r@);
    let postv = post.map_values(|r: MatchResult| r@);
    let ms2 = ms.push(m);
    assert forall|p: int| 0 <= p < 10 * (j + 1) implies postv[#[trigger] q[p].player.id]
        == ms2[p / 10] by {
        let x = q[p].player.id;
        if p < 10 * j {
            assert(drawn_ids(q, 10 * j).contains(x));
            assert(midv[x] == ms[p / 10]);
            assert(midv.contains_key(x));
            assert(mid.contains_key(x));
            assert(post[x] == mid[x]);
            assert(ms2[p / 10] == ms[p / 10]);
        } else if p < 10 * j + 5 {
            assert(t1.contains(x));
            assert(post[x] == mid2[x]);
        } else {
            assert(t2.contains(x));
        }
    }
    assert forall|id: u128| #[trigger]
        postv.contains_key(id) <==> (pre.contains_key(id) || drawn_ids(q, 10 * (j + 1)).contains(
            id,
        )) by {
        assert(midv.contains_key(id) == mid.contains_key(id));
    }
    assert forall|id: u128|
        pre.contains_key(id) && !drawn_ids(q, 10 * (j + 1)).contains(id) implies #[trigger] postv[id]
        == pre[id] by {
        assert(!drawn_ids(q, 10 * j).contains(id)) by {
            assert(drawn_ids(q, 10 * j + 10).contains(id) == (drawn_ids(q, 10 * j).contains(id)
                || t1.contains(id) || t2.contains(id)));
        }
        assert(!t1.contains(id) && !t2.contains(id)) by {
            assert(drawn_ids(q, 10 * j + 10).contains(id) == (drawn_ids(q, 10 * j).contains(id)
                || t1.contains(id) || t2.contains(id)));
        }
        assert(midv.contains_key(id));
        assert(midv[id] == pre[id]);
        assert(mid.contains_key(id));
        assert(mid2.contains_key(id));
        assert(post[id] == mid2[id]);
        assert(mid2[id] == mid[id]);
        assert(postv[id] == post[id]@);
    }
}

/// Takes up to `n` players off the front of a queue, in queue order.
fn draw_players(pool: &mut VecDeque<QueuedPlayer>, n: usize) -> (drawn: Vec<Player>)
    ensures
        ({
            let k = if n <= old(pool)@.len() { n as int } else { old(pool)@.len() as int };
            &&& drawn@ == players_of(old(pool)@.take(k))
            &&& final(pool)@ == old(pool)@.skip(k)
        }),
{
    let ghost q0 = pool@;
    let mut drawn: Vec<Player> = Vec::new();
    for _i in 0..n
        invariant
            drawn@.len() <= q0.len(),
            drawn@ == players_of(q0.take(drawn@.len() as int)),
            pool@ == q0.skip(drawn@.len() as int),
            drawn@.len() <= _i,
            (drawn@.len() < _i ==> drawn@.len() == q0.len()),
    {
        if let Some(qp) = pool.pop_front() {
            let ghost k = drawn@.len() as int;
            assert(qp == q0[k]);
            drawn.push(qp.player);
            assert(players_of(q0.take(k + 1)) == players_of(q0.take(k)).push(q0[k].player));
            assert(q0.skip(k).subrange(1, q0.skip(k).len() as int) == q0.skip(k + 1));
        }
    }
    drawn
}

/// Removes the players from the index and records `m` as the match of each.
fn record_players(
    index: &mut HashMap<u128, Rank>,
    results: &mut HashMap<u128, MatchResult>,
    players: &Vec<Player>,
    m: &MatchResult,
)
    ensures
        final(index)@ == old(index)@.remove_keys(player_ids(players@)),
        forall|k: u128| #[trigger]
            final(results)@.contains_key(k) <==> (old(results)@.contains_key(k) || player_ids(
                players@,
            ).contains(k)),
        forall|k: u128|
            player_ids(players@).contains(k) ==> #[trigger] final(results)@[k]@ == m@,
        forall|k: u128|
            !player_ids(players@).contains(k) && old(results)@.contains_key(k)
                ==> #[trigger] final(results)@[k] == old(results)@[k],
{
    let ghost index0 = index@;
    let ghost results0 = results@;
    let n = players.len();
    let mut i: usize = 0;
    while i < n
        invariant
            n == players@.len(),
            i <= n,
            index@ == index0.remove_keys(player_ids(players@.take(i as int))),
            forall|k: u128| #[trigger]
                results@.contains_key(k) <==> (results0.contains_key(k) || player_ids(
                    players@.take(i as int),
                ).contains(k)),
            forall|k: u128|
                player_ids(players@.take(i as int)).contains(k) ==> #[trigger] results@[k]@ == m@,
            forall|k: u128|
                !player_ids(players@.take(i as int)).contains(k) && results0.contains_key(k)
                    ==> #[trigger] results@[k] == results0[k],
        decreases n - i,
    {
        let id = players[i].id;
        let ghost results_before = results@;
        let ghost before = players@.take(i as int).map_values(|p: Player| p.id);
        let ghost after = players@.take(i + 1).map_values(|p: Player| p.id);
        index.remove(&id);
        let mc = m.clone();
        results.insert(id, mc);
        proof {
            assert(after == before.push(id));
            assert(after.to_set() == before.to_set().insert(id)) by {
                assert forall|x: u128| after.to_set().contains(x) <==> before.to_set().insert(
                    id,
                ).contains(x) by {
                    if after.contains(x) {
                        let j = choose|j: int| 0 <= j < after.len() && after[j] == x;
                        if j < before.len() {
                            assert(before[j] == x);
                        }
                    }
                    if before.contains(x) {
                        let j = choose|j: int| 0 <= j < before.len() && before[j] == x;
                        assert(after[j] == x);
                    }
                    if x == id {
                        assert(after[i as int] == x);
                    }
                }
            }
            assert(index@ == index0.remove_keys(player_ids(players@.take(i + 1))));
            assert forall|k: u128|
                player_ids(players@.take(i + 1)).contains(k) implies #[trigger] results@[k]@
                == m@ by {
                if k != id {
                    assert(results_before[k]@ == m@);
                }
            }
        }
        i = i + 1;
    }
    proof {
        assert(players@.take(n as int) == players@);
    }
}

/// The score of the first player with identifier `id` among `players`.
pub(crate) fn find_score(players: &Vec<Player>, id: u128) -> (s: Option<u32>)
    ensures
        s == first_score(players@, id),
{
    let n = players.len();
    let mut i: usize = 0;
    assert(players@.skip(0) == players@);
    while i < n
        invariant
            n == players@.len(),
            i <= n,
            first_score(players@, id) == first_score(players@.skip(i as int), id),
        decreases n - i,
    {
        assert(players@.skip(i as int).drop_first() == players@.skip(i + 1));
        if players[i].id == id {
            return Some(players[i].score);
        }
        i = i + 1;
    }
    None
}

/// The position of the first player with identifier `id` in a queue.
fn position_of(pool: &VecDeque<QueuedPlayer>, id: u128) -> (pos: Option<usize>)
    ensures
        match pos {
            Some(i) => i < pool@.len() && pool@[i as int].player.id == id && forall|j: int|
                0 <= j < i ==> #[trigger] pool@[j].player.id != id,
            None => forall|j: int| 0 <= j < pool@.len() ==> #[trigger] pool@[j].player.id != id,
        },
{
    let n = pool.len();
    let mut i: usize = 0;
    while i < n
        invariant
            n == pool@.len(),
            i <= n,
            forall|j: int| 0 <= j < i ==> #[trigger] pool@[j].player.id != id,
        decreases n - i,
    {
        if pool[i].player.id == id {
            return Some(i);
        }
        i = i + 1;
    }
    None
}

impl MatchPool {
    /// The queue of a tier, front first.
    pub closed spec fn queue(self, r: Rank) -> Seq<QueuedPlayer> {
        self.pools@[rank_index(r) as int]@
    }

    /// The tier of each queued player.
    pub closed spec fn index(self) -> Map<u128, Rank> {
        self.player_index@
    }

    /// The latest match of each matched player.
    pub closed spec fn results(self) -> Map<u128, MatchResultView> {
        self.match_results@.map_values(|m: MatchResult| m@)
    }

    /// Number of players in all queues together.
    pub open spec fn queued_total(self) -> nat {
        self.queue(Rank::Bronze).len() + self.queue(Rank::Silver).len() + self.queue(
            Rank::Gold,
        ).len() + self.queue(Rank::Platinum).len() + self.queue(Rank::Diamond).len()
            + self.queue(Rank::Master).len() + self.queue(Rank::Challenger).len()
    }

    /// Every queued player sits in the queue of its own tier, and the index
    /// maps it there; every join time is a valid timestamp; no identifier is queued twice; every indexed player is
    /// queued; the index counts exactly the queued players.
    pub closed spec fn wf(self) -> bool {
        &&& self.pools@.len() == RANK_COUNT
        &&& forall|r: Rank, i: int|
            0 <= i < self.queue(r).len() ==> {
                let p = #[trigger] self.queue(r)[i].player;
                &&& p.rank == r
                &&& self.player_index@.contains_key(p.id)
                &&& self.player_index@[p.id] == r
            }
        &&& forall|r: Rank, i: int|
            0 <= i < self.queue(r).len() ==> (#[trigger] self.queue(r)[i]).join_time.valid()
        &&& forall|r: Rank, i: int, j: int|
            0 <= i < j < self.queue(r).len() ==> #[trigger] self.queue(r)[i].player.id
                != #[trigger] self.queue(r)[j].player.id
        &&& forall|id: u128|
            #[trigger] self.player_index@.contains_key(id) ==> exists|i: int|
                0 <= i < self.queue(self.player_index@[id]).len() && #[trigger] self.queue(
                    self.player_index@[id],
                )[i].player.id == id
        &&& self.queued_total() == self.player_index@.len()
    }

    /// `post` is `pre` after `player` joined the back of its tier's queue
    /// (stamped with some join time) and the index.
    pub open spec fn joined(pre: MatchPool, post: MatchPool, player: Player) -> bool {
        let r = player.rank;
        &&& post.queue(r).len() == pre.queue(r).len() + 1
        &&& post.queue(r).drop_last() == pre.queue(r)
        &&& post.queue(r).last().player == player
        &&& forall|r2: Rank| r2 != r ==> #[trigger] post.queue(r2) == pre.queue(r2)
        &&& post.index() == pre.index().insert(player.id, r)
        &&& post.results() == pre.results()
    }

    /// `post` is `pre` after the queued player `id` left its queue and the
    /// index, the order of the others kept.
    pub open spec fn left(pre: MatchPool, post: MatchPool, id: u128) -> bool {
        let r = pre.index()[id];
        &&& exists|i: int|
            0 <= i < pre.queue(r).len() && #[trigger] pre.queue(r)[i].player.id == id
                && post.queue(r) == pre.queue(r).remove(i)
        &&& forall|r2: Rank| r2 != r ==> #[trigger] post.queue(r2) == pre.queue(r2)
        &&& post.index() == pre.index().remove(id)
        &&& post.results() == pre.results()
    }

    /// Taking the first `n` players off the front of one queue, and out of
    /// the index, keeps the pool well formed.
    proof fn lemma_wf_after_draw(pre: MatchPool, post: MatchPool, rank: Rank, n: int)
        requires
            pre.wf(),
            0 <= n <= pre.queue(rank).len(),
            post.pools@.len() == RANK_COUNT,
            post.queue(rank) == pre.queue(rank).skip(n),
            forall|r: Rank| r != rank ==> #[trigger] post.queue(r) == pre.queue(r),
            post.player_index@ == pre.player_index@.remove_keys(
                ids_of(pre.queue(rank).take(n)).to_set(),
            ),
        ensures
            post.wf(),
    {
        let q0 = pre.queue(rank);
        let gone = ids_of(q0.take(n));
        assert forall|x: u128| gone.to_set().contains(x) <==> exists|j: int|
            0 <= j < n && #[trigger] q0[j].player.id == x by {
            if gone.contains(x) {
                let j = choose|j: int| 0 <= j < gone.len() && gone[j] == x;
                assert(q0[j].player.id == x);
            }
            if exists|j: int| 0 <= j < n && #[trigger] q0[j].player.id == x {
                let j = choose|j: int| 0 <= j < n && #[trigger] q0[j].player.id == x;
                assert(gone[j] == x);
            }
        }
        assert forall|r: Rank, i: int| 0 <= i < post.queue(r).len() implies {
            let p = #[trigger] post.queue(r)[i].player;
            &&& p.rank == r
            &&& post.player_index@.contains_key(p.id)
            &&& post.player_index@[p.id] == r
        } by {
            if r != rank {
                assert(post.queue(r)[i] == pre.queue(r)[i]);
                let id = pre.queue(r)[i].player.id;
                if gone.to_set().contains(id) {
                    let j = choose|j: int| 0 <= j < n && #[trigger] q0[j].player.id == id;
                    assert(pre.player_index@[q0[j].player.id] == rank);
                }
            } else {
                assert(post.queue(r)[i] == q0[i + n]);
                let id = q0[i + n].player.id;
                if gone.to_set().contains(id) {
                    let j = choose|j: int| 0 <= j < n && #[trigger] q0[j].player.id == id;
                    assert(q0[j].player.id != q0[i + n].player.id);
                }
            }
        }
        assert forall|r: Rank, i: int, j: int|
            0 <= i < j < post.queue(r).len() implies #[trigger] post.queue(r)[i].player.id
            != #[trigger] post.queue(r)[j].player.id by {
            if r != rank {
                assert(post.queue(r)[i] == pre.queue(r)[i]);
                assert(post.queue(r)[j] == pre.queue(r)[j]);
            } else {
                assert(post.queue(r)[i] == q0[i + n]);
                assert(post.queue(r)[j] == q0[j + n]);
            }
        }
        assert forall|k: u128| #[trigger] post.player_index@.contains_key(k) implies exists|i: int|
            0 <= i < post.queue(post.player_index@[k]).len() && #[trigger] post.queue(
                post.player_index@[k],
            )[i].player.id == k by {
            let r = pre.player_index@[k];
            let j = choose|j: int|
                0 <= j < pre.queue(r).len() && #[trigger] pre.queue(r)[j].player.id == k;
            if r != rank {
                assert(post.queue(r)[j] == pre.queue(r)[j]);
            } else {
                if j < n {
                    assert(gone.to_set().contains(k));
                }
                assert(post.queue(r)[j - n] == q0[j]);
            }
        }
        assert(gone.no_duplicates()) by {
            assert forall|i: int, j: int| 0 <= i < gone.len() && 0 <= j < gone.len() && i != j
                implies gone[i] != gone[j] by {
                if i < j {
                    assert(q0[i].player.id != q0[j].player.id);
                } else {
                    assert(q0[j].player.id != q0[i].player.id);
                }
            }
        }
        gone.unique_seq_to_set();
        assert forall|k: u128| #[trigger] gone.to_set().contains(k) implies pre.player_index@.contains_key(k) by {
            let j = choose|j: int| 0 <= j < n && #[trigger] q0[j].player.id == k;
        }
        pre.player_index@.lemma_remove_keys_len(gone.to_set());
        assert forall|r: Rank| #[trigger] post.queue(r).len() == pre.queue(r).len() - (if r == rank {
            n
        } else {
            0
        }) by {}
    }

    /// `post` is `pre` after matching in the queue of `rank`: one match per
    /// whole block of ten players at the front, in order, with `ms` the
    /// matches; the matched players leave the queue and the index, and each
    /// of them is recorded with its match.
    pub open spec fn matched_round(
        pre: MatchPool,
        post: MatchPool,
        rank: Rank,
        ms: Seq<MatchResultView>,
    ) -> bool {
        let q = pre.queue(rank);
        let k = q.len() as int / 10;
        let drawn = drawn_ids(q, 10 * k);
        &&& ms.len() == k
        &&& forall|b: int| 0 <= b < k ==> is_block_match(q, b, #[trigger] ms[b])
        &&& post.queue(rank) == q.skip(10 * k)
        &&& forall|r: Rank| r != rank ==> #[trigger] post.queue(r) == pre.queue(r)
        &&& post.index() == pre.index().remove_keys(drawn)
        &&& forall|p: int| 0 <= p < 10 * k ==> post.results()[#[trigger] q[p].player.id] == ms[p / 10]
        &&& forall|id: u128| #[trigger]
            post.results().contains_key(id) <==> (pre.results().contains_key(id) || drawn.contains(
                id,
            ))
        &&& forall|id: u128|
            pre.results().contains_key(id) && !drawn.contains(id) ==> #[trigger] post.results()[id]
                == pre.results()[id]
    }

    /// A queued player is indexed under its tier.
    pub proof fn lemma_queued_is_indexed(pool: MatchPool, r: Rank, i: int)
        requires
            pool.wf(),
            0 <= i < pool.queue(r).len(),
        ensures
            pool.index().contains_key(pool.queue(r)[i].player.id),
            pool.index()[pool.queue(r)[i].player.id] == r,
            pool.queue(r)[i].player.rank == r,
    {
        let p = pool.queue(r)[i].player;
    }

    /// After a join stamped at `now`, the joined player's queue entry is the
    /// new back entry of its tier's queue, and its wait at `now` is 0.
    pub proof fn lemma_joined_entry(pre: MatchPool, post: MatchPool, player: Player, now: Timestamp)
        requires
            pre.wf(),
            post.wf(),
            !pre.index().contains_key(player.id),
            MatchPool::joined(pre, post, player),
            post.queue(player.rank).last().join_time == now,
        ensures
            post.queued_entry(player.id) == post.queue(player.rank).last(),
            post.queued_entry(player.id).join_time == now,
            post.wait_time(player.id, now) == Some(0u64),
    {
        let r = player.rank;
        let q = post.queue(r);
        let last = q.len() - 1;
        assert(post.index()[player.id] == r);
        assert(q[last].player.id == player.id);
        let c = choose|i: int| 0 <= i < q.len() && #[trigger] q[i].player.id == player.id;
        if c != last {
            MatchPool::lemma_queue_ids_distinct(post, r, c, last);
        }
    }

    /// A queued player's entry holds that player, sits in the queue of its
    /// tier, and has a valid join time.
    pub proof fn lemma_queued_entry(pool: MatchPool, id: u128)
        requires
            pool.wf(),
            pool.index().contains_key(id),
        ensures
            pool.queued_entry(id).player.id == id,
            pool.queued_entry(id).player.rank == pool.index()[id],
            pool.queued_entry(id).join_time.valid(),
    {
        let r = pool.index()[id];
        let q = pool.queue(r);
        assert(pool.player_index@.contains_key(id));
        let i = choose|i: int| 0 <= i < q.len() && #[trigger] q[i].player.id == id;
        assert(q[i].player.id == id);
    }

    /// The player `id` waits in some queue.
    pub open spec fn is_queued(self, id: u128) -> bool {
        exists|r: Rank, i: int|
            0 <= i < self.queue(r).len() && #[trigger] self.queue(r)[i].player.id == id
    }

    /// The indexed players of tier `r`.
    pub open spec fn tier_members(self, r: Rank) -> Set<u128> {
        self.index().dom().filter(|k: u128| self.index()[k] == r)
    }

    /// A player is indexed exactly when it waits in a queue, and then it
    /// waits in the queue of the tier that the index gives.
    pub proof fn lemma_indexed_iff_queued(pool: MatchPool, id: u128)
        requires
            pool.wf(),
        ensures
            pool.index().contains_key(id) <==> pool.is_queued(id),
            pool.index().contains_key(id) ==> exists|i: int|
                0 <= i < pool.queue(pool.index()[id]).len() && #[trigger] pool.queue(
                    pool.index()[id],
                )[i].player.id == id,
    {
        if pool.is_queued(id) {
            let (r, i) = choose|r: Rank, i: int|
                0 <= i < pool.queue(r).len() && #[trigger] pool.queue(r)[i].player.id == id;
            MatchPool::lemma_queued_is_indexed(pool, r, i);
        }
        if pool.index().contains_key(id) {
            assert(pool.player_index@.contains_key(id));
            let r = pool.player_index@[id];
            let i = choose|i: int| 0 <= i < pool.queue(r).len() && #[trigger] pool.queue(r)[i].player.id == id;
            assert(pool.is_queued(id));
        }
    }

    /// The queues together hold exactly as many players as the index.
    pub proof fn lemma_total_is_index_len(pool: MatchPool)
        requires
            pool.wf(),
        ensures
            pool.queued_total() == pool.index().len(),
    {
    }

    /// The queue of a tier holds exactly as many players as the index
    /// assigns to that tier.
    pub proof fn lemma_tier_size(pool: MatchPool, r: Rank)
        requires
            pool.wf(),
        ensures
            pool.queue(r).len() == pool.tier_members(r).len(),
    {
        let q = pool.queue(r);
        let ids = ids_of(q);
        assert(ids.no_duplicates()) by {
            assert forall|i: int, j: int| 0 <= i < ids.len() && 0 <= j < ids.len() && i != j
                implies ids[i] != ids[j] by {
                if i < j {
                    MatchPool::lemma_queue_ids_distinct(pool, r, i, j);
                } else {
                    MatchPool::lemma_queue_ids_distinct(pool, r, j, i);
                }
            }
        }
        ids.unique_seq_to_set();
        assert forall|k: u128| ids.to_set().contains(k) <==> pool.tier_members(r).contains(k) by {
            if ids.contains(k) {
                let i = choose|i: int| 0 <= i < ids.len() && ids[i] == k;
                MatchPool::lemma_queued_is_indexed(pool, r, i);
            }
            if pool.tier_members(r).contains(k) {
                MatchPool::lemma_indexed_iff_queued(pool, k);
                let i = choose|i: int| 0 <= i < q.len() && #[trigger] q[i].player.id == k;
                assert(ids[i] == k);
            }
        }
        assert(ids.to_set() =~= pool.tier_members(r));
    }

    /// No identifier is queued twice in a queue.
    pub proof fn lemma_queue_ids_distinct(pool: MatchPool, r: Rank, i: int, j: int)
        requires
            pool.wf(),
            0 <= i < j < pool.queue(r).len(),
        ensures
            pool.queue(r)[i].player.id != pool.queue(r)[j].player.id,
    {
    }

    /// Well-formedness depends on the queues and the index alone.
    proof fn lemma_wf_same_queues(a: MatchPool, b: MatchPool)
        requires
            a.wf(),
            a.pools == b.pools,
            a.player_index == b.player_index,
        ensures
            b.wf(),
    {
        assert forall|r: Rank| #[trigger] b.queue(r) == a.queue(r) by {}
        assert forall|r: Rank, i: int| 0 <= i < b.queue(r).len() implies {
            let p = #[trigger] b.queue(r)[i].player;
            &&& p.rank == r
            &&& b.player_index@.contains_key(p.id)
            &&& b.player_index@[p.id] == r
        } by {
            assert(b.queue(r)[i] == a.queue(r)[i]);
        }
        assert forall|r: Rank, i: int, j: int|
            0 <= i < j < b.queue(r).len() implies #[trigger] b.queue(r)[i].player.id
            != #[trigger] b.queue(r)[j].player.id by {
            assert(b.queue(r)[i] == a.queue(r)[i]);
            assert(b.queue(r)[j] == a.queue(r)[j]);
        }
        assert forall|id: u128| #[trigger] b.player_index@.contains_key(id) implies exists|i: int|
            0 <= i < b.queue(b.player_index@[id]).len() && #[trigger] b.queue(
                b.player_index@[id],
            )[i].player.id == id by {
            let r = a.player_index@[id];
            let i = choose|i: int| 0 <= i < a.queue(r).len() && #[trigger] a.queue(r)[i].player.id == id;
            assert(b.queue(r)[i] == a.queue(r)[i]);
        }
        assert(b.queued_total() == a.queued_total());
    }

    /// An empty pool: every queue empty, nobody indexed, no matches.
    pub fn new() -> (pool: MatchPool)
        ensures
            pool.wf(),
            forall|r: Rank| #[trigger] pool.queue(r).len() == 0,
            pool.index().is_empty(),
            pool.results().is_empty(),
    {
        let mut pools: Vec<VecDeque<QueuedPlayer>> = Vec::new();
        for i in 0..RANK_COUNT
            invariant
                pools@.len() == i,
                forall|j: int| 0 <= j < i ==> #[trigger] pools@[j]@.len() == 0,
        {
            pools.push(VecDeque::new());
        }
        let pool = MatchPool {
            pools,
            player_index: HashMap::new(),
            match_results: HashMap::new(),
        };
        assert(pool.results() =~= Map::empty());
        assert(pool.player_index@ =~= Map::empty());
        pool
    }

    /// Queues `player` at the back of the queue of its tier; refused where the
    /// player is already queued.
    pub fn add_player(&mut self, player: Player) -> (res: Result<(), String>)
        requires
            old(self).wf(),
        ensures
            final(self).wf(),
            res is Err <==> old(self).index().contains_key(player.id),
            res matches Err(e) ==> e@ == already_queued_message() && *final(self) == *old(self),
            res is Ok ==> MatchPool::joined(*old(self), *final(self), player),
    {
        let now = Timestamp::now();
        self.add_player_at(player, now)
    }

    /// Queues `player`, stamped with the time `now`, at the back of the queue
    /// of its tier; refused where the player is already queued.
    pub fn add_player_at(&mut self, player: Player, now: Timestamp) -> (res: Result<(), String>)
        requires
            old(self).wf(),
        ensures
            final(self).wf(),
            res is Err <==> old(self).index().contains_key(player.id),
            res matches Err(e) ==> e@ == already_queued_message() && *final(self) == *old(self),
            res is Ok ==> MatchPool::joined(*old(self), *final(self), player),
            res is Ok ==> final(self).queue(player.rank).last().join_time == now,
    {
        let player_id = player.id;
        let rank = player.rank;
        if self.player_index.contains_key(&player_id) {
            proof {
                reveal_strlit("玩家已在匹配队列中");
            }
            return Err("玩家已在匹配队列中".to_string());
        }
        let ghost pre = *self;
        proof {
            use_type_invariant(&now);
        }
        let queued = QueuedPlayer::new_at(player, now);
        let ri = rank.index();
        self.pools[ri].push_back(queued);
        self.player_index.insert(player_id, rank);
        proof {
            assert forall|r: Rank| r != rank implies #[trigger] self.queue(r) == pre.queue(r) by {
                assert(rank_index(r) != rank_index(rank));
            }
            assert(self.queue(rank) == pre.queue(rank).push(queued));
            assert(self.queue(rank).drop_last() == pre.queue(rank));
            assert forall|r: Rank, i: int| 0 <= i < self.queue(r).len() implies (
            #[trigger] self.queue(r)[i]).join_time.valid() by {
                if r != rank || i < pre.queue(r).len() {
                    assert(self.queue(r)[i] == pre.queue(r)[i]);
                }
            }
            assert forall|r: Rank, i: int| 0 <= i < self.queue(r).len() implies {
                let p = #[trigger] self.queue(r)[i].player;
                &&& p.rank == r
                &&& self.player_index@.contains_key(p.id)
                &&& self.player_index@[p.id] == r
            } by {
                if r != rank || i < pre.queue(r).len() {
                    assert(self.queue(r)[i] == pre.queue(r)[i]);
                }
            }
            assert forall|r: Rank, i: int, j: int|
                0 <= i < j < self.queue(r).len() implies #[trigger] self.queue(r)[i].player.id
                != #[trigger] self.queue(r)[j].player.id by {
                assert(self.queue(r)[i] == pre.queue(r)[i]);
                if r != rank || j < pre.queue(r).len() {
                    assert(self.queue(r)[j] == pre.queue(r)[j]);
                }
            }
            assert forall|id: u128| #[trigger] self.player_index@.contains_key(id) implies exists|i: int|
                0 <= i < self.queue(self.player_index@[id]).len() && #[trigger] self.queue(
                    self.player_index@[id],
                )[i].player.id == id by {
                if id == player_id {
                    let k = pre.queue(rank).len() as int;
                    assert(self.queue(rank)[k].player.id == id);
                } else {
                    let r = pre.player_index@[id];
                    let i = choose|i: int|
                        0 <= i < pre.queue(r).len() && #[trigger] pre.queue(r)[i].player.id == id;
                    assert(self.queue(r)[i] == pre.queue(r)[i]);
                }
            }
            assert(self.results() == pre.results());
        }
        Ok(())
    }

    /// Takes the player out of its queue and the index; refused where the
    /// player is not queued.
    #[verifier::spinoff_prover]
    #[verifier::rlimit(40)]
    pub fn remove_player(&mut self, player_id: &u128) -> (res: Result<(), String>)
        requires
            old(self).wf(),
        ensures
            final(self).wf(),
            res is Err <==> !old(self).index().contains_key(*player_id),
            res matches Err(e) ==> e@ == not_queued_message() && *final(self) == *old(self),
            res is Ok ==> MatchPool::left(*old(self), *final(self), *player_id),
    {
        proof {
            reveal_strlit("玩家不在匹配队列中");
        }
        let rank = match self.player_index.get(player_id) {
            Some(r) => *r,
            None => {
                return Err("玩家不在匹配队列中".to_string());
            },
        };
        let ghost pre = *self;
        let ghost id = *player_id;
        let ri = rank.index();
        let found = position_of(&self.pools[ri], *player_id);
        match found {
            Some(pos) => {
                self.pools[ri].remove(pos);
                self.player_index.remove(player_id);
                proof {
                    let q0 = pre.queue(rank);
                    assert forall|r: Rank| r != rank implies #[trigger] self.queue(r) == pre.queue(
                        r,
                    ) by {
                        assert(rank_index(r) != rank_index(rank));
                    }
                    assert(self.queue(rank) == q0.remove(pos as int));
                    assert forall|r: Rank, i: int| 0 <= i < self.queue(r).len() implies {
                        let p = #[trigger] self.queue(r)[i].player;
                        &&& p.rank == r
                        &&& self.player_index@.contains_key(p.id)
                        &&& self.player_index@[p.id] == r
                    } by {
                        if r != rank {
                            assert(self.queue(r)[i] == pre.queue(r)[i]);
                            assert(pre.queue(r)[i].player.id != id);
                        } else if i < pos {
                            assert(self.queue(r)[i] == q0[i]);
                            assert(q0[i].player.id != id);
                        } else {
                            assert(self.queue(r)[i] == q0[i + 1]);
                            assert(q0[i + 1].player.id != q0[pos as int].player.id);
                        }
                    }
                    assert forall|r: Rank, i: int, j: int|
                        0 <= i < j < self.queue(r).len() implies #[trigger] self.queue(
                            r,
                        )[i].player.id != #[trigger] self.queue(r)[j].player.id by {
                        if r != rank {
                            assert(self.queue(r)[i] == pre.queue(r)[i]);
                            assert(self.queue(r)[j] == pre.queue(r)[j]);
                        } else {
                            let ii = if i < pos { i } else { i + 1 };
                            let jj = if j < pos { j } else { j + 1 };
                            assert(self.queue(r)[i] == q0[ii]);
                            assert(self.queue(r)[j] == q0[jj]);
                        }
                    }
                    assert forall|k: u128| #[trigger] self.player_index@.contains_key(
                        k,
                    ) implies exists|i: int|
                        0 <= i < self.queue(self.player_index@[k]).len() && #[trigger] self.queue(
                            self.player_index@[k],
                        )[i].player.id == k by {
                        let r = pre.player_index@[k];
                        let j = choose|j: int|
                            0 <= j < pre.queue(r).len() && #[trigger] pre.queue(r)[j].player.id
                                == k;
                        if r != rank {
                            assert(self.queue(r)[j] == pre.queue(r)[j]);
                        } else if j < pos {
                            assert(self.queue(r)[j] == q0[j]);
                        } else {
                            assert(j != pos);
                            assert(self.queue(r)[j - 1] == q0[j]);
                        }
                    }
                    pre.player_index@.lemma_remove_key_len(id);
                    assert(self.results() == pre.results());
                }
                Ok(())
            },
            None => {
                proof {
                    let r = pre.player_index@[id];
                    let j = choose|j: int|
                        0 <= j < pre.queue(r).len() && #[trigger] pre.queue(r)[j].player.id == id;
                    assert(pre.pools@[rank_index(rank) as int]@[j].player.id == id);
                }
                Err("玩家不在匹配队列中".to_string())
            },
        }
    }

    /// Makes as many matches as the queue of `rank` allows: while ten or
    /// more players wait there, the first five form team 1 and the next five
    /// team 2; each match gets a fresh identifier and the current time, its
    /// players leave the queue, and the match is recorded for each of them.
    pub fn try_match_rank(&mut self, rank: Rank) -> (matches: Vec<MatchResult>)
        requires
            old(self).wf(),
        ensures
            final(self).wf(),
            MatchPool::matched_round(
                *old(self),
                *final(self),
                rank,
                matches@.map_values(|m: MatchResult| m@),
            ),
            exists|now: Timestamp| now.valid() && #[trigger] stamped_at(matches@, now),
    {
        let now = Timestamp::now();
        self.try_match_rank_at(rank, now)
    }

    /// Makes as many matches as the queue of `rank` allows, as
    /// `try_match_rank` does, with every match and team created at `now`.
    pub fn try_match_rank_at(&mut self, rank: Rank, now: Timestamp) -> (matches: Vec<MatchResult>)
        requires
            old(self).wf(),
        ensures
            final(self).wf(),
            MatchPool::matched_round(
                *old(self),
                *final(self),
                rank,
                matches@.map_values(|m: MatchResult| m@),
            ),
            stamped_at(matches@, now),
    {
        let ghost pre = *self;
        let ghost q0 = pre.queue(rank);
        let ri = rank.index();
        let mut results: Vec<MatchResult> = Vec::new();
        proof {
            assert(q0.skip(0) == q0);
            assert(pre.index().remove_keys(drawn_ids(q0, 0)) == pre.index());
            assert forall|i: int, j: int|
                0 <= i < j < q0.len() implies #[trigger] q0[i].player.id
                != #[trigger] q0[j].player.id by {}
        }
        while self.pools[ri].len() >= MATCH_SIZE
            invariant
                self.wf(),
                ri == rank_index(rank),
                10 * (results@.len() as int) <= q0.len(),
                q0 == pre.queue(rank),
                ids_distinct(q0),
                self.queue(rank) == q0.skip(10 * (results@.len() as int)),
                forall|r: Rank| r != rank ==> #[trigger] self.queue(r) == pre.queue(r),
                self.index() == pre.index().remove_keys(
                    drawn_ids(q0, 10 * (results@.len() as int)),
                ),
                forall|b: int|
                    0 <= b < results@.len() ==> is_block_match(q0, b, #[trigger] results@[b]@),
                stamped_at(results@, now),
                results_recorded(
                    q0,
                    results@.len() as int,
                    pre.results(),
                    self.results(),
                    results@.map_values(|m: MatchResult| m@),
                ),
            decreases self.pools@[ri as int]@.len(),
        {
            let ghost before = *self;
            let ghost results_before = results@;
            let ghost j = results@.len() as int;
            let ghost cur = self.queue(rank);
            proof {
                assert(self.pools@[ri as int]@ == cur);
            }
            let team1_players = draw_players(&mut self.pools[ri], TEAM_SIZE);
            let team2_players = draw_players(&mut self.pools[ri], TEAM_SIZE);
            if team1_players.len() == TEAM_SIZE && team2_players.len() == TEAM_SIZE {
                let team1 = Team::new_at(team1_players, now);
                let team2 = Team::new_at(team2_players, now);
                let match_result = MatchResult { match_id: new_v4_id(), team1, team2, created_at: now };
                let ghost results_mid = self.match_results@;
                record_players(
                    &mut self.player_index,
                    &mut self.match_results,
                    &match_result.team1.players,
                    &match_result,
                );
                let ghost results_mid2 = self.match_results@;
                record_players(
                    &mut self.player_index,
                    &mut self.match_results,
                    &match_result.team2.players,
                    &match_result,
                );
                let ghost mv = match_result@;
                results.push(match_result);
                proof {
                    let s1 = q0.subrange(10 * j, 10 * j + 5);
                    let s2 = q0.subrange(10 * j + 5, 10 * j + 10);
                    assert(cur.take(5) == s1);
                    assert(cur.skip(5).take(5) == s2);
                    assert(cur.skip(5).skip(5) == q0.skip(10 * j + 10));
                    assert(cur.skip(5).skip(5) == cur.skip(10));
                    assert(self.queue(rank) == self.pools@[ri as int]@);
                    assert(self.queue(rank) == before.queue(rank).skip(10));
                    lemma_block_split(q0, j);
                    lemma_index_step(
                        pre.index(),
                        before.index(),
                        self.index(),
                        q0,
                        j,
                    );
                    MatchPool::lemma_wf_after_draw(before, *self, rank, 10);
                    assert(is_block_match(q0, j, mv));
                    assert forall|b: int| 0 <= b < results@.len() implies is_block_match(
                        q0,
                        b,
                        #[trigger] results@[b]@,
                    ) by {
                        if b < j {
                            assert(results@[b] == results_before[b]);
                        }
                    }
                    assert(results@.map_values(|m: MatchResult| m@) == results_before.map_values(
                        |m: MatchResult| m@,
                    ).push(mv));
                    lemma_results_step(
                        q0,
                        j,
                        pre.results(),
                        results_mid,
                        results_mid2,
                        self.match_results@,
                        results_before.map_values(|m: MatchResult| m@),
                        mv,
                    );
                }
            }
        }
        proof {
            assert(results@.len() == q0.len() / 10);
            let ms = results@.map_values(|m: MatchResult| m@);
            assert forall|b: int| 0 <= b < ms.len() implies is_block_match(
                q0,
                b,
                #[trigger] ms[b],
            ) by {
                assert(ms[b] == results@[b]@);
            }
        }
        results
    }

    /// Drops every recorded match that is not fresh at `now`: one
    /// `max_age_seconds` or more old, or stamped later than `now`.
    pub fn clear_results_expired_at(&mut self, now: Timestamp, max_age_seconds: u64)
        requires
            old(self).wf(),
        ensures
            final(self).wf(),
            forall|r: Rank| #[trigger] final(self).queue(r) == old(self).queue(r),
            final(self).index() == old(self).index(),
            final(self).results() == fresh_results(old(self).results(), now, max_age_seconds),
    {
        let ghost m0 = self.match_results@;
        let mut expired: Vec<u128> = Vec::new();
        for kv in it: self.match_results.iter()
            invariant
                self.match_results@ == m0,
                forall|id: u128| #[trigger] m0.contains_key(id) ==> it.seq().contains((&id, &m0[id])),
                forall|i: int|
                    0 <= i < expired@.len() ==> m0.contains_key(#[trigger] expired@[i]) && !is_fresh(
                        m0[expired@[i]]@.created_at,
                        now,
                        max_age_seconds,
                    ),
                forall|i: int|
                    0 <= i < it.index() ==> (!is_fresh(
                        (#[trigger] it.seq()[i]).1.created_at,
                        now,
                        max_age_seconds,
                    ) ==> expired@.contains(*it.seq()[i].0)),
        {
            let (k, v) = kv;
            let ghost exp_before = expired@;
            assert(kv == it.seq()[it.index() as int]);
            let age = v.created_at.elapsed_secs_at(now);
            let keep = match age {
                Some(s) => s < max_age_seconds,
                None => false,
            };
            if !keep {
                expired.push(*k);
                assert forall|x: u128| exp_before.contains(x) implies expired@.contains(x) by {
                    let t = choose|t: int| 0 <= t < exp_before.len() && exp_before[t] == x;
                    assert(expired@[t] == x);
                }
                assert(expired@[expired@.len() - 1] == *k);
            }
        }
        assert(forall|id: u128|
            m0.contains_key(id) && !is_fresh(m0[id]@.created_at, now, max_age_seconds)
                ==> #[trigger] expired@.contains(id));
        let ghost keys = expired@;
        let n = expired.len();
        let mut i: usize = 0;
        while i < n
            invariant
                n == keys.len(),
                i <= n,
                keys == expired@,
                self.wf(),
                forall|r: Rank| #[trigger] self.queue(r) == old(self).queue(r),
                self.index() == old(self).index(),
                self.match_results@ == m0.remove_keys(keys.take(i as int).to_set()),
            decreases n - i,
        {
            let ghost before = *self;
            self.match_results.remove(&expired[i]);
            proof {
                MatchPool::lemma_wf_same_queues(before, *self);
                assert(keys.take(i + 1).to_set() == keys.take(i as int).to_set().insert(keys[i as int])) by {
                    assert(keys.take(i + 1) == keys.take(i as int).push(keys[i as int]));
                    assert forall|x: u128| keys.take(i + 1).to_set().contains(x) <==> keys.take(i as int).to_set().insert(keys[i as int]).contains(x) by {
                        if keys.take(i + 1).contains(x) {
                            let t = choose|t: int| 0 <= t < i + 1 && #[trigger] keys.take(i + 1)[t] == x;
                            if t < i {
                                assert(keys.take(i as int)[t] == x);
                            }
                        }
                        if keys.take(i as int).contains(x) {
                            let t = choose|t: int| 0 <= t < i && #[trigger] keys.take(i as int)[t] == x;
                            assert(keys.take(i + 1)[t] == x);
                        }
                        if x == keys[i as int] {
                            assert(keys.take(i + 1)[i as int] == x);
                        }
                    }
                }
                assert(self.match_results@ =~= m0.remove_keys(keys.take(i + 1).to_set()));
            }
            i = i + 1;
        }
        proof {
            assert(keys.take(n as int) == keys);
            let post = self.results();
            let want = fresh_results(old(self).results(), now, max_age_seconds);
            assert forall|id: u128| #[trigger] post.contains_key(id) <==> want.contains_key(id) by {
                if m0.contains_key(id) && keys.contains(id) {
                    let t = choose|t: int| 0 <= t < keys.len() && keys[t] == id;
                    assert(!is_fresh(m0[keys[t]]@.created_at, now, max_age_seconds));
                }
            }
            assert(post =~= want);
        }
    }

    /// Drops every recorded match that is `max_age_seconds` or more old by
    /// the clock, or stamped later than the clock shows.
    pub fn clear_expired_results(&mut self, max_age_seconds: u64)
        requires
            old(self).wf(),
        ensures
            final(self).wf(),
            forall|r: Rank| #[trigger] final(self).queue(r) == old(self).queue(r),
            final(self).index() == old(self).index(),
            exists|now: Timestamp|
                now.valid() && final(self).results() == #[trigger] fresh_results(
                    old(self).results(),
                    now,
                    max_age_seconds,
                ),
    {
        let now = Timestamp::now();
        self.clear_results_expired_at(now, max_age_seconds);
    }

    /// The latest match recorded for the player.
    pub fn get_match_result(&self, player_id: &u128) -> (m: Option<MatchResult>)
        ensures
            m is Some <==> self.results().contains_key(*player_id),
            m matches Some(m) ==> m@ == self.results()[*player_id],
    {
        match self.match_results.get(player_id) {
            Some(m) => Some(m.clone()),
            None => None,
        }
    }

    /// The queue entry of a queued player.
    pub open spec fn queued_entry(self, id: u128) -> QueuedPlayer {
        let q = self.queue(self.index()[id]);
        q[choose|i: int| 0 <= i < q.len() && #[trigger] q[i].player.id == id]
    }

    /// How long a queued player has waited at `now`, in whole seconds;
    /// `None` where the player is not queued or joined later than `now`.
    pub open spec fn wait_time(self, id: u128, now: Timestamp) -> Option<u64> {
        if self.index().contains_key(id) {
            seconds_between(self.queued_entry(id).join_time, now)
        } else {
            None
        }
    }

    /// How long the player has waited at `now`, in whole seconds.
    pub fn wait_time_at(&self, player_id: &u128, now: Timestamp) -> (w: Option<u64>)
        requires
            self.wf(),
        ensures
            w == self.wait_time(*player_id, now),
            !self.is_queued(*player_id) ==> w is None,
    {
        proof {
            MatchPool::lemma_indexed_iff_queued(*self, *player_id);
        }
        let rank = match self.player_index.get(player_id) {
            Some(r) => *r,
            None => {
                return None;
            },
        };
        let ri = rank.index();
        match position_of(&self.pools[ri], *player_id) {
            Some(pos) => {
                proof {
                    let q = self.queue(rank);
                    let c = choose|i: int| 0 <= i < q.len() && #[trigger] q[i].player.id == *player_id;
                    assert(q[pos as int].player.id == q[c].player.id);
                    if c != pos {
                        if c < pos {
                            assert(q[c].player.id != q[pos as int].player.id);
                        } else {
                            assert(q[pos as int].player.id != q[c].player.id);
                        }
                    }
                }
                self.pools[ri][pos].join_time.elapsed_secs_at(now)
            },
            None => {
                proof {
                    let q = self.queue(rank);
                    let c = choose|i: int| 0 <= i < q.len() && #[trigger] q[i].player.id == *player_id;
                    assert(self.pools@[ri as int]@[c].player.id == *player_id);
                }
                None
            },
        }
    }

    /// How long the player has waited by the clock, in whole seconds; `None`
    /// where the player is not queued (or the clock shows a time before it
    /// joined).
    pub fn get_player_wait_time(&self, player_id: &u128) -> (w: Option<u64>)
        requires
            self.wf(),
        ensures
            !self.index().contains_key(*player_id) ==> w is None,
            !self.is_queued(*player_id) ==> w is None,
            exists|now: Timestamp| now.valid() && w == #[trigger] self.wait_time(*player_id, now),
    {
        let now = Timestamp::now();
        self.wait_time_at(player_id, now)
    }

    /// The size of every queue, by tier name, in ascending tier order.
    pub fn get_all_pool_sizes(&self) -> (sizes: Vec<(String, usize)>)
        requires
            self.wf(),
        ensures
            sizes@.len() == RANK_COUNT,
            forall|i: int|
                0 <= i < RANK_COUNT ==> (#[trigger] sizes@[i]).0@ == rank_name(all_ranks_seq()[i])
                    && sizes@[i].1 == self.queue(all_ranks_seq()[i]).len(),
    {
        let ranks = Rank::all_ranks();
        let mut sizes: Vec<(String, usize)> = Vec::new();
        for i in 0..ranks.len()
            invariant
                ranks@ == all_ranks_seq(),
                self.wf(),
                sizes@.len() == i,
                forall|j: int|
                    0 <= j < i ==> (#[trigger] sizes@[j]).0@ == rank_name(all_ranks_seq()[j])
                        && sizes@[j].1 == self.queue(all_ranks_seq()[j]).len(),
        {
            let rank = ranks[i];
            let name = rank.as_str().to_string();
            sizes.push((name, self.get_pool_size(rank)));
        }
        sizes
    }

    /// Number of players waiting in all queues together.
    pub fn total_queued(&self) -> (n: usize)
        requires
            self.wf(),
        ensures
            n == self.queued_total(),
            n == self.index().len(),
    {
        self.player_index.len()
    }

    /// The tier in whose queue the player waits.
    pub fn queued_rank(&self, player_id: &u128) -> (r: Option<Rank>)
        ensures
            r is Some <==> self.index().contains_key(*player_id),
            r matches Some(r) ==> r == self.index()[*player_id],
    {
        match self.player_index.get(player_id) {
            Some(r) => Some(*r),
            None => None,
        }
    }

    /// Whether the player waits in some queue.
    pub fn is_player_in_queue(&self, player_id: &u128) -> (b: bool)
        ensures
            b == self.index().contains_key(*player_id),
            self.wf() ==> (b <==> self.is_queued(*player_id)),
    {
        proof {
            if self.wf() {
                MatchPool::lemma_indexed_iff_queued(*self, *player_id);
            }
        }
        self.player_index.contains_key(player_id)
    }

    /// Number of players waiting in the queue of a tier.
    pub fn get_pool_size(&self, rank: Rank) -> (n: usize)
        requires
            self.wf(),
        ensures
            n == self.queue(rank).len(),
            n == self.tier_members(rank).len(),
    {
        proof {
            MatchPool::lemma_tier_size(*self, rank);
        }
        self.pools[rank.index()].len()
    }
}

impl Default for MatchPool {
    fn default() -> (pool: Self)
        ensures
            pool.wf(),
            forall|r: Rank| #[trigger] pool.queue(r).len() == 0,
            pool.index().is_empty(),
            pool.results().is_empty(),
    {
        MatchPool::new()
    }
}

} // verus!
