use vstd::prelude::*;

use crate::clock::Timestamp;
use crate::ids::new_v4_id;

verus! {

/// The rank tiers, from lowest to highest.
#[derive(Clone, Copy, Debug, PartialEq, Eq, Structural, Hash)]
pub enum Rank {
    Bronze,
    Silver,
    Gold,
    Platinum,
    Diamond,
    Master,
    Challenger,
}

/// The tier that a score falls in: a band of a thousand points per tier,
/// with everything from 6000 up in the top tier.
pub open spec fn rank_for_score(score: u32) -> Rank {
    if score <= 999 {
        Rank::Bronze
    } else if score <= 1999 {
        Rank::Silver
    } else if score <= 2999 {
        Rank::Gold
    } else if score <= 3999 {
        Rank::Platinum
    } else if score <= 4999 {
        Rank::Diamond
    } else if score <= 5999 {
        Rank::Master
    } else {
        Rank::Challenger
    }
}

/// Position of a tier in ascending order, from 0 (bronze) to 6 (challenger).
pub open spec fn rank_index(r: Rank) -> nat {
    match r {
        Rank::Bronze => 0,
        Rank::Silver => 1,
        Rank::Gold => 2,
        Rank::Platinum => 3,
        Rank::Diamond => 4,
        Rank::Master => 5,
        Rank::Challenger => 6,
    }
}

/// The lower-case name of a tier.
pub open spec fn rank_name(r: Rank) -> Seq<char> {
    match r {
        Rank::Bronze => seq!['b', 'r', 'o', 'n', 'z', 'e'],
        Rank::Silver => seq!['s', 'i', 'l', 'v', 'e', 'r'],
        Rank::Gold => seq!['g', 'o', 'l', 'd'],
        Rank::Platinum => seq!['p', 'l', 'a', 't', 'i', 'n', 'u', 'm'],
        Rank::Diamond => seq!['d', 'i', 'a', 'm', 'o', 'n', 'd'],
        Rank::Master => seq!['m', 'a', 's', 't', 'e', 'r'],
        Rank::Challenger => seq!['c', 'h', 'a', 'l', 'l', 'e', 'n', 'g', 'e', 'r'],
    }
}

/// Every tier, in ascending order.
pub open spec fn all_ranks_seq() -> Seq<Rank> {
    seq![
        Rank::Bronze,
        Rank::Silver,
        Rank::Gold,
        Rank::Platinum,
        Rank::Diamond,
        Rank::Master,
        Rank::Challenger,
    ]
}

/// Number of rank tiers.
pub const RANK_COUNT: usize = 7;

impl Rank {
    pub fn from_score(score: u32) -> (r: Rank)
        ensures
            r == rank_for_score(score),
    {
        if score <= 999 {
            Rank::Bronze
        } else if score <= 1999 {
            Rank::Silver
        } else if score <= 2999 {
            Rank::Gold
        } else if score <= 3999 {
            Rank::Platinum
        } else if score <= 4999 {
            Rank::Diamond
        } else if score <= 5999 {
            Rank::Master
        } else {
            Rank::Challenger
        }
    }

    pub fn as_str(&self) -> (s: &'static str)
        ensures
            s@ == rank_name(*self),
    {
        match self {
            Rank::Bronze => {
                proof { reveal_strlit("bronze"); }
                "bronze"
            },
            Rank::Silver => {
                proof { reveal_strlit("silver"); }
                "silver"
            },
            Rank::Gold => {
                proof { reveal_strlit("gold"); }
                "gold"
            },
            Rank::Platinum => {
                proof { reveal_strlit("platinum"); }
                "platinum"
            },
            Rank::Diamond => {
                proof { reveal_strlit("diamond"); }
                "diamond"
            },
            Rank::Master => {
                proof { reveal_strlit("master"); }
                "master"
            },
            Rank::Challenger => {
                proof { reveal_strlit("challenger"); }
                "challenger"
            },
        }
    }

    pub fn all_ranks() -> (v: Vec<Rank>)
        ensures
            v@ == all_ranks_seq(),
    {
        let v = vec![
            Rank::Bronze,
            Rank::Silver,
            Rank::Gold,
            Rank::Platinum,
            Rank::Diamond,
            Rank::Master,
            Rank::Challenger,
        ];
        assert(v@ =~= all_ranks_seq());
        v
    }

    /// Position of the tier in ascending order.
    pub fn index(&self) -> (i: usize)
        ensures
            i == rank_index(*self),
            i < RANK_COUNT,
    {
        match self {
            Rank::Bronze => 0,
            Rank::Silver => 1,
            Rank::Gold => 2,
            Rank::Platinum => 3,
            Rank::Diamond => 4,
            Rank::Master => 5,
            Rank::Challenger => 6,
        }
    }
}


/// Sum of the scores of a sequence of players.
pub open spec fn sum_scores(players: Seq<Player>) -> int
    decreases players.len(),
{
    if players.len() == 0 {
        0
    } else {
        sum_scores(players.drop_last()) + players.last().score
    }
}

/// A player: identifier, display name, score and the tier of that score.
#[derive(Debug)]
pub struct Player {
    pub id: u128,
    pub name: String,
    pub score: u32,
    pub rank: Rank,
}

impl Clone for Player {
    fn clone(&self) -> (p: Self)
        ensures
            p == *self,
    {
        Player { id: self.id, name: self.name.clone(), score: self.score, rank: self.rank }
    }
}

impl Player {
    /// A player whose tier is the one its score falls in.
    pub fn new(id: u128, name: String, score: u32) -> (p: Player)
        ensures
            p.id == id,
            p.name == name,
            p.score == score,
            p.rank == rank_for_score(score),
    {
        let rank = Rank::from_score(score);
        Player { id, name, score, rank }
    }
}

/// A request to join the queue.
#[derive(Debug)]
pub struct MatchRequest {
    pub player_id: u128,
    pub player_name: String,
    pub score: u32,
}

/// A player waiting in a queue, with the time it joined.
#[derive(Debug)]
pub struct QueuedPlayer {
    pub player: Player,
    pub join_time: Timestamp,
}

impl QueuedPlayer {
    /// The player, stamped with the current time.
    pub fn new(player: Player) -> (q: QueuedPlayer)
        ensures
            q.player == player,
    {
        QueuedPlayer::new_at(player, Timestamp::now())
    }

    /// The player, stamped with the time `now`.
    pub fn new_at(player: Player, now: Timestamp) -> (q: QueuedPlayer)
        ensures
            q.player == player,
            q.join_time == now,
    {
        QueuedPlayer { player, join_time: now }
    }
}

/// What a team is: its identifier, its players in order, its creation time
/// and the sum of its players' scores.
pub struct TeamView {
    pub id: u128,
    pub players: Seq<Player>,
    pub created_at: Timestamp,
    pub score_sum: u128,
}

/// One side of a match. `score_sum` is the sum of the players' scores; the
/// average score is that sum over the number of players.
#[derive(Debug)]
pub struct Team {
    pub id: u128,
    pub players: Vec<Player>,
    pub created_at: Timestamp,
    pub score_sum: u128,
}

impl View for Team {
    type V = TeamView;

    open spec fn view(&self) -> TeamView {
        TeamView {
            id: self.id,
            players: self.players@,
            created_at: self.created_at,
            score_sum: self.score_sum,
        }
    }
}

impl Clone for Team {
    fn clone(&self) -> (t: Self)
        ensures
            t@ == self@,
    {
        let mut players: Vec<Player> = Vec::new();
        let n = self.players.len();
        for i in 0..n
            invariant
                n == self.players@.len(),
                players@ == self.players@.take(i as int),
        {
            players.push(self.players[i].clone());
            assert(self.players@.take(i + 1) == self.players@.take(i as int).push(
                self.players@[i as int],
            ));
        }
        assert(self.players@.take(n as int) == self.players@);
        Team { id: self.id, players, created_at: self.created_at, score_sum: self.score_sum }
    }
}

impl Team {
    /// A team of the given players, with a fresh random identifier and the
    /// current time.
    pub fn new(players: Vec<Player>) -> (t: Team)
        ensures
            t.players@ == players@,
            t.score_sum == sum_scores(players@),
            crate::ids::is_v4_uuid(t.id),
    {
        Team::new_at(players, Timestamp::now())
    }

    /// A team of the given players, with a fresh random identifier, created
    /// at `now`.
    pub fn new_at(players: Vec<Player>, now: Timestamp) -> (t: Team)
        ensures
            t.players@ == players@,
            t.score_sum == sum_scores(players@),
            crate::ids::is_v4_uuid(t.id),
            t.created_at == now,
    {
        let mut sum: u128 = 0;
        let n = players.len();
        for i in 0..n
            invariant
                n == players@.len(),
                sum == sum_scores(players@.take(i as int)),
                sum <= i * 0xffff_ffffu128,
        {
            assert(players@.take(i + 1).drop_last() == players@.take(i as int));
            sum = sum + players[i].score as u128;
        }
        assert(players@.take(n as int) == players@);
        Team { id: new_v4_id(), players, created_at: now, score_sum: sum }
    }
}

/// What a match is: its identifier, its two teams and its creation time.
pub struct MatchResultView {
    pub match_id: u128,
    pub team1: TeamView,
    pub team2: TeamView,
    pub created_at: Timestamp,
}

/// A match of two teams.
#[derive(Debug)]
pub struct MatchResult {
    pub match_id: u128,
    pub team1: Team,
    pub team2: Team,
    pub created_at: Timestamp,
}

impl View for MatchResult {
    type V = MatchResultView;

    open spec fn view(&self) -> MatchResultView {
        MatchResultView {
            match_id: self.match_id,
            team1: self.team1@,
            team2: self.team2@,
            created_at: self.created_at,
        }
    }
}

impl Clone for MatchResult {
    fn clone(&self) -> (m: Self)
        ensures
            m@ == self@,
    {
        MatchResult {
            match_id: self.match_id,
            team1: self.team1.clone(),
            team2: self.team2.clone(),
            created_at: self.created_at,
        }
    }
}

/// Where a player stands.
#[derive(Clone, Copy, Debug, PartialEq, Eq, Structural)]
pub enum MatchStatus {
    Queued,
    Matched,
    Cancelled,
}

/// A player's standing as reported to clients.
#[derive(Debug)]
pub struct PlayerMatchStatus {
    pub player_id: u128,
    pub status: MatchStatus,
    pub rank: Rank,
    pub wait_time_seconds: u64,
    pub match_result: Option<MatchResult>,
}

} // verus!
