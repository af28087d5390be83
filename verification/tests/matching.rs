use rank_match_server::clock::Timestamp;
use rank_match_server::handlers::{get_pool_status, get_status, join_match, status_at, CancelRequest};
use rank_match_server::match_pool::MatchPool;
use rank_match_server::matchmaker::{tick, tick_at, RESULT_RETENTION_SECONDS};
use rank_match_server::models::QueuedPlayer;
use rank_match_server::models::{MatchRequest, MatchStatus, Player, Rank, Team};

fn player(id: u128, score: u32) -> Player {
    Player::new(id, format!("p{}", id), score)
}

fn fill(pool: &mut MatchPool, first: u128, n: u128, score: u32) {
    for id in first..first + n {
        pool.add_player(player(id, score)).unwrap();
    }
}

#[test]
fn team_sums_scores() {
    let t = Team::new(vec![player(1, 100), player(2, 250), player(3, 4000)]);
    assert_eq!(t.score_sum, 4350);
    assert_eq!(t.players.len(), 3);
    assert_eq!(t.players[1].id, 2);
    let empty = Team::new(Vec::new());
    assert_eq!(empty.score_sum, 0);
}

#[test]
fn team_ids_are_version_four_uuids() {
    let a = Team::new(Vec::new());
    let b = Team::new(Vec::new());
    assert_eq!((a.id >> 76) & 0xf, 4);
    assert_eq!((a.id >> 62) & 0x3, 2);
    assert_ne!(a.id, b.id);
}

#[test]
fn nine_players_make_no_match() {
    let mut pool = MatchPool::new();
    fill(&mut pool, 1, 9, 2500);
    let matches = pool.try_match_rank(Rank::Gold);
    assert!(matches.is_empty());
    assert_eq!(pool.get_pool_size(Rank::Gold), 9);
}

#[test]
fn ten_players_make_one_match_in_queue_order() {
    let mut pool = MatchPool::new();
    fill(&mut pool, 1, 10, 2500);
    let matches = pool.try_match_rank(Rank::Gold);
    assert_eq!(matches.len(), 1);
    let m = &matches[0];
    let t1: Vec<u128> = m.team1.players.iter().map(|p| p.id).collect();
    let t2: Vec<u128> = m.team2.players.iter().map(|p| p.id).collect();
    assert_eq!(t1, vec![1, 2, 3, 4, 5]);
    assert_eq!(t2, vec![6, 7, 8, 9, 10]);
    assert_eq!(m.team1.score_sum, 12500);
    assert_eq!(pool.get_pool_size(Rank::Gold), 0);
    assert_eq!(pool.total_queued(), 0);
    for id in 1..=10u128 {
        assert!(!pool.is_player_in_queue(&id));
        let r = pool.get_match_result(&id).unwrap();
        assert_eq!(r.match_id, m.match_id);
    }
}

#[test]
fn twenty_three_players_make_two_matches() {
    let mut pool = MatchPool::new();
    fill(&mut pool, 100, 23, 4500);
    fill(&mut pool, 200, 12, 100);
    let matches = pool.try_match_rank(Rank::Diamond);
    assert_eq!(matches.len(), 2);
    assert_eq!(matches[1].team1.players[0].id, 110);
    assert_eq!(matches[1].team2.players[4].id, 119);
    assert_ne!(matches[0].match_id, matches[1].match_id);
    assert_eq!(pool.get_pool_size(Rank::Diamond), 3);
    assert!(pool.is_player_in_queue(&120));
    assert_eq!(pool.get_pool_size(Rank::Bronze), 12);
    assert_eq!(pool.total_queued(), 15);
    let again = pool.try_match_rank(Rank::Diamond);
    assert!(again.is_empty());
    assert_eq!(pool.get_pool_size(Rank::Diamond), 3);
}

#[test]
fn removed_player_is_skipped_by_matching() {
    let mut pool = MatchPool::new();
    fill(&mut pool, 1, 11, 0);
    pool.remove_player(&3).unwrap();
    let matches = pool.try_match_rank(Rank::Bronze);
    assert_eq!(matches.len(), 1);
    let t1: Vec<u128> = matches[0].team1.players.iter().map(|p| p.id).collect();
    assert_eq!(t1, vec![1, 2, 4, 5, 6]);
    assert_eq!(pool.get_pool_size(Rank::Bronze), 0);
    assert!(pool.get_match_result(&3).is_none());
}

#[test]
fn expired_results_are_dropped() {
    let mut pool = MatchPool::new();
    fill(&mut pool, 1, 10, 1500);
    let matches = pool.try_match_rank(Rank::Silver);
    let created = matches[0].created_at;
    pool.clear_results_expired_at(created, 300);
    assert!(pool.get_match_result(&1).is_some());
    let at_299 = Timestamp::new(created.secs() + 299, created.subsec_nanos()).unwrap();
    pool.clear_results_expired_at(at_299, 300);
    assert!(pool.get_match_result(&1).is_some());
    let at_300 = Timestamp::new(created.secs() + 300, created.subsec_nanos()).unwrap();
    pool.clear_results_expired_at(at_300, 300);
    assert!(pool.get_match_result(&1).is_none());
    assert!(pool.get_match_result(&10).is_none());
}

#[test]
fn results_stamped_in_future_are_dropped() {
    let mut pool = MatchPool::new();
    fill(&mut pool, 1, 10, 1500);
    pool.try_match_rank(Rank::Silver);
    pool.clear_results_expired_at(Timestamp::from_secs(0), 300);
    assert!(pool.get_match_result(&5).is_none());
}

#[test]
fn fresh_results_survive_clock_clearing() {
    let mut pool = MatchPool::new();
    fill(&mut pool, 1, 10, 1500);
    pool.try_match_rank(Rank::Silver);
    pool.clear_expired_results(300);
    assert!(pool.get_match_result(&5).is_some());
    pool.clear_expired_results(0);
    assert!(pool.get_match_result(&5).is_none());
}

#[test]
fn status_of_queued_matched_and_unknown() {
    let mut pool = MatchPool::new();
    fill(&mut pool, 1, 10, 3500);
    pool.add_player(player(50, 3600)).unwrap();
    let matches = pool.try_match_rank(Rank::Platinum);
    let created = matches[0].created_at;
    let later = Timestamp::new(created.secs() + 5, created.subsec_nanos()).unwrap();

    let st = status_at(&pool, 7, later).unwrap();
    assert_eq!(st.status, MatchStatus::Matched);
    assert_eq!(st.rank, Rank::Platinum);
    assert_eq!(st.wait_time_seconds, 5);
    assert_eq!(st.match_result.unwrap().match_id, matches[0].match_id);

    let st = status_at(&pool, 50, later).unwrap();
    assert_eq!(st.status, MatchStatus::Queued);
    assert_eq!(st.rank, Rank::Platinum);
    assert!(st.match_result.is_none());

    assert!(status_at(&pool, 99, later).is_none());
    assert!(get_status(&pool, 99).is_none());
    assert_eq!(get_status(&pool, 3).unwrap().status, MatchStatus::Matched);
}

#[test]
fn matched_status_before_match_time_waits_zero() {
    let mut pool = MatchPool::new();
    fill(&mut pool, 1, 10, 100);
    pool.try_match_rank(Rank::Bronze);
    let st = status_at(&pool, 1, Timestamp::from_secs(0)).unwrap();
    assert_eq!(st.wait_time_seconds, 0);
    assert_eq!(st.rank, Rank::Bronze);
}

#[test]
fn join_match_reports_queued() {
    let mut pool = MatchPool::new();
    let req = MatchRequest { player_id: 9, player_name: "bob".to_string(), score: 5500 };
    let st = join_match(&mut pool, req).unwrap();
    assert_eq!(st.player_id, 9);
    assert_eq!(st.status, MatchStatus::Queued);
    assert_eq!(st.rank, Rank::Master);
    assert!(st.match_result.is_none());
    assert_eq!(pool.get_pool_size(Rank::Master), 1);
    let again = MatchRequest { player_id: 9, player_name: "bob".to_string(), score: 10 };
    assert_eq!(join_match(&mut pool, again).unwrap_err(), "玩家已在匹配队列中");
    let cancel = CancelRequest { player_id: 9 };
    assert!(pool.remove_player(&cancel.player_id).is_ok());
}

#[test]
fn pool_status_totals() {
    let mut pool = MatchPool::new();
    fill(&mut pool, 1, 4, 100);
    fill(&mut pool, 10, 2, 7000);
    let st = get_pool_status(&pool, 120);
    assert_eq!(st.total_queued, 6);
    assert_eq!(st.queue_timeout_seconds, 120);
    assert_eq!(st.pools[0], ("bronze".to_string(), 4));
    assert_eq!(st.pools[6], ("challenger".to_string(), 2));
}

#[test]
fn tick_matches_every_rank() {
    let mut pool = MatchPool::new();
    fill(&mut pool, 1, 10, 2100);
    fill(&mut pool, 20, 13, 1200);
    fill(&mut pool, 40, 4, 6500);
    let rounds = tick(&mut pool);
    assert_eq!(rounds.len(), 7);
    assert_eq!(rounds[1].0, Rank::Silver);
    assert_eq!(rounds[1].1.len(), 1);
    assert_eq!(rounds[2].0, Rank::Gold);
    assert_eq!(rounds[2].1.len(), 1);
    assert_eq!(rounds[6].1.len(), 0);
    assert_eq!(pool.get_pool_size(Rank::Silver), 3);
    assert_eq!(pool.get_pool_size(Rank::Gold), 0);
    assert_eq!(pool.get_pool_size(Rank::Challenger), 4);
    assert_eq!(pool.total_queued(), 7);
    assert!(pool.get_match_result(&1).is_some());
    assert!(pool.get_match_result(&20).is_some());
    assert_eq!(RESULT_RETENTION_SECONDS, 300);
}

#[test]
fn constructors_at_given_time() {
    let t = Timestamp::new(77, 5).unwrap();
    let q = QueuedPlayer::new_at(player(3, 10), t);
    assert_eq!(q.join_time, t);
    assert_eq!(q.player.id, 3);
    let team = Team::new_at(vec![player(1, 10), player(2, 20)], t);
    assert_eq!(team.created_at, t);
    assert_eq!(team.score_sum, 30);
}

#[test]
fn try_match_rank_at_stamps_matches() {
    let mut pool = MatchPool::new();
    fill(&mut pool, 1, 20, 2500);
    let t = Timestamp::from_secs(5_000);
    let matches = pool.try_match_rank_at(Rank::Gold, t);
    assert_eq!(matches.len(), 2);
    for m in &matches {
        assert_eq!(m.created_at, t);
        assert_eq!(m.team1.created_at, t);
        assert_eq!(m.team2.created_at, t);
    }
}

#[test]
fn tick_at_keeps_new_matches_and_drops_old_ones() {
    let mut pool = MatchPool::new();
    fill(&mut pool, 1, 10, 100);
    pool.try_match_rank_at(Rank::Bronze, Timestamp::from_secs(1_000));
    fill(&mut pool, 100, 10, 1500);
    let rounds = tick_at(&mut pool, Timestamp::from_secs(1_300));
    assert_eq!(rounds[1].1.len(), 1);
    assert_eq!(rounds[1].1[0].created_at, Timestamp::from_secs(1_300));
    assert!(pool.get_match_result(&1).is_none());
    assert!(pool.get_match_result(&100).is_some());
    assert!(pool.get_match_result(&109).is_some());
}
