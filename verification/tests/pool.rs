use rank_match_server::clock::Timestamp;
use rank_match_server::match_pool::MatchPool;
use rank_match_server::models::{Player, Rank};

fn player(id: u128, score: u32) -> Player {
    Player::new(id, format!("p{}", id), score)
}

#[test]
fn new_pool_is_empty() {
    let pool = MatchPool::new();
    for r in Rank::all_ranks() {
        assert_eq!(pool.get_pool_size(r), 0);
    }
    assert_eq!(pool.total_queued(), 0);
    assert!(!pool.is_player_in_queue(&1));
    assert!(pool.get_match_result(&1).is_none());
}

#[test]
fn add_player_queues_under_its_rank() {
    let mut pool = MatchPool::new();
    assert_eq!(pool.add_player(player(1, 2500)), Ok(()));
    assert!(pool.is_player_in_queue(&1));
    assert_eq!(pool.queued_rank(&1), Some(Rank::Gold));
    assert_eq!(pool.get_pool_size(Rank::Gold), 1);
    assert_eq!(pool.get_pool_size(Rank::Silver), 0);
    assert_eq!(pool.total_queued(), 1);
}

#[test]
fn add_player_twice_is_refused() {
    let mut pool = MatchPool::new();
    assert!(pool.add_player(player(1, 100)).is_ok());
    let err = pool.add_player(player(1, 5000)).unwrap_err();
    assert_eq!(err, "玩家已在匹配队列中");
    assert_eq!(pool.get_pool_size(Rank::Bronze), 1);
    assert_eq!(pool.get_pool_size(Rank::Master), 0);
    assert_eq!(pool.queued_rank(&1), Some(Rank::Bronze));
}

#[test]
fn remove_unknown_player_is_refused() {
    let mut pool = MatchPool::new();
    let err = pool.remove_player(&7).unwrap_err();
    assert_eq!(err, "玩家不在匹配队列中");
}

#[test]
fn remove_undoes_add() {
    let mut pool = MatchPool::new();
    pool.add_player(player(1, 100)).unwrap();
    pool.add_player(player(2, 150)).unwrap();
    pool.add_player(player(3, 4200)).unwrap();
    pool.remove_player(&2).unwrap();
    assert!(!pool.is_player_in_queue(&2));
    assert_eq!(pool.get_pool_size(Rank::Bronze), 1);
    assert_eq!(pool.total_queued(), 2);
    pool.add_player(player(4, 200)).unwrap();
    pool.remove_player(&4).unwrap();
    assert_eq!(pool.get_pool_size(Rank::Bronze), 1);
    assert_eq!(pool.get_pool_size(Rank::Diamond), 1);
    assert!(pool.is_player_in_queue(&1));
    assert!(!pool.is_player_in_queue(&4));
    assert!(pool.remove_player(&4).is_err());
}

#[test]
fn all_pool_sizes_by_name() {
    let mut pool = MatchPool::new();
    pool.add_player(player(1, 100)).unwrap();
    pool.add_player(player(2, 6100)).unwrap();
    pool.add_player(player(3, 6200)).unwrap();
    let sizes = pool.get_all_pool_sizes();
    let names: Vec<&str> = sizes.iter().map(|(n, _)| n.as_str()).collect();
    assert_eq!(
        names,
        vec!["bronze", "silver", "gold", "platinum", "diamond", "master", "challenger"]
    );
    let counts: Vec<usize> = sizes.iter().map(|(_, c)| *c).collect();
    assert_eq!(counts, vec![1, 0, 0, 0, 0, 0, 2]);
    assert_eq!(pool.total_queued(), 3);
}

#[test]
fn wait_time_at_given_time() {
    let mut pool = MatchPool::new();
    pool.add_player(player(1, 100)).unwrap();
    let now = Timestamp::now();
    let later = Timestamp::new(now.secs() + 30, now.subsec_nanos()).unwrap();
    let w = pool.wait_time_at(&1, later).unwrap();
    assert!(w >= 29 && w <= 30);
    assert_eq!(pool.wait_time_at(&1, Timestamp::from_secs(0)), None);
    assert_eq!(pool.wait_time_at(&2, later), None);
    assert!(pool.get_player_wait_time(&1).is_some());
    assert!(pool.get_player_wait_time(&2).is_none());
}

#[test]
fn default_pool_is_empty() {
    let pool = MatchPool::default();
    assert_eq!(pool.total_queued(), 0);
}

#[test]
fn add_player_at_stamps_join_time() {
    let mut pool = MatchPool::new();
    let t = Timestamp::from_secs(1_000);
    pool.add_player_at(player(1, 100), t).unwrap();
    assert_eq!(pool.wait_time_at(&1, Timestamp::from_secs(1_042)), Some(42));
    assert_eq!(pool.add_player_at(player(1, 100), t).unwrap_err(), "玩家已在匹配队列中");
}

#[test]
fn wait_time_never_shrinks() {
    let mut pool = MatchPool::new();
    pool.add_player_at(player(1, 100), Timestamp::new(100, 600_000_000).unwrap()).unwrap();
    let mut last = 0u64;
    for secs in [100i64, 101, 102, 150, 400] {
        for nanos in [0u32, 599_999_999, 600_000_000, 600_000_000, 999_999_999] {
            if let Some(w) = pool.wait_time_at(&1, Timestamp::new(secs, nanos).unwrap()) {
                assert!(w >= last);
                last = w;
            }
        }
    }
    assert_eq!(last, 300);
}
