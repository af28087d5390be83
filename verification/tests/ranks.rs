use rank_match_server::models::{Player, Rank};

#[test]
fn from_score_band_edges() {
    assert_eq!(Rank::from_score(0), Rank::Bronze);
    assert_eq!(Rank::from_score(999), Rank::Bronze);
    assert_eq!(Rank::from_score(1000), Rank::Silver);
    assert_eq!(Rank::from_score(1999), Rank::Silver);
    assert_eq!(Rank::from_score(2000), Rank::Gold);
    assert_eq!(Rank::from_score(2999), Rank::Gold);
    assert_eq!(Rank::from_score(3000), Rank::Platinum);
    assert_eq!(Rank::from_score(3999), Rank::Platinum);
    assert_eq!(Rank::from_score(4000), Rank::Diamond);
    assert_eq!(Rank::from_score(4999), Rank::Diamond);
    assert_eq!(Rank::from_score(5000), Rank::Master);
    assert_eq!(Rank::from_score(5999), Rank::Master);
    assert_eq!(Rank::from_score(6000), Rank::Challenger);
    assert_eq!(Rank::from_score(u32::MAX), Rank::Challenger);
}

#[test]
fn rank_names() {
    assert_eq!(Rank::Bronze.as_str(), "bronze");
    assert_eq!(Rank::Silver.as_str(), "silver");
    assert_eq!(Rank::Gold.as_str(), "gold");
    assert_eq!(Rank::Platinum.as_str(), "platinum");
    assert_eq!(Rank::Diamond.as_str(), "diamond");
    assert_eq!(Rank::Master.as_str(), "master");
    assert_eq!(Rank::Challenger.as_str(), "challenger");
}

#[test]
fn all_ranks_ascending_once_each() {
    let all = Rank::all_ranks();
    assert_eq!(all.len(), 7);
    for (i, r) in all.iter().enumerate() {
        assert_eq!(r.index(), i);
    }
    assert_eq!(all[0], Rank::Bronze);
    assert_eq!(all[6], Rank::Challenger);
}

#[test]
fn rank_names_are_distinct() {
    let all = Rank::all_ranks();
    for a in &all {
        for b in &all {
            if a != b {
                assert_ne!(a.as_str(), b.as_str());
            }
        }
    }
}

#[test]
fn higher_score_never_lower_rank() {
    let mut prev = Rank::from_score(0).index();
    let mut s: u32 = 0;
    while s < 8000 {
        let cur = Rank::from_score(s).index();
        assert!(cur >= prev);
        prev = cur;
        s += 7;
    }
}

#[test]
fn player_rank_follows_score() {
    let p = Player::new(42, "alice".to_string(), 2500);
    assert_eq!(p.id, 42);
    assert_eq!(p.name, "alice");
    assert_eq!(p.score, 2500);
    assert_eq!(p.rank, Rank::Gold);
    let q = p.clone();
    assert_eq!(q.id, 42);
    assert_eq!(q.name, "alice");
}
