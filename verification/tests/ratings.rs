use recommender::models::rating::{Rating, RatingEval, Ratings, RelevanceBasis, UserRatings};
use recommender::services::types::RatingRecord;

fn rating(alert: &str, like: bool, dislike: bool, critical: bool) -> Rating {
    Rating {
        user_id: 7,
        alert_id: alert.to_string(),
        like,
        dislike,
        critical,
    }
}

#[test]
fn votes_count_like_and_critical_against_dislike() {
    assert_eq!(rating("a", true, false, true).votes(), 2);
    assert_eq!(rating("a", false, true, false).votes(), -1);
    assert_eq!(rating("a", true, true, false).votes(), 0);
    assert_eq!(rating("a", false, false, false).votes(), 0);
}

#[test]
fn score_adds_the_weights() {
    assert_eq!(rating("a", true, false, false).score(), 1);
    assert_eq!(rating("a", false, true, false).score(), 2);
    assert_eq!(rating("a", false, false, true).score(), 4);
    assert_eq!(rating("a", true, true, true).score(), 7);
}

#[test]
fn score_mut_adds_each_weight_to_its_part() {
    let mut score = (10, 20, 30);
    let r = rating("a", true, true, true);
    let out = *r.score_mut(&mut score);
    assert_eq!(out, (14, 21, 32));
    assert_eq!(score, (14, 21, 32));
}

#[test]
fn split_score_takes_dislikes_away() {
    let mut score = (0, 0, 0);
    let out = *Rating::split_score(&mut score, rating("a", false, true, true));
    assert_eq!(out, (4, 0, -2));
    assert_eq!(score, (4, 0, -2));
}

#[test]
fn score_parts_from_zero_add_up_to_score() {
    for like in [false, true] {
        for dislike in [false, true] {
            for critical in [false, true] {
                let r = rating("a", like, dislike, critical);
                let mut s = (0, 0, 0);
                r.score_mut(&mut s);
                assert_eq!(s.0 + s.1 + s.2, r.score());
                let mut t = (0, 0, 0);
                Rating::split_score(&mut t, r.clone());
                assert_eq!((t.0, t.1, -t.2), s);
                assert!(-1 <= r.votes() && r.votes() <= 2);
            }
        }
    }
}

#[test]
fn rating_from_record_reads_user_id_unsigned() {
    let r = Rating::from_record(RatingRecord {
        user_id: -1,
        alert_id: "CVE-1".to_string(),
        like: true,
        dislike: false,
        critical: true,
    });
    assert_eq!(r.user_id, u32::MAX);
    assert_eq!(r.alert_id, "CVE-1");
    assert!(r.like && !r.dislike && r.critical);
}

#[test]
fn eval_scores() {
    assert_eq!(RatingEval::Liked { critical: false }.score(), 1);
    assert_eq!(RatingEval::Liked { critical: true }.score(), 5);
    assert_eq!(RatingEval::Disliked { critical: false }.score(), -2);
    assert_eq!(RatingEval::Disliked { critical: true }.score(), 2);
}

#[test]
fn ratings_from_entries_counts_every_entry() {
    let ratings = Ratings::from(vec![
        ("a".to_string(), (true, false, false)),
        ("b".to_string(), (false, true, true)),
        ("a".to_string(), (false, false, false)),
    ]);
    // a later entry for "a" replaces the earlier one
    assert_eq!(ratings.get(&"a".to_string()), Some(-2));
    assert_eq!(ratings.get(&"b".to_string()), Some(2));
    assert_eq!(ratings.get(&"c".to_string()), None);
    assert_eq!(ratings.alert_rating(&"a".to_string()), -2);
    assert_eq!(ratings.alert_rating(&"c".to_string()), 0);
    // one like and two dislikes were counted, over two rated alerts
    assert_eq!(
        ratings.relevance_basis(&"b".to_string()),
        RelevanceBasis::Disliked { ratings: 2, disliked: 2 }
    );
    assert_eq!(ratings.relevance_basis(&"z".to_string()), RelevanceBasis::Unrated);
}

#[test]
fn ratings_relevance_basis_of_a_like() {
    let ratings = Ratings::from(vec![
        ("x".to_string(), (true, false, true)),
        ("y".to_string(), (true, false, false)),
        ("z".to_string(), (false, true, false)),
    ]);
    assert_eq!(
        ratings.relevance_basis(&"x".to_string()),
        RelevanceBasis::Liked { ratings: 3, liked: 2 }
    );
    assert_eq!(ratings.alert_rating(&"x".to_string()), 5);
}

#[test]
fn ratings_from_nothing() {
    let ratings = Ratings::from(vec![]);
    assert_eq!(ratings.get(&"a".to_string()), None);
    assert_eq!(ratings.relevance_basis(&"a".to_string()), RelevanceBasis::Unrated);
}

#[test]
fn user_ratings_push_then_get() {
    let mut ur = UserRatings::default();
    assert_eq!(ur.get(&"a".to_string()), None);
    assert_eq!(ur.push(rating("a", true, false, false)), 1);
    assert_eq!(ur.get(&"a".to_string()), Some(1));
    assert_eq!(ur.push(rating("b", false, true, true)), 2);
    assert_eq!(ur.get(&"b".to_string()), Some(6));
    // pushing the same alert again replaces its rating and keeps the size
    assert_eq!(ur.push(rating("a", false, false, true)), 2);
    assert_eq!(ur.get(&"a".to_string()), Some(4));
    assert_eq!(ur.alert_rating(&"a".to_string()), 4);
    assert_eq!(ur.alert_rating(&"q".to_string()), 0);
}

#[test]
fn user_ratings_relevance_basis() {
    let mut ur = UserRatings::default();
    ur.push(rating("a", true, false, false));
    ur.push(rating("b", true, true, false));
    ur.push(rating("c", false, true, false));
    ur.push(rating("d", false, false, true));
    assert_eq!(
        ur.relevance_basis(&"a".to_string()),
        RelevanceBasis::Liked { ratings: 4, liked: 2 }
    );
    assert_eq!(
        ur.relevance_basis(&"c".to_string()),
        RelevanceBasis::Disliked { ratings: 4, disliked: 1 }
    );
    // neither liked nor disliked
    assert_eq!(ur.relevance_basis(&"d".to_string()), RelevanceBasis::Unrated);
    assert_eq!(ur.relevance_basis(&"e".to_string()), RelevanceBasis::Unrated);
}

#[test]
fn user_ratings_clone_keeps_ratings_and_restarts_counts() {
    let mut ur = UserRatings::default();
    ur.push(rating("a", true, false, false));
    ur.push(rating("b", false, true, false));
    let copy = ur.clone();
    assert_eq!(copy.get(&"a".to_string()), Some(1));
    assert_eq!(copy.get(&"b".to_string()), Some(2));
    assert_eq!(
        copy.relevance_basis(&"a".to_string()),
        RelevanceBasis::Liked { ratings: 2, liked: 0 }
    );
}

#[test]
fn user_ratings_from_records() {
    let ur = UserRatings::from_records(vec![
        RatingRecord { user_id: 1, alert_id: "a".to_string(), like: true, dislike: false, critical: false },
        RatingRecord { user_id: 1, alert_id: "b".to_string(), like: false, dislike: true, critical: false },
    ]);
    assert_eq!(ur.get(&"a".to_string()), Some(1));
    assert_eq!(ur.get(&"b".to_string()), Some(2));
}

#[test]
fn tally_counts_marks_in_any_order() {
    let rs = vec![
        rating("a", true, false, true),
        rating("b", false, true, false),
        rating("c", true, true, true),
        rating("d", false, false, true),
    ];
    let mut forward = (0, 0, 0);
    for r in &rs {
        r.score_mut(&mut forward);
    }
    let mut backward = (0, 0, 0);
    for r in rs.iter().rev() {
        r.score_mut(&mut backward);
    }
    assert_eq!(forward, (4 * 3, 2, 2 * 2));
    assert_eq!(backward, forward);
}
