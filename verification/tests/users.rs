use recommender::models::rating::Rating;
use recommender::models::recommender::{
    content_candidates, content_filter, filter_content, include_preferences, not_viewed, unviewed_candidates,
};
use recommender::models::user::{contains_string, overlap, parse_preferences, Overlap, User};
use recommender::services::database::users::{all_users, preferences_and_ratings, users_contents};
use recommender::services::types::{user_where_id, RatingRecord, UsersContents, UsersRatings};

fn s(x: &str) -> String {
    x.to_string()
}

fn strings(xs: &[&str]) -> Vec<String> {
    xs.iter().map(|x| x.to_string()).collect()
}

fn record(user: i32, alert: &str, like: bool, dislike: bool, critical: bool) -> RatingRecord {
    RatingRecord { user_id: user, alert_id: s(alert), like, dislike, critical }
}

#[test]
fn overlap_counts_the_first_users_shared_preferences() {
    let a = strings(&["x", "y", "z"]);
    let b = strings(&["y", "z", "w", "v"]);
    assert_eq!(overlap(&a, &b), Overlap { shared: 2, left: 3, right: 4 });
    assert_eq!(overlap(&b, &a), Overlap { shared: 2, left: 4, right: 3 });
    // duplicates in the first list are each counted
    let d = strings(&["y", "y"]);
    assert_eq!(overlap(&d, &b), Overlap { shared: 2, left: 2, right: 4 });
    assert_eq!(overlap(&b, &d), Overlap { shared: 1, left: 4, right: 2 });
}

#[test]
fn contains_string_finds_exact_matches() {
    let v = strings(&["ab", "c"]);
    assert!(contains_string(&v, &s("c")));
    assert!(!contains_string(&v, &s("a")));
}

#[test]
fn preferences_read_from_a_stored_list() {
    assert_eq!(parse_preferences("['apache', 'linux kernel']"), strings(&["apache", "linuxkernel"]));
    assert_eq!(parse_preferences("[]"), strings(&[""]));
    assert_eq!(parse_preferences("a,b"), strings(&["a", "b"]));
}

#[test]
fn user_from_answers() {
    let u = User::from_contents(UsersContents { user_id: 5, preferences: strings(&["p"]) });
    assert_eq!(u.id, 5);
    assert_eq!(u.preferences, strings(&["p"]));
    assert!(u.ratings.is_none() && u.similarity.is_none());
    let r = User::from_ratings(UsersRatings { user_id: 5, ratings: vec![record(5, "a", true, false, true)] });
    assert_eq!(r.alert_rating(&s("a")), 5);
    assert_eq!(r.alert_rating(&s("b")), 0);
    let none = User::from_ratings(UsersRatings { user_id: 5, ratings: vec![] });
    assert!(none.ratings.is_none());
    assert_eq!(none.alert_rating(&s("a")), 0);
}

#[test]
fn users_table_records_overlaps_both_ways() {
    let contents = vec![
        UsersContents { user_id: 1, preferences: strings(&["a", "b"]) },
        UsersContents { user_id: 2, preferences: strings(&["b", "c", "d"]) },
        UsersContents { user_id: 3, preferences: strings(&["a"]) },
    ];
    let ratings = vec![
        UsersRatings { user_id: 2, ratings: vec![record(2, "x", true, false, false)] },
        UsersRatings { user_id: 9, ratings: vec![record(9, "x", true, false, false)] },
    ];
    let table = all_users(contents, ratings);
    assert_eq!(table.len(), 3);
    assert!(!table.contains_key(&9));
    let u1 = &table[&1];
    let u2 = &table[&2];
    let u3 = &table[&3];
    assert_eq!(
        u1.similarity,
        Some(vec![(2, Overlap { shared: 1, left: 3, right: 2 }), (3, Overlap { shared: 1, left: 1, right: 2 })])
    );
    assert_eq!(
        u2.similarity,
        Some(vec![(1, Overlap { shared: 1, left: 3, right: 2 }), (3, Overlap { shared: 0, left: 1, right: 3 })])
    );
    assert_eq!(
        u3.similarity,
        Some(vec![(1, Overlap { shared: 1, left: 1, right: 2 }), (2, Overlap { shared: 0, left: 1, right: 3 })])
    );
    assert_eq!(u2.alert_rating(&s("x")), 1);
    assert!(u1.ratings.is_none());
}

#[test]
fn users_table_with_a_single_user_has_no_overlaps() {
    let table = all_users(vec![UsersContents { user_id: 4, preferences: strings(&["a"]) }], vec![]);
    assert_eq!(table.len(), 1);
    assert!(table[&4].similarity.is_none());
}

#[test]
fn users_table_later_answer_replaces_same_id() {
    let contents = vec![
        UsersContents { user_id: 1, preferences: strings(&["a"]) },
        UsersContents { user_id: 1, preferences: strings(&["a", "b"]) },
    ];
    let table = all_users(contents, vec![]);
    assert_eq!(table.len(), 1);
    assert_eq!(table[&1].preferences, strings(&["a", "b"]));
    assert_eq!(table[&1].similarity, Some(vec![(1, Overlap { shared: 1, left: 2, right: 1 })]));
}

#[test]
fn empty_ratings_answer_clears_ratings() {
    let contents = vec![UsersContents { user_id: 1, preferences: strings(&["a"]) }];
    let ratings = vec![
        UsersRatings { user_id: 1, ratings: vec![record(1, "x", true, false, false)] },
        UsersRatings { user_id: 1, ratings: vec![] },
    ];
    let table = all_users(contents, ratings);
    assert!(table[&1].ratings.is_none());
}

#[test]
fn preferences_and_ratings_are_flattened_in_order() {
    let contents = vec![
        UsersContents { user_id: 1, preferences: strings(&["a", "b"]) },
        UsersContents { user_id: 1, preferences: strings(&["c"]) },
    ];
    let ratings = vec![
        UsersRatings { user_id: 1, ratings: vec![record(1, "x", true, false, false)] },
        UsersRatings { user_id: 1, ratings: vec![record(1, "y", false, true, true), record(1, "z", false, false, false)] },
    ];
    let (prefs, entries) = preferences_and_ratings(contents, ratings);
    assert_eq!(prefs, strings(&["a", "b", "c"]));
    assert_eq!(
        entries,
        vec![(s("x"), (true, false, false)), (s("y"), (false, true, true)), (s("z"), (false, false, false))]
    );
}

#[test]
fn users_contents_pairs_ids_and_preferences() {
    let out = users_contents(vec![
        UsersContents { user_id: 3, preferences: strings(&["a"]) },
        UsersContents { user_id: -2, preferences: vec![] },
    ]);
    assert_eq!(out, vec![(3, strings(&["a"])), (4294967294, vec![])]);
}

#[test]
fn where_clause_id_keeps_the_bits() {
    assert_eq!(user_where_id(5), 5);
    assert_eq!(user_where_id(u32::MAX), -1);
}

fn user_with(prefs: &[&str], rated: &[&str]) -> User {
    let mut u = User::from_contents(UsersContents { user_id: 1, preferences: strings(prefs) });
    if !rated.is_empty() {
        let mut r = recommender::models::rating::UserRatings::default();
        for a in rated {
            r.push(Rating { user_id: 1, alert_id: s(a), like: true, dislike: false, critical: false });
        }
        u.ratings = Some(r);
    }
    u
}

#[test]
fn viewed_and_preferred() {
    let u = user_with(&["apache", "linux"], &["A1"]);
    assert!(!not_viewed(&u, &s("A1")));
    assert!(not_viewed(&u, &s("A2")));
    assert!(include_preferences(&u, &s("apache"), &s("httpd")));
    assert!(include_preferences(&u, &s("kernel.org"), &s("linux")));
    assert!(!include_preferences(&u, &s("ms"), &s("windows")));
    let fresh = user_with(&[], &[]);
    assert!(not_viewed(&fresh, &s("A1")));
}

#[test]
fn candidates_for_recommendations() {
    let u = user_with(&["apache"], &["A1"]);
    let alerts = vec![
        (s("A1"), s("apache"), s("httpd")),
        (s("A2"), s("apache"), s("tomcat")),
        (s("A3"), s("ms"), s("windows")),
        (s("A4"), s("x"), s("apache")),
    ];
    assert_eq!(content_candidates(&u, &alerts), vec![1, 3]);
    let ids = strings(&["A1", "A2", "A3"]);
    assert_eq!(unviewed_candidates(&u, &ids), vec![1, 2]);
}

#[test]
fn content_filter_keeps_product_or_provider() {
    let alerts = vec![
        (s("1"), s("acme"), s("widget")),
        (s("2"), s("other"), s("gadget")),
        (s("3"), s("widget"), s("thing")),
    ];
    assert!(filter_content(&alerts[0], &s("widget")));
    assert!(filter_content(&alerts[0], &s("acme")));
    assert!(!filter_content(&alerts[1], &s("widget")));
    assert_eq!(content_filter(&alerts, &Some(s("widget"))), vec![0, 2]);
    assert_eq!(content_filter(&alerts, &Some(s("none"))), Vec::<usize>::new());
    assert_eq!(content_filter(&alerts, &None), vec![0, 1, 2]);
}
