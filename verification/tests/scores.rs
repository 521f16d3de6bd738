use recommender::database::csv::CSVDatabase;
use recommender::recommender::slice;
use recommender::services::database::alerts::{alert_scores_basis, alerts_split_tallies, split_tally_fits, tally_fits};
use recommender::services::types::{AlertRecord, AlertsRatings, RatingRecord};

fn s(x: &str) -> String {
    x.to_string()
}

fn record(alert: &str, like: bool, dislike: bool, critical: bool) -> RatingRecord {
    RatingRecord { user_id: 1, alert_id: s(alert), like, dislike, critical }
}

#[test]
fn slice_keeps_at_most_the_number_asked() {
    assert_eq!(slice(vec![1, 2, 3], 2), vec![1, 2]);
    assert_eq!(slice(vec![1, 2, 3], 5), vec![1, 2, 3]);
    assert_eq!(slice(vec![1, 2, 3], 0), Vec::<i32>::new());
}

#[test]
fn csv_database_paths() {
    let db = CSVDatabase::new("users.csv", "ratings.csv", "alerts.csv");
    assert_eq!(db.users_filepath(), "users.csv");
    assert_eq!(db.ratings_filepath(), "ratings.csv");
    assert_eq!(db.alerts_filepath(), "alerts.csv");
}

fn groups() -> Vec<AlertsRatings> {
    vec![
        AlertsRatings { alert_id: s("a"), ratings: vec![record("a", true, false, true), record("a", false, true, false)] },
        AlertsRatings { alert_id: s("b"), ratings: vec![] },
        AlertsRatings { alert_id: s("c"), ratings: vec![record("c", true, false, false)] },
        AlertsRatings { alert_id: s("a"), ratings: vec![record("a", false, true, true)] },
    ]
}

#[test]
fn split_tallies_per_alert_and_overall() {
    let (overall, each) = alerts_split_tallies(&groups());
    assert_eq!(each, vec![(4, 1, -2), (0, 0, 0), (0, 1, 0), (4, 0, -2)]);
    assert_eq!(overall, (8, 2, -4));
    let sum = each.iter().fold((0, 0, 0), |t, e| (t.0 + e.0, t.1 + e.1, t.2 + e.2));
    assert_eq!(sum, overall);
}

#[test]
fn score_basis_takes_the_last_rated_alert() {
    let alerts = vec![
        AlertRecord { id: s("a"), provider: s("p1"), product: s("q1") },
        AlertRecord { id: s("b"), provider: s("p2"), product: s("q2") },
        AlertRecord { id: s("a"), provider: s("p3"), product: s("q3") },
        AlertRecord { id: s("d"), provider: s("p4"), product: s("q4") },
    ];
    let (overall, basis) = alert_scores_basis(alerts, &groups());
    assert_eq!(overall, (8, 2, 4));
    assert_eq!(basis.len(), 3);
    let a = basis.get(&s("a")).unwrap();
    assert_eq!((a.provider.as_str(), a.product.as_str()), ("p3", "q3"));
    assert_eq!(a.group, Some((3, (4, 0, 2))));
    let b = basis.get(&s("b")).unwrap();
    assert_eq!(b.group, None);
    let d = basis.get(&s("d")).unwrap();
    assert_eq!(d.group, None);
    // "c" has ratings but no alert record
    assert!(basis.get(&s("c")).is_none());
}

#[test]
fn small_tallies_fit() {
    assert!(tally_fits(&groups()));
    assert!(split_tally_fits(&groups()));
    assert!(tally_fits(&vec![]));
}
