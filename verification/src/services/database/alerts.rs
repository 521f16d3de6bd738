//! The scores of alerts drawn from the ratings the database holds.
use vstd::prelude::*;

use crate::models::rating::{
    lemma_tally_concat, lemma_tally_signs, records_ratings, score_view, split_tally, tally, Rating,
    Score,
};
use crate::services::types::{AlertRecord, AlertsRatings, RatingRecord};
use crate::strmap::StrMap;

verus! {

/// All the ratings of a list of alerts, alert after alert.
pub open spec fn all_ratings(groups: Seq<AlertsRatings>) -> Seq<Rating>
    decreases groups.len(),
{
    if groups.len() == 0 {
        Seq::empty()
    } else {
        all_ratings(groups.drop_last()) + records_ratings(groups.last().ratings@)
    }
}

/// A part of a tally of a prefix of the alerts is at most that of all of
/// them, and the tally of one alert's ratings is what it adds.
proof fn lemma_all_ratings_prefix(groups: Seq<AlertsRatings>, k: int)
    requires
        0 <= k <= groups.len(),
    ensures
        tally(all_ratings(groups.take(k))).0 <= tally(all_ratings(groups)).0,
        tally(all_ratings(groups.take(k))).1 <= tally(all_ratings(groups)).1,
        tally(all_ratings(groups.take(k))).2 <= tally(all_ratings(groups)).2,
    decreases groups.len() - k,
{
    if k < groups.len() {
        lemma_all_ratings_prefix(groups, k + 1);
        assert(groups.take(k + 1).drop_last() =~= groups.take(k));
        assert(groups.take(k + 1).last() == groups[k]);
        lemma_tally_concat(all_ratings(groups.take(k)), records_ratings(groups[k].ratings@));
        lemma_tally_signs(records_ratings(groups[k].ratings@));
    } else {
        assert(groups.take(k) =~= groups);
    }
}

/// Adds the ratings of `records`, in order, to `start`, dislikes counted up.
fn tally_records(records: &Vec<RatingRecord>, start: Score) -> (res: Score)
    requires
        score_view(start).0 + tally(records_ratings(records@)).0 <= i32::MAX,
        score_view(start).1 + tally(records_ratings(records@)).1 <= i32::MAX,
        score_view(start).2 + tally(records_ratings(records@)).2 <= i32::MAX,
        start.0 >= 0,
        start.1 >= 0,
        start.2 >= 0,
    ensures
        score_view(res) == (
            start.0 + tally(records_ratings(records@)).0,
            start.1 + tally(records_ratings(records@)).1,
            start.2 + tally(records_ratings(records@)).2,
        ),
{
    let ghost rs = records_ratings(records@);
    let mut score = start;
    let n = records.len();
    let mut j: usize = 0;
    while j < n
        invariant
            n == records@.len(),
            rs == records_ratings(records@),
            j <= n,
            score_view(start).0 + tally(rs).0 <= i32::MAX,
            score_view(start).1 + tally(rs).1 <= i32::MAX,
            score_view(start).2 + tally(rs).2 <= i32::MAX,
            start.0 >= 0,
            start.1 >= 0,
            start.2 >= 0,
            score_view(score) == (
                start.0 + tally(rs.take(j as int)).0,
                start.1 + tally(rs.take(j as int)).1,
                start.2 + tally(rs.take(j as int)).2,
            ),
        decreases n - j,
    {
        assert(rs.take(j + 1).drop_last() =~= rs.take(j as int));
        assert(rs.take(j + 1).last() == rs[j as int]);
        proof {
            assert(rs =~= rs.take(j + 1) + rs.skip(j + 1));
            lemma_tally_concat(rs.take(j + 1), rs.skip(j + 1));
            lemma_tally_signs(rs.skip(j + 1));
        }
        let rating = Rating::from_record_ref(&records[j]);
        rating.score_mut(&mut score);
        j = j + 1;
    }
    assert(rs.take(n as int) =~= rs);
    score
}

/// Adds the ratings of `records`, in order, to `start`, dislikes counted
/// down.
fn split_tally_records(records: &Vec<RatingRecord>, start: Score) -> (res: Score)
    requires
        score_view(start).0 + tally(records_ratings(records@)).0 <= i32::MAX,
        score_view(start).1 + tally(records_ratings(records@)).1 <= i32::MAX,
        score_view(start).2 - tally(records_ratings(records@)).2 >= i32::MIN,
        start.0 >= 0,
        start.1 >= 0,
        start.2 <= 0,
    ensures
        score_view(res) == (
            start.0 + split_tally(records_ratings(records@)).0,
            start.1 + split_tally(records_ratings(records@)).1,
            start.2 + split_tally(records_ratings(records@)).2,
        ),
{
    let ghost rs = records_ratings(records@);
    let mut score = start;
    let n = records.len();
    let mut j: usize = 0;
    while j < n
        invariant
            n == records@.len(),
            rs == records_ratings(records@),
            j <= n,
            score_view(start).0 + tally(rs).0 <= i32::MAX,
            score_view(start).1 + tally(rs).1 <= i32::MAX,
            score_view(start).2 - tally(rs).2 >= i32::MIN,
            start.0 >= 0,
            start.1 >= 0,
            start.2 <= 0,
            score_view(score) == (
                start.0 + split_tally(rs.take(j as int)).0,
                start.1 + split_tally(rs.take(j as int)).1,
                start.2 + split_tally(rs.take(j as int)).2,
            ),
        decreases n - j,
    {
        assert(rs.take(j + 1).drop_last() =~= rs.take(j as int));
        assert(rs.take(j + 1).last() == rs[j as int]);
        proof {
            assert(rs =~= rs.take(j + 1) + rs.skip(j + 1));
            lemma_tally_concat(rs.take(j + 1), rs.skip(j + 1));
            lemma_tally_signs(rs.skip(j + 1));
            lemma_tally_signs(rs.take(j + 1));
        }
        let rating = Rating::from_record_ref(&records[j]);
        Rating::split_score(&mut score, rating);
        j = j + 1;
    }
    assert(rs.take(n as int) =~= rs);
    proof {
        lemma_tally_signs(rs);
    }
    score
}

/// The running score of all the ratings of all the alerts, dislikes counted
/// down, and that of each alert's ratings, in the alerts' order.
pub fn alerts_split_tallies(groups: &Vec<AlertsRatings>) -> (res: (Score, Vec<Score>))
    requires
        tally(all_ratings(groups@)).0 <= i32::MAX,
        tally(all_ratings(groups@)).1 <= i32::MAX,
        -tally(all_ratings(groups@)).2 >= i32::MIN,
    ensures
        score_view(res.0) == split_tally(all_ratings(groups@)),
        res.1@.len() == groups@.len(),
        forall|g: int| 0 <= g < groups@.len() ==> score_view(#[trigger] res.1@[g]) == split_tally(
            records_ratings(groups@[g].ratings@),
        ),
{
    let mut overall: Score = (0, 0, 0);
    let mut each: Vec<Score> = Vec::new();
    let n = groups.len();
    let mut g: usize = 0;
    assert(groups@.take(0) =~= Seq::<AlertsRatings>::empty());
    while g < n
        invariant
            n == groups@.len(),
            g <= n,
            tally(all_ratings(groups@)).0 <= i32::MAX,
            tally(all_ratings(groups@)).1 <= i32::MAX,
            -tally(all_ratings(groups@)).2 >= i32::MIN,
            score_view(overall) == split_tally(all_ratings(groups@.take(g as int))),
            each@.len() == g,
            forall|k: int| 0 <= k < g ==> score_view(#[trigger] each@[k]) == split_tally(
                records_ratings(groups@[k].ratings@),
            ),
        decreases n - g,
    {
        let ghost before = all_ratings(groups@.take(g as int));
        let ghost mine = records_ratings(groups@[g as int].ratings@);
        assert(groups@.take(g + 1).drop_last() =~= groups@.take(g as int));
        assert(groups@.take(g + 1).last() == groups@[g as int]);
        proof {
            lemma_all_ratings_prefix(groups@, g + 1);
            lemma_tally_concat(before, mine);
            lemma_tally_signs(before);
            lemma_tally_signs(mine);
            lemma_tally_signs(before + mine);
        }
        overall = split_tally_records(&groups[g].ratings, overall);
        let own = split_tally_records(&groups[g].ratings, (0, 0, 0));
        each.push(own);
        g = g + 1;
    }
    assert(groups@.take(n as int) =~= groups@);
    (overall, each)
}

/// The provider and product recorded for each alert id; a later alert with
/// the same id replaces an earlier one.
pub open spec fn alert_entries(alerts: Seq<AlertRecord>) -> Map<Seq<char>, (Seq<char>, Seq<char>)>
    decreases alerts.len(),
{
    if alerts.len() == 0 {
        Map::empty()
    } else {
        alert_entries(alerts.drop_last()).insert(
            alerts.last().id@,
            (alerts.last().provider@, alerts.last().product@),
        )
    }
}

/// The position of the last alert with ratings that has id `id`.
pub open spec fn group_for(groups: Seq<AlertsRatings>, id: Seq<char>) -> Option<int>
    decreases groups.len(),
{
    if groups.len() == 0 {
        None
    } else if groups.last().alert_id@ == id && groups.last().ratings@.len() > 0 {
        Some(groups.len() - 1)
    } else {
        group_for(groups.drop_last(), id)
    }
}

/// What an alert's score is worked out from: its provider and product, and
/// the position of the alert with ratings that decides its score with the
/// running score of those ratings, if there is one.
#[derive(Debug)]
pub struct AlertBasis {
    pub provider: String,
    pub product: String,
    pub group: Option<(usize, Score)>,
}

/// The running score of all the ratings (dislikes counted up), and for each
/// alert id its provider and product and the last alert with ratings under
/// that id, with the running score of those ratings.
pub fn alert_scores_basis(alerts: Vec<AlertRecord>, groups: &Vec<AlertsRatings>) -> (res: (
    Score,
    StrMap<AlertBasis>,
))
    requires
        tally(all_ratings(groups@)).0 <= i32::MAX,
        tally(all_ratings(groups@)).1 <= i32::MAX,
        tally(all_ratings(groups@)).2 <= i32::MAX,
    ensures
        score_view(res.0) == tally(all_ratings(groups@)),
        res.1@.dom() == alert_entries(alerts@).dom(),
        forall|id: Seq<char>| #[trigger] res.1@.contains_key(id) ==> {
            &&& res.1@[id].provider@ == alert_entries(alerts@)[id].0
            &&& res.1@[id].product@ == alert_entries(alerts@)[id].1
            &&& match res.1@[id].group {
                Some((g, t)) => group_for(groups@, id) == Some(g as int) && score_view(t) == tally(
                    records_ratings(groups@[g as int].ratings@),
                ),
                None => group_for(groups@, id) is None,
            }
        },
{
    let ghost al = alerts@;
    let mut map: StrMap<AlertBasis> = StrMap::new();
    let na = alerts.len();
    for alert in it: alerts.into_iter()
        invariant
            it.seq() == al,
            na == al.len(),
            map@.dom() == alert_entries(al.take(it.index())).dom(),
            forall|id: Seq<char>| #[trigger] map@.contains_key(id) ==> {
                &&& map@[id].provider@ == alert_entries(al.take(it.index()))[id].0
                &&& map@[id].product@ == alert_entries(al.take(it.index()))[id].1
                &&& map@[id].group is None
            },
    {
        let ghost k = it.index();
        assert(k < na);
        assert(al.take(k + 1).drop_last() =~= al.take(k));
        assert(al.take(k + 1).last() == al[k]);
        let AlertRecord { id, provider, product } = alert;
        map.insert(id, AlertBasis { provider, product, group: None });
        assert(map@.dom() =~= alert_entries(al.take(k + 1)).dom());
    }
    assert(al.take(na as int) =~= al);
    let ghost entries = alert_entries(al);
    let mut overall: Score = (0, 0, 0);
    let n = groups.len();
    let mut g: usize = 0;
    assert(groups@.take(0) =~= Seq::<AlertsRatings>::empty());
    while g < n
        invariant
            n == groups@.len(),
            g <= n,
            tally(all_ratings(groups@)).0 <= i32::MAX,
            tally(all_ratings(groups@)).1 <= i32::MAX,
            tally(all_ratings(groups@)).2 <= i32::MAX,
            score_view(overall) == tally(all_ratings(groups@.take(g as int))),
            map@.dom() == entries.dom(),
            forall|id: Seq<char>| #[trigger] map@.contains_key(id) ==> {
                &&& map@[id].provider@ == entries[id].0
                &&& map@[id].product@ == entries[id].1
                &&& match map@[id].group {
                    Some((h, t)) => group_for(groups@.take(g as int), id) == Some(h as int) && score_view(t)
                        == tally(records_ratings(groups@[h as int].ratings@)),
                    None => group_for(groups@.take(g as int), id) is None,
                }
            },
        decreases n - g,
    {
        let ghost before = all_ratings(groups@.take(g as int));
        let ghost mine = records_ratings(groups@[g as int].ratings@);
        let ghost pre = groups@.take(g as int);
        let ghost post = groups@.take(g + 1);
        assert(post.drop_last() =~= pre);
        assert(post.last() == groups@[g as int]);
        proof {
            lemma_all_ratings_prefix(groups@, g + 1);
            lemma_tally_concat(before, mine);
            lemma_tally_signs(before);
            lemma_tally_signs(mine);
        }
        overall = tally_records(&groups[g].ratings, overall);
        if groups[g].ratings.len() > 0 {
            let own = tally_records(&groups[g].ratings, (0, 0, 0));
            let id = &groups[g].alert_id;
            let ghost before_map = map@;
            let found = match map.get(id) {
                Some(basis) => Some(
                    AlertBasis {
                        provider: basis.provider.clone(),
                        product: basis.product.clone(),
                        group: Some((g, own)),
                    },
                ),
                None => None,
            };
            match found {
                Some(basis) => {
                    map.insert(id.clone(), basis);
                    assert(map@.dom() =~= before_map.dom());
                },
                None => {},
            }
            assert forall|key: Seq<char>| #[trigger] map@.contains_key(key) implies {
                &&& map@[key].provider@ == entries[key].0
                &&& map@[key].product@ == entries[key].1
                &&& match map@[key].group {
                    Some((h, t)) => group_for(post, key) == Some(h as int) && score_view(t) == tally(
                        records_ratings(groups@[h as int].ratings@),
                    ),
                    None => group_for(post, key) is None,
                }
            } by {
                if key != groups@[g as int].alert_id@ {
                    assert(before_map.contains_key(key));
                }
            }
        } else {
            assert forall|key: Seq<char>| #[trigger] map@.contains_key(key) implies {
                &&& match map@[key].group {
                    Some((h, t)) => group_for(post, key) == Some(h as int),
                    None => group_for(post, key) is None,
                }
            } by {}
        }
        g = g + 1;
    }
    assert(groups@.take(n as int) =~= groups@);
    (overall, map)
}

/// The tallies of each alert's ratings, added up part by part.
pub open spec fn sum_of_tallies(groups: Seq<AlertsRatings>) -> (int, int, int)
    decreases groups.len(),
{
    if groups.len() == 0 {
        (0, 0, 0)
    } else {
        let t = sum_of_tallies(groups.drop_last());
        let own = tally(records_ratings(groups.last().ratings@));
        (t.0 + own.0, t.1 + own.1, t.2 + own.2)
    }
}

/// The running score of all the ratings is the sum of the running scores
/// of each alert's ratings, with dislikes counted up or down alike.
pub proof fn law_overall_is_sum_of_alerts(groups: Seq<AlertsRatings>)
    ensures
        tally(all_ratings(groups)) == sum_of_tallies(groups),
        split_tally(all_ratings(groups)) == (
            sum_of_tallies(groups).0,
            sum_of_tallies(groups).1,
            -sum_of_tallies(groups).2,
        ),
    decreases groups.len(),
{
    if groups.len() > 0 {
        law_overall_is_sum_of_alerts(groups.drop_last());
        lemma_tally_concat(all_ratings(groups.drop_last()), records_ratings(groups.last().ratings@));
    }
    lemma_tally_signs(all_ratings(groups));
}

/// Whether the parts of the running score of all the ratings stay within
/// the given bounds: critical and like weights up to `i32::MAX`, dislike
/// weights up to `cap`.
fn tally_within(groups: &Vec<AlertsRatings>, cap: u64) -> (res: bool)
    requires
        cap <= 0x8000_0000,
    ensures
        res == (tally(all_ratings(groups@)).0 <= i32::MAX && tally(all_ratings(groups@)).1 <= i32::MAX
            && tally(all_ratings(groups@)).2 <= cap),
{
    let mut t: (u64, u64, u64) = (0, 0, 0);
    let n = groups.len();
    let mut g: usize = 0;
    assert(groups@.take(0) =~= Seq::<AlertsRatings>::empty());
    while g < n
        invariant
            n == groups@.len(),
            g <= n,
            cap <= 0x8000_0000,
            t.0 == tally(all_ratings(groups@.take(g as int))).0,
            t.1 == tally(all_ratings(groups@.take(g as int))).1,
            t.2 == tally(all_ratings(groups@.take(g as int))).2,
            t.0 <= i32::MAX && t.1 <= i32::MAX && t.2 <= cap,
        decreases n - g,
    {
        let ghost before = all_ratings(groups@.take(g as int));
        let ghost recs = records_ratings(groups@[g as int].ratings@);
        assert(groups@.take(g + 1).drop_last() =~= groups@.take(g as int));
        assert(groups@.take(g + 1).last() == groups@[g as int]);
        assert(all_ratings(groups@.take(g + 1)) == before + recs);
        let m = groups[g].ratings.len();
        let mut j: usize = 0;
        assert(recs.take(0) =~= Seq::<Rating>::empty());
        assert(before + recs.take(0) =~= before);
        while j < m
            invariant
                n == groups@.len(),
                g < n,
                m == groups@[g as int].ratings@.len(),
                recs == records_ratings(groups@[g as int].ratings@),
                before == all_ratings(groups@.take(g as int)),
                all_ratings(groups@.take(g + 1)) == before + recs,
                j <= m,
                cap <= 0x8000_0000,
                t.0 == tally(before + recs.take(j as int)).0,
                t.1 == tally(before + recs.take(j as int)).1,
                t.2 == tally(before + recs.take(j as int)).2,
                t.0 <= i32::MAX && t.1 <= i32::MAX && t.2 <= cap,
            decreases m - j,
        {
            let r = &groups[g].ratings[j];
            assert((before + recs.take(j + 1)).drop_last() =~= before + recs.take(j as int));
            assert((before + recs.take(j + 1)).last() == recs[j as int]);
            if r.critical {
                t.0 = t.0 + 4;
            }
            if r.like {
                t.1 = t.1 + 1;
            }
            if r.dislike {
                t.2 = t.2 + 2;
            }
            if t.0 > 0x7fff_ffff || t.1 > 0x7fff_ffff || t.2 > cap {
                proof {
                    let pre = before + recs.take(j + 1);
                    assert(before + recs =~= pre + recs.skip(j + 1));
                    lemma_tally_concat(pre, recs.skip(j + 1));
                    lemma_tally_signs(recs.skip(j + 1));
                    lemma_all_ratings_prefix(groups@, g + 1);
                }
                return false;
            }
            j = j + 1;
        }
        assert(recs.take(m as int) =~= recs);
        g = g + 1;
    }
    assert(groups@.take(n as int) =~= groups@);
    true
}

/// Whether the running score of all the ratings, dislikes counted up, fits
/// in a [`Score`]: what [`alert_scores_basis`] asks of its input.
pub fn tally_fits(groups: &Vec<AlertsRatings>) -> (res: bool)
    ensures
        res == (tally(all_ratings(groups@)).0 <= i32::MAX && tally(all_ratings(groups@)).1 <= i32::MAX
            && tally(all_ratings(groups@)).2 <= i32::MAX),
{
    tally_within(groups, 0x7fff_ffff)
}

/// Whether the running score of all the ratings, dislikes counted down,
/// fits in a [`Score`]: what [`alerts_split_tallies`] asks of its input.
pub fn split_tally_fits(groups: &Vec<AlertsRatings>) -> (res: bool)
    ensures
        res == (tally(all_ratings(groups@)).0 <= i32::MAX && tally(all_ratings(groups@)).1 <= i32::MAX
            && -tally(all_ratings(groups@)).2 >= i32::MIN),
{
    tally_within(groups, 0x8000_0000)
}

} // verus!
