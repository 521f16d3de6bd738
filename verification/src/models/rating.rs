//! Ratings of alerts by users, and the scores drawn from them.
use vstd::prelude::*;

use crate::services::types::RatingRecord;
use crate::strmap::StrMap;

verus! {

/// Weight of a rating that marks an alert critical.
pub const CRITICAL: i32 = 4;

/// Weight of a like.
pub const LIKE: i32 = 1;

/// Weight of a dislike.
pub const DISLIKE: i32 = 2;

/// `v` when `b` holds, else 0.
pub open spec fn flag(b: bool, v: int) -> int {
    if b { v } else { 0 }
}

/// A running score: (critical, like, dislike) weights added up.
pub type Score = (i32, i32, i32);

/// A score as three mathematical integers.
pub open spec fn score_view(s: Score) -> (int, int, int) {
    (s.0 as int, s.1 as int, s.2 as int)
}

/// One user's rating of one alert.
#[derive(Debug)]
pub struct Rating {
    pub user_id: u32,
    pub alert_id: String,
    pub like: bool,
    pub dislike: bool,
    pub critical: bool,
}

impl Clone for Rating {
    fn clone(&self) -> (res: Self)
        ensures
            res == *self,
    {
        Rating {
            user_id: self.user_id,
            alert_id: self.alert_id.clone(),
            like: self.like,
            dislike: self.dislike,
            critical: self.critical,
        }
    }
}

impl Rating {
    /// The rating a record stands for; the user id's 32 bits are read as
    /// unsigned.
    pub open spec fn of_record(r: RatingRecord) -> Rating {
        Rating {
            user_id: r.user_id as u32,
            alert_id: r.alert_id,
            like: r.like,
            dislike: r.dislike,
            critical: r.critical,
        }
    }

    /// The rating a record of the database service stands for.
    pub fn from_record(base: RatingRecord) -> (res: Rating)
        ensures
            res == Rating::of_record(base),
    {
        Rating {
            user_id: base.user_id as u32,
            alert_id: base.alert_id,
            like: base.like,
            dislike: base.dislike,
            critical: base.critical,
        }
    }

    /// The rating a record stands for, the record left in place.
    pub fn from_record_ref(base: &RatingRecord) -> (res: Rating)
        ensures
            res == Rating::of_record(*base),
    {
        Rating {
            user_id: base.user_id as u32,
            alert_id: base.alert_id.clone(),
            like: base.like,
            dislike: base.dislike,
            critical: base.critical,
        }
    }

    /// One vote for a like, one for critical, one against for a dislike.
    pub open spec fn votes_spec(&self) -> int {
        flag(self.like, 1) + flag(self.critical, 1) - flag(self.dislike, 1)
    }

    /// The weights of the marks the rating carries, added up.
    pub open spec fn score_spec(&self) -> int {
        flag(self.like, LIKE as int) + flag(self.dislike, DISLIKE as int) + flag(
            self.critical,
            CRITICAL as int,
        )
    }

    /// A running score after this rating is added, dislikes counted up.
    pub open spec fn tally_step(&self, t: (int, int, int)) -> (int, int, int) {
        (
            t.0 + flag(self.critical, CRITICAL as int),
            t.1 + flag(self.like, LIKE as int),
            t.2 + flag(self.dislike, DISLIKE as int),
        )
    }

    /// A running score after this rating is added, dislikes counted down.
    pub open spec fn split_step(&self, t: (int, int, int)) -> (int, int, int) {
        (
            t.0 + flag(self.critical, CRITICAL as int),
            t.1 + flag(self.like, LIKE as int),
            t.2 - flag(self.dislike, DISLIKE as int),
        )
    }

    /// The rating's votes: +1 for a like, +1 for critical, -1 for a dislike.
    pub fn votes(&self) -> (res: i8)
        ensures
            res == self.votes_spec(),
    {
        let like: i8 = if self.like { 1 } else { 0 };
        let critical: i8 = if self.critical { 1 } else { 0 };
        let dislike: i8 = if self.dislike { 1 } else { 0 };
        like + critical - dislike
    }

    /// The rating's score: the weights of its like, dislike and critical
    /// marks added up.
    pub fn score(&self) -> (res: i32)
        ensures
            res == self.score_spec(),
    {
        let mut sum: i32 = if self.like { LIKE } else { 0 };
        sum += if self.dislike { DISLIKE } else { 0 };
        sum + if self.critical { CRITICAL } else { 0 }
    }

    /// Adds the rating's weights to a running score, each to its own part,
    /// and hands the score back.
    pub fn score_mut<'l>(&self, score: &'l mut Score) -> (res: &'l mut Score)
        requires
            self.tally_step(score_view(*old(score))).0 <= i32::MAX,
            self.tally_step(score_view(*old(score))).1 <= i32::MAX,
            self.tally_step(score_view(*old(score))).2 <= i32::MAX,
        ensures
            score_view(*res) == self.tally_step(score_view(*old(score))),
            *final(score) == *final(res),
    {
        if self.critical {
            score.0 += CRITICAL;
        }
        if self.like {
            score.1 += LIKE;
        }
        if self.dislike {
            score.2 += DISLIKE;
        }
        score
    }

    /// Adds `rating`'s weights to a running score, each to its own part,
    /// a dislike's taken away, and hands the score back.
    pub fn split_score<'l>(score: &'l mut Score, rating: Self) -> (res: &'l mut Score)
        requires
            rating.split_step(score_view(*old(score))).0 <= i32::MAX,
            rating.split_step(score_view(*old(score))).1 <= i32::MAX,
            rating.split_step(score_view(*old(score))).2 >= i32::MIN,
        ensures
            score_view(*res) == rating.split_step(score_view(*old(score))),
            *final(score) == *final(res),
    {
        if rating.critical {
            score.0 += CRITICAL;
        }
        if rating.like {
            score.1 += LIKE;
        }
        if rating.dislike {
            score.2 -= DISLIKE;
        }
        score
    }
}

/// What a user made of an alert: liked or disliked it, and whether they
/// marked it critical.
#[derive(Debug, Clone, Copy, PartialEq, Eq, Structural)]
pub enum RatingEval {
    Liked { critical: bool },
    Disliked { critical: bool },
}

impl RatingEval {
    /// The critical weight if marked critical, plus the like weight or minus
    /// the dislike weight.
    pub open spec fn score_spec(&self) -> int {
        match self {
            RatingEval::Liked { critical } => flag(*critical, CRITICAL as int) + LIKE,
            RatingEval::Disliked { critical } => flag(*critical, CRITICAL as int) - DISLIKE,
        }
    }

    /// The score of the evaluation.
    pub fn score(&self) -> (res: i32)
        ensures
            res == self.score_spec(),
    {
        match self {
            RatingEval::Liked { critical } => (if *critical { CRITICAL } else { 0 }) + LIKE,
            RatingEval::Disliked { critical } => (if *critical { CRITICAL } else { 0 }) - DISLIKE,
        }
    }
}

/// A rating as the store keeps it: alert id and (like, dislike, critical).
pub type RatingEntry = (String, (bool, bool, bool));

/// The evaluation an entry stands for: a like, or else a dislike; the
/// dislike mark itself is not read.
pub open spec fn entry_eval(e: RatingEntry) -> RatingEval {
    if e.1.0 {
        RatingEval::Liked { critical: e.1.2 }
    } else {
        RatingEval::Disliked { critical: e.1.2 }
    }
}

/// The evaluations of a list of entries by alert id; a later entry for an
/// alert replaces an earlier one.
pub open spec fn evals_of(values: Seq<RatingEntry>) -> Map<Seq<char>, RatingEval>
    decreases values.len(),
{
    if values.len() == 0 {
        Map::empty()
    } else {
        evals_of(values.drop_last()).insert(values.last().0@, entry_eval(values.last()))
    }
}

/// The number of entries that are likes.
pub open spec fn liked_count(values: Seq<RatingEntry>) -> nat
    decreases values.len(),
{
    if values.len() == 0 {
        0
    } else {
        liked_count(values.drop_last()) + (if values.last().1.0 { 1nat } else { 0nat })
    }
}

/// Where the relevance of an alert to a user comes from.
#[derive(Debug, Clone, Copy, PartialEq, Eq, Structural)]
pub enum RelevanceBasis {
    /// The user liked the alert; `ratings` alerts are rated, `liked` of the
    /// ratings counted were likes.
    Liked { ratings: usize, liked: usize },
    /// The user disliked the alert; `ratings` alerts are rated, `disliked`
    /// of the ratings counted were dislikes.
    Disliked { ratings: usize, disliked: usize },
    /// The user has not rated the alert (or, for [`UserRatings`], rated it
    /// neither liked nor disliked).
    Unrated,
}

/// One user's evaluations of alerts, with how many were likes and how many
/// dislikes.
#[derive(Debug)]
pub struct Ratings {
    ratings: StrMap<RatingEval>,
    liked: usize,
    disliked: usize,
}

impl Ratings {
    /// The evaluations by alert id.
    pub closed spec fn evals(&self) -> Map<Seq<char>, RatingEval> {
        self.ratings@
    }

    /// How many of the entries it was built from were likes.
    pub closed spec fn liked(&self) -> nat {
        self.liked as nat
    }

    /// How many of the entries it was built from were dislikes.
    pub closed spec fn disliked(&self) -> nat {
        self.disliked as nat
    }

    /// Builds the evaluations from the store's entries: each entry is a like
    /// if its like mark is set and a dislike otherwise; a later entry for an
    /// alert replaces an earlier one, while every entry is counted.
    pub fn from(values: Vec<RatingEntry>) -> (res: Ratings)
        ensures
            res.evals() == evals_of(values@),
            res.liked() == liked_count(values@),
            res.liked() + res.disliked() == values@.len(),
    {
        let mut ratings: StrMap<RatingEval> = StrMap::new();
        let mut liked: usize = 0;
        let mut disliked: usize = 0;
        let ghost vals = values@;
        let n = values.len();
        for entry in it: values.into_iter()
            invariant
                it.seq() == vals,
                n == vals.len(),
                ratings@ == evals_of(vals.take(it.index())),
                liked == liked_count(vals.take(it.index())),
                liked + disliked == it.index(),
        {
            let (alert, (l, _, critical)) = entry;
            let ghost i = it.index();
            assert(i < vals.len());
            assert(vals.take(i + 1).drop_last() =~= vals.take(i));
            assert(vals.take(i + 1).last() == vals[i]);
            let eval = if l {
                RatingEval::Liked { critical }
            } else {
                RatingEval::Disliked { critical }
            };
            match eval {
                RatingEval::Liked { .. } => liked += 1,
                RatingEval::Disliked { .. } => disliked += 1,
            }
            ratings.insert(alert, eval);
        }
        assert(vals.take(vals.len() as int) =~= vals);
        Ratings { ratings, liked, disliked }
    }

    /// The score of the user's evaluation of the alert, 0 if unrated.
    pub open spec fn alert_rating_spec(&self, alert_id: Seq<char>) -> int {
        if self.evals().contains_key(alert_id) {
            self.evals()[alert_id].score_spec()
        } else {
            0
        }
    }

    /// The score of the user's evaluation of the alert, if rated.
    pub open spec fn get_spec(&self, alert_id: Seq<char>) -> Option<i32> {
        if self.evals().contains_key(alert_id) {
            Some(self.evals()[alert_id].score_spec() as i32)
        } else {
            None
        }
    }

    /// The score of the user's evaluation of the alert, 0 if unrated.
    pub fn alert_rating(&self, alert_id: &String) -> (res: i32)
        ensures
            res == self.alert_rating_spec(alert_id@),
    {
        match self.ratings.get(alert_id) {
            Some(eval) => eval.score(),
            None => 0,
        }
    }

    /// The score of the user's evaluation of the alert, if rated.
    pub fn get(&self, alert_id: &String) -> (res: Option<i32>)
        ensures
            res == self.get_spec(alert_id@),
    {
        match self.ratings.get(alert_id) {
            Some(eval) => Some(eval.score()),
            None => None,
        }
    }

    /// Which relevance formula applies to the alert, and the counts it uses:
    /// the number of rated alerts and the number of likes or dislikes.
    pub fn relevance_basis(&self, alert_id: &String) -> (res: RelevanceBasis)
        ensures
            res == (if !self.evals().contains_key(alert_id@) {
                RelevanceBasis::Unrated
            } else {
                match self.evals()[alert_id@] {
                    RatingEval::Liked { .. } => RelevanceBasis::Liked {
                        ratings: self.evals().len() as usize,
                        liked: self.liked() as usize,
                    },
                    RatingEval::Disliked { .. } => RelevanceBasis::Disliked {
                        ratings: self.evals().len() as usize,
                        disliked: self.disliked() as usize,
                    },
                }
            }),
    {
        match self.ratings.get(alert_id) {
            Some(RatingEval::Liked { .. }) => RelevanceBasis::Liked {
                ratings: self.ratings.len(),
                liked: self.liked,
            },
            Some(RatingEval::Disliked { .. }) => RelevanceBasis::Disliked {
                ratings: self.ratings.len(),
                disliked: self.disliked,
            },
            None => RelevanceBasis::Unrated,
        }
    }
}

/// One user's ratings by alert id, with how many of the ratings added were
/// likes and how many dislikes.
#[derive(Debug)]
pub struct UserRatings {
    ratings: StrMap<Rating>,
    liked: usize,
    disliked: usize,
}

/// What a [`UserRatings`] holds: the ratings by alert id and the like and
/// dislike counts.
pub struct RatingsView {
    pub map: Map<Seq<char>, Rating>,
    pub liked: nat,
    pub disliked: nat,
}

impl View for UserRatings {
    type V = RatingsView;

    open spec fn view(&self) -> RatingsView {
        RatingsView { map: self.ratings_map(), liked: self.liked(), disliked: self.disliked() }
    }
}

impl Default for UserRatings {
    fn default() -> (res: Self)
        ensures
            res.ratings_map() == Map::<Seq<char>, Rating>::empty(),
            res.liked() == 0,
            res.disliked() == 0,
    {
        UserRatings { ratings: StrMap::new(), liked: 0, disliked: 0 }
    }
}

impl Clone for UserRatings {
    /// The same ratings; the like and dislike counts start again from zero.
    fn clone(&self) -> (res: Self)
        ensures
            res.ratings_map() == self.ratings_map(),
            res.liked() == 0,
            res.disliked() == 0,
    {
        let ratings = self.ratings.clone_map();
        assert(ratings@ =~= self.ratings@);
        UserRatings { ratings, liked: 0, disliked: 0 }
    }
}

impl UserRatings {
    /// The ratings by alert id.
    pub closed spec fn ratings_map(&self) -> Map<Seq<char>, Rating> {
        self.ratings@
    }

    /// How many likes were added.
    pub closed spec fn liked(&self) -> nat {
        self.liked as nat
    }

    /// How many dislikes (not also likes) were added.
    pub closed spec fn disliked(&self) -> nat {
        self.disliked as nat
    }

    /// Adds a rating, replacing the user's earlier rating of the same alert,
    /// counts it as a like if it is one and else as a dislike if it is one,
    /// and returns the number of alerts rated.
    pub fn push(&mut self, rating: Rating) -> (res: usize)
        requires
            rating.like ==> old(self).liked() < usize::MAX,
            !rating.like && rating.dislike ==> old(self).disliked() < usize::MAX,
        ensures
            final(self).ratings_map() == old(self).ratings_map().insert(rating.alert_id@, rating),
            final(self).liked() == old(self).liked() + flag(rating.like, 1),
            final(self).disliked() == old(self).disliked() + flag(!rating.like && rating.dislike, 1),
            res == final(self).ratings_map().len(),
            final(self).ratings_map().dom().finite(),
    {
        if rating.like {
            self.liked += 1usize;
        } else if rating.dislike {
            self.disliked += 1usize;
        }
        let key = rating.alert_id.clone();
        self.ratings.insert(key, rating);
        self.ratings.len()
    }

    /// Which relevance formula applies to the alert, and the counts it uses:
    /// a liked alert goes by the likes, a disliked one by the dislikes.
    pub fn relevance_basis(&self, alert_id: &String) -> (res: RelevanceBasis)
        ensures
            res == (if !self.ratings_map().contains_key(alert_id@) {
                RelevanceBasis::Unrated
            } else if self.ratings_map()[alert_id@].like {
                RelevanceBasis::Liked {
                    ratings: self.ratings_map().len() as usize,
                    liked: self.liked() as usize,
                }
            } else if self.ratings_map()[alert_id@].dislike {
                RelevanceBasis::Disliked {
                    ratings: self.ratings_map().len() as usize,
                    disliked: self.disliked() as usize,
                }
            } else {
                RelevanceBasis::Unrated
            }),
    {
        match self.ratings.get(alert_id) {
            Some(rating) => {
                if rating.like {
                    RelevanceBasis::Liked { ratings: self.ratings.len(), liked: self.liked }
                } else if rating.dislike {
                    RelevanceBasis::Disliked { ratings: self.ratings.len(), disliked: self.disliked }
                } else {
                    RelevanceBasis::Unrated
                }
            },
            None => RelevanceBasis::Unrated,
        }
    }

    /// The score of the user's rating of the alert, 0 if unrated.
    pub open spec fn alert_rating_spec(&self, alert_id: Seq<char>) -> int {
        if self.ratings_map().contains_key(alert_id) {
            self.ratings_map()[alert_id].score_spec()
        } else {
            0
        }
    }

    /// The score of the user's rating of the alert, if rated.
    pub open spec fn get_spec(&self, alert_id: Seq<char>) -> Option<i32> {
        if self.ratings_map().contains_key(alert_id) {
            Some(self.ratings_map()[alert_id].score_spec() as i32)
        } else {
            None
        }
    }

    /// The score of the user's rating of the alert, 0 if unrated.
    pub fn alert_rating(&self, alert_id: &String) -> (res: i32)
        ensures
            res == self.alert_rating_spec(alert_id@),
    {
        match self.ratings.get(alert_id) {
            Some(rating) => rating.score(),
            None => 0,
        }
    }

    /// The score of the user's rating of the alert, if rated.
    pub fn get(&self, alert_id: &String) -> (res: Option<i32>)
        ensures
            res == self.get_spec(alert_id@),
    {
        match self.ratings.get(alert_id) {
            Some(rating) => Some(rating.score()),
            None => None,
        }
    }
}

/// The ratings a list of records adds up to, by alert id, a later rating of
/// an alert replacing an earlier one, with the count of likes and of
/// dislikes (that are not also likes) among all the records.
pub open spec fn ratings_view_of(records: Seq<RatingRecord>) -> RatingsView
    decreases records.len(),
{
    if records.len() == 0 {
        RatingsView { map: Map::empty(), liked: 0, disliked: 0 }
    } else {
        let before = ratings_view_of(records.drop_last());
        let r = Rating::of_record(records.last());
        RatingsView {
            map: before.map.insert(r.alert_id@, r),
            liked: before.liked + flag(r.like, 1) as nat,
            disliked: before.disliked + flag(!r.like && r.dislike, 1) as nat,
        }
    }
}

/// The like and dislike counts never exceed the number of records.
pub proof fn lemma_ratings_view_counts(records: Seq<RatingRecord>)
    ensures
        ratings_view_of(records).liked + ratings_view_of(records).disliked <= records.len(),
    decreases records.len(),
{
    if records.len() > 0 {
        lemma_ratings_view_counts(records.drop_last());
    }
}

impl UserRatings {
    /// The ratings that a list of records of the database service adds up
    /// to, each added in turn.
    pub fn from_records(records: Vec<RatingRecord>) -> (res: UserRatings)
        ensures
            res@ == ratings_view_of(records@),
    {
        let mut ratings = UserRatings::default();
        let ghost recs = records@;
        let n = records.len();
        for rec in it: records.into_iter()
            invariant
                it.seq() == recs,
                n == recs.len(),
                ratings@ == ratings_view_of(recs.take(it.index())),
        {
            let ghost i = it.index();
            assert(i < recs.len());
            assert(recs.take(i + 1).drop_last() =~= recs.take(i));
            assert(recs.take(i + 1).last() == recs[i]);
            proof {
                lemma_ratings_view_counts(recs.take(i));
            }
            let rating = Rating::from_record(rec);
            ratings.push(rating);
        }
        assert(recs.take(recs.len() as int) =~= recs);
        ratings
    }
}

/// The ratings a list of records stands for.
pub open spec fn records_ratings(rs: Seq<RatingRecord>) -> Seq<Rating> {
    rs.map_values(|r: RatingRecord| Rating::of_record(r))
}

/// The running score of a list of ratings, dislikes counted up, from zero.
pub open spec fn tally(rs: Seq<Rating>) -> (int, int, int)
    decreases rs.len(),
{
    if rs.len() == 0 {
        (0, 0, 0)
    } else {
        rs.last().tally_step(tally(rs.drop_last()))
    }
}

/// The running score of a list of ratings, dislikes counted down, from
/// zero.
pub open spec fn split_tally(rs: Seq<Rating>) -> (int, int, int)
    decreases rs.len(),
{
    if rs.len() == 0 {
        (0, 0, 0)
    } else {
        rs.last().split_step(split_tally(rs.drop_last()))
    }
}

/// Tallying two lists one after the other adds their tallies.
pub proof fn lemma_tally_concat(a: Seq<Rating>, b: Seq<Rating>)
    ensures
        tally(a + b).0 == tally(a).0 + tally(b).0,
        tally(a + b).1 == tally(a).1 + tally(b).1,
        tally(a + b).2 == tally(a).2 + tally(b).2,
        split_tally(a + b).0 == split_tally(a).0 + split_tally(b).0,
        split_tally(a + b).1 == split_tally(a).1 + split_tally(b).1,
        split_tally(a + b).2 == split_tally(a).2 + split_tally(b).2,
    decreases b.len(),
{
    if b.len() == 0 {
        assert(a + b =~= a);
    } else {
        lemma_tally_concat(a, b.drop_last());
        assert((a + b).drop_last() =~= a + b.drop_last());
        assert((a + b).last() == b.last());
    }
}

/// Every part of a tally is at least zero, and every part of a split tally
/// is at least zero except the dislikes, which are at most zero; the split
/// tally agrees with the tally but for the dislikes' sign.
pub proof fn lemma_tally_signs(rs: Seq<Rating>)
    ensures
        tally(rs).0 >= 0,
        tally(rs).1 >= 0,
        tally(rs).2 >= 0,
        split_tally(rs).0 == tally(rs).0,
        split_tally(rs).1 == tally(rs).1,
        split_tally(rs).2 == -tally(rs).2,
    decreases rs.len(),
{
    if rs.len() > 0 {
        lemma_tally_signs(rs.drop_last());
    }
}

/// A rating's score is what adding it to a zero running score puts in the
/// three parts together, and its votes lie between -1 and 2.
pub proof fn law_score_parts(r: Rating)
    ensures
        r.tally_step((0, 0, 0)).0 + r.tally_step((0, 0, 0)).1 + r.tally_step((0, 0, 0)).2 == r.score_spec(),
        r.split_step((0, 0, 0)).0 == r.tally_step((0, 0, 0)).0,
        r.split_step((0, 0, 0)).1 == r.tally_step((0, 0, 0)).1,
        r.split_step((0, 0, 0)).2 == -r.tally_step((0, 0, 0)).2,
        -1 <= r.votes_spec() <= 2,
{
}

/// A rating's votes count one for a like and one for a critical mark, and
/// take one away for a dislike: a plain like has exactly one vote, a plain
/// dislike minus one, and a rating with no mark none.
pub proof fn law_votes_count_marks(r: Rating)
    ensures
        r.votes_spec() == (if r.like { 1int } else { 0int }) + (if r.critical { 1int } else { 0int }) - (
        if r.dislike {
            1int
        } else {
            0int
        }),
        r.like && !r.dislike && !r.critical ==> r.votes_spec() == 1,
        !r.like && r.dislike && !r.critical ==> r.votes_spec() == -1,
        !r.like && !r.dislike && !r.critical ==> r.votes_spec() == 0,
{
}

/// The weights of the marks: a like counts 1, a dislike 2 and a critical
/// mark 4, in a rating's score and in each part of a running score
/// (critical, like, dislike), dislikes added or taken away.
pub proof fn law_mark_weights(r: Rating, t: (int, int, int))
    ensures
        r.score_spec() == (if r.like { 1int } else { 0int }) + (if r.dislike { 2int } else { 0int }) + (
        if r.critical {
            4int
        } else {
            0int
        }),
        r.tally_step(t) == (
            t.0 + (if r.critical { 4int } else { 0int }),
            t.1 + (if r.like { 1int } else { 0int }),
            t.2 + (if r.dislike { 2int } else { 0int }),
        ),
        r.split_step(t) == (
            t.0 + (if r.critical { 4int } else { 0int }),
            t.1 + (if r.like { 1int } else { 0int }),
            t.2 - (if r.dislike { 2int } else { 0int }),
        ),
{
}

/// A stored entry `(alert, (like, dislike, critical))` is evaluated as a
/// like when its like mark is set, else as a dislike, with its critical
/// mark; the dislike mark itself is not read.
pub proof fn law_entry_eval_marks(alert: String, like: bool, dislike: bool, critical: bool)
    ensures
        like ==> entry_eval((alert, (like, dislike, critical))) == (RatingEval::Liked { critical: critical }),
        !like ==> entry_eval((alert, (like, dislike, critical))) == (RatingEval::Disliked { critical: critical }),
{
}

/// An evaluation's score: a like scores 1 or 5, a dislike -2 or 2,
/// depending on the critical mark.
pub proof fn law_eval_scores(e: RatingEval)
    ensures
        match e {
            RatingEval::Liked { critical } => e.score_spec() == (if critical { 5int } else { 1int }),
            RatingEval::Disliked { critical } => e.score_spec() == (if critical { 2int } else { -2int }),
        },
{
}

/// A user's rating of an alert is the score `get` gives, or 0 where `get`
/// gives none.
pub proof fn law_ratings_alert_rating_is_get(ratings: Ratings, alert_id: Seq<char>)
    ensures
        ratings.alert_rating_spec(alert_id) == match ratings.get_spec(alert_id) {
            Some(s) => s as int,
            None => 0,
        },
{
    law_eval_scores(ratings.evals()[alert_id]);
}

/// A user's rating of an alert is the score `get` gives, or 0 where `get`
/// gives none.
pub proof fn law_user_ratings_alert_rating_is_get(ratings: UserRatings, alert_id: Seq<char>)
    ensures
        ratings.alert_rating_spec(alert_id) == match ratings.get_spec(alert_id) {
            Some(s) => s as int,
            None => 0,
        },
{
    let m = ratings.ratings_map();
    if m.contains_key(alert_id) {
        assert(0 <= m[alert_id].score_spec() <= 7);
    }
}

/// After a rating is pushed, reading the user's rating of that alert gives
/// the pushed rating's score, other alerts read as before, and the number
/// of alerts rated grows only if the alert was not rated yet.
pub proof fn law_push_then_get(before: UserRatings, after: UserRatings, rating: Rating, other: Seq<char>)
    requires
        after.ratings_map() == before.ratings_map().insert(rating.alert_id@, rating),
        before.ratings_map().dom().finite(),
        other != rating.alert_id@,
    ensures
        after.get_spec(rating.alert_id@) == Some(rating.score_spec() as i32),
        after.get_spec(other) == before.get_spec(other),
        after.ratings_map().len() == before.ratings_map().len() + (if before.ratings_map().contains_key(
            rating.alert_id@,
        ) {
            0int
        } else {
            1int
        }),
{
    let m = before.ratings_map();
    if m.contains_key(rating.alert_id@) {
        assert(m.insert(rating.alert_id@, rating).dom() =~= m.dom());
    }
}

/// How many ratings of a list carry each mark: (critical, like, dislike).
pub open spec fn mark_counts(rs: Seq<Rating>) -> (nat, nat, nat)
    decreases rs.len(),
{
    if rs.len() == 0 {
        (0, 0, 0)
    } else {
        let c = mark_counts(rs.drop_last());
        (
            c.0 + flag(rs.last().critical, 1) as nat,
            c.1 + flag(rs.last().like, 1) as nat,
            c.2 + flag(rs.last().dislike, 1) as nat,
        )
    }
}

/// The running score of a list of ratings, from zero, is each mark's weight
/// times the number of ratings that carry it.
pub proof fn law_tally_counts(rs: Seq<Rating>)
    ensures
        tally(rs) == (
            CRITICAL * mark_counts(rs).0,
            LIKE * mark_counts(rs).1,
            DISLIKE * mark_counts(rs).2,
        ),
    decreases rs.len(),
{
    if rs.len() > 0 {
        law_tally_counts(rs.drop_last());
    }
}

/// The running score of a list of ratings does not depend on the order in
/// which they are added: lists holding the same ratings, in whatever order,
/// have the same tally, dislikes counted up or down.
pub proof fn law_tally_any_order(rs: Seq<Rating>, qs: Seq<Rating>)
    requires
        rs.to_multiset() == qs.to_multiset(),
    ensures
        tally(rs) == tally(qs),
        split_tally(rs) == split_tally(qs),
    decreases rs.len(),
{
    broadcast use vstd::seq_lib::group_to_multiset_ensures;

    if rs.len() == 0 {
        assert(rs.to_multiset().len() == 0);
        assert(qs.to_multiset().len() == 0);
        assert(qs =~= Seq::<Rating>::empty());
    } else {
        let x = rs.last();
        let r0 = rs.drop_last();
        assert(rs =~= r0.push(x));
        assert(rs.to_multiset().contains(x));
        assert(qs.to_multiset().contains(x));
        assert(qs.contains(x));
        let i = choose|i: int| 0 <= i < qs.len() && qs[i] == x;
        let q0 = qs.remove(i);
        assert(q0.to_multiset() =~= qs.to_multiset().remove(x));
        assert(r0.to_multiset() =~= rs.to_multiset().remove(x));
        law_tally_any_order(r0, q0);
        assert(qs =~= (qs.take(i) + seq![x]) + qs.skip(i + 1));
        assert(q0 =~= qs.take(i) + qs.skip(i + 1));
        lemma_tally_concat(qs.take(i) + seq![x], qs.skip(i + 1));
        lemma_tally_concat(qs.take(i), seq![x]);
        lemma_tally_concat(qs.take(i), qs.skip(i + 1));
        assert(seq![x].drop_last() =~= Seq::<Rating>::empty());
        assert(seq![x].len() == 1 && seq![x].last() == x);
        assert(tally(seq![x].drop_last()) == (0int, 0int, 0int));
        assert(split_tally(seq![x].drop_last()) == (0int, 0int, 0int));
        assert(tally(seq![x]) == x.tally_step((0, 0, 0)));
        assert(split_tally(seq![x]) == x.split_step((0, 0, 0)));
        assert(tally(rs) == x.tally_step(tally(r0)));
        assert(split_tally(rs) == x.split_step(split_tally(r0)));
    }
}

} // verus!
