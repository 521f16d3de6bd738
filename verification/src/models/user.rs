//! Users: what they follow, how they rated alerts, and how much their
//! interests overlap with other users'.
use vstd::prelude::*;

use crate::models::rating::{ratings_view_of, RatingsView, UserRatings};
use crate::services::types::{UsersContents, UsersRatings};
use crate::text::{free_of, join_pieces, law_split_join, split, split_spec};

verus! {

/// The overlap of two users' preferences: how many of the first user's
/// preferences the second user shares, and how many preferences each has.
/// Their similarity is `shared / (left + right - shared)`.
#[derive(Debug, Clone, Copy, PartialEq, Eq, Structural)]
pub struct Overlap {
    pub shared: usize,
    pub left: usize,
    pub right: usize,
}

/// The characters of each string.
pub open spec fn strings_view(v: Seq<String>) -> Seq<Seq<char>> {
    v.map_values(|s: String| s@)
}

/// How many entries of `a` (duplicates counted) occur in `b`.
pub open spec fn shared_count(a: Seq<Seq<char>>, b: Seq<Seq<char>>) -> nat
    decreases a.len(),
{
    if a.len() == 0 {
        0
    } else {
        shared_count(a.drop_last(), b) + (if b.contains(a.last()) { 1nat } else { 0nat })
    }
}

/// The overlap of preference lists `a` and `b`.
pub open spec fn overlap_spec(a: Seq<Seq<char>>, b: Seq<Seq<char>>) -> Overlap {
    Overlap { shared: shared_count(a, b) as usize, left: a.len() as usize, right: b.len() as usize }
}

/// Whether `key` is among `items`.
pub fn contains_string(items: &Vec<String>, key: &String) -> (res: bool)
    ensures
        res == strings_view(items@).contains(key@),
{
    let n = items.len();
    let mut i: usize = 0;
    while i < n
        invariant
            n == items@.len(),
            i <= n,
            forall|j: int| 0 <= j < i ==> #[trigger] items@[j]@ != key@,
        decreases n - i,
    {
        if items[i] == *key {
            assert(strings_view(items@)[i as int] == key@);
            return true;
        }
        i = i + 1;
    }
    proof {
        if strings_view(items@).contains(key@) {
            let j = choose|j: int| 0 <= j < strings_view(items@).len() && strings_view(items@)[j] == key@;
            assert(items@[j]@ == key@);
        }
    }
    false
}

/// The overlap of two users' preferences, `a` being the first user's.
pub fn overlap(a: &Vec<String>, b: &Vec<String>) -> (res: Overlap)
    ensures
        res == overlap_spec(strings_view(a@), strings_view(b@)),
{
    let n = a.len();
    let mut shared: usize = 0;
    let mut i: usize = 0;
    let ghost av = strings_view(a@);
    let ghost bv = strings_view(b@);
    while i < n
        invariant
            n == a@.len(),
            i <= n,
            av == strings_view(a@),
            bv == strings_view(b@),
            shared == shared_count(av.take(i as int), bv),
            shared <= i,
        decreases n - i,
    {
        assert(av.take(i + 1).drop_last() =~= av.take(i as int));
        assert(av.take(i + 1).last() == a@[i as int]@);
        if contains_string(b, &a[i]) {
            shared = shared + 1;
        }
        i = i + 1;
    }
    assert(av.take(n as int) =~= av);
    Overlap { shared, left: a.len(), right: b.len() }
}

/// What a [`User`] holds, as plain values.
pub struct UserView {
    pub id: u32,
    pub preferences: Seq<Seq<char>>,
    pub ratings: Option<RatingsView>,
    pub similarity: Option<Seq<(u32, Overlap)>>,
}

/// A user: the contents they follow, their ratings if any, and their
/// overlap with other users if it was worked out.
#[derive(Debug)]
pub struct User {
    pub id: u32,
    pub preferences: Vec<String>,
    pub ratings: Option<UserRatings>,
    pub similarity: Option<Vec<(u32, Overlap)>>,
}

impl View for User {
    type V = UserView;

    open spec fn view(&self) -> UserView {
        UserView {
            id: self.id,
            preferences: strings_view(self.preferences@),
            ratings: match self.ratings {
                Some(r) => Some(r@),
                None => None,
            },
            similarity: match self.similarity {
                Some(s) => Some(s@),
                None => None,
            },
        }
    }
}

/// A copy of a list of strings.
fn clone_strings(v: &Vec<String>) -> (res: Vec<String>)
    ensures
        res@ == v@,
{
    let mut out: Vec<String> = Vec::new();
    let n = v.len();
    let mut i: usize = 0;
    while i < n
        invariant
            n == v@.len(),
            i <= n,
            out@ == v@.take(i as int),
        decreases n - i,
    {
        out.push(v[i].clone());
        assert(out@ =~= v@.take(i + 1));
        i = i + 1;
    }
    assert(v@.take(n as int) =~= v@);
    out
}

/// A copy of an overlap list.
fn clone_overlaps(v: &Vec<(u32, Overlap)>) -> (res: Vec<(u32, Overlap)>)
    ensures
        res@ == v@,
{
    let mut out: Vec<(u32, Overlap)> = Vec::new();
    let n = v.len();
    let mut i: usize = 0;
    while i < n
        invariant
            n == v@.len(),
            i <= n,
            out@ == v@.take(i as int),
        decreases n - i,
    {
        out.push(v[i]);
        assert(out@ =~= v@.take(i + 1));
        i = i + 1;
    }
    assert(v@.take(n as int) =~= v@);
    out
}

impl Clone for User {
    /// The same user; a copy of the ratings starts its like and dislike
    /// counts again from zero.
    fn clone(&self) -> (res: Self)
        ensures
            res@.id == self@.id,
            res@.preferences == self@.preferences,
            res@.similarity == self@.similarity,
            match (res.ratings, self.ratings) {
                (Some(a), Some(b)) => a.ratings_map() == b.ratings_map() && a.liked() == 0 && a.disliked() == 0,
                (None, None) => true,
                _ => false,
            },
    {
        let ratings = match &self.ratings {
            Some(r) => Some(r.clone()),
            None => None,
        };
        let similarity = match &self.similarity {
            Some(s) => Some(clone_overlaps(s)),
            None => None,
        };
        User { id: self.id, preferences: clone_strings(&self.preferences), ratings, similarity }
    }
}

impl User {
    /// The score of the user's rating of the alert, 0 if they have no
    /// ratings or did not rate it.
    pub fn alert_rating(&self, alert_id: &String) -> (res: i32)
        ensures
            res == (match self.ratings {
                Some(r) => if r@.map.contains_key(alert_id@) {
                    r@.map[alert_id@].score_spec()
                } else {
                    0
                },
                None => 0,
            }),
    {
        match &self.ratings {
            Some(r) => r.alert_rating(alert_id),
            None => 0,
        }
    }

    /// The user a ratings answer describes: no preferences, and ratings only
    /// if the answer carries any.
    pub fn from_ratings(base: UsersRatings) -> (res: User)
        ensures
            res@.id == base.user_id as u32,
            res@.preferences == Seq::<Seq<char>>::empty(),
            res@.ratings == (if base.ratings@.len() == 0 {
                None::<RatingsView>
            } else {
                Some(ratings_view_of(base.ratings@))
            }),
            res@.similarity == None::<Seq<(u32, Overlap)>>,
    {
        let id = base.user_id as u32;
        let ratings = if base.ratings.len() == 0 {
            None
        } else {
            Some(UserRatings::from_records(base.ratings))
        };
        let res = User { id, preferences: Vec::new(), ratings, similarity: None };
        assert(res@.preferences =~= Seq::<Seq<char>>::empty());
        res
    }

    /// The user a contents answer describes: the contents they follow, no
    /// ratings.
    pub fn from_contents(base: UsersContents) -> (res: User)
        ensures
            res@.id == base.user_id as u32,
            res@.preferences == strings_view(base.preferences@),
            res@.ratings == None::<RatingsView>,
            res@.similarity == None::<Seq<(u32, Overlap)>>,
    {
        User { id: base.user_id as u32, preferences: base.preferences, ratings: None, similarity: None }
    }
}

/// For a list without repeats, the shared count is the number of distinct
/// preferences both lists hold.
pub proof fn lemma_shared_is_intersection(a: Seq<Seq<char>>, b: Seq<Seq<char>>)
    requires
        a.no_duplicates(),
    ensures
        a.to_set().intersect(b.to_set()).finite(),
        shared_count(a, b) == a.to_set().intersect(b.to_set()).len(),
    decreases a.len(),
{
    broadcast use vstd::set_lib::group_set_properties;
    broadcast use vstd::seq_lib::seq_to_set_is_finite;

    if a.len() == 0 {
        assert(a.to_set().intersect(b.to_set()) =~= Set::<Seq<char>>::empty());
    } else {
        let c = a.drop_last();
        let x = a.last();
        assert(c.no_duplicates());
        lemma_shared_is_intersection(c, b);
        assert(a =~= c.push(x));
        c.lemma_push_to_set_commute(x);
        assert(!c.contains(x)) by {
            if c.contains(x) {
                let i = choose|i: int| 0 <= i < c.len() && c[i] == x;
                assert(a[i] == a[a.len() - 1]);
            }
        }
        let ic = c.to_set().intersect(b.to_set());
        let ia = a.to_set().intersect(b.to_set());
        assert(!ic.contains(x));
        if b.contains(x) {
            assert(b.to_set().contains(x));
            assert(ia =~= ic.insert(x));
        } else {
            assert(!b.to_set().contains(x));
            assert(ia =~= ic);
        }
    }
}

/// Between two users who follow each content at most once, the overlap is
/// the same whichever user counts: the similarity is symmetric.
pub proof fn law_overlap_symmetric(a: Seq<Seq<char>>, b: Seq<Seq<char>>)
    requires
        a.no_duplicates(),
        b.no_duplicates(),
    ensures
        shared_count(a, b) == shared_count(b, a),
        overlap_spec(a, b).shared == overlap_spec(b, a).shared,
        overlap_spec(a, b).left == overlap_spec(b, a).right,
        overlap_spec(a, b).right == overlap_spec(b, a).left,
{
    lemma_shared_is_intersection(a, b);
    lemma_shared_is_intersection(b, a);
    assert(a.to_set().intersect(b.to_set()) =~= b.to_set().intersect(a.to_set()));
}

/// The characters dropped from a stored preference list: brackets, quotes
/// and spaces.
pub open spec fn list_noise(c: char) -> bool {
    c == '[' || c == ']' || c == '\'' || c == ' '
}

/// `s` without its brackets, quotes and spaces.
pub open spec fn strip_noise(s: Seq<char>) -> Seq<char>
    decreases s.len(),
{
    if s.len() == 0 {
        s
    } else if list_noise(s.last()) {
        strip_noise(s.drop_last())
    } else {
        strip_noise(s.drop_last()).push(s.last())
    }
}

/// Reading a stored preference list keeps every character but brackets,
/// quotes, spaces and the commas it cuts at: the pieces hold no comma, and
/// joined with commas they give the list with exactly its brackets, quotes
/// and spaces removed.
pub proof fn law_preferences_keep_other_chars(s: Seq<char>)
    ensures
        join_pieces(split_spec(strip_noise(s), ','), ',') == s.filter(
            |c: char| c != '[' && c != ']' && c != '\'' && c != ' ',
        ),
        forall|i: int|
            0 <= i < split_spec(strip_noise(s), ',').len() ==> free_of(
                #[trigger] split_spec(strip_noise(s), ',')[i],
                ',',
            ),
{
    lemma_strip_noise_filter(s);
    law_split_join(strip_noise(s), ',');
}

proof fn lemma_strip_noise_filter(s: Seq<char>)
    ensures
        strip_noise(s) == s.filter(|c: char| c != '[' && c != ']' && c != '\'' && c != ' '),
    decreases s.len(),
{
    reveal_with_fuel(Seq::filter, 1);
    if s.len() > 0 {
        lemma_strip_noise_filter(s.drop_last());
    }
}

/// Reads a stored preference list such as `['a', 'b']`: brackets, quotes
/// and spaces are dropped and the rest is split at commas.
pub fn parse_preferences(s: &str) -> (res: Vec<String>)
    ensures
        strings_view(res@) == split_spec(strip_noise(s@), ','),
{
    let n = s.unicode_len();
    let mut kept = String::new();
    let mut i: usize = 0;
    assert(s@.take(0) =~= Seq::<char>::empty());
    while i < n
        invariant
            n == s@.len(),
            i <= n,
            kept@ == strip_noise(s@.take(i as int)),
        decreases n - i,
    {
        let c = s.get_char(i);
        assert(s@.take(i + 1).drop_last() =~= s@.take(i as int));
        assert(s@.take(i + 1).last() == c);
        if !(c == '[' || c == ']' || c == '\'' || c == ' ') {
            let one = s.substring_char(i, i + 1);
            assert(one@ =~= seq![c]);
            kept.append(one);
        }
        i = i + 1;
    }
    assert(s@.take(n as int) =~= s@);
    let pieces = split(kept.as_str(), ',');
    assert(strings_view(pieces@) =~= pieces@.map_values(|p: String| p@));
    pieces
}

} // verus!
