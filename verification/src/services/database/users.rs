//! The users table built from the database's answers: each user's
//! preferences, ratings, and overlap with every other user.
use std::collections::HashMap;
use vstd::prelude::*;

use crate::models::rating::{ratings_view_of, RatingEntry, RatingsView};
use crate::models::user::{overlap, overlap_spec, strings_view, Overlap, User, UserView};
use crate::services::types::{RatingRecord, UsersContents, UsersRatings};

verus! {

broadcast use vstd::std_specs::hash::group_hash_axioms;

/// The views of a list of users.
pub open spec fn users_view(v: Seq<User>) -> Seq<UserView> {
    v.map_values(|u: User| u@)
}

/// No two users share an id.
pub open spec fn distinct_ids(t: Seq<UserView>) -> bool {
    forall|i: int, j: int|
        0 <= i < t.len() && 0 <= j < t.len() && i != j ==> #[trigger] t[i].id != #[trigger] t[j].id
}

/// The position of the last user with id `id`.
pub open spec fn find_id(t: Seq<UserView>, id: u32) -> Option<int>
    decreases t.len(),
{
    if t.len() == 0 {
        None
    } else if t.last().id == id {
        Some(t.len() - 1)
    } else {
        find_id(t.drop_last(), id)
    }
}

/// An overlap list with one more entry; absent lists start empty.
pub open spec fn push_sim(s: Option<Seq<(u32, Overlap)>>, e: (u32, Overlap)) -> Option<Seq<(u32, Overlap)>> {
    Some(
        match s {
            Some(x) => x.push(e),
            None => seq![e],
        },
    )
}

/// An overlap list with several more entries, in order.
pub open spec fn push_sims(s: Option<Seq<(u32, Overlap)>>, es: Seq<(u32, Overlap)>) -> Option<
    Seq<(u32, Overlap)>,
>
    decreases es.len(),
{
    if es.len() == 0 {
        s
    } else {
        push_sim(push_sims(s, es.drop_last()), es.last())
    }
}

/// `u` with the overlap list `s`.
pub open spec fn with_sims(u: UserView, s: Option<Seq<(u32, Overlap)>>) -> UserView {
    UserView { id: u.id, preferences: u.preferences, ratings: u.ratings, similarity: s }
}

/// `u` with the ratings `r`.
pub open spec fn with_ratings(u: UserView, r: Option<RatingsView>) -> UserView {
    UserView { id: u.id, preferences: u.preferences, ratings: r, similarity: u.similarity }
}

/// The overlap of newcomer `u` with an existing user `e`, as both record it.
pub open spec fn overlap_with(u: UserView, e: UserView) -> Overlap {
    overlap_spec(u.preferences, e.preferences)
}

/// The table after `u` joins it: every user already there records its
/// overlap with `u` under `u`'s id, `u` records its overlap with each of
/// them in table order, and `u` then takes the place of a user with the
/// same id or goes at the end.
pub open spec fn add_user_spec(t: Seq<UserView>, u: UserView) -> Seq<UserView> {
    let touched = Seq::new(
        t.len(),
        |i: int| with_sims(t[i], push_sim(t[i].similarity, (u.id, overlap_with(u, t[i])))),
    );
    let sims = Seq::new(t.len(), |i: int| (t[i].id, overlap_with(u, t[i])));
    let nu = with_sims(u, push_sims(u.similarity, sims));
    match find_id(touched, u.id) {
        Some(i) => touched.update(i, nu),
        None => touched.push(nu),
    }
}

/// The user a contents answer describes.
pub open spec fn contents_view(c: UsersContents) -> UserView {
    UserView {
        id: c.user_id as u32,
        preferences: strings_view(c.preferences@),
        ratings: None,
        similarity: None,
    }
}

/// The table built from the contents answers, each user joining in turn.
pub open spec fn table_of(cs: Seq<UsersContents>) -> Seq<UserView>
    decreases cs.len(),
{
    if cs.len() == 0 {
        Seq::empty()
    } else {
        add_user_spec(table_of(cs.drop_last()), contents_view(cs.last()))
    }
}

/// The ratings a ratings answer gives a user: none if it lists none.
pub open spec fn answer_ratings(r: UsersRatings) -> Option<RatingsView> {
    if r.ratings@.len() == 0 {
        None
    } else {
        Some(ratings_view_of(r.ratings@))
    }
}

/// The table after the ratings answers, in turn, set the ratings of the
/// users they name that are in the table.
pub open spec fn apply_ratings(t: Seq<UserView>, rs: Seq<UsersRatings>) -> Seq<UserView>
    decreases rs.len(),
{
    if rs.len() == 0 {
        t
    } else {
        let t0 = apply_ratings(t, rs.drop_last());
        let r = rs.last();
        match find_id(t0, r.user_id as u32) {
            Some(i) => t0.update(i, with_ratings(t0[i], answer_ratings(r))),
            None => t0,
        }
    }
}

/// What `find_id` finds is a user with that id.
pub proof fn lemma_find_id_in_range(t: Seq<UserView>, id: u32)
    ensures
        match find_id(t, id) {
            Some(i) => 0 <= i < t.len() && t[i].id == id,
            None => true,
        },
    decreases t.len(),
{
    if t.len() > 0 {
        lemma_find_id_in_range(t.drop_last(), id);
    }
}

/// With distinct ids, `find_id` finds the one user with that id, if any.
pub proof fn lemma_find_id(t: Seq<UserView>, id: u32)
    requires
        distinct_ids(t),
    ensures
        match find_id(t, id) {
            Some(i) => 0 <= i < t.len() && t[i].id == id,
            None => forall|j: int| 0 <= j < t.len() ==> #[trigger] t[j].id != id,
        },
        forall|j: int| 0 <= j < t.len() && #[trigger] t[j].id == id ==> find_id(t, id) == Some(j),
    decreases t.len(),
{
    if t.len() > 0 {
        let s = t.drop_last();
        assert(distinct_ids(s));
        lemma_find_id(s, id);
        if t.last().id != id {
            assert forall|j: int| 0 <= j < t.len() && #[trigger] t[j].id == id implies find_id(t, id) == Some(j) by {
                assert(j < t.len() - 1);
                assert(s[j] == t[j]);
            }
            match find_id(s, id) {
                Some(i) => {},
                None => {
                    assert forall|j: int| 0 <= j < t.len() implies #[trigger] t[j].id != id by {
                        if j < t.len() - 1 {
                            assert(s[j] == t[j]);
                        }
                    }
                },
            }
        } else {
            assert forall|j: int| 0 <= j < t.len() && #[trigger] t[j].id == id implies find_id(t, id) == Some(j) by {
                if j != t.len() - 1 {
                    assert(t[j].id != t[t.len() - 1].id);
                }
            }
        }
    }
}

/// The position of the user with id `id` in `table`, if any.
fn find_user(table: &Vec<User>, id: u32) -> (res: Option<usize>)
    requires
        distinct_ids(users_view(table@)),
    ensures
        match res {
            Some(i) => find_id(users_view(table@), id) == Some(i as int),
            None => find_id(users_view(table@), id) == None::<int>,
        },
{
    proof {
        lemma_find_id(users_view(table@), id);
    }
    let n = table.len();
    let mut i: usize = 0;
    while i < n
        invariant
            n == table@.len(),
            i <= n,
            distinct_ids(users_view(table@)),
            forall|j: int| 0 <= j < i ==> #[trigger] table@[j].id != id,
        decreases n - i,
    {
        if table[i].id == id {
            assert(users_view(table@)[i as int].id == id);
            proof {
                lemma_find_id(users_view(table@), id);
            }
            return Some(i);
        }
        i = i + 1;
    }
    proof {
        match find_id(users_view(table@), id) {
            Some(k) => {
                assert(users_view(table@)[k].id == table@[k].id);
            },
            None => {},
        }
    }
    None
}

/// Adds `user` to `table` as [`add_user_spec`] describes.
fn add_user(table: Vec<User>, user: User) -> (res: Vec<User>)
    requires
        distinct_ids(users_view(table@)),
    ensures
        distinct_ids(users_view(res@)),
        users_view(res@) == add_user_spec(users_view(table@), user@),
{
    let ghost t = users_view(table@);
    let ghost u = user@;
    let ghost sims_spec = Seq::new(t.len(), |i: int| (t[i].id, overlap_with(u, t[i])));
    let ghost touched = Seq::new(
        t.len(),
        |i: int| with_sims(t[i], push_sim(t[i].similarity, (u.id, overlap_with(u, t[i])))),
    );
    let User { id, preferences, ratings, similarity } = user;
    let mut sims = similarity;
    let mut new_table: Vec<User> = Vec::new();
    let n = table.len();
    for e in it: table.into_iter()
        invariant
            it.seq() == table@,
            n == table@.len(),
            t == users_view(table@),
            u == (UserView {
                id,
                preferences: strings_view(preferences@),
                ratings: match ratings {
                    Some(r) => Some(r@),
                    None => None,
                },
                similarity: u.similarity,
            }),
            sims_spec == Seq::new(t.len(), |i: int| (t[i].id, overlap_with(u, t[i]))),
            touched == Seq::new(
                t.len(),
                |i: int| with_sims(t[i], push_sim(t[i].similarity, (u.id, overlap_with(u, t[i])))),
            ),
            users_view(new_table@) == touched.take(it.index()),
            match sims {
                Some(s) => push_sims(u.similarity, sims_spec.take(it.index())) == Some(s@),
                None => push_sims(u.similarity, sims_spec.take(it.index())) == None::<Seq<(u32, Overlap)>>,
            },
    {
        let ghost k = it.index();
        assert(k < n);
        assert(t[k] == e@);
        let ov = overlap(&preferences, &e.preferences);
        assert(ov == overlap_with(u, t[k]));
        let ghost before = sims;
        sims = Some(
            match sims {
                Some(mut v) => {
                    v.push((e.id, ov));
                    v
                },
                None => {
                    let mut v = Vec::new();
                    v.push((e.id, ov));
                    v
                },
            },
        );
        assert(sims_spec.take(k + 1).drop_last() =~= sims_spec.take(k));
        assert(sims_spec.take(k + 1).last() == (e.id, ov));
        proof {
            match before {
                Some(s) => {
                    assert(sims.unwrap()@ =~= s@.push((e.id, ov)));
                },
                None => {
                    assert(sims.unwrap()@ =~= seq![(e.id, ov)]);
                },
            }
        }
        let User { id: eid, preferences: eprefs, ratings: eratings, similarity: esims } = e;
        let ghost ebefore = esims;
        let esims2 = Some(
            match esims {
                Some(mut v) => {
                    v.push((id, ov));
                    v
                },
                None => {
                    let mut v = Vec::new();
                    v.push((id, ov));
                    v
                },
            },
        );
        let updated = User { id: eid, preferences: eprefs, ratings: eratings, similarity: esims2 };
        proof {
            match ebefore {
                Some(s) => {
                    assert(esims2.unwrap()@ =~= s@.push((id, ov)));
                },
                None => {
                    assert(esims2.unwrap()@ =~= seq![(id, ov)]);
                },
            }
        }
        assert(updated@ == touched[k]);
        let ghost nt = new_table@;
        new_table.push(updated);
        assert(users_view(new_table@) =~= users_view(nt).push(updated@));
        assert(touched.take(k + 1) =~= touched.take(k).push(touched[k]));
    }
    assert(touched.take(n as int) =~= touched);
    assert(sims_spec.take(n as int) =~= sims_spec);
    let nu = User { id, preferences, ratings, similarity: sims };
    assert(nu@ == with_sims(u, push_sims(u.similarity, sims_spec)));
    assert(distinct_ids(touched)) by {
        assert forall|a: int, b: int| 0 <= a < touched.len() && 0 <= b < touched.len() && a != b implies
            #[trigger] touched[a].id != #[trigger] touched[b].id by {
            assert(touched[a].id == t[a].id);
            assert(touched[b].id == t[b].id);
        }
    }
    assert(users_view(new_table@) == touched);
    proof {
        lemma_find_id(touched, id);
    }
    match find_user(&new_table, id) {
        Some(i) => {
            let ghost nt = new_table@;
            new_table.set(i, nu);
            assert(users_view(new_table@) =~= users_view(nt).update(i as int, nu@));
            assert(distinct_ids(users_view(new_table@))) by {
                let v = users_view(new_table@);
                assert forall|a: int, b: int| 0 <= a < v.len() && 0 <= b < v.len() && a != b implies
                    #[trigger] v[a].id != #[trigger] v[b].id by {
                    if a != i && b != i {
                        assert(v[a].id == touched[a].id);
                        assert(v[b].id == touched[b].id);
                    } else if a == i {
                        assert(touched[i as int].id == id);
                        assert(v[b].id == touched[b].id);
                    } else {
                        assert(touched[i as int].id == id);
                        assert(v[a].id == touched[a].id);
                    }
                }
            }
        },
        None => {
            let ghost nt = new_table@;
            new_table.push(nu);
            assert(users_view(new_table@) =~= users_view(nt).push(nu@));
            proof {
                lemma_find_id(touched, id);
            }
            assert(distinct_ids(users_view(new_table@))) by {
                let v = users_view(new_table@);
                assert forall|a: int, b: int| 0 <= a < v.len() && 0 <= b < v.len() && a != b implies
                    #[trigger] v[a].id != #[trigger] v[b].id by {
                    if a < touched.len() && b < touched.len() {
                        assert(v[a].id == touched[a].id);
                        assert(v[b].id == touched[b].id);
                    } else if a < touched.len() {
                        assert(v[a].id == touched[a].id);
                    } else {
                        assert(v[b].id == touched[b].id);
                    }
                }
            }
        },
    }
    new_table
}

/// The users table that the database's answers describe: each user of the
/// contents answers joins in turn, recording its overlap with every user
/// already there (and each of them with it), a later user replacing an
/// earlier one with the same id; then each ratings answer sets the ratings
/// of the user it names, if that user is in the table.
pub open spec fn users_spec(cs: Seq<UsersContents>, rs: Seq<UsersRatings>) -> Seq<UserView> {
    apply_ratings(table_of(cs), rs)
}

/// Joining keeps ids distinct.
pub proof fn lemma_table_distinct(cs: Seq<UsersContents>)
    ensures
        distinct_ids(table_of(cs)),
    decreases cs.len(),
{
    if cs.len() > 0 {
        lemma_table_distinct(cs.drop_last());
        let t = table_of(cs.drop_last());
        let u = contents_view(cs.last());
        let touched = Seq::new(
            t.len(),
            |i: int| with_sims(t[i], push_sim(t[i].similarity, (u.id, overlap_with(u, t[i])))),
        );
        assert(distinct_ids(touched)) by {
            assert forall|a: int, b: int| 0 <= a < touched.len() && 0 <= b < touched.len() && a != b implies
                #[trigger] touched[a].id != #[trigger] touched[b].id by {
                assert(touched[a].id == t[a].id);
                assert(touched[b].id == t[b].id);
            }
        }
        lemma_find_id(touched, u.id);
        let r = table_of(cs);
        assert(distinct_ids(r)) by {
            assert forall|a: int, b: int| 0 <= a < r.len() && 0 <= b < r.len() && a != b implies
                #[trigger] r[a].id != #[trigger] r[b].id by {
                match find_id(touched, u.id) {
                    Some(i) => {
                        if a != i {
                            assert(r[a].id == touched[a].id);
                        }
                        if b != i {
                            assert(r[b].id == touched[b].id);
                        }
                    },
                    None => {
                        if a < touched.len() {
                            assert(r[a].id == touched[a].id);
                        }
                        if b < touched.len() {
                            assert(r[b].id == touched[b].id);
                        }
                    },
                }
            }
        }
    }
}

/// Setting ratings keeps ids, and so keeps them distinct.
pub proof fn lemma_apply_ratings_ids(t: Seq<UserView>, rs: Seq<UsersRatings>)
    ensures
        apply_ratings(t, rs).len() == t.len(),
        forall|i: int| 0 <= i < t.len() ==> #[trigger] apply_ratings(t, rs)[i].id == t[i].id,
    decreases rs.len(),
{
    if rs.len() > 0 {
        lemma_apply_ratings_ids(t, rs.drop_last());
        lemma_find_id_in_range(apply_ratings(t, rs.drop_last()), rs.last().user_id as u32);
    }
}

/// The users table built from the database's answers, keyed by user id.
pub fn all_users(contents: Vec<UsersContents>, ratings: Vec<UsersRatings>) -> (res: HashMap<u32, User>)
    ensures
        distinct_ids(users_spec(contents@, ratings@)),
        forall|k: u32| res@.contains_key(k) <==> find_id(users_spec(contents@, ratings@), k) is Some,
        forall|i: int|
            0 <= i < users_spec(contents@, ratings@).len() ==> #[trigger] res@[users_spec(
                contents@,
                ratings@,
            )[i].id]@ == users_spec(contents@, ratings@)[i],
{
    let ghost cs = contents@;
    let ghost rs = ratings@;
    let mut table: Vec<User> = Vec::new();
    let nc = contents.len();
    assert(users_view(table@) =~= table_of(cs.take(0)));
    for c in it: contents.into_iter()
        invariant
            it.seq() == cs,
            nc == cs.len(),
            users_view(table@) == table_of(cs.take(it.index())),
            distinct_ids(users_view(table@)),
    {
        let ghost k = it.index();
        assert(k < nc);
        assert(cs.take(k + 1).drop_last() =~= cs.take(k));
        assert(cs.take(k + 1).last() == cs[k]);
        let user = User::from_contents(c);
        assert(user@ == contents_view(cs[k]));
        table = add_user(table, user);
    }
    assert(cs.take(nc as int) =~= cs);
    let ghost t0 = users_view(table@);
    let nr = ratings.len();
    for r in it: ratings.into_iter()
        invariant
            it.seq() == rs,
            nr == rs.len(),
            t0 == table_of(cs),
            users_view(table@) == apply_ratings(t0, rs.take(it.index())),
            distinct_ids(users_view(table@)),
    {
        let ghost k = it.index();
        assert(k < nr);
        assert(rs.take(k + 1).drop_last() =~= rs.take(k));
        assert(rs.take(k + 1).last() == rs[k]);
        let ghost rk = rs[k];
        let user = User::from_ratings(r);
        assert(user@.ratings == answer_ratings(rk));
        proof {
            lemma_find_id(users_view(table@), user.id);
        }
        match find_user(&table, user.id) {
            Some(i) => {
                let ghost before = users_view(table@);
                let e = table.remove(i);
                let User { id, preferences, ratings: _, similarity } = e;
                let replaced = User { id, preferences, ratings: user.ratings, similarity };
                table.insert(i, replaced);
                assert(users_view(table@) =~= before.update(i as int, with_ratings(before[i as int], answer_ratings(rk))));
                assert(distinct_ids(users_view(table@))) by {
                    let v = users_view(table@);
                    assert forall|a: int, b: int| 0 <= a < v.len() && 0 <= b < v.len() && a != b implies
                        #[trigger] v[a].id != #[trigger] v[b].id by {
                        assert(v[a].id == before[a].id);
                        assert(v[b].id == before[b].id);
                    }
                }
            },
            None => {},
        }
    }
    assert(rs.take(nr as int) =~= rs);
    let ghost spec_t = users_view(table@);
    assert(spec_t == users_spec(cs, rs));
    assert(spec_t.take(spec_t.len() as int) =~= spec_t);
    let mut map: HashMap<u32, User> = HashMap::new();
    let nt = table.len();
    let mut rest = table;
    while rest.len() > 0
        invariant
            spec_t.len() == nt,
            rest@.len() <= nt,
            users_view(rest@) == spec_t.take(rest@.len() as int),
            distinct_ids(spec_t),
            forall|j: int| rest@.len() <= j < nt ==> #[trigger] map@.contains_key(spec_t[j].id)
                && map@[spec_t[j].id]@ == spec_t[j],
            forall|k: u32| #[trigger] map@.contains_key(k) ==> exists|j: int| rest@.len() <= j < nt && #[trigger] spec_t[j].id == k,
        decreases rest@.len(),
    {
        let ghost m = rest@.len() - 1;
        let ghost before = map@;
        let ghost restv = users_view(rest@);
        let u = rest.pop().unwrap();
        assert(restv[m] == u@);
        assert(spec_t.take(m + 1)[m] == spec_t[m]);
        assert(users_view(rest@) =~= spec_t.take(m));
        let ghost uu = u;
        map.insert(u.id, u);
        assert(map@ == before.insert(uu.id, uu));
        assert forall|j: int| m <= j < nt implies #[trigger] map@.contains_key(spec_t[j].id)
            && map@[spec_t[j].id]@ == spec_t[j] by {
            if j > m {
                assert(spec_t[j].id != spec_t[m].id);
                assert(before.contains_key(spec_t[j].id));
            }
        }
        assert forall|key: u32| #[trigger] map@.contains_key(key) implies exists|j: int| m <= j < nt && #[trigger] spec_t[j].id == key by {
            if key != spec_t[m].id {
                assert(before.contains_key(key));
            }
        }
    }
    assert forall|i: int| 0 <= i < spec_t.len() implies #[trigger] map@[spec_t[i].id]@ == spec_t[i] by {
        assert(map@.contains_key(spec_t[i].id));
    }
    proof {
        lemma_find_id(spec_t, 0);
        assert forall|key: u32| map@.contains_key(key) <==> find_id(spec_t, key) is Some by {
            lemma_find_id(spec_t, key);
            if map@.contains_key(key) {
                let j = choose|j: int| 0 <= j < nt && #[trigger] spec_t[j].id == key;
                assert(find_id(spec_t, key) == Some(j));
            }
            match find_id(spec_t, key) {
                Some(j) => {
                    assert(map@.contains_key(spec_t[j].id));
                },
                None => {},
            }
        }
    }
    map
}

/// All the preferences of a list of contents answers, answer after answer.
pub open spec fn all_preferences(cs: Seq<UsersContents>) -> Seq<Seq<char>>
    decreases cs.len(),
{
    if cs.len() == 0 {
        Seq::empty()
    } else {
        all_preferences(cs.drop_last()) + strings_view(cs.last().preferences@)
    }
}

/// A rating record as the store keeps it: alert id and marks.
pub open spec fn entry_of(r: RatingRecord) -> (Seq<char>, (bool, bool, bool)) {
    (r.alert_id@, (r.like, r.dislike, r.critical))
}

/// All the ratings of a list of ratings answers as the store keeps them,
/// answer after answer.
pub open spec fn all_entries(rs: Seq<UsersRatings>) -> Seq<(Seq<char>, (bool, bool, bool))>
    decreases rs.len(),
{
    if rs.len() == 0 {
        Seq::empty()
    } else {
        all_entries(rs.drop_last()) + rs.last().ratings@.map_values(|r: RatingRecord| entry_of(r))
    }
}

/// The ratings of the answers are kept answer after answer, each record as
/// its alert id with its marks in the order like, dislike, critical.
pub proof fn law_entries_keep_marks(rs: Seq<UsersRatings>, u: UsersRatings)
    ensures
        all_entries(Seq::empty()) == Seq::<(Seq<char>, (bool, bool, bool))>::empty(),
        all_entries(rs.push(u)) == all_entries(rs) + u.ratings@.map_values(
            |r: RatingRecord| (r.alert_id@, (r.like, r.dislike, r.critical)),
        ),
{
    assert(rs.push(u).drop_last() =~= rs);
    assert(u.ratings@.map_values(|r: RatingRecord| entry_of(r)) =~= u.ratings@.map_values(
        |r: RatingRecord| (r.alert_id@, (r.like, r.dislike, r.critical)),
    ));
}

/// The characters of a stored rating entry.
pub open spec fn entry_view(e: RatingEntry) -> (Seq<char>, (bool, bool, bool)) {
    (e.0@, e.1)
}

/// A user's preferences and ratings from the answers about that user: all
/// the preferences, and all the ratings as the store keeps them, in order.
pub fn preferences_and_ratings(contents: Vec<UsersContents>, ratings: Vec<UsersRatings>) -> (res: (
    Vec<String>,
    Vec<RatingEntry>,
))
    ensures
        strings_view(res.0@) == all_preferences(contents@),
        res.1@.map_values(|e: RatingEntry| entry_view(e)) == all_entries(ratings@),
{
    let ghost cs = contents@;
    let ghost rs = ratings@;
    let mut prefs: Vec<String> = Vec::new();
    let nc = contents.len();
    for c in it: contents.into_iter()
        invariant
            it.seq() == cs,
            nc == cs.len(),
            strings_view(prefs@) == all_preferences(cs.take(it.index())),
    {
        let ghost k = it.index();
        assert(k < nc);
        assert(cs.take(k + 1).drop_last() =~= cs.take(k));
        assert(cs.take(k + 1).last() == cs[k]);
        let ghost before = prefs@;
        let ghost cp = c.preferences@;
        for p in jt: c.preferences.into_iter()
            invariant
                jt.seq() == cp,
                strings_view(prefs@) == strings_view(before) + strings_view(cp.take(jt.index())),
        {
            let ghost j = jt.index();
            assert(cp.take(j + 1) =~= cp.take(j).push(cp[j]));
            assert(p == cp[j]);
            let ghost prev = prefs@;
            prefs.push(p);
            assert(strings_view(prefs@) =~= strings_view(prev).push(cp[j]@));
            assert(strings_view(cp.take(j + 1)) =~= strings_view(cp.take(j)).push(cp[j]@));
            assert(strings_view(prefs@) =~= strings_view(before) + strings_view(cp.take(j + 1)));
        }
        assert(cp.take(cp.len() as int) =~= cp);
    }
    assert(cs.take(nc as int) =~= cs);
    let mut entries: Vec<RatingEntry> = Vec::new();
    let nr = ratings.len();
    for r in it: ratings.into_iter()
        invariant
            it.seq() == rs,
            nr == rs.len(),
            entries@.map_values(|e: RatingEntry| entry_view(e)) == all_entries(rs.take(it.index())),
    {
        let ghost k = it.index();
        assert(k < nr);
        assert(rs.take(k + 1).drop_last() =~= rs.take(k));
        assert(rs.take(k + 1).last() == rs[k]);
        let ghost before = entries@.map_values(|e: RatingEntry| entry_view(e));
        let ghost rr = r.ratings@;
        for rec in jt: r.ratings.into_iter()
            invariant
                jt.seq() == rr,
                entries@.map_values(|e: RatingEntry| entry_view(e)) == before + rr.take(
                    jt.index(),
                ).map_values(|x: RatingRecord| entry_of(x)),
        {
            let ghost j = jt.index();
            let ghost prev = entries@;
            assert(rr.take(j + 1) =~= rr.take(j).push(rr[j]));
            let RatingRecord { user_id: _, alert_id, like, dislike, critical } = rec;
            entries.push((alert_id, (like, dislike, critical)));
            assert(entries@.map_values(|e: RatingEntry| entry_view(e)) =~= prev.map_values(
                |e: RatingEntry| entry_view(e),
            ).push(entry_of(rr[j])));
            assert(entries@.map_values(|e: RatingEntry| entry_view(e)) =~= before + rr.take(
                j + 1,
            ).map_values(|x: RatingRecord| entry_of(x)));
        }
        assert(rr.take(rr.len() as int) =~= rr);
    }
    assert(rs.take(nr as int) =~= rs);
    (prefs, entries)
}

/// Each user of the contents answers with the contents they follow, in
/// order.
pub fn users_contents(responses: Vec<UsersContents>) -> (res: Vec<(u32, Vec<String>)>)
    ensures
        res@.len() == responses@.len(),
        forall|i: int| 0 <= i < responses@.len() ==> (#[trigger] res@[i]).0 == responses@[i].user_id as u32
            && strings_view(res@[i].1@) == strings_view(responses@[i].preferences@),
{
    let ghost rs = responses@;
    let mut out: Vec<(u32, Vec<String>)> = Vec::new();
    let n = responses.len();
    for r in it: responses.into_iter()
        invariant
            it.seq() == rs,
            n == rs.len(),
            out@.len() == it.index(),
            forall|i: int| 0 <= i < it.index() ==> (#[trigger] out@[i]).0 == rs[i].user_id as u32
                && strings_view(out@[i].1@) == strings_view(rs[i].preferences@),
    {
        let UsersContents { user_id, preferences } = r;
        out.push((user_id as u32, preferences));
    }
    out
}

/// The ids in the table are those of the contents answers.
proof fn lemma_table_ids(cs: Seq<UsersContents>, id: u32)
    ensures
        (exists|i: int| 0 <= i < table_of(cs).len() && #[trigger] table_of(cs)[i].id == id)
            <==> (exists|j: int| 0 <= j < cs.len() && #[trigger] cs[j].user_id as u32 == id),
    decreases cs.len(),
{
    if cs.len() > 0 {
        let c = cs.drop_last();
        lemma_table_ids(c, id);
        let t = table_of(c);
        let u = contents_view(cs.last());
        let touched = Seq::new(
            t.len(),
            |i: int| with_sims(t[i], push_sim(t[i].similarity, (u.id, overlap_with(u, t[i])))),
        );
        lemma_find_id_in_range(touched, u.id);
        let r = table_of(cs);
        if exists|i: int| 0 <= i < r.len() && #[trigger] r[i].id == id {
            let i = choose|i: int| 0 <= i < r.len() && #[trigger] r[i].id == id;
            if id != u.id {
                assert(i < t.len());
                assert(r[i].id == touched[i].id);
                assert(t[i].id == id);
                let j = choose|j: int| 0 <= j < c.len() && #[trigger] c[j].user_id as u32 == id;
                assert(cs[j] == c[j]);
            } else {
                assert(cs[cs.len() - 1].user_id as u32 == id);
            }
        }
        if exists|j: int| 0 <= j < cs.len() && #[trigger] cs[j].user_id as u32 == id {
            let j = choose|j: int| 0 <= j < cs.len() && #[trigger] cs[j].user_id as u32 == id;
            if id == u.id {
                match find_id(touched, u.id) {
                    Some(i) => {
                        assert(r[i].id == id);
                    },
                    None => {
                        assert(r[r.len() - 1].id == id);
                    },
                }
            } else {
                assert(j < c.len());
                assert(c[j] == cs[j]);
                let i = choose|i: int| 0 <= i < t.len() && #[trigger] t[i].id == id;
                assert(touched[i].id == id);
                match find_id(touched, u.id) {
                    Some(k) => {
                        assert(k != i);
                        assert(r[i].id == id);
                    },
                    None => {
                        assert(r[i].id == id);
                    },
                }
            }
        }
    }
}

/// The users table holds exactly the users of the contents answers: a
/// ratings answer about a user not among them adds no one.
pub proof fn law_users_are_those_of_contents(cs: Seq<UsersContents>, rs: Seq<UsersRatings>, id: u32)
    ensures
        find_id(users_spec(cs, rs), id) is Some <==> exists|j: int| 0 <= j < cs.len() && #[trigger] cs[j].user_id as u32 == id,
{
    lemma_table_ids(cs, id);
    lemma_table_distinct(cs);
    lemma_apply_ratings_ids(table_of(cs), rs);
    let t = table_of(cs);
    let u = users_spec(cs, rs);
    assert(distinct_ids(u)) by {
        assert forall|a: int, b: int| 0 <= a < u.len() && 0 <= b < u.len() && a != b implies
            #[trigger] u[a].id != #[trigger] u[b].id by {
            assert(u[a].id == t[a].id);
            assert(u[b].id == t[b].id);
        }
    }
    lemma_find_id(u, id);
    if exists|i: int| 0 <= i < t.len() && #[trigger] t[i].id == id {
        let i = choose|i: int| 0 <= i < t.len() && #[trigger] t[i].id == id;
        assert(u[i].id == id);
    }
    match find_id(u, id) {
        Some(i) => {
            assert(t[i].id == id);
        },
        None => {},
    }
}

/// When a user joins, each user already there with another id records the
/// newcomer's id with the same overlap that the newcomer records with that
/// user's id, in the same position as the user in the table; the rest of
/// that user is unchanged.
pub proof fn law_join_records_overlap_both_ways(t: Seq<UserView>, u: UserView, i: int)
    requires
        distinct_ids(t),
        u.similarity is None,
        0 <= i < t.len(),
        t[i].id != u.id,
    ensures
        ({
            let r = add_user_spec(t, u);
            let ov = overlap_spec(u.preferences, t[i].preferences);
            let nu = r[find_id(r, u.id)->0];
            &&& r[i].id == t[i].id
            &&& r[i].preferences == t[i].preferences
            &&& r[i].ratings == t[i].ratings
            &&& r[i].similarity == push_sim(t[i].similarity, (u.id, ov))
            &&& nu.similarity matches Some(sims) && sims.len() == t.len() && sims[i] == (t[i].id, ov)
        }),
{
    let touched = Seq::new(
        t.len(),
        |k: int| with_sims(t[k], push_sim(t[k].similarity, (u.id, overlap_with(u, t[k])))),
    );
    let sims = Seq::new(t.len(), |k: int| (t[k].id, overlap_with(u, t[k])));
    assert(distinct_ids(touched)) by {
        assert forall|a: int, b: int| 0 <= a < touched.len() && 0 <= b < touched.len() && a != b implies
            #[trigger] touched[a].id != #[trigger] touched[b].id by {
            assert(touched[a].id == t[a].id);
            assert(touched[b].id == t[b].id);
        }
    }
    lemma_find_id(touched, u.id);
    lemma_push_sims_none(sims);
    let r = add_user_spec(t, u);
    match find_id(touched, u.id) {
        Some(k) => {
            assert(k != i);
            assert(r == touched.update(k, with_sims(u, push_sims(u.similarity, sims))));
            assert(r[k].id == u.id);
            assert(distinct_ids(r)) by {
                assert forall|a: int, b: int| 0 <= a < r.len() && 0 <= b < r.len() && a != b implies
                    #[trigger] r[a].id != #[trigger] r[b].id by {
                    assert(r[a].id == touched[a].id);
                    assert(r[b].id == touched[b].id);
                }
            }
            lemma_find_id(r, u.id);
        },
        None => {
            let nu = with_sims(u, push_sims(u.similarity, sims));
            assert(r == touched.push(nu));
            assert(r[t.len() as int].id == u.id);
            assert(distinct_ids(r)) by {
                assert forall|a: int, b: int| 0 <= a < r.len() && 0 <= b < r.len() && a != b implies
                    #[trigger] r[a].id != #[trigger] r[b].id by {
                    if a < t.len() {
                        assert(r[a].id == touched[a].id);
                    }
                    if b < t.len() {
                        assert(r[b].id == touched[b].id);
                    }
                }
            }
            lemma_find_id(r, u.id);
        },
    }
}

/// Pushing entries onto an absent list gives exactly those entries, if any.
proof fn lemma_push_sims_none(es: Seq<(u32, Overlap)>)
    ensures
        es.len() > 0 ==> push_sims(None, es) == Some(es),
        es.len() == 0 ==> push_sims(None, es) is None,
    decreases es.len(),
{
    if es.len() > 0 {
        lemma_push_sims_none(es.drop_last());
        if es.len() == 1 {
            assert(seq![es.last()] =~= es);
        } else {
            assert(es.drop_last().push(es.last()) =~= es);
        }
    }
}

/// No two contents answers name the same user.
pub open spec fn distinct_answer_ids(cs: Seq<UsersContents>) -> bool {
    forall|i: int, j: int|
        0 <= i < cs.len() && 0 <= j < cs.len() && i != j ==> #[trigger] cs[i].user_id as u32
            != #[trigger] cs[j].user_id as u32
}

/// The preferences of the `i`-th contents answer.
pub open spec fn answer_prefs(cs: Seq<UsersContents>, i: int) -> Seq<Seq<char>> {
    strings_view(cs[i].preferences@)
}

/// With distinct ids, the table lists the users in the order of the answers.
proof fn lemma_table_in_order(cs: Seq<UsersContents>)
    requires
        distinct_answer_ids(cs),
    ensures
        table_of(cs).len() == cs.len(),
        forall|i: int| 0 <= i < cs.len() ==> (#[trigger] table_of(cs)[i]).id == cs[i].user_id as u32
            && table_of(cs)[i].preferences == answer_prefs(cs, i) && table_of(cs)[i].ratings is None,
    decreases cs.len(),
{
    if cs.len() > 0 {
        let c = cs.drop_last();
        assert(distinct_answer_ids(c)) by {
            assert forall|i: int, j: int| 0 <= i < c.len() && 0 <= j < c.len() && i != j implies
                #[trigger] c[i].user_id as u32 != #[trigger] c[j].user_id as u32 by {
                assert(c[i] == cs[i] && c[j] == cs[j]);
            }
        }
        lemma_table_in_order(c);
        let t = table_of(c);
        let u = contents_view(cs.last());
        let touched = Seq::new(
            t.len(),
            |i: int| with_sims(t[i], push_sim(t[i].similarity, (u.id, overlap_with(u, t[i])))),
        );
        lemma_find_id_in_range(touched, u.id);
        match find_id(touched, u.id) {
            Some(k) => {
                assert(touched[k].id == t[k].id);
                assert(c[k] == cs[k]);
                assert(cs[k].user_id as u32 == cs[cs.len() - 1].user_id as u32);
            },
            None => {},
        }
        assert forall|i: int| 0 <= i < cs.len() implies (#[trigger] table_of(cs)[i]).id == cs[i].user_id as u32
            && table_of(cs)[i].preferences == answer_prefs(cs, i) && table_of(cs)[i].ratings is None by {
            if i < c.len() {
                assert(c[i] == cs[i]);
                assert(table_of(cs)[i] == touched[i]);
            }
        }
    }
}

/// The overlaps the `i`-th user of distinct answers records: one entry per
/// other user, in the order of the answers, each counted from the
/// preferences of whichever of the two answered later; none if there is no
/// other user.
pub open spec fn expected_overlaps(cs: Seq<UsersContents>, i: int) -> Option<Seq<(u32, Overlap)>> {
    if cs.len() <= 1 {
        None
    } else {
        Some(
            Seq::new(
                (cs.len() - 1) as nat,
                |k: int|
                    {
                        let j = if k < i { k } else { k + 1 };
                        (
                            cs[j].user_id as u32,
                            if j < i {
                                overlap_spec(answer_prefs(cs, i), answer_prefs(cs, j))
                            } else {
                                overlap_spec(answer_prefs(cs, j), answer_prefs(cs, i))
                            },
                        )
                    },
            ),
        )
    }
}

/// When no two contents answers name the same user, every user in the table
/// records its overlap with every other user, in the order of the answers,
/// the overlap counted from the preferences of whichever of the two answered
/// later, so that both record the same overlap; a lone user records none.
pub proof fn law_every_user_overlaps_every_other(cs: Seq<UsersContents>, i: int)
    requires
        distinct_answer_ids(cs),
        0 <= i < cs.len(),
    ensures
        table_of(cs)[i].similarity == expected_overlaps(cs, i),
    decreases cs.len(),
{
    let n = cs.len();
    let c = cs.drop_last();
    assert(distinct_answer_ids(c)) by {
        assert forall|a: int, b: int| 0 <= a < c.len() && 0 <= b < c.len() && a != b implies
            #[trigger] c[a].user_id as u32 != #[trigger] c[b].user_id as u32 by {
            assert(c[a] == cs[a] && c[b] == cs[b]);
        }
    }
    lemma_table_in_order(c);
    let t = table_of(c);
    let u = contents_view(cs.last());
    let touched = Seq::new(
        t.len(),
        |k: int| with_sims(t[k], push_sim(t[k].similarity, (u.id, overlap_with(u, t[k])))),
    );
    let sims = Seq::new(t.len(), |k: int| (t[k].id, overlap_with(u, t[k])));
    lemma_find_id_in_range(touched, u.id);
    match find_id(touched, u.id) {
        Some(k) => {
            assert(touched[k].id == t[k].id);
            assert(c[k] == cs[k]);
            assert(cs[k].user_id as u32 == cs[n - 1].user_id as u32);
        },
        None => {},
    }
    assert(find_id(touched, u.id) is None);
    assert(table_of(cs) == touched.push(with_sims(u, push_sims(u.similarity, sims))));
    if i < n - 1 {
        law_every_user_overlaps_every_other(c, i);
        assert(c[i] == cs[i]);
        assert(answer_prefs(c, i) == answer_prefs(cs, i));
        let e = (u.id, overlap_with(u, t[i]));
        assert(table_of(cs)[i].similarity == push_sim(t[i].similarity, e));
        assert(e == (cs[n - 1].user_id as u32, overlap_spec(answer_prefs(cs, n - 1), answer_prefs(cs, i))));
        let ex = expected_overlaps(cs, i)->0;
        if n - 1 <= 1 {
            assert(seq![e] =~= ex);
        } else {
            let prev = expected_overlaps(c, i)->0;
            assert forall|k: int| 0 <= k < n - 2 implies #[trigger] prev[k] == ex[k] by {
                let j = if k < i { k } else { k + 1 };
                assert(c[j] == cs[j]);
                assert(answer_prefs(c, j) == answer_prefs(cs, j));
            }
            assert(prev.push(e) =~= ex);
        }
    } else {
        lemma_push_sims_none(sims);
        if n > 1 {
            let ex = expected_overlaps(cs, i)->0;
            assert forall|k: int| 0 <= k < n - 1 implies #[trigger] sims[k] == ex[k] by {
                assert(c[k] == cs[k]);
                assert(t[k].id == cs[k].user_id as u32);
                assert(t[k].preferences == answer_prefs(cs, k));
            }
            assert(sims =~= ex);
        }
    }
}

} // verus!
