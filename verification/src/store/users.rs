//! How users are laid out in the store: a list of preferences, a hash of
//! ratings (`like:dislike:critical` per alert) and a sorted set of
//! similarities per user, under `users.<id>.<what>`.
use vstd::prelude::*;
use vstd::string::*;

use crate::models::rating::RatingEntry;
use crate::store::{pairs_spec, user_key_spec, Redis};
use crate::strmap::{distinct_keys, StrMap};
use crate::text::{
    bool_text, bool_to_text, decimal, free_of, lemma_decimal_digits, lemma_parse_bool_text,
    lemma_parse_decimal, lemma_split_free, lemma_split_then, parse_bool, parse_bool_spec, parse_u32,
    parse_u32_spec, split, split_spec,
};

verus! {

/// `like:dislike:critical`, each as `true` or `false`.
pub open spec fn rating_value_spec(r: (bool, bool, bool)) -> Seq<char> {
    bool_text(r.0) + ":"@ + bool_text(r.1) + ":"@ + bool_text(r.2)
}

/// A rating's stored value names its marks in the order like, dislike,
/// critical, each as `true` or `false`, with a colon between each two.
pub proof fn law_rating_value_text(like: bool, dislike: bool, critical: bool)
    ensures
        rating_value_spec((like, dislike, critical)) == (if like { "true"@ } else { "false"@ }) + ":"@ + (
        if dislike {
            "true"@
        } else {
            "false"@
        }) + ":"@ + (if critical { "true"@ } else { "false"@ }),
{
}

/// The marks a stored rating value holds: its first three `:`-separated
/// pieces read as booleans, if it has that many and they all read.
pub open spec fn parse_rating_value_spec(v: Seq<char>) -> Option<(bool, bool, bool)> {
    let p = split_spec(v, ':');
    if p.len() >= 3 {
        match (parse_bool_spec(p[0]), parse_bool_spec(p[1]), parse_bool_spec(p[2])) {
            (Some(a), Some(b), Some(c)) => Some((a, b, c)),
            _ => None,
        }
    } else {
        None
    }
}

/// The stored value of a rating: `like:dislike:critical`.
pub fn rating_value(r: (bool, bool, bool)) -> (res: String)
    ensures
        res@ == rating_value_spec(r),
{
    let mut v = bool_to_text(r.0);
    v.append(":");
    let d = bool_to_text(r.1);
    v.append(d.as_str());
    v.append(":");
    let c = bool_to_text(r.2);
    v.append(c.as_str());
    v
}

/// Reads a stored rating value; `None` where it has fewer than three pieces
/// or a piece is not `true` or `false`.
pub fn parse_rating_value(v: &str) -> (res: Option<(bool, bool, bool)>)
    ensures
        res == parse_rating_value_spec(v@),
{
    let pieces = split(v, ':');
    let ghost p = pieces@.map_values(|s: String| s@);
    assert(p.len() == pieces@.len());
    if pieces.len() >= 3 {
        assert(p[0] == pieces@[0]@ && p[1] == pieces@[1]@ && p[2] == pieces@[2]@);
        let a = parse_bool(pieces[0].as_str());
        let b = parse_bool(pieces[1].as_str());
        let c = parse_bool(pieces[2].as_str());
        match (a, b, c) {
            (Some(a), Some(b), Some(c)) => Some((a, b, c)),
            _ => None,
        }
    } else {
        None
    }
}

/// No `:` in the text of a boolean.
proof fn lemma_bool_text_free(b: bool)
    ensures
        free_of(bool_text(b), ':'),
{
    reveal_strlit("true");
    reveal_strlit("false");
}

/// Reading a stored rating value gives back the marks it was made from.
pub proof fn lemma_rating_value_round_trip(r: (bool, bool, bool))
    ensures
        parse_rating_value_spec(rating_value_spec(r)) == Some(r),
{
    reveal_strlit(":");
    assert(":"@ =~= seq![':']);
    lemma_bool_text_free(r.0);
    lemma_bool_text_free(r.1);
    lemma_bool_text_free(r.2);
    lemma_parse_bool_text(r.0);
    lemma_parse_bool_text(r.1);
    lemma_parse_bool_text(r.2);
    let (a, b, c) = (bool_text(r.0), bool_text(r.1), bool_text(r.2));
    lemma_split_free(a, ':');
    lemma_split_then(a, b, ':');
    assert(a + ":"@ + b =~= a.push(':') + b);
    lemma_split_then(a + ":"@ + b, c, ':');
    assert(rating_value_spec(r) =~= (a + ":"@ + b).push(':') + c);
    assert(split_spec(rating_value_spec(r), ':') =~= seq![a, b, c]);
}

/// The store entries for a user's ratings: alert id and stored value, in
/// order.
pub fn encode_user_ratings(ratings: &Vec<RatingEntry>) -> (res: Vec<(String, String)>)
    ensures
        res@.len() == ratings@.len(),
        forall|i: int| 0 <= i < ratings@.len() ==> (#[trigger] res@[i]).0@ == ratings@[i].0@
            && res@[i].1@ == rating_value_spec(ratings@[i].1),
{
    let mut out: Vec<(String, String)> = Vec::new();
    let n = ratings.len();
    let mut i: usize = 0;
    while i < n
        invariant
            n == ratings@.len(),
            i <= n,
            out@.len() == i,
            forall|j: int| 0 <= j < i ==> (#[trigger] out@[j]).0@ == ratings@[j].0@
                && out@[j].1@ == rating_value_spec(ratings@[j].1),
        decreases n - i,
    {
        let id = ratings[i].0.clone();
        let value = rating_value(ratings[i].1);
        out.push((id, value));
        i = i + 1;
    }
    out
}

/// A user's ratings read back from the store's reply of alternating alert
/// ids and stored values: a later value for an alert replaces an earlier
/// one; `None` if some value does not read.
pub open spec fn decode_ratings_spec(pairs: Seq<(String, String)>) -> Option<Map<Seq<char>, (bool, bool, bool)>>
    decreases pairs.len(),
{
    if pairs.len() == 0 {
        Some(Map::empty())
    } else {
        match (decode_ratings_spec(pairs.drop_last()), parse_rating_value_spec(pairs.last().1@)) {
            (Some(m), Some(r)) => Some(m.insert(pairs.last().0@, r)),
            _ => None,
        }
    }
}

/// Once a prefix fails to read, every longer prefix fails.
proof fn lemma_decode_ratings_none(ps: Seq<(String, String)>, k: int)
    requires
        0 <= k <= ps.len(),
        decode_ratings_spec(ps.take(k)) is None,
    ensures
        decode_ratings_spec(ps) is None,
    decreases ps.len() - k,
{
    if k < ps.len() {
        assert(ps.take(k + 1).drop_last() =~= ps.take(k));
        lemma_decode_ratings_none(ps, k + 1);
    } else {
        assert(ps.take(k) =~= ps);
    }
}

/// Reads a user's ratings from the store's reply of alternating alert ids
/// and stored values; `None` if some value does not read.
pub fn decode_user_ratings(keys_and_values: Vec<String>) -> (res: Option<StrMap<(bool, bool, bool)>>)
    ensures
        match res {
            Some(m) => decode_ratings_spec(pairs_spec(keys_and_values@)) == Some(m@),
            None => decode_ratings_spec(pairs_spec(keys_and_values@)) is None,
        },
{
    let ghost kv = keys_and_values@;
    let pairs = Redis::zip_key_value(keys_and_values);
    let ghost ps = pairs@;
    let mut out: StrMap<(bool, bool, bool)> = StrMap::new();
    let n = pairs.len();
    for pair in it: pairs.into_iter()
        invariant
            it.seq() == ps,
            ps == pairs_spec(kv),
            kv == keys_and_values@,
            n == ps.len(),
            decode_ratings_spec(ps.take(it.index())) == Some(out@),
    {
        let ghost k = it.index();
        assert(k < n);
        assert(ps.take(k + 1).drop_last() =~= ps.take(k));
        assert(ps.take(k + 1).last() == ps[k]);
        let (alert_id, value) = pair;
        match parse_rating_value(value.as_str()) {
            Some(r) => {
                out.insert(alert_id, r);
            },
            None => {
                proof {
                    assert(ps[k].1 == value);
                    assert(decode_ratings_spec(ps.take(k + 1)) is None);
                    lemma_decode_ratings_none(ps, k + 1);
                }
                return None;
            },
        }
    }
    assert(ps.take(n as int) =~= ps);
    Some(out)
}

/// The user id a preference-list key names: its second `.`-separated piece
/// read as a number, if there is one and it reads.
pub open spec fn key_user_id_spec(key: Seq<char>) -> Option<u32> {
    let p = split_spec(key, '.');
    if p.len() >= 2 {
        parse_u32_spec(p[1])
    } else {
        None
    }
}

/// The user id a key of the form `users.<id>.<what>` names.
pub fn user_id_of_key(key: &str) -> (res: Option<u32>)
    ensures
        res == key_user_id_spec(key@),
{
    let pieces = split(key, '.');
    let ghost p = pieces@.map_values(|s: String| s@);
    assert(p.len() == pieces@.len());
    if pieces.len() >= 2 {
        assert(p[1] == pieces@[1]@);
        parse_u32(pieces[1].as_str())
    } else {
        None
    }
}

/// No `.` in a decimal rendering.
proof fn lemma_decimal_free(n: nat)
    ensures
        free_of(decimal(n), '.'),
{
    lemma_decimal_digits(n);
}

/// A user key names the user it was made for, whatever follows the id as
/// long as it holds no `.`.
pub proof fn lemma_user_key_round_trip(id: u32, what: Seq<char>)
    requires
        free_of(what, '.'),
    ensures
        key_user_id_spec(user_key_spec(id, what)) == Some(id),
{
    reveal_strlit("users.");
    reveal_strlit(".");
    let users = seq!['u', 's', 'e', 'r', 's'];
    assert("users."@ =~= users.push('.'));
    assert("."@ =~= seq!['.']);
    let d = decimal(id as nat);
    lemma_decimal_free(id as nat);
    assert(free_of(users, '.'));
    lemma_split_free(users, '.');
    lemma_split_then(users, d, '.');
    lemma_split_then(users.push('.') + d, what, '.');
    assert(user_key_spec(id, what) =~= (users.push('.') + d).push('.') + what);
    assert(split_spec(user_key_spec(id, what), '.') =~= seq![users, d, what]);
    lemma_parse_decimal(id);
}

/// The ids named by a list of preference-list keys, `user_id` left out;
/// `None` if some key does not name an id.
pub open spec fn other_ids_spec(keys: Seq<Seq<char>>, user_id: u32) -> Option<Seq<u32>>
    decreases keys.len(),
{
    if keys.len() == 0 {
        Some(Seq::empty())
    } else {
        match (other_ids_spec(keys.drop_last(), user_id), key_user_id_spec(keys.last())) {
            (Some(ids), Some(id)) => Some(if id != user_id { ids.push(id) } else { ids }),
            _ => None,
        }
    }
}

/// Once a prefix fails to read, every longer prefix fails.
proof fn lemma_other_ids_none(keys: Seq<Seq<char>>, user_id: u32, k: int)
    requires
        0 <= k <= keys.len(),
        other_ids_spec(keys.take(k), user_id) is None,
    ensures
        other_ids_spec(keys, user_id) is None,
    decreases keys.len() - k,
{
    if k < keys.len() {
        assert(keys.take(k + 1).drop_last() =~= keys.take(k));
        lemma_other_ids_none(keys, user_id, k + 1);
    } else {
        assert(keys.take(k) =~= keys);
    }
}

/// The ids of the other users whose preference lists the store holds, read
/// off the keys in order; `None` if some key does not name an id.
pub fn other_user_ids(keys: &Vec<String>, user_id: u32) -> (res: Option<Vec<u32>>)
    ensures
        match res {
            Some(ids) => other_ids_spec(keys@.map_values(|k: String| k@), user_id) == Some(ids@),
            None => other_ids_spec(keys@.map_values(|k: String| k@), user_id) is None,
        },
{
    let ghost ks = keys@.map_values(|k: String| k@);
    let mut ids: Vec<u32> = Vec::new();
    let n = keys.len();
    let mut i: usize = 0;
    while i < n
        invariant
            n == keys@.len(),
            ks == keys@.map_values(|k: String| k@),
            i <= n,
            other_ids_spec(ks.take(i as int), user_id) == Some(ids@),
        decreases n - i,
    {
        assert(ks.take(i + 1).drop_last() =~= ks.take(i as int));
        assert(ks.take(i + 1).last() == keys@[i as int]@);
        match user_id_of_key(keys[i].as_str()) {
            Some(id) => {
                if id != user_id {
                    ids.push(id);
                }
            },
            None => {
                proof {
                    lemma_other_ids_none(ks, user_id, i + 1);
                }
                return None;
            },
        }
        i = i + 1;
    }
    assert(ks.take(n as int) =~= ks);
    Some(ids)
}

/// A user's similarities read back from the store's reply of alternating
/// user ids and scores: each id read as a number, with the score's text;
/// `None` if some id does not read.
pub open spec fn decode_similarities_spec(pairs: Seq<(String, String)>) -> Option<Seq<(u32, Seq<char>)>>
    decreases pairs.len(),
{
    if pairs.len() == 0 {
        Some(Seq::empty())
    } else {
        match (decode_similarities_spec(pairs.drop_last()), parse_u32_spec(pairs.last().0@)) {
            (Some(s), Some(id)) => Some(s.push((id, pairs.last().1@))),
            _ => None,
        }
    }
}

/// Once a prefix fails to read, every longer prefix fails.
proof fn lemma_decode_similarities_none(ps: Seq<(String, String)>, k: int)
    requires
        0 <= k <= ps.len(),
        decode_similarities_spec(ps.take(k)) is None,
    ensures
        decode_similarities_spec(ps) is None,
    decreases ps.len() - k,
{
    if k < ps.len() {
        assert(ps.take(k + 1).drop_last() =~= ps.take(k));
        lemma_decode_similarities_none(ps, k + 1);
    } else {
        assert(ps.take(k) =~= ps);
    }
}

/// Reads a user's similarities from the store's reply of alternating user
/// ids and scores: each id with the text of its score, in order; `None` if
/// some id does not read.
pub fn decode_similarities(keys_and_values: Vec<String>) -> (res: Option<Vec<(u32, String)>>)
    ensures
        match res {
            Some(v) => decode_similarities_spec(pairs_spec(keys_and_values@)) == Some(
                v@.map_values(|e: (u32, String)| (e.0, e.1@)),
            ),
            None => decode_similarities_spec(pairs_spec(keys_and_values@)) is None,
        },
{
    let ghost kv = keys_and_values@;
    let pairs = Redis::zip_key_value(keys_and_values);
    let ghost ps = pairs@;
    let mut out: Vec<(u32, String)> = Vec::new();
    let n = pairs.len();
    for pair in it: pairs.into_iter()
        invariant
            it.seq() == ps,
            ps == pairs_spec(kv),
            kv == keys_and_values@,
            n == ps.len(),
            decode_similarities_spec(ps.take(it.index())) == Some(
                out@.map_values(|e: (u32, String)| (e.0, e.1@)),
            ),
    {
        let ghost k = it.index();
        assert(k < n);
        assert(ps.take(k + 1).drop_last() =~= ps.take(k));
        assert(ps.take(k + 1).last() == ps[k]);
        let (id, score) = pair;
        match parse_u32(id.as_str()) {
            Some(uid) => {
                let ghost before = out@;
                out.push((uid, score));
                assert(out@.map_values(|e: (u32, String)| (e.0, e.1@)) =~= before.map_values(
                    |e: (u32, String)| (e.0, e.1@),
                ).push((uid, score@)));
            },
            None => {
                proof {
                    assert(ps[k].0 == id);
                    assert(decode_similarities_spec(ps.take(k + 1)) is None);
                    lemma_decode_similarities_none(ps, k + 1);
                }
                return None;
            },
        }
    }
    assert(ps.take(n as int) =~= ps);
    Some(out)
}

/// The ids read off the keys never include the user's own.
pub proof fn law_other_ids_exclude_self(keys: Seq<Seq<char>>, user_id: u32)
    ensures
        other_ids_spec(keys, user_id) matches Some(ids) ==> !ids.contains(user_id),
    decreases keys.len(),
{
    if keys.len() > 0 {
        law_other_ids_exclude_self(keys.drop_last(), user_id);
        match (other_ids_spec(keys.drop_last(), user_id), key_user_id_spec(keys.last())) {
            (Some(ids), Some(id)) => {
                if id != user_id {
                    assert forall|i: int| 0 <= i < ids.push(id).len() implies ids.push(id)[i] != user_id by {
                        if i < ids.len() {
                            assert(ids.push(id)[i] == ids[i]);
                        }
                    }
                }
            },
            _ => {},
        }
    }
}

/// The ratings a list of entries adds up to, by alert id, a later entry for
/// an alert replacing an earlier one.
pub open spec fn entries_map(entries: Seq<(String, (bool, bool, bool))>) -> Map<Seq<char>, (bool, bool, bool)>
    decreases entries.len(),
{
    if entries.len() == 0 {
        Map::empty()
    } else {
        entries_map(entries.drop_last()).insert(entries.last().0@, entries.last().1)
    }
}

/// Reading back the stored entries of a user's ratings, in the order they
/// were written, gives the ratings written, a later rating of an alert
/// replacing an earlier one.
pub proof fn law_ratings_write_read(
    entries: Seq<(String, (bool, bool, bool))>,
    stored: Seq<(String, String)>,
)
    requires
        stored.len() == entries.len(),
        forall|i: int| 0 <= i < entries.len() ==> (#[trigger] stored[i]).0@ == entries[i].0@
            && stored[i].1@ == rating_value_spec(entries[i].1),
    ensures
        decode_ratings_spec(stored) == Some(entries_map(entries)),
    decreases entries.len(),
{
    if entries.len() > 0 {
        let n = entries.len() - 1;
        law_ratings_write_read(entries.drop_last(), stored.drop_last());
        assert(stored.last() == stored[n]);
        lemma_rating_value_round_trip(entries[n].1);
    }
}

/// Where every stored value reads, the reply reads; a field is read back
/// exactly when the reply holds it, and with distinct fields each holds what
/// its own value reads as.
proof fn lemma_decode_ratings_all_read(stored: Seq<(String, String)>)
    requires
        forall|i: int| 0 <= i < stored.len() ==> (#[trigger] parse_rating_value_spec(stored[i].1@)) is Some,
    ensures
        decode_ratings_spec(stored) is Some,
        forall|k: Seq<char>| #[trigger] decode_ratings_spec(stored)->0.contains_key(k) <==> exists|i: int|
            0 <= i < stored.len() && #[trigger] stored[i].0@ == k,
        distinct_keys(stored) ==> forall|i: int| 0 <= i < stored.len() ==> #[trigger] decode_ratings_spec(
            stored,
        )->0[stored[i].0@] == parse_rating_value_spec(stored[i].1@)->0,
    decreases stored.len(),
{
    if stored.len() > 0 {
        let s0 = stored.drop_last();
        let n = stored.len() - 1;
        assert forall|i: int| 0 <= i < s0.len() implies (#[trigger] parse_rating_value_spec(s0[i].1@)) is Some by {
            assert(s0[i] == stored[i]);
        }
        assert(stored.last() == stored[n]);
        assert(parse_rating_value_spec(stored[n].1@) is Some);
        lemma_decode_ratings_all_read(s0);
        let m = decode_ratings_spec(stored)->0;
        assert forall|k: Seq<char>| #[trigger] m.contains_key(k) <==> exists|i: int|
            0 <= i < stored.len() && #[trigger] stored[i].0@ == k by {
            if m.contains_key(k) && k != stored[n].0@ {
                let i = choose|i: int| 0 <= i < s0.len() && #[trigger] s0[i].0@ == k;
                assert(stored[i] == s0[i]);
            }
            if exists|i: int| 0 <= i < stored.len() && #[trigger] stored[i].0@ == k {
                let i = choose|i: int| 0 <= i < stored.len() && #[trigger] stored[i].0@ == k;
                if i < n {
                    assert(s0[i] == stored[i]);
                }
            }
        }
        if distinct_keys(stored) {
            assert(distinct_keys(s0)) by {
                assert forall|a: int, b: int| 0 <= a < s0.len() && 0 <= b < s0.len() && a != b implies
                    #[trigger] s0[a].0@ != #[trigger] s0[b].0@ by {
                    assert(s0[a] == stored[a] && s0[b] == stored[b]);
                }
            }
            assert forall|i: int| 0 <= i < stored.len() implies #[trigger] m[stored[i].0@]
                == parse_rating_value_spec(stored[i].1@)->0 by {
                if i < n {
                    assert(s0[i] == stored[i]);
                    assert(stored[i].0@ != stored[n].0@);
                }
            }
        }
    }
}

/// A key is in the map of entries exactly when some entry carries it, and
/// with distinct keys each entry's value is what the map holds for it.
proof fn lemma_entries_map(entries: Seq<(String, (bool, bool, bool))>)
    ensures
        forall|k: Seq<char>| #[trigger] entries_map(entries).contains_key(k) <==> exists|j: int|
            0 <= j < entries.len() && #[trigger] entries[j].0@ == k,
        distinct_keys(entries) ==> forall|j: int| 0 <= j < entries.len() ==> #[trigger] entries_map(
            entries,
        )[entries[j].0@] == entries[j].1,
    decreases entries.len(),
{
    if entries.len() > 0 {
        let e0 = entries.drop_last();
        let n = entries.len() - 1;
        lemma_entries_map(e0);
        assert(entries.last() == entries[n]);
        let m = entries_map(entries);
        assert(m == entries_map(e0).insert(entries[n].0@, entries[n].1));
        assert forall|k: Seq<char>| #[trigger] m.contains_key(k) <==> exists|j: int|
            0 <= j < entries.len() && #[trigger] entries[j].0@ == k by {
            if m.contains_key(k) && k != entries[n].0@ {
                assert(entries_map(e0).contains_key(k));
                let j = choose|j: int| 0 <= j < e0.len() && #[trigger] e0[j].0@ == k;
                assert(entries[j] == e0[j]);
            }
            if exists|j: int| 0 <= j < entries.len() && #[trigger] entries[j].0@ == k {
                let j = choose|j: int| 0 <= j < entries.len() && #[trigger] entries[j].0@ == k;
                if j < n {
                    assert(e0[j] == entries[j]);
                }
            }
        }
        if distinct_keys(entries) {
            assert(distinct_keys(e0)) by {
                assert forall|a: int, b: int| 0 <= a < e0.len() && 0 <= b < e0.len() && a != b implies
                    #[trigger] e0[a].0@ != #[trigger] e0[b].0@ by {
                    assert(e0[a] == entries[a] && e0[b] == entries[b]);
                }
            }
            assert forall|j: int| 0 <= j < entries.len() implies #[trigger] m[entries[j].0@] == entries[j].1 by {
                if j < n {
                    assert(e0[j] == entries[j]);
                    assert(entries[j].0@ != entries[n].0@);
                }
            }
        }
    }
}

/// Reading back a user's ratings gives the ratings written, whatever the
/// order in which the store lists the fields, when the alert ids written are
/// distinct: the reply holds each written alert once, under the stored value
/// of its rating, and nothing else.
pub proof fn law_ratings_read_any_order(
    entries: Seq<(String, (bool, bool, bool))>,
    stored: Seq<(String, String)>,
)
    requires
        distinct_keys(entries),
        distinct_keys(stored),
        forall|i: int| 0 <= i < stored.len() ==> exists|j: int|
            0 <= j < entries.len() && (#[trigger] stored[i]).0@ == #[trigger] entries[j].0@
                && stored[i].1@ == rating_value_spec(entries[j].1),
        forall|j: int| 0 <= j < entries.len() ==> exists|i: int|
            0 <= i < stored.len() && (#[trigger] stored[i]).0@ == #[trigger] entries[j].0@,
    ensures
        decode_ratings_spec(stored) == Some(entries_map(entries)),
{
    assert forall|i: int| 0 <= i < stored.len() implies (#[trigger] parse_rating_value_spec(stored[i].1@)) is Some by {
        let j = choose|j: int|
            0 <= j < entries.len() && (#[trigger] stored[i]).0@ == #[trigger] entries[j].0@
                && stored[i].1@ == rating_value_spec(entries[j].1);
        lemma_rating_value_round_trip(entries[j].1);
    }
    lemma_decode_ratings_all_read(stored);
    lemma_entries_map(entries);
    let m = decode_ratings_spec(stored)->0;
    let e = entries_map(entries);
    assert forall|k: Seq<char>| #[trigger] m.contains_key(k) <==> e.contains_key(k) by {
        if m.contains_key(k) {
            let i = choose|i: int| 0 <= i < stored.len() && #[trigger] stored[i].0@ == k;
            let j = choose|j: int|
                0 <= j < entries.len() && (#[trigger] stored[i]).0@ == #[trigger] entries[j].0@
                    && stored[i].1@ == rating_value_spec(entries[j].1);
            assert(entries[j].0@ == k);
        }
        if e.contains_key(k) {
            let j = choose|j: int| 0 <= j < entries.len() && #[trigger] entries[j].0@ == k;
            let i = choose|i: int| 0 <= i < stored.len() && (#[trigger] stored[i]).0@ == #[trigger] entries[j].0@;
            assert(stored[i].0@ == k);
        }
    }
    assert forall|k: Seq<char>| #[trigger] m.contains_key(k) implies m[k] == e[k] by {
        let i = choose|i: int| 0 <= i < stored.len() && #[trigger] stored[i].0@ == k;
        let j = choose|j: int|
            0 <= j < entries.len() && (#[trigger] stored[i]).0@ == #[trigger] entries[j].0@
                && stored[i].1@ == rating_value_spec(entries[j].1);
        lemma_rating_value_round_trip(entries[j].1);
        assert(m[stored[i].0@] == parse_rating_value_spec(stored[i].1@)->0);
        assert(e[entries[j].0@] == entries[j].1);
    }
    assert(m =~= e);
}

} // verus!
