//! How alerts are laid out in the store: one member of a sorted set per
//! alert, `id:provider:product`, scored by the alert's score.
use vstd::prelude::*;
use vstd::string::*;

use crate::store::{pairs_spec, Redis};
use crate::text::{free_of, lemma_split_free, lemma_split_then, split, split_spec};

verus! {

/// An alert's identity: (id, provider, product).
pub type AlertTag = (String, String, String);

/// The characters of an alert's identity.
pub open spec fn tag_view(t: AlertTag) -> (Seq<char>, Seq<char>, Seq<char>) {
    (t.0@, t.1@, t.2@)
}

/// `id:provider:product`.
pub open spec fn member_spec(t: (Seq<char>, Seq<char>, Seq<char>)) -> Seq<char> {
    t.0 + ":"@ + t.1 + ":"@ + t.2
}

/// The identity a member names: its first three `:`-separated pieces, if it
/// has that many.
pub open spec fn parse_member_spec(m: Seq<char>) -> Option<(Seq<char>, Seq<char>, Seq<char>)> {
    let p = split_spec(m, ':');
    if p.len() >= 3 {
        Some((p[0], p[1], p[2]))
    } else {
        None
    }
}

/// The member of the alerts set for an alert: `id:provider:product`.
pub fn alert_member(tag: &AlertTag) -> (res: String)
    ensures
        res@ == member_spec(tag_view(*tag)),
{
    let mut member = tag.0.clone();
    member.append(":");
    member.append(tag.1.as_str());
    member.append(":");
    member.append(tag.2.as_str());
    member
}

/// The members of the alerts set for a list of alerts, in order.
pub fn alert_members(tags: &Vec<AlertTag>) -> (res: Vec<String>)
    ensures
        res@.len() == tags@.len(),
        forall|i: int| 0 <= i < tags@.len() ==> #[trigger] res@[i]@ == member_spec(tag_view(tags@[i])),
{
    let mut members: Vec<String> = Vec::new();
    let n = tags.len();
    let mut i: usize = 0;
    while i < n
        invariant
            n == tags@.len(),
            i <= n,
            members@.len() == i,
            forall|j: int| 0 <= j < i ==> #[trigger] members@[j]@ == member_spec(tag_view(tags@[j])),
        decreases n - i,
    {
        members.push(alert_member(&tags[i]));
        i = i + 1;
    }
    members
}

/// The identity a member of the alerts set names; `None` for a member with
/// fewer than three `:`-separated pieces.
pub fn parse_alert_member(member: &str) -> (res: Option<AlertTag>)
    ensures
        match res {
            Some(t) => parse_member_spec(member@) == Some(tag_view(t)),
            None => parse_member_spec(member@) is None,
        },
{
    let pieces = split(member, ':');
    let ghost p = pieces@.map_values(|s: String| s@);
    assert(p.len() == pieces@.len());
    if pieces.len() >= 3 {
        let id = pieces[0].clone();
        let provider = pieces[1].clone();
        let product = pieces[2].clone();
        assert(p[0] == pieces@[0]@ && p[1] == pieces@[1]@ && p[2] == pieces@[2]@);
        Some((id, provider, product))
    } else {
        None
    }
}

/// Decoding a member gives back the identity it was made from, when no part
/// of the identity holds a `:`.
pub proof fn lemma_member_round_trip(t: (Seq<char>, Seq<char>, Seq<char>))
    requires
        free_of(t.0, ':'),
        free_of(t.1, ':'),
        free_of(t.2, ':'),
    ensures
        parse_member_spec(member_spec(t)) == Some(t),
{
    reveal_strlit(":");
    assert(":"@ =~= seq![':']);
    lemma_split_free(t.0, ':');
    lemma_split_then(t.0, t.1, ':');
    assert(t.0 + ":"@ + t.1 =~= t.0.push(':') + t.1);
    lemma_split_then(t.0 + ":"@ + t.1, t.2, ':');
    assert(member_spec(t) =~= (t.0 + ":"@ + t.1).push(':') + t.2);
    assert(split_spec(member_spec(t), ':') =~= seq![t.0, t.1, t.2]);
}

/// A store reply of alternating members and scores, decoded: each member's
/// identity with the score's text, or `None` if some member does not decode.
pub open spec fn decode_alerts_spec(pairs: Seq<(String, String)>) -> Option<
    Seq<((Seq<char>, Seq<char>, Seq<char>), Seq<char>)>,
>
    decreases pairs.len(),
{
    if pairs.len() == 0 {
        Some(Seq::empty())
    } else {
        match (decode_alerts_spec(pairs.drop_last()), parse_member_spec(pairs.last().0@)) {
            (Some(a), Some(t)) => Some(a.push((t, pairs.last().1@))),
            _ => None,
        }
    }
}

/// The characters of a decoded alert entry.
pub open spec fn scored_tag_view(e: (AlertTag, String)) -> ((Seq<char>, Seq<char>, Seq<char>), Seq<char>) {
    (tag_view(e.0), e.1@)
}

/// Decodes a store reply of alternating members and scores into each
/// alert's identity and the text of its score, in the reply's order; `None`
/// if some member has fewer than three pieces.
pub fn decode_alerts(keys_and_values: Vec<String>) -> (res: Option<Vec<(AlertTag, String)>>)
    ensures
        match res {
            Some(v) => decode_alerts_spec(pairs_spec(keys_and_values@)) == Some(
                v@.map_values(|e: (AlertTag, String)| scored_tag_view(e)),
            ),
            None => decode_alerts_spec(pairs_spec(keys_and_values@)) is None,
        },
{
    let ghost kv = keys_and_values@;
    let pairs = Redis::zip_key_value(keys_and_values);
    let ghost ps = pairs@;
    let mut out: Vec<(AlertTag, String)> = Vec::new();
    let n = pairs.len();
    for pair in it: pairs.into_iter()
        invariant
            it.seq() == ps,
            ps == pairs_spec(kv),
            kv == keys_and_values@,
            n == ps.len(),
            decode_alerts_spec(ps.take(it.index())) == Some(
                out@.map_values(|e: (AlertTag, String)| scored_tag_view(e)),
            ),
    {
        let ghost k = it.index();
        assert(k < n);
        assert(ps.take(k + 1).drop_last() =~= ps.take(k));
        assert(ps.take(k + 1).last() == ps[k]);
        let (member, score) = pair;
        match parse_alert_member(member.as_str()) {
            Some(tag) => {
                let ghost before = out@;
                out.push((tag, score));
                assert(out@.map_values(|e: (AlertTag, String)| scored_tag_view(e)) =~= before.map_values(
                    |e: (AlertTag, String)| scored_tag_view(e),
                ).push(scored_tag_view((tag, score))));
            },
            None => {
                proof {
                    assert(ps[k].0 == member);
                    assert(parse_member_spec(ps.take(k + 1).last().0@) is None);
                    assert(decode_alerts_spec(ps.take(k + 1)) is None);
                    lemma_decode_alerts_none(ps, k + 1);
                }
                return None;
            },
        }
    }
    assert(ps.take(n as int) =~= ps);
    Some(out)
}

/// Once a prefix fails to decode, every longer prefix fails.
proof fn lemma_decode_alerts_none(ps: Seq<(String, String)>, k: int)
    requires
        0 <= k <= ps.len(),
        decode_alerts_spec(ps.take(k)) is None,
    ensures
        decode_alerts_spec(ps) is None,
    decreases ps.len() - k,
{
    if k < ps.len() {
        assert(ps.take(k + 1).drop_last() =~= ps.take(k));
        lemma_decode_alerts_none(ps, k + 1);
    } else {
        assert(ps.take(k) =~= ps);
    }
}

} // verus!
