//! The choices the personalised recommendations make about a user and an
//! alert: whether the user has seen it, and whether it concerns what the
//! user follows.
use vstd::prelude::*;

use crate::models::user::{strings_view, User};
use crate::store::alerts::AlertTag;

verus! {

/// The user has not rated the alert.
pub open spec fn not_viewed_spec(user: User, alert_id: Seq<char>) -> bool {
    match user.ratings {
        Some(r) => !r@.map.contains_key(alert_id),
        None => true,
    }
}

/// Some preference of the user names the alert's product or its provider.
pub open spec fn include_preferences_spec(user: User, provider: Seq<char>, product: Seq<char>) -> bool {
    exists|i: int|
        0 <= i < user.preferences@.len() && (#[trigger] user.preferences@[i]@ == product
            || user.preferences@[i]@ == provider)
}

/// Whether the user has not rated the alert.
pub fn not_viewed(user: &User, alert_id: &String) -> (res: bool)
    ensures
        res == not_viewed_spec(*user, alert_id@),
{
    match &user.ratings {
        Some(ratings) => ratings.get(alert_id).is_none(),
        None => true,
    }
}

/// Whether some preference of the user names the alert's product or its
/// provider.
pub fn include_preferences(user: &User, provider: &String, product: &String) -> (res: bool)
    ensures
        res == include_preferences_spec(*user, provider@, product@),
{
    let n = user.preferences.len();
    let mut i: usize = 0;
    while i < n
        invariant
            n == user.preferences@.len(),
            i <= n,
            forall|j: int| 0 <= j < i ==> !(#[trigger] user.preferences@[j]@ == product@
                || user.preferences@[j]@ == provider@),
        decreases n - i,
    {
        if user.preferences[i] == *product || user.preferences[i] == *provider {
            return true;
        }
        i = i + 1;
    }
    false
}

/// The positions, in order, of the alerts that concern what the user
/// follows and that the user has not rated: the candidates of a
/// content-based recommendation.
pub fn content_candidates(user: &User, alerts: &Vec<AlertTag>) -> (res: Vec<usize>)
    ensures
        forall|k: int| 0 <= k < res@.len() ==> #[trigger] res@[k] < alerts@.len(),
        forall|k: int, l: int| 0 <= k < l < res@.len() ==> #[trigger] res@[k] < #[trigger] res@[l],
        forall|i: int|
            0 <= i < alerts@.len() ==> (res@.contains(i as usize) <==> include_preferences_spec(
                *user,
                alerts@[i].1@,
                alerts@[i].2@,
            ) && not_viewed_spec(*user, alerts@[i].0@)),
{
    let mut out: Vec<usize> = Vec::new();
    let n = alerts.len();
    let mut i: usize = 0;
    while i < n
        invariant
            n == alerts@.len(),
            i <= n,
            forall|k: int| 0 <= k < out@.len() ==> #[trigger] out@[k] < i,
            forall|k: int, l: int| 0 <= k < l < out@.len() ==> #[trigger] out@[k] < #[trigger] out@[l],
            forall|j: int|
                0 <= j < i ==> (out@.contains(j as usize) <==> include_preferences_spec(
                    *user,
                    alerts@[j].1@,
                    alerts@[j].2@,
                ) && not_viewed_spec(*user, alerts@[j].0@)),
        decreases n - i,
    {
        let alert = &alerts[i];
        let ghost before = out@;
        if include_preferences(user, &alert.1, &alert.2) && not_viewed(user, &alert.0) {
            out.push(i);
            assert(out@[out@.len() - 1] == i);
        }
        assert forall|j: int|
            0 <= j < i + 1 implies (out@.contains(j as usize) <==> include_preferences_spec(
                *user,
                alerts@[j].1@,
                alerts@[j].2@,
            ) && not_viewed_spec(*user, alerts@[j].0@)) by {
            if j < i {
                if out@.contains(j as usize) {
                    let k = choose|k: int| 0 <= k < out@.len() && out@[k] == j as usize;
                    if k == before.len() {
                        assert(false);
                    }
                    assert(before[k] == j as usize);
                }
                if before.contains(j as usize) {
                    let k = choose|k: int| 0 <= k < before.len() && before[k] == j as usize;
                    assert(out@[k] == j as usize);
                }
            } else {
                if out@.contains(j as usize) {
                    let k = choose|k: int| 0 <= k < out@.len() && out@[k] == j as usize;
                    if k < before.len() {
                        assert(before[k] < i);
                    }
                }
            }
        }
        i = i + 1;
    }
    out
}

/// The positions, in order, of the alerts the user has not rated: the
/// candidates of a collaborative recommendation.
pub fn unviewed_candidates(user: &User, alert_ids: &Vec<String>) -> (res: Vec<usize>)
    ensures
        forall|k: int| 0 <= k < res@.len() ==> #[trigger] res@[k] < alert_ids@.len(),
        forall|k: int, l: int| 0 <= k < l < res@.len() ==> #[trigger] res@[k] < #[trigger] res@[l],
        forall|i: int|
            0 <= i < alert_ids@.len() ==> (res@.contains(i as usize) <==> not_viewed_spec(
                *user,
                alert_ids@[i]@,
            )),
{
    let mut out: Vec<usize> = Vec::new();
    let n = alert_ids.len();
    let mut i: usize = 0;
    while i < n
        invariant
            n == alert_ids@.len(),
            i <= n,
            forall|k: int| 0 <= k < out@.len() ==> #[trigger] out@[k] < i,
            forall|k: int, l: int| 0 <= k < l < out@.len() ==> #[trigger] out@[k] < #[trigger] out@[l],
            forall|j: int|
                0 <= j < i ==> (out@.contains(j as usize) <==> not_viewed_spec(*user, alert_ids@[j]@)),
        decreases n - i,
    {
        let ghost before = out@;
        if not_viewed(user, &alert_ids[i]) {
            out.push(i);
            assert(out@[out@.len() - 1] == i);
        }
        assert forall|j: int|
            0 <= j < i + 1 implies (out@.contains(j as usize) <==> not_viewed_spec(
                *user,
                alert_ids@[j]@,
            )) by {
            if j < i {
                if out@.contains(j as usize) {
                    let k = choose|k: int| 0 <= k < out@.len() && out@[k] == j as usize;
                    if k == before.len() {
                        assert(false);
                    }
                    assert(before[k] == j as usize);
                }
                if before.contains(j as usize) {
                    let k = choose|k: int| 0 <= k < before.len() && before[k] == j as usize;
                    assert(out@[k] == j as usize);
                }
            } else {
                if out@.contains(j as usize) {
                    let k = choose|k: int| 0 <= k < out@.len() && out@[k] == j as usize;
                    if k < before.len() {
                        assert(before[k] < i);
                    }
                }
            }
        }
        i = i + 1;
    }
    out
}

/// The alert concerns the content: its product or its provider is it.
pub open spec fn filter_content_spec(alert: AlertTag, content: Seq<char>) -> bool {
    alert.2@ == content || alert.1@ == content
}

/// The alert is kept for the content asked for: it concerns the content, or
/// no content is asked for.
pub open spec fn content_wanted(alert: AlertTag, content: Option<String>) -> bool {
    match content {
        Some(c) => filter_content_spec(alert, c@),
        None => true,
    }
}

/// A top-n recommendation for a content keeps exactly the alerts whose
/// product or provider is that content; with no content it keeps them all.
pub proof fn law_content_wanted(id: String, provider: String, product: String, content: Option<String>)
    ensures
        content is None ==> content_wanted((id, provider, product), content),
        content matches Some(c) ==> (content_wanted((id, provider, product), content) <==> (product@ == c@
            || provider@ == c@)),
{
}

/// Whether the alert concerns the content: its product or its provider is
/// the content.
pub fn filter_content(alert: &AlertTag, content: &String) -> (res: bool)
    ensures
        res == filter_content_spec(*alert, content@),
{
    alert.2 == *content || alert.1 == *content
}

/// The positions, in order, of the alerts that concern the content, or of
/// all the alerts when no content is given: the candidates of a top-n
/// recommendation.
pub fn content_filter(alerts: &Vec<AlertTag>, content: &Option<String>) -> (res: Vec<usize>)
    ensures
        forall|k: int| 0 <= k < res@.len() ==> #[trigger] res@[k] < alerts@.len(),
        forall|k: int, l: int| 0 <= k < l < res@.len() ==> #[trigger] res@[k] < #[trigger] res@[l],
        forall|i: int|
            0 <= i < alerts@.len() ==> (res@.contains(i as usize) <==> #[trigger] content_wanted(alerts@[i], *content)),
{
    let mut out: Vec<usize> = Vec::new();
    let n = alerts.len();
    let mut i: usize = 0;
    while i < n
        invariant
            n == alerts@.len(),
            i <= n,
            forall|k: int| 0 <= k < out@.len() ==> #[trigger] out@[k] < i,
            forall|k: int, l: int| 0 <= k < l < out@.len() ==> #[trigger] out@[k] < #[trigger] out@[l],
            forall|j: int|
                0 <= j < i ==> (out@.contains(j as usize) <==> #[trigger] content_wanted(alerts@[j], *content)),
        decreases n - i,
    {
        let ghost before = out@;
        let keep = match content {
            Some(c) => filter_content(&alerts[i], c),
            None => true,
        };
        if keep {
            out.push(i);
            assert(out@[out@.len() - 1] == i);
        }
        assert forall|j: int|
            0 <= j < i + 1 implies (out@.contains(j as usize) <==> #[trigger] content_wanted(alerts@[j], *content)) by {
            if j < i {
                if out@.contains(j as usize) {
                    let k = choose|k: int| 0 <= k < out@.len() && out@[k] == j as usize;
                    if k == before.len() {
                        assert(false);
                    }
                    assert(before[k] == j as usize);
                }
                if before.contains(j as usize) {
                    let k = choose|k: int| 0 <= k < before.len() && before[k] == j as usize;
                    assert(out@[k] == j as usize);
                }
            } else {
                if out@.contains(j as usize) {
                    let k = choose|k: int| 0 <= k < out@.len() && out@[k] == j as usize;
                    if k < before.len() {
                        assert(before[k] < i);
                    }
                }
            }
        }
        i = i + 1;
    }
    out
}

} // verus!
