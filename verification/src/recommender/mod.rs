//! Shared steps of the recommendations: cutting a ranking down to the
//! number of alerts asked for.
use vstd::prelude::*;

verus! {

/// The number of items kept when `number` are asked for out of `len`.
pub open spec fn limit_spec(number: nat, len: nat) -> nat {
    if number > len { len } else { number }
}

/// Cutting a ranking keeps its first items, in order: exactly `number` of
/// them when there are that many, else all of them.
pub proof fn law_slice_keeps_prefix<T>(alerts: Seq<T>, number: nat)
    ensures
        ({
            let kept = alerts.take(limit_spec(number, alerts.len()) as int);
            &&& number <= alerts.len() ==> kept.len() == number
            &&& number > alerts.len() ==> kept == alerts
            &&& kept.len() <= number
            &&& forall|i: int| 0 <= i < kept.len() ==> kept[i] == alerts[i]
        }),
{
    let kept = alerts.take(limit_spec(number, alerts.len()) as int);
    if number > alerts.len() {
        assert(kept =~= alerts);
    }
}

/// The first `number` items, or all of them if there are fewer.
pub fn slice<T>(alerts: Vec<T>, number: usize) -> (res: Vec<T>)
    ensures
        res@ == alerts@.take(limit_spec(number as nat, alerts@.len()) as int),
        number <= alerts@.len() ==> res@.len() == number,
        number > alerts@.len() ==> res@ == alerts@,
{
    let limit = if number > alerts.len() {
        alerts.len()
    } else {
        number
    };
    let mut kept = alerts;
    kept.truncate(limit);
    kept
}

} // verus!
