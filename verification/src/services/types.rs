//! The records that the database service answers with, as plain values.
use vstd::prelude::*;

verus! {

/// A rating as the database service sends it.
#[derive(Debug, Clone)]
pub struct RatingRecord {
    pub user_id: i32,
    pub alert_id: String,
    pub like: bool,
    pub dislike: bool,
    pub critical: bool,
}

/// A user with the ratings they gave.
#[derive(Debug, Clone)]
pub struct UsersRatings {
    pub user_id: i32,
    pub ratings: Vec<RatingRecord>,
}

/// A user with the ids of the contents they follow.
#[derive(Debug, Clone)]
pub struct UsersContents {
    pub user_id: i32,
    pub preferences: Vec<String>,
}

/// An alert's identity: its id and the provider and product it concerns.
#[derive(Debug, Clone)]
pub struct AlertRecord {
    pub id: String,
    pub provider: String,
    pub product: String,
}

/// An alert with the ratings it received.
#[derive(Debug, Clone)]
pub struct AlertsRatings {
    pub alert_id: String,
    pub ratings: Vec<RatingRecord>,
}

/// The id the database service uses for a user: the same 32 bits read as
/// signed.
pub fn user_where_id(user_id: u32) -> (res: i32)
    ensures
        res == (if user_id <= i32::MAX { user_id as int } else { user_id - 0x1_0000_0000 }),
        res as u32 == user_id,
{
    assert(((user_id as i32) as u32) == user_id) by (bit_vector);
    assert(user_id <= i32::MAX ==> (user_id as i32) == user_id) by (bit_vector);
    assert(user_id > i32::MAX ==> (user_id as i32) == user_id - 0x1_0000_0000) by (bit_vector);
    user_id as i32
}

} // verus!
