//! Local sources of users, alerts and ratings.
pub mod csv;
