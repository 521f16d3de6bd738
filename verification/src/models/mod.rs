//! The data the recommender works on: ratings and users.
pub mod rating;
pub mod user;
pub mod recommender;
