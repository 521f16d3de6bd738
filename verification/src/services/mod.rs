//! The services the recommender talks to, seen through the plain records
//! their answers carry, and the bookkeeping done on those answers.
pub mod types;
pub mod database;
