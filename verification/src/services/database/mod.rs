//! What is made of the database service's answers.
pub mod users;
pub mod alerts;
