//! Alert recommendation engine: configuration, rating arithmetic, the
//! encodings kept in the key-value store, and the bookkeeping that turns the
//! database's answers into per-user and per-alert tallies.
pub mod config;
pub mod database;
pub mod models;
pub mod recommender;
pub mod resources;
pub mod services;
pub mod store;
pub mod strmap;
pub mod text;
