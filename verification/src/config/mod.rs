//! Service configuration: where the database, the key-value store and the
//! server itself are reached.
pub mod database;
pub mod store;
pub mod server;

use vstd::prelude::*;

verus! {

/// The whole configuration, as read from the environment.
pub struct Config {
    pub server: server::ServerConfig,
    pub db: database::DatabaseConfig,
}

} // verus!
