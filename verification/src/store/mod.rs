//! The key-value store: how to reach it, and how values are laid out in it.
pub mod alerts;
pub mod users;

use vstd::prelude::*;
use vstd::string::*;

use crate::config::store::RedisConfig;
use crate::resources::errors::Internal;
use crate::text::{decimal, to_decimal};

verus! {

/// The store client of the `redis` crate.
#[verifier::external_type_specification]
#[verifier::external_body]
pub struct ExClient(::redis::Client);

/// The error type of the `redis` crate.
#[verifier::external_type_specification]
#[verifier::external_body]
pub struct ExRedisError(::redis::RedisError);

/// `Clone` of the `redis` crate's client, which copies its connection
/// details. Nothing is claimed of the copy.
pub assume_specification[ <::redis::Client as Clone>::clone ](client: &::redis::Client) -> ::redis::Client;

/// Whether `redis::Client::open` accepts a URL: whether it parses as a URL
/// with a `redis`, `redis+unix` or `unix` scheme and the connection details
/// that scheme needs (a host for `redis`, a path for the others). `rediss`
/// URLs are refused, as the crate is built without TLS.
pub uninterp spec fn redis_url_accepted(url: Seq<char>) -> bool;

/// The client that `redis::Client::open` builds for a URL it accepts: its
/// connection details are read off the URL alone.
pub uninterp spec fn client_for_url(url: Seq<char>) -> ::redis::Client;

/// Calls `redis::Client::open` on `url`, which parses the URL and makes no
/// connection. Claimed: it succeeds exactly on the URLs that
/// [`redis_url_accepted`] names, and the client it builds is the one
/// [`client_for_url`] names for the URL.
#[verifier::external_body]
fn open_client(url: &str) -> (res: Result<::redis::Client, ::redis::RedisError>)
    ensures
        res is Ok <==> redis_url_accepted(url@),
        res matches Ok(c) ==> c == client_for_url(url@),
{
    ::redis::Client::open(url)
}

/// The message of a `redis` error, as its `Display` renders it. Nothing is
/// claimed of the text.
#[verifier::external_body]
fn redis_error_text(err: &::redis::RedisError) -> String {
    err.to_string()
}

/// A store error as the service's internal failure.
pub fn internal_from_redis(err: &::redis::RedisError) -> (res: Internal) {
    Internal(redis_error_text(err))
}

/// A handle on the store: its configuration and a client for it.
#[derive(Clone)]
pub struct Redis {
    config: RedisConfig,
    client: ::redis::Client,
}

/// Keys and values read off a store reply, paired up in order.
pub open spec fn pairs_spec<V>(kv: Seq<V>) -> Seq<(V, V)> {
    Seq::new(kv.len() / 2, |i: int| (kv[2 * i], kv[2 * i + 1]))
}

/// `users.<id>.<what>`.
pub open spec fn user_key_spec(id: u32, what: Seq<char>) -> Seq<char> {
    "users."@ + decimal(id as nat) + "."@ + what
}

impl Redis {
    /// The configuration the handle was made with.
    pub closed spec fn config(&self) -> RedisConfig {
        self.config
    }

    /// The client the handle holds.
    pub closed spec fn client_spec(&self) -> ::redis::Client {
        self.client
    }

    /// The client for the store the handle was made with.
    pub fn client(&self) -> (res: &::redis::Client)
        ensures
            *res == self.client_spec(),
    {
        &self.client
    }

    /// A handle on the store that `config` describes: its client is the one
    /// opened for the URL built from the configuration. Fails when the
    /// `redis` crate refuses that URL.
    pub fn new(config: RedisConfig) -> (res: Result<Redis, Internal>)
        ensures
            res is Ok <==> redis_url_accepted(config.connection_url_spec()),
            res matches Ok(r) ==> r.config() == config,
            res matches Ok(r) ==> r.client_spec() == client_for_url(config.connection_url_spec()),
    {
        let url = config.get_connection_url();
        let opened = open_client(url.as_str());
        Self::from_client(config, opened)
    }

    /// A handle on the store that `config` describes, from the outcome of
    /// opening a client for it: the handle if the client opened, the
    /// client's error as an internal failure if not.
    pub fn from_client(config: RedisConfig, opened: Result<::redis::Client, ::redis::RedisError>) -> (res: Result<
        Redis,
        Internal,
    >)
        ensures
            res is Ok <==> opened is Ok,
            res matches Ok(r) ==> r.config() == config,
            opened matches Ok(c) ==> (res matches Ok(r) && r.client_spec() == c),
    {
        match opened {
            Ok(client) => Ok(Redis { client, config }),
            Err(err) => Err(internal_from_redis(&err)),
        }
    }

    /// Pairs up a store reply that alternates keys and values; a trailing
    /// key without a value is dropped.
    pub fn zip_key_value<V: Clone>(keys_and_values: Vec<V>) -> (res: Vec<(V, V)>)
        ensures
            res@ == pairs_spec(keys_and_values@),
    {
        let ghost kv = keys_and_values@;
        let n = keys_and_values.len();
        let mut pairs: Vec<(V, V)> = Vec::new();
        let mut pending: Option<V> = None;
        for v in it: keys_and_values.into_iter()
            invariant
                it.seq() == kv,
                n == kv.len(),
                pairs@ == pairs_spec(kv.take(it.index())),
                it.index() % 2 == 0 ==> pending is None,
                it.index() % 2 == 1 ==> pending == Some(kv[it.index() - 1]),
        {
            let ghost k = it.index();
            assert(k < n);
            assert(v == kv[k]);
            match pending {
                Some(key) => {
                    let ghost before = pairs@;
                    pairs.push((key, v));
                    pending = None;
                    assert(pairs@ =~= pairs_spec(kv.take(k + 1))) by {
                        assert(before =~= pairs_spec(kv.take(k)));
                        assert((k + 1) / 2 == k / 2 + 1);
                        assert(kv.take(k + 1)[2 * (k / 2)] == kv[k - 1]);
                    }
                },
                None => {
                    pending = Some(v);
                    assert(pairs@ =~= pairs_spec(kv.take(k + 1))) by {
                        assert((k + 1) / 2 == k / 2);
                    }
                },
            }
        }
        assert(kv.take(n as int) =~= kv);
        pairs
    }

    /// `users.<id>.<what>`.
    fn user_key(id: u32, what: &str) -> (res: String)
        ensures
            res@ == user_key_spec(id, what@),
    {
        let mut key = String::from_str("users.");
        let digits = to_decimal(id as u64);
        key.append(digits.as_str());
        key.append(".");
        key.append(what);
        key
    }

    /// The key of a user's preference list: `users.<id>.preferences`.
    pub fn user_preferences_key(id: u32) -> (res: String)
        ensures
            res@ == user_key_spec(id, "preferences"@),
    {
        Self::user_key(id, "preferences")
    }

    /// The key of a user's ratings: `users.<id>.ratings`.
    pub fn user_ratings_key(id: u32) -> (res: String)
        ensures
            res@ == user_key_spec(id, "ratings"@),
    {
        Self::user_key(id, "ratings")
    }

    /// The key of a user's similarities: `users.<id>.similarity`.
    pub fn user_similarity_key(id: u32) -> (res: String)
        ensures
            res@ == user_key_spec(id, "similarity"@),
    {
        Self::user_key(id, "similarity")
    }

    /// The pattern that matches every user's preference list:
    /// `users.*.preferences`.
    pub fn user_preferences_pattern() -> (res: String)
        ensures
            res@ == "users.*.preferences"@,
    {
        String::from_str("users.*.preferences")
    }

    /// The key of the sorted set of alerts: `alerts`.
    pub fn alerts_key() -> (res: String)
        ensures
            res@ == "alerts"@,
    {
        String::from_str("alerts")
    }
}

} // verus!
