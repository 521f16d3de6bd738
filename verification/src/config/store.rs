//! Where the key-value store is reached.
use vstd::prelude::*;
use vstd::string::*;

use crate::text::{decimal, to_decimal};

verus! {

/// The protocol used when the configuration names none.
pub fn default_protocol() -> (res: String)
    ensures
        res@ == "http"@,
{
    String::from_str("http")
}

/// A user name and password for the store.
#[derive(Debug, Default, Clone)]
pub struct Credential {
    pub username: String,
    pub password: String,
}

impl Credential {
    /// `username:password@`.
    pub open spec fn credential_spec(&self) -> Seq<char> {
        self.username@ + ":"@ + self.password@ + "@"@
    }

    /// The credential part of a store URL: `username:password@`.
    pub fn get_credential(&self) -> (res: String)
        ensures
            res@ == self.credential_spec(),
    {
        let mut cred = self.username.clone();
        cred.append(":");
        cred.append(self.password.as_str());
        cred.append("@");
        cred
    }
}

#[derive(Debug, Clone, Default)]
pub struct RedisConfig {
    pub host: String,
    pub port: Option<u16>,
    pub database: Option<String>,
    pub credentials: Option<Credential>,
}

impl RedisConfig {
    /// `redis://[username:password@]host[:port][/database]`.
    pub open spec fn connection_url_spec(&self) -> Seq<char> {
        let cred = match self.credentials {
            Some(c) => c.credential_spec(),
            None => Seq::<char>::empty(),
        };
        let port = match self.port {
            Some(p) => ":"@ + decimal(p as nat),
            None => Seq::<char>::empty(),
        };
        let db = match self.database {
            Some(d) => "/"@ + d@,
            None => Seq::<char>::empty(),
        };
        "redis://"@ + cred + self.host@ + port + db
    }

    /// The URL of the store:
    /// `redis://[username:password@]host[:port][/database]`.
    pub fn get_connection_url(&self) -> (res: String)
        ensures
            res@ == self.connection_url_spec(),
    {
        let mut url = String::from_str("redis://");
        if let Some(cred) = &self.credentials {
            let c = cred.get_credential();
            url.append(c.as_str());
        }
        url.append(self.host.as_str());
        if let Some(port) = &self.port {
            url.append(":");
            let p = to_decimal(*port as u64);
            url.append(p.as_str());
        }
        if let Some(database) = &self.database {
            url.append("/");
            url.append(database.as_str());
        }
        url
    }
}

/// The database, when one is set, is added to the store's URL as
/// `/database`, with or without a port; the port, when one is set, follows
/// the host as `:port`.
pub proof fn law_url_database_and_port(c: RedisConfig)
    ensures
        c.database matches Some(d) ==> c.connection_url_spec() == (RedisConfig { database: None, ..c }).connection_url_spec()
            + "/"@ + d@,
        c.port matches Some(p) ==> (RedisConfig { database: None, ..c }).connection_url_spec() == (RedisConfig {
            database: None,
            port: None,
            ..c
        }).connection_url_spec() + ":"@ + decimal(p as nat),
        c.database is None && c.port is None ==> c.connection_url_spec() == "redis://"@ + match c.credentials {
            Some(cr) => cr.credential_spec(),
            None => Seq::<char>::empty(),
        } + c.host@,
{
    let nodb = RedisConfig { database: None, ..c };
    let bare = RedisConfig { database: None, port: None, ..c };
    assert(nodb.connection_url_spec() =~= bare.connection_url_spec() + match c.port {
        Some(p) => ":"@ + decimal(p as nat),
        None => Seq::<char>::empty(),
    });
    assert(c.connection_url_spec() =~= nodb.connection_url_spec() + match c.database {
        Some(d) => "/"@ + d@,
        None => Seq::<char>::empty(),
    });
    assert(bare.connection_url_spec() =~= "redis://"@ + match c.credentials {
        Some(cr) => cr.credential_spec(),
        None => Seq::<char>::empty(),
    } + c.host@);
}

} // verus!
