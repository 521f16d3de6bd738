//! Where the database service is reached.
use vstd::prelude::*;
use vstd::string::*;

use crate::text::{decimal, to_decimal};

verus! {

/// The protocol used when the configuration names none.
pub fn default_protocol() -> (res: String)
    ensures
        res@ == "http"@,
{
    String::from_str("http")
}

#[derive(Debug, Default)]
pub struct DatabaseConfig {
    pub host: String,
    pub port: u16,
    pub protocol: String,
}

impl DatabaseConfig {
    /// `protocol://host:port`.
    pub open spec fn connection_url_spec(&self) -> Seq<char> {
        self.protocol@ + "://"@ + self.host@ + ":"@ + decimal(self.port as nat)
    }

    /// The URL of the database service: `protocol://host:port`.
    pub fn get_connection_url(&self) -> (res: String)
        ensures
            res@ == self.connection_url_spec(),
    {
        let mut url = self.protocol.clone();
        url.append("://");
        url.append(self.host.as_str());
        url.append(":");
        let port = to_decimal(self.port as u64);
        url.append(port.as_str());
        url
    }
}

} // verus!
