//! Where the recommendation service listens.
use vstd::prelude::*;
use vstd::string::*;

use crate::text::{decimal, to_decimal};

verus! {

#[derive(Debug)]
pub struct ServerConfig {
    pub port: u32,
}

impl ServerConfig {
    /// `[::1]:port`.
    pub open spec fn url_spec(&self) -> Seq<char> {
        "[::1]:"@ + decimal(self.port as nat)
    }

    /// The address the service listens on: the IPv6 loopback at `port`.
    pub fn get_url(&self) -> (res: String)
        ensures
            res@ == self.url_spec(),
    {
        let mut url = String::from_str("[::1]:");
        let port = to_decimal(self.port as u64);
        url.append(port.as_str());
        url
    }
}

} // verus!
