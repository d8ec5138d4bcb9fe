//! Startup configuration: the server mode and the engine's host and key.
//! Reading the process environment happens in the surrounding I/O layer,
//! which hands the raw values in here.

use vstd::prelude::*;

use crate::strutil::str_eq;

verus! {

/// Whether the server talks to real backend services or runs standalone on
/// mock data.
#[derive(Clone, Copy, Debug, PartialEq, Eq, Structural)]
pub enum ServerMode {
    Prod,
    Mock,
}

/// The configuration the server starts with.
pub struct EnvironmentVariables {
    server_mode: ServerMode,
    meilisearch_host: String,
    meilisearch_api_key: String,
}

impl EnvironmentVariables {
    pub fn new(server_mode: ServerMode, meilisearch_host: String, meilisearch_api_key: String) -> (
        r: Self)
        ensures
            r.spec_server_mode() == server_mode,
            r.spec_meilisearch_host() == meilisearch_host@,
            r.spec_meilisearch_api_key() == meilisearch_api_key@,
    {
        EnvironmentVariables { server_mode, meilisearch_host, meilisearch_api_key }
    }

    pub closed spec fn spec_server_mode(&self) -> ServerMode {
        self.server_mode
    }

    pub closed spec fn spec_meilisearch_host(&self) -> Seq<char> {
        self.meilisearch_host@
    }

    pub closed spec fn spec_meilisearch_api_key(&self) -> Seq<char> {
        self.meilisearch_api_key@
    }

    pub fn get_server_mode(&self) -> (r: ServerMode)
        ensures
            r == self.spec_server_mode(),
    {
        self.server_mode
    }

    pub fn get_meilisearch_host(&self) -> (r: &str)
        ensures
            r@ == self.spec_meilisearch_host(),
    {
        self.meilisearch_host.as_str()
    }

    pub fn get_meilisearch_api_key(&self) -> (r: &str)
        ensures
            r@ == self.spec_meilisearch_api_key(),
    {
        self.meilisearch_api_key.as_str()
    }

    /// Parses the raw mode value. Any value other than the two accepted
    /// ones aborts startup in the surrounding layer, so it is excluded
    /// here.
    pub fn parse_server_mode_or_panic(raw_server_mode: &str) -> (r: ServerMode)
        requires
            raw_server_mode@ == "prod"@ || raw_server_mode@ == "mock"@,
        ensures
            r == (if raw_server_mode@ == "prod"@ {
                ServerMode::Prod
            } else {
                ServerMode::Mock
            }),
    {
        if str_eq(raw_server_mode, "prod") {
            ServerMode::Prod
        } else {
            ServerMode::Mock
        }
    }
}

} // verus!
