//! Operator-facing client configuration.
//!
//! The command-line client keeps its credentials in one configuration
//! record; node tokens are filed under a composite key so one file can
//! hold tokens for many clusters. Reading and writing the file happens
//! outside the library.

use vstd::prelude::*;
use crate::strmap::StrMap;
use vstd::string::StringExecFns;

verus! {

/// Client configuration: endpoints, credentials, and per-node tokens.
pub struct Config {
    pub base_url: Option<String>,
    pub tenant_api_key: Option<String>,
    pub tenant_jwt: Option<String>,
    pub agent_key: Option<String>,
    pub node_tokens: StrMap<String>,
}

impl Config {
    pub open spec fn wf(self) -> bool {
        self.node_tokens.wf()
    }

    /// An empty configuration.
    pub fn new() -> (r: Self)
        ensures
            r.wf(),
            r.base_url is None,
            r.tenant_api_key is None,
            r.tenant_jwt is None,
            r.agent_key is None,
            r.node_tokens@ == Map::<Seq<char>, String>::empty(),
    {
        Config {
            base_url: None,
            tenant_api_key: None,
            tenant_jwt: None,
            agent_key: None,
            node_tokens: StrMap::new(),
        }
    }
}

impl Default for Config {
    fn default() -> (r: Self)
        ensures
            r.wf(),
            r.base_url is None,
            r.tenant_api_key is None,
            r.tenant_jwt is None,
            r.agent_key is None,
            r.node_tokens@ == Map::<Seq<char>, String>::empty(),
    {
        Config::new()
    }
}

/// An HTTP request method, as far as the retry policy cares.
#[derive(Clone, Copy, PartialEq, Eq, Structural, Debug)]
pub enum HttpMethod {
    Get,
    Head,
    Post,
    Put,
    Patch,
    Delete,
    Options,
}

/// How long to wait before the next attempt.
#[derive(Clone, Copy, PartialEq, Eq, Structural, Debug)]
pub struct RetryDelay {
    pub secs: u64,
    pub millis: u64,
}

/// Whether a failed request may be retried: rate limiting always may;
/// a server error only for the idempotent read and delete methods.
pub fn should_retry(method: HttpMethod, status: u16) -> (r: bool)
    ensures
        r == (status == 429 || (500 <= status <= 599 && (method == HttpMethod::Get || method
            == HttpMethod::Delete))),
{
    if status == 429 {
        return true;
    }
    if 500 <= status && status <= 599 {
        return match method {
            HttpMethod::Get => true,
            HttpMethod::Delete => true,
            _ => false,
        };
    }
    false
}

/// The wait before the next attempt: on rate limiting, what the
/// server asked for in the header, else in the body, else one second;
/// on any other retryable failure a short fixed pause.
pub fn retry_sleep(
    status: u16,
    retry_after_header: Option<u64>,
    retry_after_body: Option<u64>,
) -> (r: RetryDelay)
    ensures
        status == 429 ==> r == (match retry_after_header {
            Some(s) => (RetryDelay { secs: s, millis: 0u64 }),
            None => match retry_after_body {
                Some(s) => (RetryDelay { secs: s, millis: 0u64 }),
                None => (RetryDelay { secs: 1u64, millis: 0u64 }),
            },
        }),
        status != 429 ==> r == (RetryDelay { secs: 0u64, millis: 300u64 }),
{
    if status == 429 {
        match retry_after_header {
            Some(s) => RetryDelay { secs: s, millis: 0 },
            None => match retry_after_body {
                Some(s) => RetryDelay { secs: s, millis: 0 },
                None => RetryDelay { secs: 1, millis: 0 },
            },
        }
    } else {
        RetryDelay { secs: 0, millis: 300 }
    }
}

/// The key a node token is filed under:
/// `{base_url}|{cluster_id}|{node_id}`.
pub fn node_token_key(base_url: &str, cluster_id: &str, node_id: &str) -> (r: String)
    ensures
        r@ == base_url@ + seq!['|'] + cluster_id@ + seq!['|'] + node_id@,
{
    let mut s = String::from_str(base_url);
    s.append("|");
    s.append(cluster_id);
    s.append("|");
    s.append(node_id);
    proof {
        reveal_strlit("|");
        assert("|"@ =~= seq!['|']);
        assert(s@ =~= base_url@ + seq!['|'] + cluster_id@ + seq!['|'] + node_id@);
    }
    s
}

} // verus!
