//! Decisions of the forwarding proxy: where a request goes, and how a
//! response is to be rewritten.
use vstd::prelude::*;

verus! {

/// The address of the upstream server, with scheme.
pub open spec fn upstream_origin() -> Seq<char> {
    "http://127.0.0.1:3000"@
}

/// The URL a request is forwarded to: the upstream origin followed by the
/// path and query of the request, or by its path where it has no query part.
pub fn proxy_target(path_and_query: Option<&str>, path: &str) -> (r: String)
    ensures
        r@ == upstream_origin() + match path_and_query {
            Some(pq) => pq@,
            None => path@,
        },
{
    let tail = match path_and_query {
        Some(pq) => pq,
        None => path,
    };
    let mut uri = String::new();
    uri.append("http://127.0.0.1:3000");
    uri.append(tail);
    uri
}

/// How a response body is rewritten.
#[derive(PartialEq, Eq, Structural)]
pub enum ModifyStrategy {
    /// Passed through as it is.
    Identity,
    /// Rewritten chunk by chunk.
    Fast,
    /// Rewritten as a whole.
    Slow,
}

/// The strategy for a response: every response passes through unchanged.
pub fn dispatch() -> (r: ModifyStrategy)
    ensures
        r == ModifyStrategy::Identity,
{
    ModifyStrategy::Identity
}

} // verus!
