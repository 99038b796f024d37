//! The rules a client of the local service follows: how a base URL is
//! normalized, where a session's endpoints live, and which answers to a
//! session's deletion count as success.

use vstd::prelude::*;

use crate::text::{append_str, chars_of, owned, string_from_chars};

verus! {

broadcast use vstd::string::group_string_axioms;

/// The text without its trailing slashes.
pub open spec fn trim_end_slashes(s: Seq<char>) -> Seq<char>
    decreases s.len(),
{
    if s.len() > 0 && s.last() == '/' {
        trim_end_slashes(s.drop_last())
    } else {
        s
    }
}

/// A base URL without trailing slashes; an empty one is refused.
pub fn normalize_base_url(base_url: &str) -> (r: Result<String, String>)
    ensures
        match r {
            Ok(u) => u@ == trim_end_slashes(base_url@) && u@.len() > 0,
            Err(e) => trim_end_slashes(base_url@).len() == 0 && e@
                == "XR Corpus URL cannot be empty"@,
        },
{
    let chars = chars_of(base_url);
    let mut n: usize = chars.len();
    assert(chars@.take(n as int) =~= chars@);
    while n > 0 && chars[n - 1] == '/'
        invariant
            0 <= n <= chars@.len(),
            trim_end_slashes(chars@) == trim_end_slashes(chars@.take(n as int)),
        decreases n,
    {
        assert(chars@.take(n as int).drop_last() =~= chars@.take(n - 1));
        n = n - 1;
    }
    let mut kept: Vec<char> = Vec::new();
    let mut k: usize = 0;
    while k < n
        invariant
            0 <= k <= n <= chars@.len(),
            kept@ == chars@.take(k as int),
        decreases n - k,
    {
        kept.push(chars[k]);
        assert(chars@.take(k + 1) =~= chars@.take(k as int).push(chars@[k as int]));
        k = k + 1;
    }
    assert(trim_end_slashes(chars@.take(n as int)) == chars@.take(n as int));
    if n == 0 {
        return Err(owned("XR Corpus URL cannot be empty"));
    }
    Ok(string_from_chars(kept.as_slice()))
}

/// The path of a session's endpoint: `/v1/sessions/`, the session, then
/// the endpoint's own suffix.
pub fn session_path(session_id: &str, suffix: &str) -> (r: String)
    ensures
        r@ == "/v1/sessions/"@ + session_id@ + suffix@,
{
    let mut path = owned("/v1/sessions/");
    append_str(&mut path, session_id);
    append_str(&mut path, suffix);
    path
}

/// Closing a session succeeds when the service deleted it (204) or no
/// longer knew it (404).
pub fn close_succeeded(status: u16) -> (r: bool)
    ensures
        r <==> status == 204 || status == 404,
{
    status == 204 || status == 404
}

} // verus!
