//! Shell-glob matching for `KEYS`. The matching itself is the glob
//! crate's; the library consumes it as a predicate on byte strings.

use vstd::prelude::*;

verus! {

/// Whether the glob crate accepts `p` as a pattern (`glob::Pattern::new`
/// returns `Ok`). A function of the bytes alone.
pub uninterp spec fn glob_acceptable(p: Seq<u8>) -> bool;

/// Whether pattern `p` matches `text` under shell-glob rules (`*` any
/// run, `?` one character, `[...]` a class). A function of the byte
/// strings alone; text that is not UTF-8 matches nothing.
pub uninterp spec fn glob_matches(p: Seq<u8>, text: Seq<u8>) -> bool;

/// Relies on glob::Pattern::new and glob::Pattern::matches: both are
/// deterministic in their string arguments, so whether the pattern
/// compiles, and what it then matches, are functions of the bytes alone.
/// `None` reports a pattern the glob crate rejects.
#[verifier::external_body]
pub(crate) fn glob_match(pattern: &[u8], text: &[u8]) -> (r: Option<bool>)
    ensures
        r is Some <==> glob_acceptable(pattern@),
        r matches Some(b) ==> b == glob_matches(pattern@, text@),
{
    let p = match core::str::from_utf8(pattern) {
        Ok(p) => p,
        Err(_) => return None,
    };
    let pat = match glob::Pattern::new(p) {
        Ok(pat) => pat,
        Err(_) => return None,
    };
    let t = match core::str::from_utf8(text) {
        Ok(t) => t,
        Err(_) => return Some(false),
    };
    Some(pat.matches(t))
}

} // verus!
