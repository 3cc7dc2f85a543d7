//! Choosing a GitHub token: `GITHUB_TOKEN`, then the `gh` CLI.

use vstd::prelude::*;
use crate::github::opt_string_view;
use crate::text::{trim, trimmed};

verus! {

/// A token candidate without surrounding whitespace, or none when nothing
/// else is left.
pub open spec fn usable_token(raw: Seq<char>) -> Option<Seq<char>> {
    if trimmed(raw).len() > 0 {
        Some(trimmed(raw))
    } else {
        None
    }
}

/// The candidate `raw` trimmed, or `None` when it is blank.
pub fn trimmed_token(raw: &str) -> (token: Option<String>)
    ensures
        opt_string_view(token) == usable_token(raw@),
{
    let t = trim(raw);
    if t.unicode_len() == 0 {
        None
    } else {
        Some(String::from_str(t))
    }
}

/// The error when no token can be found.
pub open spec fn missing_token_message() -> Seq<char> {
    "No GitHub token: set GITHUB_TOKEN or run `gh auth login`"@
}

/// What the `gh` fallback gives: its token, or the missing-token error.
pub open spec fn from_lookup(found: Option<String>, res: Result<String, String>) -> bool {
    match found {
        Some(t) => res == Ok::<String, String>(t),
        None => res matches Err(e) && e@ == missing_token_message(),
    }
}

/// Choose a token: the environment's, trimmed, when it is not blank;
/// otherwise whatever `gh_lookup` finds, which is only asked then.
pub fn resolve_from(env_token: Option<String>, gh_lookup: impl FnOnce() -> Option<String>) -> (res:
    Result<String, String>)
    requires
        gh_lookup.requires(()),
    ensures
        (env_token matches Some(t) && usable_token(t@) is Some) ==> (res matches Ok(tok) && tok@
            == usable_token(env_token.unwrap()@).unwrap()),
        !(env_token matches Some(t) && usable_token(t@) is Some) ==> exists|found: Option<String>|
            gh_lookup.ensures((), found) && from_lookup(found, res),
{
    match &env_token {
        Some(t) => match trimmed_token(t.as_str()) {
            Some(token) => {
                return Ok(token);
            },
            None => {},
        },
        None => {},
    }
    let found = gh_lookup();
    let ghost seen = found;
    let res = match found {
        Some(t) => Ok(t),
        None => Err(String::from_str("No GitHub token: set GITHUB_TOKEN or run `gh auth login`")),
    };
    assert(from_lookup(seen, res));
    res
}

} // verus!
