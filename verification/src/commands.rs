//! What the desktop commands do with their arguments before the work starts.
use vstd::prelude::*;

use crate::text::{chars_of, copy_range, string_of, trim, trim_chars};

verus! {

/// A path typed or pasted by the user: trimmed, and without one pair of
/// surrounding double quotes.
pub open spec fn unquoted(value: Seq<char>) -> Seq<char> {
    let t = trim(value);
    if t.len() >= 2 && t[0] == '"' && t.last() == '"' {
        t.subrange(1, t.len() - 1)
    } else {
        t
    }
}

/// The path a user entered, trimmed and unquoted.
pub fn user_path(value: &str) -> (r: String)
    ensures
        r@ == unquoted(value@),
{
    let t = trim_chars(&chars_of(value));
    if t.len() >= 2 && t[0] == '"' && t[t.len() - 1] == '"' {
        string_of(&copy_range(&t, 1, t.len() - 1))
    } else {
        string_of(&t)
    }
}

/// How many search results to return: 250 unless asked, and between 1 and 2000.
pub open spec fn limit_spec(limit: Option<usize>) -> usize {
    let l = match limit {
        Some(l) => l,
        None => 250,
    };
    if l < 1 {
        1
    } else if l > 2000 {
        2000
    } else {
        l
    }
}

/// The number of search results to return for an optional requested limit.
pub fn search_limit(limit: Option<usize>) -> (r: usize)
    ensures
        r == limit_spec(limit),
{
    let l = match limit {
        Some(l) => l,
        None => 250,
    };
    if l < 1 {
        1
    } else if l > 2000 {
        2000
    } else {
        l
    }
}

} // verus!
