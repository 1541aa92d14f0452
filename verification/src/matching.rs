//! Name-matching predicates for wildcard or pattern roles.
//!
//! A manager may hold a [`Matcher`]; materializing a node then expands its
//! edges to every existing role whose name the predicate accepts, and the
//! membership test behind `delete_link`, `has_link`, `get_roles` and
//! `get_users` becomes "some indexed name matches".

use vstd::prelude::*;
use vstd::string::StrSliceExecFns;

verus! {

/// A two-argument name predicate, called as `(newcomer, existing)`.
///
/// `spec_matches` is the mathematical meaning of the predicate; `matches`
/// must return exactly that, so the manager's contracts can speak of the
/// predicate by its specification.
pub trait Matcher: Sized {
    /// The meaning of the predicate on the views of the two names.
    spec fn spec_matches(&self, name: Seq<char>, existing: Seq<char>) -> bool;

    /// Decides whether `existing` matches `name`.
    fn matches(&self, name: &str, existing: &str) -> (r: bool)
        ensures
            r == self.spec_matches(name@, existing@),
    ;
}

/// A matcher that accepts every existing name ending in a fixed suffix,
/// whatever the newcomer's name is.
pub struct SuffixMatcher {
    suffix: String,
}

impl SuffixMatcher {
    /// The configured suffix.
    pub closed spec fn spec_suffix(&self) -> Seq<char> {
        self.suffix@
    }

    pub fn new(suffix: &str) -> (r: SuffixMatcher)
        ensures
            r.spec_suffix() == suffix@,
    {
        SuffixMatcher { suffix: suffix.to_owned() }
    }
}

impl Matcher for SuffixMatcher {
    open spec fn spec_matches(&self, name: Seq<char>, existing: Seq<char>) -> bool {
        existing.len() >= self.spec_suffix().len() && existing.subrange(
            existing.len() - self.spec_suffix().len(),
            existing.len() as int,
        ) == self.spec_suffix()
    }

    fn matches(&self, name: &str, existing: &str) -> (r: bool) {
        let elen = existing.unicode_len();
        let slen = self.suffix.as_str().unicode_len();
        if elen >= slen {
            let tail = existing.substring_char(elen - slen, elen).to_owned();
            tail == self.suffix
        } else {
            false
        }
    }
}

} // verus!
