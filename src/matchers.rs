//! Include and exclude predicates over entry text.
use vstd::prelude::*;
use crate::pattern::{Pattern, PatternError, regex_matches};
use crate::text::{contains, occurs_in};

verus! {

/// A predicate over an entry's text.
pub trait Matcher {
    /// Whether the predicate holds of `s`.
    spec fn accepts(&self, s: Seq<char>) -> bool;

    /// Tests the predicate on `s`.
    fn matches(&self, s: &str) -> (r: bool)
        ensures
            r == self.accepts(s@),
    ;
}

/// Holds of text that contains the given string.
pub struct VerbatimMatcher(pub String);

/// Holds of text in which the regular expression finds a match.
pub struct RegexMatcher(pub Pattern);

impl Matcher for VerbatimMatcher {
    open spec fn accepts(&self, s: Seq<char>) -> bool {
        occurs_in(self.0@, s)
    }

    fn matches(&self, s: &str) -> (r: bool) {
        contains(s, self.0.as_str())
    }
}

impl Matcher for RegexMatcher {
    open spec fn accepts(&self, s: Seq<char>) -> bool {
        regex_matches(self.0@, s)
    }

    fn matches(&self, s: &str) -> (r: bool) {
        self.0.is_match(s)
    }
}

/// One of the kinds of predicate.
pub enum EntryMatcher {
    Verbatim(VerbatimMatcher),
    Regex(RegexMatcher),
}

impl Matcher for EntryMatcher {
    open spec fn accepts(&self, s: Seq<char>) -> bool {
        match self {
            EntryMatcher::Verbatim(m) => m.accepts(s),
            EntryMatcher::Regex(m) => m.accepts(s),
        }
    }

    fn matches(&self, s: &str) -> (r: bool) {
        match self {
            EntryMatcher::Verbatim(m) => m.matches(s),
            EntryMatcher::Regex(m) => m.matches(s),
        }
    }
}

/// The predicates that `parse_matchers` builds: one per verbatim string,
/// then one per regular expression, in the order given.
pub open spec fn describes(verbatims: Seq<String>, regexes: Seq<String>, r: Seq<EntryMatcher>) -> bool {
    &&& r.len() == verbatims.len() + regexes.len()
    &&& forall|i: int|
        0 <= i < verbatims.len() ==> match #[trigger] r[i] {
            EntryMatcher::Verbatim(m) => m.0@ == verbatims[i]@,
            EntryMatcher::Regex(_) => false,
        }
    &&& forall|i: int|
        0 <= i < regexes.len() ==> match #[trigger] r[verbatims.len() + i] {
            EntryMatcher::Regex(m) => m.0@ == regexes[i]@,
            EntryMatcher::Verbatim(_) => false,
        }
}

/// Builds the predicates for the given verbatim strings and regular
/// expressions; fails where one of the regular expressions does not
/// compile.
pub fn parse_matchers(verbatims: &Vec<String>, regexes: &Vec<String>) -> (r: Result<Vec<EntryMatcher>, PatternError>)
    ensures
        match r {
            Ok(v) => describes(verbatims@, regexes@, v@),
            Err(e) => e == PatternError::InvalidRegex && exists|i: int|
                0 <= i < regexes@.len() && !crate::pattern::regex_valid(#[trigger] regexes@[i]@),
        },
{
    let mut out: Vec<EntryMatcher> = Vec::new();
    let mut i: usize = 0;
    while i < verbatims.len()
        invariant
            i <= verbatims@.len(),
            out@.len() == i,
            forall|t: int|
                0 <= t < i ==> match #[trigger] out@[t] {
                    EntryMatcher::Verbatim(m) => m.0@ == verbatims@[t]@,
                    EntryMatcher::Regex(_) => false,
                },
        decreases verbatims.len() - i,
    {
        out.push(EntryMatcher::Verbatim(VerbatimMatcher(verbatims[i].clone())));
        i = i + 1;
    }
    let mut j: usize = 0;
    while j < regexes.len()
        invariant
            i == verbatims@.len(),
            j <= regexes@.len(),
            out@.len() == i + j,
            forall|t: int|
                0 <= t < i ==> match #[trigger] out@[t] {
                    EntryMatcher::Verbatim(m) => m.0@ == verbatims@[t]@,
                    EntryMatcher::Regex(_) => false,
                },
            forall|t: int|
                0 <= t < j ==> match #[trigger] out@[i + t] {
                    EntryMatcher::Regex(m) => m.0@ == regexes@[t]@,
                    EntryMatcher::Verbatim(_) => false,
                },
        decreases regexes.len() - j,
    {
        match Pattern::new(regexes[j].as_str()) {
            Ok(p) => {
                out.push(EntryMatcher::Regex(RegexMatcher(p)));
            },
            Err(e) => {
                return Err(e);
            },
        }
        j = j + 1;
    }
    Ok(out)
}

/// Some predicate of `ms` holds of `s`.
pub open spec fn any_accepts(ms: Seq<EntryMatcher>, s: Seq<char>) -> bool {
    exists|i: int| 0 <= i < ms.len() && #[trigger] ms[i].accepts(s)
}

/// Whether some predicate of `ms` holds of `s`.
pub fn any_matches(ms: &Vec<EntryMatcher>, s: &str) -> (r: bool)
    ensures
        r == any_accepts(ms@, s@),
{
    let mut i: usize = 0;
    while i < ms.len()
        invariant
            i <= ms@.len(),
            forall|t: int| 0 <= t < i ==> !(#[trigger] ms@[t]).accepts(s@),
        decreases ms.len() - i,
    {
        if ms[i].matches(s) {
            return true;
        }
        i = i + 1;
    }
    false
}

/// An entry is kept when some include predicate holds of it, or there are
/// none, and no exclude predicate holds of it.
pub open spec fn kept(includes: Seq<EntryMatcher>, excludes: Seq<EntryMatcher>, s: Seq<char>) -> bool {
    (includes.len() == 0 || any_accepts(includes, s)) && !any_accepts(excludes, s)
}

/// Whether an entry with text `s` is kept.
pub fn keeps(includes: &Vec<EntryMatcher>, excludes: &Vec<EntryMatcher>, s: &str) -> (r: bool)
    ensures
        r == kept(includes@, excludes@, s@),
{
    (includes.len() == 0 || any_matches(includes, s)) && !any_matches(excludes, s)
}

/// The texts among the first `n` of `texts` that are kept, in order.
pub open spec fn kept_upto(
    texts: Seq<String>,
    includes: Seq<EntryMatcher>,
    excludes: Seq<EntryMatcher>,
    n: int,
) -> Seq<Seq<char>>
    decreases n,
{
    if n <= 0 {
        Seq::empty()
    } else {
        kept_upto(texts, includes, excludes, n - 1) + if kept(includes, excludes, texts[n - 1]@) {
            seq![texts[n - 1]@]
        } else {
            Seq::empty()
        }
    }
}

/// Keeps the entry texts that the include and exclude predicates select,
/// in their order.
pub fn filter_texts(texts: &Vec<String>, includes: &Vec<EntryMatcher>, excludes: &Vec<EntryMatcher>) -> (r: Vec<
    String,
>)
    ensures
        r@.len() == kept_upto(texts@, includes@, excludes@, texts@.len() as int).len(),
        forall|k: int|
            0 <= k < r@.len() ==> (#[trigger] r@[k])@ == kept_upto(
                texts@,
                includes@,
                excludes@,
                texts@.len() as int,
            )[k],
{
    let mut out: Vec<String> = Vec::new();
    let mut i: usize = 0;
    while i < texts.len()
        invariant
            i <= texts@.len(),
            out@.len() == kept_upto(texts@, includes@, excludes@, i as int).len(),
            forall|k: int|
                0 <= k < out@.len() ==> (#[trigger] out@[k])@ == kept_upto(texts@, includes@, excludes@, i as int)[k],
        decreases texts.len() - i,
    {
        if keeps(includes, excludes, texts[i].as_str()) {
            out.push(texts[i].clone());
        }
        i = i + 1;
    }
    out
}

} // verus!
