//! Regular expressions, as the `regex` crate implements them.
use vstd::prelude::*;
use crate::text::append;

verus! {

#[verifier::external_type_specification]
#[verifier::external_body]
pub struct ExRegex(regex::Regex);

#[verifier::external_type_specification]
#[verifier::external_body]
pub struct ExRegexError(regex::Error);

/// Whether `regex::Regex::new` accepts the pattern.
pub uninterp spec fn regex_valid(pattern: Seq<char>) -> bool;

/// Whether the compiled `pattern` finds a match anywhere in `text`.
pub uninterp spec fn regex_matches(pattern: Seq<char>, text: Seq<char>) -> bool;

/// Where the leftmost match of `pattern` in `text` has its capture group
/// `name`: the text before it, the captured text, and the text after it.
pub uninterp spec fn regex_capture(pattern: Seq<char>, name: Seq<char>, text: Seq<char>) -> Option<
    (Seq<char>, Seq<char>, Seq<char>),
>;

/// `text` with every match of `pattern` replaced by `replacement`.
pub uninterp spec fn regex_replaced(pattern: Seq<char>, text: Seq<char>, replacement: Seq<char>) -> Seq<char>;

/// Relies on `regex::Regex::new`: compiles the pattern, or reports why not.
#[verifier::external_body]
fn compile(source: &str) -> (r: Result<regex::Regex, regex::Error>)
    ensures
        r is Ok <==> regex_valid(source@),
{
    regex::Regex::new(source)
}

/// A pattern given by configuration was refused.
#[derive(Debug, Clone, Copy, PartialEq, Eq)]
pub enum PatternError {
    /// The regular expression does not compile.
    InvalidRegex,
}

/// A compiled regular expression together with its source text.
pub struct Pattern {
    source: String,
    compiled: regex::Regex,
}

/// The text that stands before an entry pattern when lines carry a source
/// label, as in `label: text`.
pub open spec fn label_prefix() -> Seq<char> {
    seq!['^', '[', '^', ':', ']', '+', ':', ' ']
}

impl Pattern {
    /// The source text of the regular expression.
    pub closed spec fn view(&self) -> Seq<char> {
        self.source@
    }

    /// Compiles `source` as it stands.
    pub fn new(source: &str) -> (r: Result<Pattern, PatternError>)
        ensures
            match r {
                Ok(p) => p@ == source@ && regex_valid(source@),
                Err(e) => e == PatternError::InvalidRegex && !regex_valid(source@),
            },
    {
        match compile(source) {
            Ok(compiled) => Ok(Pattern { source: source.to_owned(), compiled }),
            Err(_) => Err(PatternError::InvalidRegex),
        }
    }

    /// Compiles `source` so that it only matches at the start of a line.
    pub fn anchored(source: &str) -> (r: Result<Pattern, PatternError>)
        ensures
            match r {
                Ok(p) => p@ == seq!['^'] + source@,
                Err(e) => e == PatternError::InvalidRegex && !regex_valid(seq!['^'] + source@),
            },
    {
        let mut s = String::new();
        append(&mut s, "^");
        append(&mut s, source);
        proof {
            reveal_strlit("^");
            assert(seq!['^'] =~= "^"@);
        }
        Pattern::new(s.as_str())
    }

    /// Compiles `source` so that it matches at the start of a line after a
    /// leading `label: ` token, as merged output writes it.
    pub fn after_label(source: &str) -> (r: Result<Pattern, PatternError>)
        ensures
            match r {
                Ok(p) => p@ == label_prefix() + source@,
                Err(e) => e == PatternError::InvalidRegex && !regex_valid(label_prefix() + source@),
            },
    {
        let mut s = String::new();
        append(&mut s, "^[^:]+: ");
        append(&mut s, source);
        proof {
            reveal_strlit("^[^:]+: ");
            assert(label_prefix() =~= "^[^:]+: "@);
        }
        Pattern::new(s.as_str())
    }

    /// Relies on `regex::Regex::is_match`; the regex was compiled from
    /// `self@` by `Pattern::new`, the only constructor.
    #[verifier::external_body]
    pub(crate) fn is_match(&self, text: &str) -> (r: bool)
        ensures
            r == regex_matches(self@, text@),
    {
        self.compiled.is_match(text)
    }

    /// Relies on `regex::Regex::replace_all`: every non-overlapping match
    /// replaced by `replacement`, with `$name` group references expanded.
    #[verifier::external_body]
    pub(crate) fn replace_all(&self, text: &str, replacement: &str) -> (r: String)
        ensures
            r@ == regex_replaced(self@, text@, replacement@),
    {
        self.compiled.replace_all(text, replacement).into_owned()
    }

    /// Relies on `regex::Regex::captures` and `regex::Captures::name`: the
    /// group `name` of the leftmost match, split out of `text` at the byte
    /// offsets that the match reports.
    #[verifier::external_body]
    pub(crate) fn capture(&self, name: &str, text: &str) -> (r: Option<(String, String, String)>)
        ensures
            match r {
                Some(t) => regex_capture(self@, name@, text@) == Some((t.0@, t.1@, t.2@)) && t.0@
                    + t.1@ + t.2@ == text@,
                None => regex_capture(self@, name@, text@) is None,
            },
    {
        let m = self.compiled.captures(text)?.name(name)?;
        Some((
            text[..m.start()].to_string(),
            m.as_str().to_string(),
            text[m.end()..].to_string(),
        ))
    }
}

} // verus!
