use fancy_regex::Regex;
use vstd::prelude::*;
use vstd::string::StringSliceAdditionalSpecFns;
use vstd::utf8::is_char_boundary;

verus! {

/// A compiled pattern of `fancy_regex`, of which nothing is read.
#[verifier::external_type_specification]
#[verifier::external_body]
pub struct ExRegex(fancy_regex::Regex);

/// The error of `fancy_regex`, of which nothing is read.
#[verifier::external_type_specification]
#[verifier::external_body]
pub struct ExRegexError(fancy_regex::Error);

/// A pattern with its compiled form. The fields are private and only `compile` makes a
/// value, so the compiled form is always what `Regex::new` makes of the source, with the
/// options that `Regex::new` sets.
pub struct Pattern {
    source: String,
    regex: Regex,
}

impl View for Pattern {
    type V = Seq<char>;

    /// The source of the pattern. The compiled form is left out: it is made from the
    /// source alone.
    closed spec fn view(&self) -> Seq<char> {
        self.source@
    }
}

impl Pattern {
    /// The source of the pattern.
    pub fn as_str(&self) -> (source: &str)
        ensures
            source@ == self@,
    {
        self.source.as_str()
    }
}

/// Whether `Regex::new` accepts the pattern.
pub uninterp spec fn regex_compiles(pattern: Seq<char>) -> bool;

/// What `Regex::find_from_pos` reports for a pattern compiled by `Regex::new`, a text and
/// a byte position: `None` where the engine gives up, else the byte range of the first
/// match, if there is one.
pub uninterp spec fn regex_find(pattern: Seq<char>, text: Seq<char>, pos: usize) -> Option<
    Option<(usize, usize)>,
>;

/// What `Regex::find_iter` yields for a pattern compiled by `Regex::new` and a text:
/// `None` where the engine gives up on the way, else the byte ranges of the successive
/// matches.
pub uninterp spec fn regex_find_all(pattern: Seq<char>, text: Seq<char>) -> Option<
    Seq<(usize, usize)>,
>;

/// The characters that `fancy_regex::escape` puts a backslash before.
pub open spec fn escape_marks(c: char) -> bool {
    c == '\\' || c == '.' || c == '+' || c == '*' || c == '?' || c == '(' || c == ')' || c == '|'
        || c == '[' || c == ']' || c == '{' || c == '}' || c == '^' || c == '$' || c == '#'
}

/// A text with a backslash before each of its characters that a pattern reads as more
/// than itself.
pub open spec fn escaped(text: Seq<char>) -> Seq<char>
    decreases text.len(),
{
    if text.len() == 0 {
        Seq::empty()
    } else if escape_marks(text.last()) {
        escaped(text.drop_last()).push('\\').push(text.last())
    } else {
        escaped(text.drop_last()).push(text.last())
    }
}

/// Escapes a literal with `fancy_regex::escape`: a backslash goes before each character
/// that `escape_marks` names, and nothing else changes.
#[verifier::external_body]
pub(crate) fn escape(text: &str) -> (r: String)
    ensures
        r@ == escaped(text@),
{
    fancy_regex::escape(text).into_owned()
}

/// The characters that `regex::escape` puts a backslash before.
pub open spec fn meta_marks(c: char) -> bool {
    escape_marks(c) || c == '&' || c == '-' || c == '~'
}

/// A text with a backslash before each of its characters that `meta_marks` names.
pub open spec fn escaped_meta(text: Seq<char>) -> Seq<char>
    decreases text.len(),
{
    if text.len() == 0 {
        Seq::empty()
    } else if meta_marks(text.last()) {
        escaped_meta(text.drop_last()).push('\\').push(text.last())
    } else {
        escaped_meta(text.drop_last()).push(text.last())
    }
}

/// Escapes a literal with `regex::escape`: a backslash goes before each character that
/// `meta_marks` names, and nothing else changes.
#[verifier::external_body]
pub(crate) fn escape_meta(text: &str) -> (r: String)
    ensures
        r@ == escaped_meta(text@),
{
    regex::escape(text)
}

/// Compiles a pattern with `Regex::new` and keeps its source beside it. Nothing is
/// claimed of which patterns compile; a pattern that comes back has the source given.
#[verifier::external_body]
pub(crate) fn compile(pattern: &str) -> (r: Result<Pattern, fancy_regex::Error>)
    ensures
        r is Ok <==> regex_compiles(pattern@),
        r is Ok ==> r->Ok_0@ == pattern@,
{
    Regex::new(pattern).map(|regex| Pattern { source: pattern.to_string(), regex })
}

/// Searches `text` from byte `pos` with `Regex::find_from_pos`. The result is the one that
/// `regex_find` names for the pattern's source, the text and the position; an error
/// stands for the engine giving up.
#[verifier::external_body]
pub(crate) fn find_from(re: &Pattern, text: &str, pos: usize) -> (r: Result<
    Option<(usize, usize)>,
    fancy_regex::Error,
>)
    requires
        is_char_boundary(text.spec_bytes(), pos as int),
    ensures
        match r {
            Ok(found) => regex_find(re@, text@, pos) == Some(found),
            Err(_) => regex_find(re@, text@, pos) is None,
        },
{
    re.regex.find_from_pos(text, pos).map(|found| found.map(|m| (m.start(), m.end())))
}

/// Collects the matches of `Regex::find_iter` over `text`. The result is the one that
/// `regex_find_all` names for the pattern's source and the text; an error stands for the
/// engine giving up at some match.
#[verifier::external_body]
pub(crate) fn find_all(re: &Pattern, text: &str) -> (r: Result<
    Vec<(usize, usize)>,
    fancy_regex::Error,
>)
    ensures
        match r {
            Ok(spans) => regex_find_all(re@, text@) == Some(spans@),
            Err(_) => regex_find_all(re@, text@) is None,
        },
{
    re.regex.find_iter(text).map(|found| found.map(|m| (m.start(), m.end()))).collect()
}

} // verus!
