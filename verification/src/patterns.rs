//! Regular expressions, compiled and matched by the `regex` crate.

use vstd::prelude::*;

verus! {

/// A compiled regular expression of the `regex` crate.
#[verifier::external_type_specification]
#[verifier::external_body]
pub struct ExCompiled(regex::Regex);

/// The error of the `regex` crate: a pattern that it does not compile.
#[verifier::external_type_specification]
#[verifier::external_body]
pub struct ExPatternError(regex::Error);

/// What `regex::Regex::new` says of `pattern`: whether the crate compiles it.
pub uninterp spec fn pattern_compiles(pattern: Seq<char>) -> bool;

/// What `regex::Regex::find_iter` yields for `pattern` in `text`: the texts
/// of the successive matches that do not overlap, in the order in which they
/// stand in the text.
pub uninterp spec fn pattern_matches(pattern: Seq<char>, text: Seq<char>) -> Seq<Seq<char>>;

/// What `regex::Regex::is_match` says of `pattern` and `text`: whether the
/// pattern matches anywhere in the text.
pub uninterp spec fn pattern_found(pattern: Seq<char>, text: Seq<char>) -> bool;

/// What `regex::Regex::replace` gives for `pattern`, `text` and `with`: the
/// text with the first match of the pattern replaced.
pub uninterp spec fn pattern_replaced(pattern: Seq<char>, text: Seq<char>, with: Seq<char>) -> Seq<
    char,
>;

/// The views of a vector of strings.
pub open spec fn texts(v: Seq<String>) -> Seq<Seq<char>> {
    Seq::new(v.len(), |i: int| v[i]@)
}

/// A pattern together with what the `regex` crate has compiled it to. Only
/// `compile` makes one, so the two always belong together.
pub struct Pattern {
    source: String,
    compiled: regex::Regex,
}

impl View for Pattern {
    type V = Seq<char>;

    /// The text of the pattern.
    closed spec fn view(&self) -> Seq<char> {
        self.source@
    }
}

/// `regex::Regex::new`: whether the crate compiles the pattern depends on
/// the pattern alone; where it does, the result holds what it has compiled
/// under the text of the pattern.
#[verifier::external_body]
pub(crate) fn compile(source: &str) -> (r: Result<Pattern, regex::Error>)
    ensures
        r is Ok <==> pattern_compiles(source@),
        r matches Ok(p) ==> p@ == source@,
{
    let compiled = regex::Regex::new(source)?;
    Ok(Pattern { source: source.to_string(), compiled })
}

/// `regex::Regex::find_iter`: the text of each match of the pattern in
/// `text`, in order. What the matches are is not stated here; they depend on
/// the pattern and the text alone.
#[verifier::external_body]
pub(crate) fn find_all(pattern: &Pattern, text: &str) -> (found: Vec<String>)
    ensures
        texts(found@) == pattern_matches(pattern@, text@),
{
    pattern.compiled.find_iter(text).map(|m| m.as_str().to_string()).collect()
}

/// `regex::Regex::is_match`: whether the pattern matches somewhere in `text`.
/// That depends on the pattern and the text alone.
#[verifier::external_body]
pub(crate) fn is_match(pattern: &Pattern, text: &str) -> (found: bool)
    ensures
        found == pattern_found(pattern@, text@),
{
    pattern.compiled.is_match(text)
}

/// `regex::Regex::replace`: `text` with the first match of the pattern
/// replaced. That depends on the pattern, the text and the replacement alone.
#[verifier::external_body]
pub(crate) fn replace_first(pattern: &Pattern, text: &str, with: &str) -> (out: String)
    ensures
        out@ == pattern_replaced(pattern@, text@, with@),
{
    pattern.compiled.replace(text, with).into_owned()
}

} // verus!
