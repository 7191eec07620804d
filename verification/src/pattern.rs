//! Regular expressions from the `regex` crate, kept together with the
//! pattern text they were compiled from so that contracts can speak of it.
use vstd::prelude::*;

use regex::Regex;

verus! {

#[verifier::external_type_specification]
#[verifier::external_body]
pub struct ExRegex(regex::Regex);

#[verifier::external_type_specification]
#[verifier::external_body]
pub struct ExRegexError(regex::Error);

/// A compiled regular expression and the pattern text it was compiled from.
/// Only `compile_pattern` builds one, so the two always belong together.
pub struct LinkPattern {
    source: String,
    re: Regex,
}

impl View for LinkPattern {
    type V = Seq<char>;

    closed spec fn view(&self) -> Seq<char> {
        self.source@
    }
}

/// Whether `regex::Regex::new` accepts `pattern`.
pub uninterp spec fn regex_accepts(pattern: Seq<char>) -> bool;

/// What `regex::Regex::is_match` answers for a regex compiled from `pattern`
/// on `haystack`.
pub uninterp spec fn regex_is_match(pattern: Seq<char>, haystack: Seq<char>) -> bool;

/// What `regex::Regex::replace` returns for a regex compiled from `pattern`
/// on `haystack` with the replacement text `replacement`.
pub uninterp spec fn regex_replace(
    pattern: Seq<char>,
    haystack: Seq<char>,
    replacement: Seq<char>,
) -> Seq<char>;

/// A character that stands for itself in a regex (ASCII letters, digits,
/// `:` and `/`), or `.`, which stands for any character but a line feed.
pub open spec fn plain_pattern_char(c: char) -> bool {
    ('a' <= c && c <= 'z') || ('A' <= c && c <= 'Z') || ('0' <= c && c <= '9') || c == ':' || c
        == '/' || c == '.'
}

/// A non-empty pattern made of plain characters only: it matches exactly the
/// windows of its own length whose characters it fits one by one.
pub open spec fn plain_pattern(p: Seq<char>) -> bool {
    p.len() > 0 && forall|j: int| 0 <= j < p.len() ==> plain_pattern_char(#[trigger] p[j])
}

/// Pattern character `pc` fits text character `c`.
pub open spec fn char_fits(pc: char, c: char) -> bool {
    if pc == '.' {
        c != '\n'
    } else {
        pc == c
    }
}

/// The plain pattern `p` fits the text `h` at position `i`.
pub open spec fn matches_at(p: Seq<char>, h: Seq<char>, i: int) -> bool {
    &&& 0 <= i
    &&& i + p.len() <= h.len()
    &&& forall|j: int| 0 <= j < p.len() ==> #[trigger] char_fits(p[j], h[i + j])
}

/// The leftmost position at or after `i` where the plain pattern `p` fits `h`.
pub open spec fn first_match_from(p: Seq<char>, h: Seq<char>, i: int) -> Option<int>
    decreases h.len() - i,
{
    if i < 0 || i + p.len() > h.len() {
        None
    } else if matches_at(p, h, i) {
        Some(i)
    } else {
        first_match_from(p, h, i + 1)
    }
}

/// `h` with the leftmost fit of the plain pattern `p` replaced by `rep`, or
/// `h` itself where `p` fits nowhere.
pub open spec fn replace_first_plain(p: Seq<char>, h: Seq<char>, rep: Seq<char>) -> Seq<char> {
    match first_match_from(p, h, 0) {
        Some(i) => h.take(i) + rep + h.skip(i + p.len()),
        None => h,
    }
}

/// `regex::Regex::new` on `source`. The contract states that success depends
/// on the pattern text alone and that the result keeps that text; which
/// patterns are accepted is left unstated.
#[verifier::external_body]
pub(crate) fn compile_pattern(source: String) -> (r: Result<LinkPattern, regex::Error>)
    ensures
        r is Ok <==> regex_accepts(source@),
        r matches Ok(p) ==> p@ == source@,
{
    match Regex::new(&source) {
        Ok(re) => Ok(LinkPattern { source, re }),
        Err(e) => Err(e),
    }
}

/// `regex::Regex::is_match`: whether the regex matches anywhere in
/// `haystack`. For a plain pattern that is whether it fits some window of
/// the text (literal characters match themselves, `.` any character but a
/// line feed); other patterns are left to the name.
#[verifier::external_body]
pub(crate) fn pattern_is_match(p: &LinkPattern, haystack: &str) -> (b: bool)
    ensures
        b == regex_is_match(p@, haystack@),
        plain_pattern(p@) ==> (b <==> exists|i: int| matches_at(p@, haystack@, i)),
{
    p.re.is_match(haystack)
}

/// `regex::Regex::replace`: `haystack` with its leftmost-first match
/// replaced. For a plain pattern and a replacement without `$` (so without
/// capture-group references) that is the leftmost fitting window replaced by
/// the replacement text, or the haystack unchanged; other cases are left to
/// the name.
#[verifier::external_body]
pub(crate) fn pattern_replace(p: &LinkPattern, haystack: &str, replacement: &str) -> (r: String)
    ensures
        r@ == regex_replace(p@, haystack@, replacement@),
        plain_pattern(p@) && !replacement@.contains('$') ==> r@ == replace_first_plain(
            p@,
            haystack@,
            replacement@,
        ),
{
    p.re.replace(haystack, replacement).into_owned()
}

/// The leftmost fit at or after `k` is the first position from `k` on where
/// the pattern fits.
pub proof fn lemma_first_match_is_leftmost(p: Seq<char>, h: Seq<char>, k: int, i: int)
    requires
        0 <= k <= i,
        matches_at(p, h, i),
        forall|j: int| k <= j < i ==> !matches_at(p, h, j),
    ensures
        first_match_from(p, h, k) == Some(i),
    decreases i - k,
{
    if k < i {
        assert(!matches_at(p, h, k));
        lemma_first_match_is_leftmost(p, h, k + 1, i);
    }
}

} // verus!
