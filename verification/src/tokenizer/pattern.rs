//! Patterns that find tokens in a text.

use crate::utils::text::utf8_len;
use vstd::prelude::*;
use vstd::utf8::{encode_utf8, is_char_boundary};

verus! {

/// `regex::Regex`, a compiled pattern. Nothing is known of what is inside one.
#[verifier::external_type_specification]
#[verifier::external_body]
pub struct ExRegex(regex::Regex);

/// The spans that the pattern `pattern` finds in `text`, from left to right, each as the
/// byte offsets of its start and its end.
pub uninterp spec fn pattern_spans(pattern: Seq<char>, text: Seq<char>) -> Seq<(usize, usize)>;

/// Whether `spans` are ranges of `text` that are cut at character boundaries and follow
/// one another without overlap.
pub open spec fn spans_fit(spans: Seq<(usize, usize)>, text: Seq<char>) -> bool {
    &&& forall|i: int|
        0 <= i < spans.len() ==> {
            &&& (#[trigger] spans[i]).0 <= spans[i].1 <= utf8_len(text)
            &&& is_char_boundary(encode_utf8(text), spans[i].0 as int)
            &&& is_char_boundary(encode_utf8(text), spans[i].1 as int)
        }
    &&& forall|i: int, j: int|
        0 <= i < j < spans.len() ==> (#[trigger] spans[i]).1 <= (#[trigger] spans[j]).0
}

/// A pattern, compiled: the text of the pattern with what `compile` made of it. Nothing
/// else makes one, so the two always belong together.
pub struct Pattern {
    text: String,
    compiled: regex::Regex,
}

impl View for Pattern {
    type V = Seq<char>;

    /// The text of the pattern.
    closed spec fn view(&self) -> Seq<char> {
        self.text@
    }
}

/// Calls `regex::Regex::new` on `text` and keeps what it gives together with the text.
/// `None` where the pattern cannot be compiled; whether a pattern is too large to be
/// compiled is left open, since it depends on the machine.
#[verifier::external_body]
pub(crate) fn compile(text: &str) -> (r: Option<Pattern>)
    ensures
        r matches Some(pattern) ==> pattern@ == text@,
{
    match regex::Regex::new(text) {
        Ok(compiled) => Some(Pattern { text: text.to_owned(), compiled }),
        Err(_) => None,
    }
}

/// Collects what `regex::Regex::find_iter` finds in `text`, which is named
/// `pattern_spans`. The matches that `find_iter` gives are successive and do not overlap,
/// and the start and the end of each are offsets into the text that fall on character
/// boundaries, the start not after the end.
#[verifier::external_body]
pub(crate) fn find_spans(pattern: &Pattern, text: &str) -> (found: Vec<(usize, usize)>)
    ensures
        found@ == pattern_spans(pattern@, text@),
        spans_fit(found@, text@),
{
    pattern.compiled.find_iter(text).map(|m| (m.start(), m.end())).collect()
}

} // verus!
