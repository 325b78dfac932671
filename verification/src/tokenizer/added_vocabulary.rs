//! The tokens that the user adds to those of the model, and the pattern that finds them
//! in a text.

use crate::tokenizer::encoding::texts;
use crate::tokenizer::pattern::{compile, find_spans, pattern_spans, spans_fit, Pattern};
use crate::tokenizer::Model;
use crate::utils::text::{byte_len, byte_slice, first_char, last_char, same_text, utf8_len};
use vstd::prelude::*;
use vstd::std_specs::cmp::PartialEqSpecImpl;
use vstd::string::StringExecFns;
use vstd::utf8::{decode_utf8, encode_utf8, is_char_boundary};

verus! {

/// A token that the user adds to the vocabulary of the model.
#[derive(Debug, Clone)]
pub struct AddedToken {
    /// The text of the token.
    pub content: String,
    /// Whether the token may only be found as a whole word.
    pub single_word: bool,
}

impl AddedToken {
    /// A token with the given text that may be found inside words.
    pub fn from(content: String) -> (r: AddedToken)
        ensures
            r.content == content,
            !r.single_word,
    {
        AddedToken { content, single_word: false }
    }
}

impl Default for AddedToken {
    fn default() -> (r: AddedToken)
        ensures
            r.content@ == Seq::<char>::empty(),
            !r.single_word,
    {
        AddedToken { content: String::new(), single_word: false }
    }
}

impl PartialEq for AddedToken {
    /// Two added tokens are equal when their texts are.
    fn eq(&self, other: &AddedToken) -> (r: bool) {
        self.content == other.content
    }
}

impl PartialEqSpecImpl for AddedToken {
    open spec fn obeys_eq_spec() -> bool {
        true
    }

    open spec fn eq_spec(&self, other: &AddedToken) -> bool {
        self.content@ == other.content@
    }
}

impl Eq for AddedToken {

}

/// `String::hash` feeds the text of a string to a hasher. Nothing is claimed of what the
/// hasher makes of it.
pub assume_specification<H: std::hash::Hasher>[ <String as std::hash::Hash>::hash::<H> ](
    text: &String,
    state: &mut H,
);

impl std::hash::Hash for AddedToken {
    /// An added token is hashed by its text alone, as it is compared.
    fn hash<H: std::hash::Hasher>(&self, state: &mut H) {
        self.content.hash(state);
    }
}

/// Whether `c` is a word character: a letter, a digit, an underscore or another character
/// that Unicode counts as part of a word.
pub uninterp spec fn word_character(c: char) -> bool;

/// Calls `regex_syntax::is_word_character`, whose result for a character is named
/// `word_character`. That function panics only where the crate was built without its
/// Unicode tables, which this crate does not do.
#[verifier::external_body]
fn is_word_character(c: char) -> (r: bool)
    ensures
        r == word_character(c),
{
    regex_syntax::is_word_character(c)
}

/// Whether `c` has a meaning of its own in a pattern.
pub open spec fn meta_character(c: char) -> bool {
    c == '\\' || c == '.' || c == '+' || c == '*' || c == '?' || c == '(' || c == ')' || c == '|'
        || c == '[' || c == ']' || c == '{' || c == '}' || c == '^' || c == '$' || c == '#' || c
        == '&' || c == '-' || c == '~'
}

/// `text` as a pattern that finds `text` itself: a backslash stands before every
/// character that has a meaning of its own.
pub open spec fn escaped(text: Seq<char>) -> Seq<char>
    decreases text.len(),
{
    if text.len() == 0 {
        Seq::empty()
    } else {
        escaped(text.drop_last()) + if meta_character(text.last()) {
            seq!['\\', text.last()]
        } else {
            seq![text.last()]
        }
    }
}

/// Whether `c` has a meaning of its own in a pattern.
fn is_meta_character(c: char) -> (r: bool)
    ensures
        r == meta_character(c),
{
    c == '\\' || c == '.' || c == '+' || c == '*' || c == '?' || c == '(' || c == ')' || c == '|'
        || c == '[' || c == ']' || c == '{' || c == '}' || c == '^' || c == '$' || c == '#' || c
        == '&' || c == '-' || c == '~'
}

/// `String::push` puts one character at the end of the text.
pub assume_specification[ String::push ](text: &mut String, ch: char)
    ensures
        final(text)@ == old(text)@.push(ch),
;

/// `text` as a pattern that finds `text` itself.
fn escape(text: &str) -> (r: String)
    ensures
        r@ == escaped(text@),
{
    let mut out = String::new();
    proof {
        assert(text@.subrange(0, 0) =~= Seq::empty());
    }
    for c in it: text.chars()
        invariant
            it.seq() == text@,
            out@ == escaped(text@.subrange(0, it.index() as int)),
    {
        let ghost so_far = out@;
        if is_meta_character(c) {
            out.push('\\');
        }
        out.push(c);
        proof {
            let at = it.index() as int;
            assert(text@.subrange(0, at + 1).drop_last() =~= text@.subrange(0, at));
            assert(text@.subrange(0, at + 1).last() == c);
            assert(out@ =~= so_far + if meta_character(c) {
                seq!['\\', c]
            } else {
                seq![c]
            });
        }
    }
    assert(text@.subrange(0, text@.len() as int) =~= text@);
    out
}

/// What stands in a pattern beside a character at the edge of a whole word: the mark of a
/// word boundary where the character is a word character, and nothing where it is not.
pub open spec fn boundary(c: char) -> Seq<char> {
    if word_character(c) {
        seq!['\\', 'b']
    } else {
        Seq::empty()
    }
}

/// The pattern that finds one token.
pub open spec fn alternative(content: Seq<char>, single_word: bool) -> Seq<char> {
    if single_word && content.len() > 0 {
        boundary(content.first()) + escaped(content) + boundary(content.last())
    } else {
        escaped(content)
    }
}

/// The patterns of `tokens`, with a bar between one and the next.
pub open spec fn alternatives(tokens: Seq<(Seq<char>, bool)>) -> Seq<char>
    decreases tokens.len(),
{
    if tokens.len() == 0 {
        Seq::empty()
    } else if tokens.len() == 1 {
        alternative(tokens[0].0, tokens[0].1)
    } else {
        alternatives(tokens.drop_last()) + seq!['|'] + alternative(tokens.last().0, tokens.last().1)
    }
}

/// Appends to `pattern` the pattern that finds one token.
fn push_alternative(pattern: &mut String, content: &str, single_word: bool)
    ensures
        final(pattern)@ == old(pattern)@ + alternative(content@, single_word),
{
    let quoted = escape(content);
    if single_word && !content.is_empty() {
        if is_word_character(first_char(content)) {
            pattern.append("\\b");
        }
        pattern.append(quoted.as_str());
        if is_word_character(last_char(content)) {
            pattern.append("\\b");
        }
        proof {
            reveal_strlit("\\b");
            assert("\\b"@ =~= seq!['\\', 'b']);
            assert(pattern@ =~= old(pattern)@ + alternative(content@, single_word));
        }
    } else {
        pattern.append(quoted.as_str());
    }
}

/// An added token with the id it was given.
pub struct AddedEntry {
    pub content: Seq<char>,
    pub single_word: bool,
    pub id: u32,
}

/// A special token with the id it stands for.
pub struct SpecialEntry {
    pub content: Seq<char>,
    pub id: u32,
}

/// What an `AddedVocabulary` stands for: the added tokens and the special tokens, each in
/// the order in which they came, and the pattern that finds them in a text.
pub struct AddedVocabularyView {
    pub added: Seq<AddedEntry>,
    pub special: Seq<SpecialEntry>,
    pub pattern: Option<Seq<char>>,
}

/// The id of the first of `added` with the text `content`.
pub open spec fn find_added(added: Seq<AddedEntry>, content: Seq<char>) -> Option<u32>
    decreases added.len(),
{
    if added.len() == 0 {
        None
    } else if added.first().content == content {
        Some(added.first().id)
    } else {
        find_added(added.drop_first(), content)
    }
}

/// The text of the last of `added` that was given the id `id`.
pub open spec fn find_content(added: Seq<AddedEntry>, id: u32) -> Option<Seq<char>>
    decreases added.len(),
{
    if added.len() == 0 {
        None
    } else if added.last().id == id {
        Some(added.last().content)
    } else {
        find_content(added.drop_last(), id)
    }
}

/// The id of the first of `special` with the text `content`.
pub open spec fn find_special(special: Seq<SpecialEntry>, content: Seq<char>) -> Option<u32>
    decreases special.len(),
{
    if special.len() == 0 {
        None
    } else if special.first().content == content {
        Some(special.first().id)
    } else {
        find_special(special.drop_first(), content)
    }
}

/// The tokens that the pattern has to find: the added tokens as they were added, then the
/// special tokens. A special token is always to be found as a whole word, also where it
/// stands among the added tokens as one that may be found inside words.
pub open spec fn pattern_tokens(added: Seq<AddedEntry>, special: Seq<SpecialEntry>) -> Seq<
    (Seq<char>, bool),
> {
    added.map_values(
        |e: AddedEntry| (e.content, e.single_word || find_special(special, e.content) is Some),
    ) + special.map_values(|e: SpecialEntry| (e.content, true))
}

/// The pattern that finds any of the added and special tokens, and `None` where there is
/// no token to find.
pub open spec fn split_pattern(added: Seq<AddedEntry>, special: Seq<SpecialEntry>) -> Option<
    Seq<char>,
> {
    let tokens = pattern_tokens(added, special);
    if tokens.len() == 0 {
        None
    } else {
        Some(seq!['('] + alternatives(tokens) + seq![')'])
    }
}

impl AddedVocabularyView {
    /// No token is empty, no text stands twice among the added tokens or among the
    /// special tokens, and the pattern is the one that finds these tokens.
    pub open spec fn wf(self) -> bool {
        &&& forall|i: int| 0 <= i < self.added.len() ==> (#[trigger] self.added[i]).content.len() > 0
        &&& forall|i: int, j: int|
            0 <= i < j < self.added.len() ==> (#[trigger] self.added[i]).content != (
            #[trigger] self.added[j]).content
        &&& forall|i: int|
            0 <= i < self.special.len() ==> (#[trigger] self.special[i]).content.len() > 0
        &&& forall|i: int, j: int|
            0 <= i < j < self.special.len() ==> (#[trigger] self.special[i]).content != (
            #[trigger] self.special[j]).content
        &&& self.pattern == split_pattern(self.added, self.special)
    }

    /// The id that an added token was given.
    pub open spec fn added_id(self, content: Seq<char>) -> Option<u32> {
        find_added(self.added, content)
    }

    /// The text of the added token with the id `id`; the one added last where several
    /// were given that id.
    pub open spec fn added_content(self, id: u32) -> Option<Seq<char>> {
        find_content(self.added, id)
    }

    /// The id that a special token stands for.
    pub open spec fn special_id(self, content: Seq<char>) -> Option<u32> {
        find_special(self.special, content)
    }

    /// Whether `content` is a special token.
    pub open spec fn is_special(self, content: Seq<char>) -> bool {
        find_special(self.special, content) is Some
    }

    /// The id of a piece that the pattern found: that of the special token with this
    /// text, else that of the added token with this text.
    pub open spec fn split_id(self, content: Seq<char>) -> Option<u32> {
        match self.special_id(content) {
            Some(id) => Some(id),
            None => self.added_id(content),
        }
    }
}

/// The tokens that the user has added to those of the model, the ones among them that are
/// special, and the pattern that finds them in a text.
pub struct AddedVocabulary {
    added: Vec<(AddedToken, u32)>,
    special: Vec<(String, u32)>,
    pattern: Option<Finder>,
}

/// The pattern of a vocabulary: compiled when the tokens were last added, or kept as the
/// text that could not be compiled.
enum Finder {
    Compiled(Pattern),
    Refused(String),
}

/// The entries that a list of added tokens with their ids stands for.
pub open spec fn added_entries(added: Seq<(AddedToken, u32)>) -> Seq<AddedEntry> {
    added.map_values(
        |e: (AddedToken, u32)|
            AddedEntry { content: e.0.content@, single_word: e.0.single_word, id: e.1 },
    )
}

/// The entries that a list of special tokens with their ids stands for.
pub open spec fn special_entries(special: Seq<(String, u32)>) -> Seq<SpecialEntry> {
    special.map_values(|e: (String, u32)| SpecialEntry { content: e.0@, id: e.1 })
}

/// The text of a pattern that may be absent.
spec fn text_of(pattern: Option<Finder>) -> Option<Seq<char>> {
    match pattern {
        Some(Finder::Compiled(pattern)) => Some(pattern@),
        Some(Finder::Refused(text)) => Some(text@),
        None => None,
    }
}

impl View for AddedVocabulary {
    type V = AddedVocabularyView;

    closed spec fn view(&self) -> AddedVocabularyView {
        AddedVocabularyView {
            added: added_entries(self.added@),
            special: special_entries(self.special@),
            pattern: text_of(self.pattern),
        }
    }
}

impl AddedVocabulary {
    /// Whether the tokens can be looked for in a text: there is none to find, or the
    /// pattern that finds them could be compiled when the last of them were added.
    pub closed spec fn ready(&self) -> bool {
        !(self.pattern matches Some(Finder::Refused(_)))
    }

    /// Where there is no token to find, there is nothing that could not be compiled.
    pub proof fn lemma_ready_without_tokens(&self)
        requires
            self@.pattern is None,
        ensures
            self.ready(),
    {
    }

    /// A vocabulary without any token.
    pub fn new() -> (r: AddedVocabulary)
        ensures
            r@.added.len() == 0,
            r@.special.len() == 0,
            r@.pattern is None,
            r@.wf(),
            r.ready(),
    {
        AddedVocabulary { added: Vec::new(), special: Vec::new(), pattern: None }
    }

    /// Whether the tokens can be looked for in a text.
    pub fn is_ready(&self) -> (r: bool)
        ensures
            r == self.ready(),
    {
        match &self.pattern {
            Some(Finder::Refused(_)) => false,
            _ => true,
        }
    }

    /// The number of added tokens.
    pub fn len(&self) -> (n: usize)
        ensures
            n == self@.added.len(),
    {
        self.added.len()
    }

    /// The id that the added token `content` was given.
    pub fn added_id(&self, content: &str) -> (r: Option<u32>)
        ensures
            r == self@.added_id(content@),
    {
        let n = self.added.len();
        let mut i: usize = 0;
        assert(added_entries(self.added@).subrange(0, n as int) =~= added_entries(self.added@));
        while i < n
            invariant
                i <= n,
                n == self.added@.len(),
                find_added(added_entries(self.added@), content@) == find_added(
                    added_entries(self.added@).subrange(i as int, n as int),
                    content@,
                ),
            decreases n - i,
        {
            if same_text(self.added[i].0.content.as_str(), content) {
                return Some(self.added[i].1);
            }
            assert(added_entries(self.added@).subrange(i as int, n as int).drop_first()
                =~= added_entries(self.added@).subrange(i + 1, n as int));
            i += 1;
        }
        None
    }

    /// The text of the added token with the id `id`; the one added last where several
    /// were given that id.
    pub fn added_content(&self, id: u32) -> (r: Option<&String>)
        ensures
            match self@.added_content(id) {
                Some(content) => r matches Some(c) && c@ == content,
                None => r is None,
            },
    {
        let mut i: usize = self.added.len();
        assert(added_entries(self.added@).subrange(0, i as int) =~= added_entries(self.added@));
        while i > 0
            invariant
                i <= self.added@.len(),
                find_content(added_entries(self.added@), id) == find_content(
                    added_entries(self.added@).subrange(0, i as int),
                    id,
                ),
            decreases i,
        {
            i -= 1;
            assert(added_entries(self.added@).subrange(0, i + 1).drop_last() =~= added_entries(
                self.added@,
            ).subrange(0, i as int));
            if self.added[i].1 == id {
                return Some(&self.added[i].0.content);
            }
        }
        None
    }

    /// The id that the special token `content` stands for.
    pub fn special_id(&self, content: &str) -> (r: Option<u32>)
        ensures
            r == self@.special_id(content@),
    {
        let n = self.special.len();
        let mut i: usize = 0;
        assert(special_entries(self.special@).subrange(0, n as int) =~= special_entries(
            self.special@,
        ));
        while i < n
            invariant
                i <= n,
                n == self.special@.len(),
                find_special(special_entries(self.special@), content@) == find_special(
                    special_entries(self.special@).subrange(i as int, n as int),
                    content@,
                ),
            decreases n - i,
        {
            if same_text(self.special[i].0.as_str(), content) {
                return Some(self.special[i].1);
            }
            assert(special_entries(self.special@).subrange(i as int, n as int).drop_first()
                =~= special_entries(self.special@).subrange(i + 1, n as int));
            i += 1;
        }
        None
    }

    /// Whether `content` is a special token.
    pub fn is_special(&self, content: &str) -> (r: bool)
        ensures
            r == self@.is_special(content@),
    {
        self.special_id(content).is_some()
    }
}

/// The texts and flags of a list of tokens.
pub open spec fn added_token_views(tokens: Seq<AddedToken>) -> Seq<(Seq<char>, bool)> {
    tokens.map_values(|t: AddedToken| (t.content@, t.single_word))
}

/// The id that a text stands for: that of the added token with this text, else that of
/// the token of the model.
pub open spec fn resolved<M: Model>(added: Seq<AddedEntry>, content: Seq<char>, model: &M) -> Option<
    u32,
> {
    match find_added(added, content) {
        Some(id) => Some(id),
        None => model.vocab_id(content),
    }
}

/// The added tokens after one more token was offered. A token that is empty, or whose
/// text stands for an id already, is passed over; any other is added with the id that
/// follows the ids of the model and of the tokens added before.
pub open spec fn offered<M: Model>(
    added: Seq<AddedEntry>,
    content: Seq<char>,
    single_word: bool,
    model: &M,
) -> Seq<AddedEntry> {
    if content.len() == 0 || resolved(added, content, model) is Some {
        added
    } else {
        added.push(
            AddedEntry { content, single_word, id: (model.vocab_size() + added.len()) as u32 },
        )
    }
}

/// The added tokens after `tokens` were offered one after the other.
pub open spec fn offered_all<M: Model>(
    added: Seq<AddedEntry>,
    tokens: Seq<(Seq<char>, bool)>,
    model: &M,
) -> Seq<AddedEntry>
    decreases tokens.len(),
{
    if tokens.len() == 0 {
        added
    } else {
        offered(
            offered_all(added, tokens.drop_last(), model),
            tokens.last().0,
            tokens.last().1,
            model,
        )
    }
}

/// Whether the ids fit that offering `tokens` hands out: no token is added, or the id of
/// the last token that is added fits.
pub open spec fn ids_fit<M: Model>(
    added: Seq<AddedEntry>,
    tokens: Seq<(Seq<char>, bool)>,
    model: &M,
) -> bool {
    let after = offered_all(added, tokens, model);
    after.len() == added.len() || model.vocab_size() + after.len() - 1 <= u32::MAX
}

/// The special tokens after one more text was marked as special. A text that is empty,
/// that stands for no id, or that is special already is passed over.
pub open spec fn marked<M: Model>(
    special: Seq<SpecialEntry>,
    added: Seq<AddedEntry>,
    content: Seq<char>,
    model: &M,
) -> Seq<SpecialEntry> {
    match resolved(added, content, model) {
        Some(id) => if content.len() == 0 || find_special(special, content) is Some {
            special
        } else {
            special.push(SpecialEntry { content, id })
        },
        None => special,
    }
}

/// The special tokens after `contents` were marked as special one after the other.
pub open spec fn marked_all<M: Model>(
    special: Seq<SpecialEntry>,
    added: Seq<AddedEntry>,
    contents: Seq<Seq<char>>,
    model: &M,
) -> Seq<SpecialEntry>
    decreases contents.len(),
{
    if contents.len() == 0 {
        special
    } else {
        marked(
            marked_all(special, added, contents.drop_last(), model),
            added,
            contents.last(),
            model,
        )
    }
}

/// No text is found among entries of which none has it, and the other way round.
pub proof fn lemma_find_added(added: Seq<AddedEntry>, content: Seq<char>)
    ensures
        find_added(added, content) is None <==> forall|i: int|
            0 <= i < added.len() ==> (#[trigger] added[i]).content != content,
        find_added(added, content) matches Some(id) ==> exists|i: int|
            0 <= i < added.len() && (#[trigger] added[i]).content == content && added[i].id == id,
    decreases added.len(),
{
    if added.len() > 0 {
        let rest = added.drop_first();
        lemma_find_added(rest, content);
        if added.first().content == content {
            assert(added[0].content == content);
        } else {
            if find_added(rest, content) is None {
                assert forall|i: int| 0 <= i < added.len() implies (#[trigger] added[i]).content
                    != content by {
                    if i > 0 {
                        assert(rest[i - 1] == added[i]);
                    }
                }
            } else {
                let w = choose|i: int|
                    0 <= i < rest.len() && (#[trigger] rest[i]).content == content && rest[i].id
                        == find_added(rest, content)->0;
                assert(added[w + 1] == rest[w]);
            }
        }
    }
}

/// No text is found among special tokens of which none has it, and the other way round.
pub proof fn lemma_find_special(special: Seq<SpecialEntry>, content: Seq<char>)
    ensures
        find_special(special, content) is None <==> forall|i: int|
            0 <= i < special.len() ==> (#[trigger] special[i]).content != content,
    decreases special.len(),
{
    if special.len() > 0 {
        let rest = special.drop_first();
        lemma_find_special(rest, content);
        if special.first().content == content {
            assert(special[0].content == content);
        } else {
            if find_special(rest, content) is None {
                assert forall|i: int| 0 <= i < special.len() implies (
                #[trigger] special[i]).content != content by {
                    if i > 0 {
                        assert(rest[i - 1] == special[i]);
                    }
                }
            } else {
                let w = choose|i: int| 0 <= i < rest.len() && (#[trigger] rest[i]).content == content;
                assert(special[w + 1] == rest[w]);
            }
        }
    }
}

impl AddedVocabulary {
    /// The lists of tokens are in order: no token is empty and no text stands twice.
    spec fn lists_wf(&self) -> bool {
        (AddedVocabularyView {
            pattern: split_pattern(self@.added, self@.special),
            ..self@
        }).wf()
    }

    /// Offers `tokens` to the vocabulary, and returns how many of them were added.
    pub fn add_tokens<M: Model>(&mut self, tokens: &[AddedToken], model: &M) -> (count: usize)
        requires
            old(self)@.wf(),
            ids_fit(old(self)@.added, added_token_views(tokens@), model),
        ensures
            final(self)@.wf(),
            final(self)@.added == offered_all(old(self)@.added, added_token_views(tokens@), model),
            final(self)@.special == old(self)@.special,
            count == final(self)@.added.len() - old(self)@.added.len(),
    {
        self.try_add_tokens(tokens, model).unwrap()
    }

    /// Offers `tokens` to the vocabulary as `add_tokens` does, for every vocabulary and
    /// model: where the ids that this hands out do not all fit, no token is added and the
    /// vocabulary stays as it is.
    pub fn try_add_tokens<M: Model>(&mut self, tokens: &[AddedToken], model: &M) -> (r: Option<
        usize,
    >)
        requires
            old(self)@.wf(),
        ensures
            final(self)@.wf(),
            r is None <==> !ids_fit(old(self)@.added, added_token_views(tokens@), model),
            r is None ==> final(self)@ == old(self)@ && final(self).ready() == old(self).ready(),
            r matches Some(count) ==> {
                &&& final(self)@.added == offered_all(
                    old(self)@.added,
                    added_token_views(tokens@),
                    model,
                )
                &&& final(self)@.special == old(self)@.special
                &&& count == final(self)@.added.len() - old(self)@.added.len()
            },
    {
        let ghost before = self@;
        let ghost offers = added_token_views(tokens@);
        let n = tokens.len();
        let size = model.get_vocab_size();
        let taken = self.added.len();
        let mut count: usize = 0;
        let mut i: usize = 0;
        assert(offers.subrange(0, 0) =~= Seq::empty());
        assert(self.added@.subrange(0, taken as int) =~= self.added@);
        while i < n
            invariant
                i <= n,
                n == tokens@.len(),
                offers == added_token_views(tokens@),
                size == model.vocab_size(),
                before == old(self)@,
                before.wf(),
                taken == old(self).added@.len(),
                self.added@.len() == taken + count,
                self.lists_wf(),
                count <= i,
                self@.added.len() == before.added.len() + count,
                count == 0 || size + self@.added.len() - 1 <= u32::MAX,
                self@.added == offered_all(before.added, offers.subrange(0, i as int), model),
                self@.special == before.special,
                self.added@.subrange(0, taken as int) == old(self).added@,
                self.special == old(self).special,
                self.pattern == old(self).pattern,
            decreases n - i,
        {
            let content = tokens[i].content.as_str();
            let ghost so_far = self@.added;
            assert(offers.subrange(0, i + 1).drop_last() =~= offers.subrange(0, i as int));
            assert(offers.subrange(0, i + 1).last() == (content@, tokens@[i as int].single_word));
            let known = content.is_empty() || self.added_id(content).is_some()
                || model.token_to_id(content).is_some();
            if !known {
                if size > 0xffff_ffff || self.added.len() > 0xffff_ffff - size {
                    proof {
                        // the token would be added, so the tokens added in the end would
                        // be more than those added so far, and the id of the last of
                        // them would not fit
                        let next = offered_all(before.added, offers.subrange(0, i + 1), model);
                        let rest = offers.subrange(i + 1, n as int);
                        assert(offers.subrange(0, i + 1) + rest =~= offers);
                        lemma_offered_all_concat(
                            before.added,
                            offers.subrange(0, i + 1),
                            rest,
                            model,
                        );
                        lemma_offered_all_grows(next, rest, model);
                        assert(next.len() == so_far.len() + 1);
                    }
                    self.added.truncate(taken);
                    assert(self.added@ =~= old(self).added@);
                    return None;
                }
                let id = (size + self.added.len()) as u32;
                let token = AddedToken {
                    content: tokens[i].content.clone(),
                    single_word: tokens[i].single_word,
                };
                proof {
                    lemma_find_added(so_far, content@);
                }
                let ghost held = self.added@;
                self.added.push((token, id));
                count += 1;
                assert(self@.added =~= so_far.push(
                    AddedEntry { content: content@, single_word: tokens@[i as int].single_word, id },
                ));
                assert(self.added@.subrange(0, taken as int) =~= held.subrange(0, taken as int));
            }
            i += 1;
        }
        assert(offers.subrange(0, n as int) =~= offers);
        self.refresh_added_tokens();
        Some(count)
    }

    /// Offers `tokens` to the vocabulary as `add_tokens` does, then marks as special each
    /// of them that stands for an id. A special token is found as a whole word only.
    /// Returns how many tokens were added.
    pub fn add_special_tokens<M: Model>(&mut self, tokens: &[String], model: &M) -> (count: usize)
        requires
            old(self)@.wf(),
            ids_fit(old(self)@.added, texts(tokens@).map_values(|t: Seq<char>| (t, false)), model),
        ensures
            final(self)@.wf(),
            final(self)@.added == offered_all(
                old(self)@.added,
                texts(tokens@).map_values(|t: Seq<char>| (t, false)),
                model,
            ),
            final(self)@.special == marked_all(
                old(self)@.special,
                final(self)@.added,
                texts(tokens@),
                model,
            ),
            count == final(self)@.added.len() - old(self)@.added.len(),
    {
        self.try_add_special_tokens(tokens, model).unwrap()
    }

    /// Offers `tokens` to the vocabulary and marks them as special as `add_special_tokens`
    /// does, for every vocabulary and model: where the ids that this hands out do not all
    /// fit, no token is added or marked and the vocabulary stays as it is.
    pub fn try_add_special_tokens<M: Model>(&mut self, tokens: &[String], model: &M) -> (r: Option<
        usize,
    >)
        requires
            old(self)@.wf(),
        ensures
            final(self)@.wf(),
            r is None <==> !ids_fit(
                old(self)@.added,
                texts(tokens@).map_values(|t: Seq<char>| (t, false)),
                model,
            ),
            r is None ==> final(self)@ == old(self)@ && final(self).ready() == old(self).ready(),
            r matches Some(count) ==> {
                &&& final(self)@.added == offered_all(
                    old(self)@.added,
                    texts(tokens@).map_values(|t: Seq<char>| (t, false)),
                    model,
                )
                &&& final(self)@.special == marked_all(
                    old(self)@.special,
                    final(self)@.added,
                    texts(tokens@),
                    model,
                )
                &&& count == final(self)@.added.len() - old(self)@.added.len()
            },
    {
        let n = tokens.len();
        let mut wrapped: Vec<AddedToken> = Vec::new();
        let mut k: usize = 0;
        while k < n
            invariant
                k <= n,
                n == tokens@.len(),
                added_token_views(wrapped@) == texts(tokens@).map_values(
                    |t: Seq<char>| (t, false),
                ).subrange(0, k as int),
            decreases n - k,
        {
            let token = AddedToken::from(tokens[k].clone());
            let ghost so_far = wrapped@;
            wrapped.push(token);
            k += 1;
            assert(added_token_views(wrapped@) =~= added_token_views(so_far).push(
                (tokens@[k - 1]@, false),
            ));
            assert(added_token_views(wrapped@) =~= texts(tokens@).map_values(
                |t: Seq<char>| (t, false),
            ).subrange(0, k as int));
        }
        assert(added_token_views(wrapped@) =~= texts(tokens@).map_values(
            |t: Seq<char>| (t, false),
        ));
        let count = match self.try_add_tokens(wrapped.as_slice(), model) {
            Some(count) => count,
            None => {
                return None;
            },
        };
        let ghost before = self@;
        let ghost contents = texts(tokens@);
        let mut i: usize = 0;
        assert(contents.subrange(0, 0) =~= Seq::empty());
        while i < n
            invariant
                i <= n,
                n == tokens@.len(),
                contents == texts(tokens@),
                self.lists_wf(),
                self@.added == before.added,
                self@.special == marked_all(
                    before.special,
                    before.added,
                    contents.subrange(0, i as int),
                    model,
                ),
            decreases n - i,
        {
            let content = tokens[i].as_str();
            let ghost so_far = self@.special;
            assert(contents.subrange(0, i + 1).drop_last() =~= contents.subrange(0, i as int));
            assert(contents.subrange(0, i + 1).last() == content@);
            let id = match self.added_id(content) {
                Some(id) => Some(id),
                None => model.token_to_id(content),
            };
            if let Some(id) = id {
                if !content.is_empty() && !self.is_special(content) {
                    proof {
                        lemma_find_special(so_far, content@);
                    }
                    self.special.push((tokens[i].clone(), id));
                    assert(self@.special =~= so_far.push(SpecialEntry { content: content@, id }));
                }
            }
            i += 1;
        }
        assert(contents.subrange(0, n as int) =~= contents);
        self.refresh_added_tokens();
        Some(count)
    }

    /// Builds the pattern anew from the lists of tokens.
    fn refresh_added_tokens(&mut self)
        requires
            old(self).lists_wf(),
        ensures
            final(self)@.added == old(self)@.added,
            final(self)@.special == old(self)@.special,
            final(self)@.wf(),
    {
        let n_added = self.added.len();
        let n_special = self.special.len();
        let ghost tokens = pattern_tokens(self@.added, self@.special);
        if n_added == 0 && n_special == 0 {
            self.pattern = None;
            return ;
        }
        let mut pattern = "(".to_owned();
        proof {
            reveal_strlit("(");
            reveal_strlit("|");
            reveal_strlit(")");
            assert("("@ =~= seq!['(']);
            assert("|"@ =~= seq!['|']);
            assert(")"@ =~= seq![')']);
            assert(tokens.subrange(0, 0) =~= Seq::empty());
            assert(pattern@ =~= seq!['('] + alternatives(tokens.subrange(0, 0)));
        }
        let mut i: usize = 0;
        while i < n_added
            invariant
                i <= n_added,
                n_added == self.added@.len(),
                n_special == self.special@.len(),
                tokens == pattern_tokens(self@.added, self@.special),
                "|"@ == seq!['|'],
                pattern@ == seq!['('] + alternatives(tokens.subrange(0, i as int)),
            decreases n_added - i,
        {
            if i > 0 {
                pattern.append("|");
            }
            let content = self.added[i].0.content.as_str();
            let whole_word = self.added[i].0.single_word || self.is_special(content);
            push_alternative(&mut pattern, content, whole_word);
            proof {
                let next = tokens.subrange(0, i + 1);
                assert(next.drop_last() =~= tokens.subrange(0, i as int));
                assert(next.last() == (self.added@[i as int].0.content@, whole_word));
                assert(pattern@ =~= seq!['('] + alternatives(next));
            }
            i += 1;
        }
        let mut j: usize = 0;
        while j < n_special
            invariant
                j <= n_special,
                n_added == self.added@.len(),
                n_special == self.special@.len(),
                tokens == pattern_tokens(self@.added, self@.special),
                "|"@ == seq!['|'],
                pattern@ == seq!['('] + alternatives(tokens.subrange(0, n_added + j)),
            decreases n_special - j,
        {
            if n_added > 0 || j > 0 {
                pattern.append("|");
            }
            push_alternative(&mut pattern, self.special[j].0.as_str(), true);
            proof {
                let next = tokens.subrange(0, n_added + j + 1);
                assert(next.drop_last() =~= tokens.subrange(0, n_added + j));
                assert(next.last() == (self.special@[j as int].0@, true));
                assert(pattern@ =~= seq!['('] + alternatives(next));
            }
            j += 1;
        }
        pattern.append(")");
        assert(tokens.subrange(0, n_added + n_special) =~= tokens);
        self.pattern = Some(
            match compile(pattern.as_str()) {
                Some(compiled) => Finder::Compiled(compiled),
                None => Finder::Refused(pattern),
            },
        );
    }
}

/// A piece of a text: the bytes from `start` to `end`, and whether the pattern found
/// them.
pub struct Cut {
    pub start: usize,
    pub end: usize,
    pub matched: bool,
}

/// Where the last of `spans` ends, and 0 where there is none.
pub open spec fn cursor(spans: Seq<(usize, usize)>) -> usize {
    if spans.len() == 0 {
        0
    } else {
        spans.last().1
    }
}

/// The pieces up to the end of the last span: each span, and before it what lies between
/// it and the span before, if anything does.
pub open spec fn cuts_through(spans: Seq<(usize, usize)>) -> Seq<Cut>
    decreases spans.len(),
{
    if spans.len() == 0 {
        Seq::empty()
    } else {
        let before = spans.drop_last();
        let gap = if cursor(before) < spans.last().0 {
            seq![Cut { start: cursor(before), end: spans.last().0, matched: false }]
        } else {
            Seq::empty()
        };
        cuts_through(before) + gap + seq![
            Cut { start: spans.last().0, end: spans.last().1, matched: true },
        ]
    }
}

/// The pieces into which `spans` cut a text of `len` bytes: the spans and what lies
/// between them, before the first and after the last; the whole text where there is no
/// span.
pub open spec fn cuts(spans: Seq<(usize, usize)>, len: usize) -> Seq<Cut> {
    if spans.len() == 0 {
        seq![Cut { start: 0, end: len, matched: false }]
    } else if cursor(spans) < len {
        cuts_through(spans) + seq![Cut { start: cursor(spans), end: len, matched: false }]
    } else {
        cuts_through(spans)
    }
}

/// The texts of a list of pieces, each with its id.
pub open spec fn piece_views(pieces: Seq<(String, Option<u32>)>) -> Seq<(Seq<char>, Option<u32>)> {
    pieces.map_values(|p: (String, Option<u32>)| (p.0@, p.1))
}

impl AddedVocabularyView {
    /// The text of a piece of `text`, with the id of the token that it is: a piece that
    /// the pattern found has the id that its text stands for, any other has none.
    pub open spec fn piece(self, text: Seq<char>, cut: Cut) -> (Seq<char>, Option<u32>) {
        let content = decode_utf8(encode_utf8(text).subrange(cut.start as int, cut.end as int));
        (
            content,
            if cut.matched {
                self.split_id(content)
            } else {
                None
            },
        )
    }

    /// The pieces into which `spans` cut `text`.
    pub open spec fn pieces(self, text: Seq<char>, spans: Seq<(usize, usize)>) -> Seq<
        (Seq<char>, Option<u32>),
    > {
        cuts(spans, utf8_len(text) as usize).map_values(|c: Cut| self.piece(text, c))
    }

    /// The pieces into which the added and special tokens cut `text`: the whole text
    /// where there is no token to find.
    pub open spec fn split(self, text: Seq<char>) -> Seq<(Seq<char>, Option<u32>)> {
        match self.pattern {
            None => seq![(text, None)],
            Some(pattern) => self.pieces(text, pattern_spans(pattern, text)),
        }
    }
}

/// The texts of `pieces`, one after the other.
pub open spec fn concat_texts(pieces: Seq<(Seq<char>, Option<u32>)>) -> Seq<char>
    decreases pieces.len(),
{
    if pieces.len() == 0 {
        Seq::empty()
    } else {
        concat_texts(pieces.drop_last()) + pieces.last().0
    }
}

/// The texts of a single piece are its text.
proof fn lemma_concat_one(pieces: Seq<(Seq<char>, Option<u32>)>)
    requires
        pieces.len() == 1,
    ensures
        concat_texts(pieces) == pieces[0].0,
{
    let none = Seq::<(Seq<char>, Option<u32>)>::empty();
    assert(pieces.drop_last() =~= none);
    assert(concat_texts(none) == Seq::<char>::empty());
    assert(concat_texts(pieces) == concat_texts(none) + pieces.last().0);
    assert(concat_texts(pieces) =~= pieces[0].0);
}

/// The texts of two lists of pieces, one list after the other, are the texts of the first
/// followed by the texts of the second.
pub proof fn lemma_concat_texts(
    a: Seq<(Seq<char>, Option<u32>)>,
    b: Seq<(Seq<char>, Option<u32>)>,
)
    ensures
        concat_texts(a + b) == concat_texts(a) + concat_texts(b),
    decreases b.len(),
{
    if b.len() == 0 {
        assert(a + b =~= a);
        assert(concat_texts(a) + concat_texts(b) =~= concat_texts(a));
    } else {
        lemma_concat_texts(a, b.drop_last());
        assert((a + b).drop_last() =~= a + b.drop_last());
        assert((a + b).last() == b.last());
        assert(concat_texts(a + b) =~= concat_texts(a) + concat_texts(b));
    }
}

/// Two pieces of a text that meet at a character boundary decode to what the two of them
/// together decode to.
proof fn lemma_decode_join(bytes: Seq<u8>, a: int, b: int, c: int)
    requires
        vstd::utf8::valid_utf8(bytes),
        0 <= a <= b <= c <= bytes.len(),
        is_char_boundary(bytes, a),
        is_char_boundary(bytes, b),
        is_char_boundary(bytes, c),
    ensures
        decode_utf8(bytes.subrange(a, b)) + decode_utf8(bytes.subrange(b, c)) == decode_utf8(
            bytes.subrange(a, c),
        ),
{
    let upto = bytes.subrange(0, c);
    vstd::utf8::valid_utf8_split(bytes, c);
    crate::utils::text::lemma_boundary_in_prefix(bytes, a, c);
    crate::utils::text::lemma_boundary_in_prefix(bytes, b, c);
    vstd::utf8::valid_utf8_split(upto, a);
    let from = upto.subrange(a, c);
    assert(from =~= bytes.subrange(a, c));
    // the boundary `b` of the whole is the boundary `b - a` of what starts at `a`
    assert(is_char_boundary(from, b - a)) by {
        if b == a {
        } else if b == c {
            vstd::utf8::is_char_boundary_start_end_of_seq(from);
        } else {
            vstd::utf8::is_char_boundary_iff_not_is_continuation_byte(bytes, b);
            vstd::utf8::is_char_boundary_iff_not_is_continuation_byte(from, b - a);
        }
    }
    vstd::utf8::decode_utf8_split(from, b - a);
    assert(from.subrange(0, b - a) =~= bytes.subrange(a, b));
    assert(from.subrange(b - a, from.len() as int) =~= bytes.subrange(b, c));
}

/// The pieces up to the end of the last span are the text up to there.
proof fn lemma_cuts_through_cover(v: AddedVocabularyView, text: Seq<char>, spans: Seq<(usize, usize)>)
    requires
        spans_fit(spans, text),
    ensures
        concat_texts(cuts_through(spans).map_values(|c: Cut| v.piece(text, c))) == decode_utf8(
            encode_utf8(text).subrange(0, cursor(spans) as int),
        ),
        cursor(spans) <= utf8_len(text),
        is_char_boundary(encode_utf8(text), cursor(spans) as int),
    decreases spans.len(),
{
    let bytes = encode_utf8(text);
    vstd::utf8::encode_utf8_valid_utf8(text);
    vstd::utf8::is_char_boundary_start_end_of_seq(bytes);
    let pieces = cuts_through(spans).map_values(|c: Cut| v.piece(text, c));
    if spans.len() == 0 {
        assert(pieces =~= Seq::empty());
        assert(bytes.subrange(0, 0) =~= Seq::<u8>::empty());
        assert(decode_utf8(Seq::<u8>::empty()) =~= Seq::<char>::empty());
    } else {
        let before = spans.drop_last();
        let last = spans.last();
        assert(last == spans[spans.len() - 1]);
        assert(spans_fit(before, text)) by {
            assert forall|i: int| 0 <= i < before.len() implies {
                &&& (#[trigger] before[i]).0 <= before[i].1 <= utf8_len(text)
                &&& is_char_boundary(bytes, before[i].0 as int)
                &&& is_char_boundary(bytes, before[i].1 as int)
            } by {
                assert(before[i] == spans[i]);
            }
            assert forall|i: int, j: int| 0 <= i < j < before.len() implies (
            #[trigger] before[i]).1 <= (#[trigger] before[j]).0 by {
                assert(before[i] == spans[i]);
                assert(before[j] == spans[j]);
            }
        }
        lemma_cuts_through_cover(v, text, before);
        let at = cursor(before);
        if before.len() > 0 {
            assert(before.last() == spans[spans.len() - 2]);
            assert(spans[spans.len() - 2].1 <= spans[spans.len() - 1].0);
        }
        assert(at <= last.0);
        let done = cuts_through(before).map_values(|c: Cut| v.piece(text, c));
        let found = seq![v.piece(text, Cut { start: last.0, end: last.1, matched: true })];
        if at < last.0 {
            let gap = seq![v.piece(text, Cut { start: at, end: last.0, matched: false })];
            assert(pieces =~= (done + gap) + found);
            lemma_concat_texts(done + gap, found);
            lemma_concat_texts(done, gap);
            lemma_concat_one(gap);
            lemma_concat_one(found);
            lemma_decode_join(bytes, 0, at as int, last.0 as int);
            lemma_decode_join(bytes, 0, last.0 as int, last.1 as int);
        } else {
            assert(pieces =~= done + found);
            lemma_concat_texts(done, found);
            lemma_concat_one(found);
            lemma_decode_join(bytes, 0, last.0 as int, last.1 as int);
        }
    }
}

/// The pieces into which spans cut a text are the text: put one after the other, they
/// give it back.
pub proof fn lemma_pieces_cover(v: AddedVocabularyView, text: Seq<char>, spans: Seq<(usize, usize)>)
    requires
        spans_fit(spans, text),
        utf8_len(text) <= usize::MAX,
    ensures
        concat_texts(v.pieces(text, spans)) == text,
{
    let bytes = encode_utf8(text);
    let len = utf8_len(text) as usize;
    vstd::utf8::encode_utf8_valid_utf8(text);
    vstd::utf8::encode_utf8_decode_utf8(text);
    vstd::utf8::is_char_boundary_start_end_of_seq(bytes);
    assert(bytes.subrange(0, bytes.len() as int) =~= bytes);
    let pieces = v.pieces(text, spans);
    if spans.len() == 0 {
        lemma_concat_one(pieces);
    } else {
        lemma_cuts_through_cover(v, text, spans);
        let through = cuts_through(spans).map_values(|c: Cut| v.piece(text, c));
        if cursor(spans) < len {
            let rest = seq![v.piece(text, Cut { start: cursor(spans), end: len, matched: false })];
            assert(pieces =~= through + rest);
            lemma_concat_texts(through, rest);
            lemma_concat_one(rest);
            lemma_decode_join(bytes, 0, cursor(spans) as int, len as int);
        } else {
            assert(pieces =~= through);
        }
    }
}

impl AddedVocabulary {
    /// The id of a piece that the pattern found.
    fn split_id(&self, content: &str) -> (r: Option<u32>)
        ensures
            r == self@.split_id(content@),
    {
        match self.special_id(content) {
            Some(id) => Some(id),
            None => self.added_id(content),
        }
    }

    /// One piece of `sentence`.
    fn piece(&self, sentence: &str, start: usize, end: usize, matched: bool) -> (r: (
        String,
        Option<u32>,
    ))
        requires
            start <= end <= utf8_len(sentence@),
            is_char_boundary(encode_utf8(sentence@), start as int),
            is_char_boundary(encode_utf8(sentence@), end as int),
        ensures
            (r.0@, r.1) == self@.piece(sentence@, Cut { start, end, matched }),
    {
        let content = byte_slice(sentence, start, end);
        proof {
            vstd::utf8::encode_utf8_decode_utf8(content@);
        }
        let id = if matched {
            self.split_id(content)
        } else {
            None
        };
        (content.to_owned(), id)
    }

    /// Cuts `sentence` at `spans`: gives the spans and what lies between them, in order,
    /// each span with the id that its text stands for.
    pub fn split_at_spans(&self, sentence: &str, spans: &Vec<(usize, usize)>) -> (r: Vec<
        (String, Option<u32>),
    >)
        requires
            spans_fit(spans@, sentence@),
        ensures
            piece_views(r@) == self@.pieces(sentence@, spans@),
            concat_texts(piece_views(r@)) == sentence@,
    {
        let len = byte_len(sentence);
        let ghost text = sentence@;
        proof {
            lemma_pieces_cover(self@, text, spans@);
            vstd::utf8::encode_utf8_valid_utf8(text);
            vstd::utf8::is_char_boundary_start_end_of_seq(encode_utf8(text));
        }
        let mut pieces: Vec<(String, Option<u32>)> = Vec::new();
        let n = spans.len();
        if n == 0 {
            let whole = self.piece(sentence, 0, len, false);
            pieces.push(whole);
            assert(piece_views(pieces@) =~= self@.pieces(text, spans@));
            return pieces;
        }
        let mut at: usize = 0;
        let mut i: usize = 0;
        assert(spans@.subrange(0, 0) =~= Seq::empty());
        while i < n
            invariant
                i <= n,
                n == spans@.len(),
                text == sentence@,
                len == utf8_len(text),
                spans_fit(spans@, text),
                is_char_boundary(encode_utf8(text), 0),
                at == cursor(spans@.subrange(0, i as int)),
                at <= len,
                is_char_boundary(encode_utf8(text), at as int),
                piece_views(pieces@) == cuts_through(spans@.subrange(0, i as int)).map_values(
                    |c: Cut| self@.piece(text, c),
                ),
            decreases n - i,
        {
            let (start, end) = spans[i];
            let ghost done = spans@.subrange(0, i as int);
            let ghost next = spans@.subrange(0, i + 1);
            let ghost so_far = pieces@;
            proof {
                assert(next.drop_last() =~= done);
                assert(next.last() == spans@[i as int]);
                if i > 0 {
                    assert(done.last() == spans@[i - 1]);
                    assert(spans@[i - 1].1 <= spans@[i as int].0);
                }
            }
            let ghost gap_cut = Cut { start: at, end: start, matched: false };
            let ghost found_cut = Cut { start, end, matched: true };
            let ghost cuts_done = cuts_through(done);
            if at < start {
                let gap = self.piece(sentence, at, start, false);
                pieces.push(gap);
                assert(piece_views(pieces@) =~= piece_views(so_far).push(
                    self@.piece(text, gap_cut),
                ));
                assert(piece_views(pieces@) =~= (cuts_done + seq![gap_cut]).map_values(
                    |c: Cut| self@.piece(text, c),
                ));
            } else {
                assert(cuts_done + Seq::<Cut>::empty() =~= cuts_done);
            }
            let ghost with_gap = pieces@;
            let ghost cuts_gap = if at < start {
                cuts_done + seq![gap_cut]
            } else {
                cuts_done
            };
            let found = self.piece(sentence, start, end, true);
            pieces.push(found);
            assert(piece_views(pieces@) =~= piece_views(with_gap).push(
                self@.piece(text, found_cut),
            ));
            assert(cuts_through(next) =~= cuts_gap + seq![found_cut]);
            assert(piece_views(pieces@) =~= cuts_through(next).map_values(
                |c: Cut| self@.piece(text, c),
            ));
            at = end;
            i += 1;
        }
        assert(spans@.subrange(0, n as int) =~= spans@);
        let ghost through = pieces@;
        if at < len {
            let rest = self.piece(sentence, at, len, false);
            pieces.push(rest);
            assert(piece_views(pieces@) =~= piece_views(through).push(
                self@.piece(text, Cut { start: at, end: len, matched: false }),
            ));
        }
        assert(piece_views(pieces@) =~= self@.pieces(text, spans@));
        pieces
    }

    /// Cuts `sentence` into the added and special tokens found in it and what lies
    /// between them. `None` exactly where the pattern could not be compiled, which cannot
    /// happen where there is no token to find.
    pub fn split_on_added_tokens(&self, sentence: &str) -> (r: Option<Vec<(String, Option<u32>)>>)
        ensures
            r matches Some(found) ==> piece_views(found@) == self@.split(sentence@),
            r matches Some(found) ==> concat_texts(piece_views(found@)) == sentence@,
            r is None <==> !self.ready(),
            r is None ==> self@.pattern is Some,
    {
        match &self.pattern {
            None => {
                let mut pieces: Vec<(String, Option<u32>)> = Vec::new();
                pieces.push((sentence.to_owned(), None));
                assert(piece_views(pieces@) =~= seq![(sentence@, None::<u32>)]);
                proof {
                    lemma_concat_one(piece_views(pieces@));
                }
                Some(pieces)
            },
            Some(Finder::Compiled(pattern)) => {
                let spans = find_spans(pattern, sentence);
                Some(self.split_at_spans(sentence, &spans))
            },
            Some(Finder::Refused(_)) => None,
        }
    }
}

/// A text that stands for an id goes on standing for one when another token is offered.
proof fn lemma_offer_keeps_resolved<M: Model>(
    added: Seq<AddedEntry>,
    content: Seq<char>,
    single_word: bool,
    model: &M,
    other: Seq<char>,
)
    requires
        resolved(added, other, model) is Some,
    ensures
        resolved(offered(added, content, single_word, model), other, model) is Some,
{
    let after = offered(added, content, single_word, model);
    lemma_find_added(added, other);
    lemma_find_added(after, other);
    if find_added(added, other) is Some && after != added {
        let w = choose|i: int|
            0 <= i < added.len() && (#[trigger] added[i]).content == other && added[i].id
                == find_added(added, other)->0;
        assert(after[w] == added[w]);
    }
}

/// A token that was offered is empty or stands for an id.
proof fn lemma_offer_resolves<M: Model>(
    added: Seq<AddedEntry>,
    content: Seq<char>,
    single_word: bool,
    model: &M,
)
    ensures
        content.len() == 0 || resolved(offered(added, content, single_word, model), content, model)
            is Some,
{
    let after = offered(added, content, single_word, model);
    if after != added {
        lemma_find_added(after, content);
        assert(after[added.len() as int].content == content);
    }
}

/// Every one of the tokens that were offered is empty or stands for an id.
proof fn lemma_offered_all_resolve<M: Model>(
    added: Seq<AddedEntry>,
    tokens: Seq<(Seq<char>, bool)>,
    model: &M,
    i: int,
)
    requires
        0 <= i < tokens.len(),
    ensures
        tokens[i].0.len() == 0 || resolved(offered_all(added, tokens, model), tokens[i].0, model)
            is Some,
    decreases tokens.len(),
{
    let before = offered_all(added, tokens.drop_last(), model);
    if i == tokens.len() - 1 {
        lemma_offer_resolves(before, tokens.last().0, tokens.last().1, model);
    } else {
        lemma_offered_all_resolve(added, tokens.drop_last(), model, i);
        assert(tokens.drop_last()[i] == tokens[i]);
        if tokens[i].0.len() > 0 {
            lemma_offer_keeps_resolved(
                before,
                tokens.last().0,
                tokens.last().1,
                model,
                tokens[i].0,
            );
        }
    }
}

/// Offering tokens that are all empty or stand for an id changes nothing.
proof fn lemma_offer_known<M: Model>(
    added: Seq<AddedEntry>,
    tokens: Seq<(Seq<char>, bool)>,
    model: &M,
)
    requires
        forall|i: int|
            0 <= i < tokens.len() ==> (#[trigger] tokens[i]).0.len() == 0 || resolved(
                added,
                tokens[i].0,
                model,
            ) is Some,
    ensures
        offered_all(added, tokens, model) == added,
    decreases tokens.len(),
{
    if tokens.len() > 0 {
        assert forall|i: int| 0 <= i < tokens.drop_last().len() implies (
        #[trigger] tokens.drop_last()[i]).0.len() == 0 || resolved(
            added,
            tokens.drop_last()[i].0,
            model,
        ) is Some by {
            assert(tokens.drop_last()[i] == tokens[i]);
        }
        lemma_offer_known(added, tokens.drop_last(), model);
        assert(tokens.last() == tokens[tokens.len() - 1]);
    }
}

/// Adding the same tokens a second time adds nothing: the added tokens after the second
/// time are those after the first.
pub proof fn lemma_add_tokens_twice<M: Model>(
    added: Seq<AddedEntry>,
    tokens: Seq<(Seq<char>, bool)>,
    model: &M,
)
    ensures
        offered_all(offered_all(added, tokens, model), tokens, model) == offered_all(
            added,
            tokens,
            model,
        ),
{
    let once = offered_all(added, tokens, model);
    assert forall|i: int| 0 <= i < tokens.len() implies (#[trigger] tokens[i]).0.len() == 0
        || resolved(once, tokens[i].0, model) is Some by {
        lemma_offered_all_resolve(added, tokens, model, i);
    }
    lemma_offer_known(once, tokens, model);
}

/// Offering tokens and then more tokens is offering all of them, one after the other.
pub proof fn lemma_offered_all_concat<M: Model>(
    added: Seq<AddedEntry>,
    first: Seq<(Seq<char>, bool)>,
    second: Seq<(Seq<char>, bool)>,
    model: &M,
)
    ensures
        offered_all(added, first + second, model) == offered_all(
            offered_all(added, first, model),
            second,
            model,
        ),
    decreases second.len(),
{
    if second.len() == 0 {
        assert(first + second =~= first);
    } else {
        lemma_offered_all_concat(added, first, second.drop_last(), model);
        assert((first + second).drop_last() =~= first + second.drop_last());
        assert((first + second).last() == second.last());
    }
}

/// Where the ids fit that offering tokens hands out, the same tokens can be offered
/// again: nothing is added then, so no id is handed out.
pub proof fn lemma_add_tokens_again<M: Model>(
    added: Seq<AddedEntry>,
    tokens: Seq<(Seq<char>, bool)>,
    model: &M,
)
    ensures
        ids_fit(offered_all(added, tokens, model), tokens, model),
        offered_all(offered_all(added, tokens, model), tokens, model).len() == offered_all(
            added,
            tokens,
            model,
        ).len(),
{
    lemma_add_tokens_twice(added, tokens, model);
}

/// An empty token is never added.
pub proof fn lemma_add_empty_token<M: Model>(added: Seq<AddedEntry>, single_word: bool, model: &M)
    ensures
        offered_all(added, seq![(Seq::<char>::empty(), single_word)], model) == added,
{
    let tokens = seq![(Seq::<char>::empty(), single_word)];
    assert(tokens.drop_last() =~= Seq::empty());
    assert(offered_all(added, tokens.drop_last(), model) == added);
}

/// Offering tokens never takes an added token away, and adds at most one for each token
/// offered.
pub proof fn lemma_offered_all_grows<M: Model>(
    added: Seq<AddedEntry>,
    tokens: Seq<(Seq<char>, bool)>,
    model: &M,
)
    ensures
        added.len() <= offered_all(added, tokens, model).len() <= added.len() + tokens.len(),
        offered_all(added, tokens, model).subrange(0, added.len() as int) == added,
    decreases tokens.len(),
{
    if tokens.len() > 0 {
        lemma_offered_all_grows(added, tokens.drop_last(), model);
        let before = offered_all(added, tokens.drop_last(), model);
        let after = offered_all(added, tokens, model);
        assert(after.subrange(0, added.len() as int) =~= before.subrange(0, added.len() as int));
    } else {
        assert(added.subrange(0, added.len() as int) =~= added);
    }
}

} // verus!
