//! The tokenizer and the parts it is built from.
//!
//! A tokenizer takes a text through normalization, pre-tokenization, a model and
//! post-processing. These parts are traits for the user to implement. A part says what it
//! may give for an input by a relation of its own (`normalizes`, `tokenizes`, ...), which
//! it is free to leave open; the contracts of the tokenizer are stated over these
//! relations. So `encode` promises that its result is what the steps of the pipeline,
//! applied one after the other to what the parts gave, make of the input, whatever the
//! parts gave.

pub mod added_vocabulary;
pub mod encoding;
pub mod normalizer;
pub mod pattern;
pub mod word_counts;

pub use crate::tokenizer::added_vocabulary::AddedToken;
pub use crate::tokenizer::encoding::Encoding;
pub use crate::tokenizer::normalizer::{NormalizedString, Range};
pub use crate::tokenizer::word_counts::WordCounts;
pub use crate::utils::padding::{pad_encodings, PaddingDirection, PaddingParams, PaddingStrategy};
pub use crate::utils::truncation::{truncate_encodings, TruncationParams, TruncationStrategy};

use crate::tokenizer::added_vocabulary::{
    added_token_views, concat_texts, ids_fit, lemma_add_tokens_again, lemma_add_tokens_twice,
    marked_all, offered_all, piece_views, resolved, split_pattern,
    AddedVocabulary, AddedVocabularyView,
};
use crate::tokenizer::encoding::{lemma_padded_len, texts, views, EncodingView};
use crate::tokenizer::normalizer::{lemma_identity_converts_to_itself, NormalizedView};
use crate::tokenizer::word_counts::{count_views, overflows, summed};
use crate::utils::text::{byte_len, utf8_len};
use crate::utils::padding::{lemma_longest, longest, pad_target, padded_with};
use crate::utils::truncation::{kept_lengths, pair_len, view_of};
use vstd::prelude::*;
use vstd::string::StringExecFns;

verus! {

/// A byte range, as a start and an end.
pub type Offsets = (usize, usize);

/// What can go wrong in the pipeline. A failure of one of the parts that the tokenizer is
/// built from carries the message of that part.
#[derive(Debug, Clone, PartialEq, Eq)]
pub enum Error {
    NormalizerFailure(String),
    PreTokenizerFailure(String),
    ModelFailure(String),
    PostProcessorFailure(String),
    DecoderFailure(String),
    TrainerFailure(String),
    Io(String),
    /// Truncation cannot reach the length asked for under the strategy chosen.
    SequenceTooShort,
    AlignmentOutOfRange,
    InvalidUtf8,
    /// The pattern that finds the added tokens cannot be compiled.
    PatternFailure,
    /// Truncation leaves no room for the tokens that post-processing adds.
    MaxLengthTooSmall,
    /// The counts of a word in the files of a training text, added up, no longer fit.
    WordCountOverflow,
    /// No ids are left for the special tokens that training gave.
    VocabularyOverflow,
}

/// A token as a model gives it: its id, its text, and the bytes of the normalized text
/// that it covers.
#[derive(Debug, PartialEq)]
pub struct Token {
    pub id: u32,
    pub value: String,
    pub offsets: (usize, usize),
}

/// What a `Token` stands for.
pub struct TokenView {
    pub id: u32,
    pub value: Seq<char>,
    pub offsets: (usize, usize),
}

impl View for Token {
    type V = TokenView;

    open spec fn view(&self) -> TokenView {
        TokenView { id: self.id, value: self.value@, offsets: self.offsets }
    }
}

impl Token {
    /// A token with the given id, text and offsets.
    pub fn new(id: u32, value: String, offsets: (usize, usize)) -> (r: Token)
        ensures
            r@ == (TokenView { id, value: value@, offsets }),
    {
        Token { id, value, offsets }
    }
}

/// The views of a sequence of tokens.
pub open spec fn token_views(tokens: Seq<Token>) -> Seq<TokenView> {
    tokens.map_values(|t: Token| t@)
}

/// The views of a sequence of pre-tokens: the text of each, with its offsets.
pub open spec fn pre_token_views(pre_tokens: Seq<(String, Offsets)>) -> Seq<(Seq<char>, Offsets)> {
    pre_tokens.map_values(|p: (String, Offsets)| (p.0@, p.1))
}

/// Whether every one of `offsets` is a range that ends at `limit` or before.
pub open spec fn all_within(offsets: Seq<Offsets>, limit: int) -> bool {
    forall|i: int| 0 <= i < offsets.len() ==> (#[trigger] offsets[i]).0 <= offsets[i].1 <= limit
}

/// The largest end among `offsets`, and 0 where there is none.
pub open spec fn furthest_end(offsets: Seq<Offsets>) -> int
    decreases offsets.len(),
{
    if offsets.len() == 0 {
        0
    } else {
        let rest = furthest_end(offsets.drop_last());
        if offsets.last().1 > rest {
            offsets.last().1 as int
        } else {
            rest
        }
    }
}

/// The input of an encoding: one sequence, or a pair of them.
#[derive(Debug, Clone)]
pub enum EncodeInput {
    Single(String),
    Dual(String, String),
}

/// Rewrites a text before it is cut into tokens, keeping track of where each byte came
/// from.
pub trait Normalizer {
    /// Whether `after` is something this normalizer may make of `before`. A normalizer
    /// that says nothing of what it does leaves this as it is: anything may come out.
    open spec fn normalizes(&self, before: NormalizedView, after: NormalizedView) -> bool {
        true
    }

    /// Whether this normalizer may fail. A normalizer that does not say so leaves this as it is:
    /// it may.
    open spec fn may_fail(&self) -> bool {
        true
    }

    /// A normalizer edits the normalized text, and never the original.
    fn normalize(&self, normalized: &mut NormalizedString) -> (r: Result<(), String>)
        requires
            old(normalized)@.wf(),
        ensures
            final(normalized)@.wf(),
            final(normalized)@.original == old(normalized)@.original,
            r is Ok ==> self.normalizes(old(normalized)@, final(normalized)@),
            r is Err ==> self.may_fail(),
    ;
}

/// Cuts a normalized text into the pieces that the model works on, and may rewrite the
/// text while doing so.
pub trait PreTokenizer {
    /// Whether this pre-tokenizer may turn `before` into `after` and give `pre_tokens`
    /// for it. A pre-tokenizer that says nothing of what it does leaves this as it is:
    /// anything may come out.
    open spec fn pre_tokenizes(
        &self,
        before: NormalizedView,
        after: NormalizedView,
        pre_tokens: Seq<(Seq<char>, Offsets)>,
    ) -> bool {
        true
    }

    /// Whether this pre-tokenizer may fail. A pre-tokenizer that does not say so leaves this as it is:
    /// it may.
    open spec fn may_fail(&self) -> bool {
        true
    }

    /// A pre-tokenizer may edit the normalized text, and never the original. The offsets
    /// of the pre-tokens are ranges of the normalized text as it is after the call.
    fn pre_tokenize(&self, normalized: &mut NormalizedString) -> (r: Result<
        Vec<(String, Offsets)>,
        String,
    >)
        requires
            old(normalized)@.wf(),
        ensures
            final(normalized)@.wf(),
            final(normalized)@.original == old(normalized)@.original,
            r is Err ==> self.may_fail(),
            r matches Ok(pre_tokens) ==> {
                &&& self.pre_tokenizes(
                    old(normalized)@,
                    final(normalized)@,
                    pre_token_views(pre_tokens@),
                )
                &&& all_within(
                    pre_token_offsets(pre_token_views(pre_tokens@)),
                    utf8_len(final(normalized)@.normalized) as int,
                )
            },
    ;
}

/// The tokenization algorithm with its vocabulary.
pub trait Model {
    /// Whether `tokens` is something this model may give for `pre_tokens`. A model that
    /// says nothing of what it does leaves this as it is: anything may come out.
    open spec fn tokenizes(
        &self,
        pre_tokens: Seq<(Seq<char>, Offsets)>,
        tokens: Seq<TokenView>,
    ) -> bool {
        true
    }

    /// The id of a token of the vocabulary. A model that does not say what its vocabulary
    /// holds leaves this as it is.
    open spec fn vocab_id(&self, token: Seq<char>) -> Option<u32> {
        arbitrary()
    }

    /// The token of an id of the vocabulary. A model that does not say what its
    /// vocabulary holds leaves this as it is.
    open spec fn vocab_token(&self, id: u32) -> Option<Seq<char>> {
        arbitrary()
    }

    /// The number of tokens in the vocabulary. A model that does not say what its
    /// vocabulary holds leaves this as it is.
    open spec fn vocab_size(&self) -> usize {
        arbitrary()
    }

    /// Whether this model may fail. A model that does not say so leaves this as it is:
    /// it may.
    open spec fn may_fail(&self) -> bool {
        true
    }

    /// The offsets of the tokens are ranges of the normalized text, none of which ends
    /// after the last pre-token does.
    fn tokenize(&self, tokens: Vec<(String, Offsets)>) -> (r: Result<Vec<Token>, String>)
        ensures
            r is Err ==> self.may_fail(),
            r matches Ok(out) ==> {
                &&& self.tokenizes(pre_token_views(tokens@), token_views(out@))
                &&& all_within(
                    token_offsets(token_views(out@)),
                    furthest_end(pre_token_offsets(pre_token_views(tokens@))),
                )
            },
    ;

    /// The id of a token of the vocabulary.
    fn token_to_id(&self, token: &str) -> (r: Option<u32>)
        ensures
            r == self.vocab_id(token@),
    ;

    /// The token of an id of the vocabulary.
    fn id_to_token(&self, id: u32) -> (r: Option<String>)
        ensures
            match self.vocab_token(id) {
                Some(token) => r matches Some(t) && t@ == token,
                None => r is None,
            },
    ;

    /// The number of tokens in the vocabulary.
    fn get_vocab_size(&self) -> (r: usize)
        ensures
            r == self.vocab_size(),
    ;
}

/// What post-processing without a post-processor gives: the first encoding alone, or the
/// two one after the other, each with its own offsets.
pub open spec fn default_processed(encoding: EncodingView, pair: Option<EncodingView>) -> EncodingView {
    match pair {
        None => encoding,
        Some(p) => encoding.merged(p, false),
    }
}

/// Turns the encodings of one or two sequences into the final encoding, adding the
/// special tokens that a language model asks for.
pub trait PostProcessor {
    /// The number of tokens that processing adds. A post-processor that does not say how
    /// many it adds leaves this as it is.
    open spec fn added_count(&self, is_pair: bool) -> usize {
        arbitrary()
    }

    /// Whether `out` is something this post-processor may make of the encodings. A
    /// post-processor that says nothing of what it does leaves this as it is: anything may
    /// come out.
    open spec fn processes(
        &self,
        encoding: EncodingView,
        pair: Option<EncodingView>,
        add_special_tokens: bool,
        out: EncodingView,
    ) -> bool {
        true
    }

    /// The number of tokens that processing adds to a single sequence, or to a pair.
    fn added_tokens(&self, is_pair: bool) -> (r: usize)
        ensures
            r == self.added_count(is_pair),
    ;

    /// Whether this post-processor may fail. A post-processor that does not say so leaves this as it is:
    /// it may.
    open spec fn may_fail(&self) -> bool {
        true
    }

    /// Makes one encoding of the encodings of one or two sequences.
    fn process(
        &self,
        encoding: Encoding,
        pair_encoding: Option<Encoding>,
        add_special_tokens: bool,
    ) -> (r: Result<Encoding, String>)
        requires
            encoding@.wf(),
            pair_encoding matches Some(p) ==> p@.wf(),
        ensures
            r matches Ok(out) ==> out@.wf() && self.processes(
                encoding@,
                view_of(pair_encoding),
                add_special_tokens,
                out@,
            ),
            r is Err ==> self.may_fail(),
    ;

    /// Post-processing for a tokenizer without a post-processor.
    fn default_process(
        encoding: Encoding,
        pair_encoding: Option<Encoding>,
        add_special_tokens: bool,
    ) -> (r: Result<Encoding, String>)
        requires
            encoding@.wf(),
            pair_encoding matches Some(p) ==> p@.wf(),
        ensures
            r matches Ok(out) && out@ == default_processed(encoding@, view_of(pair_encoding))
                && out@.wf(),
    {
        let mut encoding = encoding;
        match pair_encoding {
            None => Ok(encoding),
            Some(pair) => {
                encoding.merge_with(pair, false);
                Ok(encoding)
            },
        }
    }
}

/// Joins the texts of tokens into one text.
pub trait Decoder {
    /// Whether `out` is something this decoder may make of `tokens`. A decoder that says
    /// nothing of what it does leaves this as it is: anything may come out.
    open spec fn decodes(&self, tokens: Seq<Seq<char>>, out: Seq<char>) -> bool {
        true
    }

    /// Whether this decoder may fail. A decoder that does not say so leaves this as it is:
    /// it may.
    open spec fn may_fail(&self) -> bool {
        true
    }

    /// Makes one text of the texts of tokens.
    fn decode(&self, tokens: Vec<String>) -> (r: Result<String, String>)
        ensures
            r matches Ok(out) ==> self.decodes(texts(tokens@), out@),
            r is Err ==> self.may_fail(),
    ;
}

/// Stands in the place of a part that a tokenizer does without: as a normalizer it leaves
/// the text as it is, as a pre-tokenizer it gives the whole text as one pre-token, as a
/// post-processor it puts the sequences one after the other, and as a decoder it joins
/// the tokens with spaces.
#[derive(Debug, Clone, Copy)]
pub struct Unused;

impl Normalizer for Unused {
    open spec fn may_fail(&self) -> bool {
        false
    }

    open spec fn normalizes(&self, before: NormalizedView, after: NormalizedView) -> bool {
        after == before
    }

    /// Always succeeds, and leaves the normalized string as it is.
    fn normalize(&self, normalized: &mut NormalizedString) -> (r: Result<(), String>)
        ensures
            r is Ok,
            final(normalized)@ == old(normalized)@,
    {
        Ok(())
    }
}

impl PreTokenizer for Unused {
    open spec fn may_fail(&self) -> bool {
        false
    }

    open spec fn pre_tokenizes(
        &self,
        before: NormalizedView,
        after: NormalizedView,
        pre_tokens: Seq<(Seq<char>, Offsets)>,
    ) -> bool {
        after == before && pre_tokens == seq![
            (before.normalized, (0usize, utf8_len(before.normalized) as usize)),
        ]
    }

    /// Always succeeds: gives the whole normalized text as one pre-token that covers all
    /// of it, and leaves the normalized string as it is.
    fn pre_tokenize(&self, normalized: &mut NormalizedString) -> (r: Result<
        Vec<(String, Offsets)>,
        String,
    >)
        ensures
            r matches Ok(pre_tokens) && pre_token_views(pre_tokens@) == seq![
                (
                    old(normalized)@.normalized,
                    (0usize, utf8_len(old(normalized)@.normalized) as usize),
                ),
            ],
            final(normalized)@ == old(normalized)@,
    {
        let text = normalized.get().to_owned();
        let len = normalized.len();
        let mut pre_tokens: Vec<(String, Offsets)> = Vec::new();
        pre_tokens.push((text, (0, len)));
        assert(pre_token_views(pre_tokens@) =~= seq![
            (normalized@.normalized, (0usize, utf8_len(normalized@.normalized) as usize)),
        ]);
        Ok(pre_tokens)
    }
}

impl PostProcessor for Unused {
    open spec fn may_fail(&self) -> bool {
        false
    }

    open spec fn added_count(&self, is_pair: bool) -> usize {
        0
    }

    open spec fn processes(
        &self,
        encoding: EncodingView,
        pair: Option<EncodingView>,
        add_special_tokens: bool,
        out: EncodingView,
    ) -> bool {
        out == default_processed(encoding, pair)
    }

    fn added_tokens(&self, is_pair: bool) -> (r: usize) {
        0
    }

    /// Always succeeds: gives the first encoding alone, or the two one after the other,
    /// each with its own offsets.
    fn process(
        &self,
        encoding: Encoding,
        pair_encoding: Option<Encoding>,
        add_special_tokens: bool,
    ) -> (r: Result<Encoding, String>)
        ensures
            r matches Ok(out) && out@ == default_processed(encoding@, view_of(pair_encoding)),
    {
        Self::default_process(encoding, pair_encoding, add_special_tokens)
    }
}

impl Decoder for Unused {
    open spec fn may_fail(&self) -> bool {
        false
    }

    open spec fn decodes(&self, tokens: Seq<Seq<char>>, out: Seq<char>) -> bool {
        out == joined(tokens)
    }

    /// Always succeeds: gives the texts of the tokens with a space between one and the
    /// next.
    fn decode(&self, tokens: Vec<String>) -> (r: Result<String, String>)
        ensures
            r matches Ok(out) && out@ == joined(texts(tokens@)),
    {
        Ok(join(&tokens))
    }
}

/// A tokenizer: the parts that make up the pipeline, the tokens added to those of the
/// model, and how to truncate and pad.
pub struct Tokenizer<M, N, PT, PP, D> {
    normalizer: Option<N>,
    pre_tokenizer: Option<PT>,
    model: M,
    post_processor: Option<PP>,
    decoder: Option<D>,
    added_vocabulary: AddedVocabulary,
    trunc: Option<TruncationParams>,
    padding: Option<PaddingParams>,
}

/// What a `Tokenizer` stands for: its parts and its settings.
pub struct TokenizerView<M, N, PT, PP, D> {
    pub normalizer: Option<N>,
    pub pre_tokenizer: Option<PT>,
    pub model: M,
    pub post_processor: Option<PP>,
    pub decoder: Option<D>,
    pub vocabulary: AddedVocabularyView,
    pub truncation: Option<TruncationParams>,
    pub padding: Option<PaddingParams>,
}

impl<M, N, PT, PP, D> View for Tokenizer<M, N, PT, PP, D> {
    type V = TokenizerView<M, N, PT, PP, D>;

    closed spec fn view(&self) -> TokenizerView<M, N, PT, PP, D> {
        TokenizerView {
            normalizer: self.normalizer,
            pre_tokenizer: self.pre_tokenizer,
            model: self.model,
            post_processor: self.post_processor,
            decoder: self.decoder,
            vocabulary: self.added_vocabulary@,
            truncation: self.trunc,
            padding: self.padding,
        }
    }
}

impl<M: Model, N: Normalizer, PT: PreTokenizer, PP: PostProcessor, D: Decoder> TokenizerView<
    M,
    N,
    PT,
    PP,
    D,
> {
    /// The added vocabulary is in order.
    pub open spec fn wf(self) -> bool {
        self.vocabulary.wf()
    }

    /// Whether `e` is a failure that encoding or decoding with this tokenizer can end in:
    /// the failure of a part that is set and may fail, of truncation that is set, or of
    /// the pattern of the added tokens.
    pub open spec fn can_fail_with(self, e: Error) -> bool {
        match e {
            Error::NormalizerFailure(_) => self.normalizer matches Some(part) && part.may_fail(),
            Error::PreTokenizerFailure(_) => self.pre_tokenizer matches Some(part)
                && part.may_fail(),
            Error::ModelFailure(_) => self.model.may_fail(),
            Error::PostProcessorFailure(_) => self.post_processor matches Some(part)
                && part.may_fail(),
            Error::DecoderFailure(_) => self.decoder matches Some(part) && part.may_fail(),
            Error::SequenceTooShort => self.truncation is Some,
            Error::MaxLengthTooSmall => self.truncation is Some,
            Error::PatternFailure => self.vocabulary.pattern is Some,
            _ => false,
        }
    }

    /// Whether `after` is this tokenizer after `tokens` were added: the added tokens are
    /// those after the tokens were offered one after the other, the pattern is the one
    /// that finds them, and nothing else has changed.
    pub open spec fn adds(self, tokens: Seq<(Seq<char>, bool)>, after: Self) -> bool {
        &&& after.wf()
        &&& after.vocabulary.added == offered_all(self.vocabulary.added, tokens, &self.model)
        &&& after.vocabulary.special == self.vocabulary.special
        &&& after == (TokenizerView { vocabulary: after.vocabulary, ..self })
    }

    /// The id that a token stands for: that of the added token with this text, else that
    /// of the token of the model.
    pub open spec fn token_id(self, token: Seq<char>) -> Option<u32> {
        resolved(self.vocabulary.added, token, &self.model)
    }

    /// The token that an id stands for: the added token with this id, else the token of
    /// the model.
    pub open spec fn id_token(self, id: u32) -> Option<Seq<char>> {
        match self.vocabulary.added_content(id) {
            Some(content) => Some(content),
            None => self.model.vocab_token(id),
        }
    }
}

impl<M: Model, N: Normalizer, PT: PreTokenizer, PP: PostProcessor, D: Decoder> Tokenizer<
    M,
    N,
    PT,
    PP,
    D,
> {
    /// A tokenizer with the given model and nothing else.
    pub fn new(model: M) -> (r: Self)
        ensures
            r@.model == model,
            r@.normalizer is None,
            r@.pre_tokenizer is None,
            r@.post_processor is None,
            r@.decoder is None,
            r@.truncation is None,
            r@.padding is None,
            r@.vocabulary.added.len() == 0,
            r@.vocabulary.special.len() == 0,
            r@.vocabulary.pattern is None,
            r@.wf(),
            r.ready(),
    {
        Tokenizer {
            normalizer: None,
            pre_tokenizer: None,
            model,
            post_processor: None,
            decoder: None,
            added_vocabulary: AddedVocabulary::new(),
            trunc: None,
            padding: None,
        }
    }

    /// Sets the normalizer.
    pub fn with_normalizer(&mut self, normalizer: N) -> (r: &Self)
        ensures
            final(self)@ == (TokenizerView { normalizer: Some(normalizer), ..old(self)@ }),
            *r == *final(self),
            final(self).ready() == old(self).ready(),
    {
        self.normalizer = Some(normalizer);
        self
    }

    /// The normalizer, if one is set.
    pub fn get_normalizer(&self) -> (r: Option<&N>)
        ensures
            r matches Some(n) ==> self@.normalizer == Some(*n),
            r is None ==> self@.normalizer is None,
    {
        self.normalizer.as_ref()
    }

    /// Sets the pre-tokenizer.
    pub fn with_pre_tokenizer(&mut self, pre_tokenizer: PT) -> (r: &Self)
        ensures
            final(self)@ == (TokenizerView { pre_tokenizer: Some(pre_tokenizer), ..old(self)@ }),
            *r == *final(self),
            final(self).ready() == old(self).ready(),
    {
        self.pre_tokenizer = Some(pre_tokenizer);
        self
    }

    /// The pre-tokenizer, if one is set.
    pub fn get_pre_tokenizer(&self) -> (r: Option<&PT>)
        ensures
            r matches Some(p) ==> self@.pre_tokenizer == Some(*p),
            r is None ==> self@.pre_tokenizer is None,
    {
        self.pre_tokenizer.as_ref()
    }

    /// Sets the post-processor.
    pub fn with_post_processor(&mut self, post_processor: PP) -> (r: &Self)
        ensures
            final(self)@ == (TokenizerView { post_processor: Some(post_processor), ..old(self)@ }),
            *r == *final(self),
            final(self).ready() == old(self).ready(),
    {
        self.post_processor = Some(post_processor);
        self
    }

    /// The post-processor, if one is set.
    pub fn get_post_processor(&self) -> (r: Option<&PP>)
        ensures
            r matches Some(p) ==> self@.post_processor == Some(*p),
            r is None ==> self@.post_processor is None,
    {
        self.post_processor.as_ref()
    }

    /// Sets the decoder.
    pub fn with_decoder(&mut self, decoder: D) -> (r: &Self)
        ensures
            final(self)@ == (TokenizerView { decoder: Some(decoder), ..old(self)@ }),
            *r == *final(self),
            final(self).ready() == old(self).ready(),
    {
        self.decoder = Some(decoder);
        self
    }

    /// The decoder, if one is set.
    pub fn get_decoder(&self) -> (r: Option<&D>)
        ensures
            r matches Some(d) ==> self@.decoder == Some(*d),
            r is None ==> self@.decoder is None,
    {
        self.decoder.as_ref()
    }

    /// Sets the model. The added tokens keep the ids that they were given.
    pub fn with_model(&mut self, model: M) -> (r: &Self)
        ensures
            final(self)@ == (TokenizerView { model, ..old(self)@ }),
            *r == *final(self),
            final(self).ready() == old(self).ready(),
    {
        self.model = model;
        self
    }

    /// The model.
    pub fn get_model(&self) -> (r: &M)
        ensures
            *r == self@.model,
    {
        &self.model
    }

    /// Sets how to truncate, or not to truncate at all.
    pub fn with_truncation(&mut self, trunc: Option<TruncationParams>) -> (r: &Self)
        ensures
            final(self)@ == (TokenizerView { truncation: trunc, ..old(self)@ }),
            *r == *final(self),
            final(self).ready() == old(self).ready(),
    {
        self.trunc = trunc;
        self
    }

    /// How the tokenizer truncates, if at all.
    pub fn get_truncation(&self) -> (r: Option<&TruncationParams>)
        ensures
            r matches Some(t) ==> self@.truncation == Some(*t),
            r is None ==> self@.truncation is None,
    {
        self.trunc.as_ref()
    }

    /// Sets how to pad, or not to pad at all.
    pub fn with_padding(&mut self, padding: Option<PaddingParams>) -> (r: &Self)
        ensures
            final(self)@ == (TokenizerView { padding, ..old(self)@ }),
            *r == *final(self),
            final(self).ready() == old(self).ready(),
    {
        self.padding = padding;
        self
    }

    /// How the tokenizer pads, if at all.
    pub fn get_padding(&self) -> (r: Option<&PaddingParams>)
        ensures
            r matches Some(p) ==> self@.padding == Some(*p),
            r is None ==> self@.padding is None,
    {
        self.padding.as_ref()
    }

    /// Whether the added tokens can be looked for in a text: there is none to find, or the
    /// pattern that finds them could be compiled when the last of them were added.
    pub closed spec fn ready(&self) -> bool {
        self.added_vocabulary.ready()
    }

    /// Where there is no token to find, there is nothing that could not be compiled.
    pub proof fn lemma_ready_without_tokens(&self)
        requires
            self@.vocabulary.pattern is None,
        ensures
            self.ready(),
    {
        self.added_vocabulary.lemma_ready_without_tokens();
    }

    /// Whether the added tokens can be looked for in a text. Where they cannot, encoding
    /// fails.
    pub fn is_ready(&self) -> (r: bool)
        ensures
            r == self.ready(),
    {
        self.added_vocabulary.is_ready()
    }

    /// The number of tokens of the model, with or without the added tokens.
    pub fn get_vocab_size(&self, with_added_tokens: bool) -> (r: usize)
        requires
            self@.model.vocab_size() + self@.vocabulary.added.len() <= usize::MAX,
        ensures
            r == self@.model.vocab_size() + if with_added_tokens {
                self@.vocabulary.added.len()
            } else {
                0
            },
    {
        self.model.get_vocab_size() + if with_added_tokens {
            self.added_vocabulary.len()
        } else {
            0
        }
    }

    /// The id that a token stands for.
    pub fn token_to_id(&self, token: &str) -> (r: Option<u32>)
        ensures
            r == self@.token_id(token@),
    {
        match self.added_vocabulary.added_id(token) {
            Some(id) => Some(id),
            None => self.model.token_to_id(token),
        }
    }

    /// The token that an id stands for.
    pub fn id_to_token(&self, id: u32) -> (r: Option<String>)
        ensures
            match self@.id_token(id) {
                Some(token) => r matches Some(t) && t@ == token,
                None => r is None,
            },
    {
        match self.added_vocabulary.added_content(id) {
            Some(content) => Some(content.clone()),
            None => self.model.id_to_token(id),
        }
    }

    /// Marks tokens as special, so that decoding can leave them out, after adding those
    /// of them that stand for no id yet. Returns how many tokens were added.
    pub fn add_special_tokens(&mut self, tokens: &[String]) -> (count: usize)
        requires
            old(self)@.wf(),
            ids_fit(
                old(self)@.vocabulary.added,
                texts(tokens@).map_values(|t: Seq<char>| (t, false)),
                &old(self)@.model,
            ),
        ensures
            final(self)@.wf(),
            final(self)@.vocabulary.added == offered_all(
                old(self)@.vocabulary.added,
                texts(tokens@).map_values(|t: Seq<char>| (t, false)),
                &old(self)@.model,
            ),
            final(self)@.vocabulary.special == marked_all(
                old(self)@.vocabulary.special,
                final(self)@.vocabulary.added,
                texts(tokens@),
                &old(self)@.model,
            ),
            final(self)@ == (TokenizerView { vocabulary: final(self)@.vocabulary, ..old(self)@ }),
            count == final(self)@.vocabulary.added.len() - old(self)@.vocabulary.added.len(),
    {
        self.added_vocabulary.add_special_tokens(tokens, &self.model)
    }

    /// Adds tokens to the vocabulary. A token that is empty, or whose text stands for an
    /// id already, is passed over; any other gets the id that follows the ids of the
    /// model and of the tokens added before. Returns how many tokens were added.
    pub fn add_tokens(&mut self, tokens: &[AddedToken]) -> (count: usize)
        requires
            old(self)@.wf(),
            ids_fit(old(self)@.vocabulary.added, added_token_views(tokens@), &old(self)@.model),
        ensures
            final(self)@.wf(),
            final(self)@.vocabulary.added == offered_all(
                old(self)@.vocabulary.added,
                added_token_views(tokens@),
                &old(self)@.model,
            ),
            final(self)@.vocabulary.special == old(self)@.vocabulary.special,
            final(self)@ == (TokenizerView { vocabulary: final(self)@.vocabulary, ..old(self)@ }),
            old(self)@.adds(added_token_views(tokens@), final(self)@),
            count == final(self)@.vocabulary.added.len() - old(self)@.vocabulary.added.len(),
    {
        self.added_vocabulary.add_tokens(tokens, &self.model)
    }

    /// Adds tokens to the vocabulary as `add_tokens` does, whatever the tokenizer holds:
    /// where the ids that this hands out do not all fit, no token is added and the
    /// tokenizer stays as it is.
    pub fn try_add_tokens(&mut self, tokens: &[AddedToken]) -> (r: Option<usize>)
        requires
            old(self)@.wf(),
        ensures
            final(self)@.wf(),
            r is None <==> !ids_fit(
                old(self)@.vocabulary.added,
                added_token_views(tokens@),
                &old(self)@.model,
            ),
            r is None ==> final(self)@ == old(self)@ && final(self).ready() == old(self).ready(),
            r matches Some(count) ==> {
                &&& old(self)@.adds(added_token_views(tokens@), final(self)@)
                &&& final(self)@.vocabulary.special == old(self)@.vocabulary.special
                &&& count == final(self)@.vocabulary.added.len()
                    - old(self)@.vocabulary.added.len()
            },
    {
        self.added_vocabulary.try_add_tokens(tokens, &self.model)
    }

    /// Marks tokens as special as `add_special_tokens` does, whatever the tokenizer holds:
    /// where the ids that this hands out do not all fit, no token is added or marked and
    /// the tokenizer stays as it is.
    pub fn try_add_special_tokens(&mut self, tokens: &[String]) -> (r: Option<usize>)
        requires
            old(self)@.wf(),
        ensures
            final(self)@.wf(),
            r is None <==> !ids_fit(
                old(self)@.vocabulary.added,
                texts(tokens@).map_values(|t: Seq<char>| (t, false)),
                &old(self)@.model,
            ),
            r is None ==> final(self)@ == old(self)@ && final(self).ready() == old(self).ready(),
            r matches Some(count) ==> {
                &&& final(self)@.vocabulary.added == offered_all(
                    old(self)@.vocabulary.added,
                    texts(tokens@).map_values(|t: Seq<char>| (t, false)),
                    &old(self)@.model,
                )
                &&& final(self)@.vocabulary.special == marked_all(
                    old(self)@.vocabulary.special,
                    final(self)@.vocabulary.added,
                    texts(tokens@),
                    &old(self)@.model,
                )
                &&& final(self)@ == (TokenizerView {
                    vocabulary: final(self)@.vocabulary,
                    ..old(self)@
                })
                &&& count == final(self)@.vocabulary.added.len()
                    - old(self)@.vocabulary.added.len()
            },
    {
        self.added_vocabulary.try_add_special_tokens(tokens, &self.model)
    }
}

/// The encoding of the tokens that a model gave for a piece of the sequence `type_id`:
/// one entry for each token, none of them special, all of them to be attended to.
pub open spec fn encoding_of(tokens: Seq<TokenView>, type_id: u32) -> EncodingView {
    EncodingView {
        ids: tokens.map_values(|t: TokenView| t.id),
        type_ids: Seq::new(tokens.len(), |i: int| type_id),
        tokens: tokens.map_values(|t: TokenView| t.value),
        offsets: tokens.map_values(|t: TokenView| t.offsets),
        special_tokens_mask: Seq::new(tokens.len(), |i: int| 0u32),
        attention_mask: Seq::new(tokens.len(), |i: int| 1u32),
        overflowing: Seq::empty(),
    }
}

/// The encoding of a piece that is an added token: the one token, which covers the whole
/// piece.
pub open spec fn encoding_of_added(content: Seq<char>, id: u32, type_id: u32) -> EncodingView {
    encoding_of(
        seq![TokenView { id, value: content, offsets: (0, utf8_len(content) as usize) }],
        type_id,
    )
}

/// The encodings of the pieces of a sequence, put together: one after the other, the
/// offsets of each moved right by the end of the last token before it.
pub open spec fn merge_encodings(parts: Seq<EncodingView>) -> EncodingView
    decreases parts.len(),
{
    if parts.len() == 0 {
        EncodingView::empty()
    } else {
        merge_encodings(parts.drop_last()).merged(parts.last(), true)
    }
}

/// The normalized pieces of a sequence, put together.
pub open spec fn merge_normalized(parts: Seq<NormalizedView>) -> NormalizedView
    decreases parts.len(),
{
    if parts.len() == 0 {
        NormalizedView::identity(Seq::empty())
    } else {
        merge_normalized(parts.drop_last()).merged(parts.last())
    }
}

/// Whether one pair of offsets comes before another: by its start, and by its end where
/// the starts are the same.
pub open spec fn comes_before(a: Offsets, b: Offsets) -> bool {
    a.0 < b.0 || (a.0 == b.0 && a.1 < b.1)
}

/// Whether the offsets at `i` belong to the second sequence: somewhere up to `i` the
/// offsets came before those of the token before.
pub open spec fn in_pair(offsets: Seq<Offsets>, i: int) -> bool
    decreases i,
{
    if i <= 0 {
        false
    } else {
        in_pair(offsets, i - 1) || comes_before(offsets[i], offsets[i - 1])
    }
}

/// Offsets into a normalized text as offsets into the original; the offsets themselves
/// where they are no range of the normalized text.
pub open spec fn converted_or_kept(offsets: Offsets, source: NormalizedView) -> Offsets {
    match source.converted(offsets.0, offsets.1) {
        Some(range) => range,
        None => offsets,
    }
}

/// The offsets of a final encoding as offsets into the original texts. The offsets of the
/// first sequence come first; from the first token on whose offsets come before those of
/// the token before it, the offsets are those of the second sequence, if there is one.
pub open spec fn remapped(
    offsets: Seq<Offsets>,
    normalized: NormalizedView,
    pair_normalized: Option<NormalizedView>,
) -> Seq<Offsets> {
    Seq::new(
        offsets.len(),
        |i: int|
            converted_or_kept(
                offsets[i],
                match pair_normalized {
                    Some(pair) if in_pair(offsets, i) => pair,
                    _ => normalized,
                },
            ),
    )
}

/// The texts of an input: that of the first sequence, and that of the second if there
/// is one.
pub open spec fn input_texts(input: EncodeInput) -> (Seq<char>, Option<Seq<char>>) {
    match input {
        EncodeInput::Single(first) => (first@, None),
        EncodeInput::Dual(first, second) => (first@, Some(second@)),
    }
}

/// No range ends after the limit that all of them keep to.
pub proof fn lemma_furthest_end(offsets: Seq<Offsets>, limit: int)
    requires
        all_within(offsets, limit),
        0 <= limit,
    ensures
        0 <= furthest_end(offsets) <= limit,
    decreases offsets.len(),
{
    if offsets.len() > 0 {
        assert forall|i: int| 0 <= i < offsets.drop_last().len() implies (
        #[trigger] offsets.drop_last()[i]).0 <= offsets.drop_last()[i].1 <= limit by {
            assert(offsets.drop_last()[i] == offsets[i]);
        }
        lemma_furthest_end(offsets.drop_last(), limit);
        assert(offsets.last() == offsets[offsets.len() - 1]);
    }
}

/// The encoding of the tokens that a model gave for a piece of the sequence `type_id`.
pub fn encoding_of_tokens(tokens: Vec<Token>, type_id: u32) -> (r: Encoding)
    ensures
        r@ == encoding_of(token_views(tokens@), type_id),
        r@.wf(),
{
    let ghost all = token_views(tokens@);
    let mut ids: Vec<u32> = Vec::new();
    let mut type_ids: Vec<u32> = Vec::new();
    let mut values: Vec<String> = Vec::new();
    let mut offsets: Vec<(usize, usize)> = Vec::new();
    let mut special_tokens_mask: Vec<u32> = Vec::new();
    let mut attention_mask: Vec<u32> = Vec::new();
    for token in it: tokens
        invariant
            all == token_views(it.seq()),
            ids@ == all.subrange(0, it.index() as int).map_values(|t: TokenView| t.id),
            type_ids@ == Seq::new(it.index() as nat, |i: int| type_id),
            texts(values@) == all.subrange(0, it.index() as int).map_values(
                |t: TokenView| t.value,
            ),
            offsets@ == all.subrange(0, it.index() as int).map_values(|t: TokenView| t.offsets),
            special_tokens_mask@ == Seq::new(it.index() as nat, |i: int| 0u32),
            attention_mask@ == Seq::new(it.index() as nat, |i: int| 1u32),
    {
        let ghost done = all.subrange(0, it.index() as int);
        let ghost next = all.subrange(0, it.index() + 1);
        let ghost so_far = values@;
        assert(next =~= done.push(token@));
        ids.push(token.id);
        type_ids.push(type_id);
        values.push(token.value);
        offsets.push(token.offsets);
        special_tokens_mask.push(0);
        attention_mask.push(1);
        assert(ids@ =~= next.map_values(|t: TokenView| t.id));
        assert(type_ids@ =~= Seq::new((it.index() + 1) as nat, |i: int| type_id));
        assert(texts(values@) =~= texts(so_far).push(token.value@));
        assert(texts(values@) =~= next.map_values(|t: TokenView| t.value));
        assert(offsets@ =~= next.map_values(|t: TokenView| t.offsets));
        assert(special_tokens_mask@ =~= Seq::new((it.index() + 1) as nat, |i: int| 0u32));
        assert(attention_mask@ =~= Seq::new((it.index() + 1) as nat, |i: int| 1u32));
    }
    assert(all.subrange(0, all.len() as int) =~= all);
    let r = Encoding::new(
        ids,
        type_ids,
        values,
        offsets,
        special_tokens_mask,
        attention_mask,
        Vec::new(),
    );
    assert(r@.overflowing =~= Seq::empty());
    r
}

/// Rewrites the offsets of a final encoding, which are offsets into the normalized
/// texts, as offsets into the original texts. Offsets that are no range of the normalized
/// text stay as they are.
pub fn remap_offsets(
    encoding: &mut Encoding,
    normalized: &NormalizedString,
    pair_normalized: Option<&NormalizedString>,
)
    requires
        old(encoding)@.wf(),
        normalized@.wf(),
        pair_normalized matches Some(p) ==> p@.wf(),
    ensures
        final(encoding)@ == (EncodingView {
            offsets: remapped(
                old(encoding)@.offsets,
                normalized@,
                match pair_normalized {
                    Some(p) => Some(p@),
                    None => None,
                },
            ),
            ..old(encoding)@
        }),
        final(encoding)@.wf(),
{
    let ghost before = encoding@.offsets;
    let ghost pair_view = match pair_normalized {
        Some(p) => Some(p@),
        None => None,
    };
    let offsets = encoding.get_offsets_mut();
    let n = offsets.len();
    let mut current: (usize, usize) = (0, 0);
    let mut switched = false;
    let mut i: usize = 0;
    while i < n
        invariant
            i <= n,
            n == before.len(),
            offsets@.len() == n,
            normalized@.wf(),
            pair_normalized matches Some(p) ==> p@.wf(),
            pair_view == match pair_normalized {
                Some(p) => Some(p@),
                None => None,
            },
            i > 0 ==> current == before[i - 1] && switched == in_pair(before, i - 1),
            i == 0 ==> !switched,
            forall|k: int| i <= k < n ==> offsets@[k] == before[k],
            forall|k: int|
                0 <= k < i ==> offsets@[k] == remapped(before, normalized@, pair_view)[k],
        decreases n - i,
    {
        let (start, end) = offsets[i];
        if i > 0 && (start < current.0 || (start == current.0 && end < current.1)) {
            switched = true;
        }
        assert(switched == in_pair(before, i as int));
        current = (start, end);
        let source = match pair_normalized {
            Some(pair) if switched => pair,
            _ => normalized,
        };
        let converted = match source.convert_offsets(Range::Normalized(start..end)) {
            Some(range) => (range.start, range.end),
            None => (start, end),
        };
        offsets[i] = converted;
        i += 1;
    }
    assert(offsets@ =~= remapped(before, normalized@, pair_view));
}

impl<M: Model, N: Normalizer, PT: PreTokenizer, PP: PostProcessor, D: Decoder> TokenizerView<
    M,
    N,
    PT,
    PP,
    D,
> {
    /// Whether `normalized` is something the normalizer may make of `text`: the text
    /// itself, aligned byte for byte, where no normalizer is set.
    pub open spec fn normalizes(self, text: Seq<char>, normalized: NormalizedView) -> bool {
        &&& normalized.original == text
        &&& match self.normalizer {
            Some(normalizer) => normalizer.normalizes(NormalizedView::identity(text), normalized),
            None => normalized == NormalizedView::identity(text),
        }
    }

    /// Whether the pre-tokenizer may turn `before` into `after` and give `pre_tokens` for
    /// it: the text as it is, as one pre-token that covers all of it, where no
    /// pre-tokenizer is set.
    pub open spec fn pre_tokenizes(
        self,
        before: NormalizedView,
        after: NormalizedView,
        pre_tokens: Seq<(Seq<char>, Offsets)>,
    ) -> bool {
        &&& after.original == before.original
        &&& match self.pre_tokenizer {
            Some(pre_tokenizer) => pre_tokenizer.pre_tokenizes(before, after, pre_tokens),
            None => after == before && pre_tokens == seq![
                (before.normalized, (0usize, utf8_len(before.normalized) as usize)),
            ],
        }
    }

    /// Whether normalization may make `between` of `text`, and pre-tokenization
    /// `normalized` and `pre_tokens` of that.
    pub open spec fn prepares_through(
        self,
        text: Seq<char>,
        between: NormalizedView,
        normalized: NormalizedView,
        pre_tokens: Seq<(Seq<char>, Offsets)>,
    ) -> bool {
        self.normalizes(text, between) && self.pre_tokenizes(between, normalized, pre_tokens)
    }

    /// Whether normalization and pre-tokenization, one after the other, may make
    /// `normalized` and `pre_tokens` of `text`.
    pub open spec fn prepares(
        self,
        text: Seq<char>,
        normalized: NormalizedView,
        pre_tokens: Seq<(Seq<char>, Offsets)>,
    ) -> bool {
        exists|between: NormalizedView|
            #[trigger] self.prepares_through(text, between, normalized, pre_tokens)
    }

    /// Whether `normalized` is something that normalization and pre-tokenization may
    /// leave of a piece: a piece that is an added token stays as it is.
    pub open spec fn normalizes_piece(
        self,
        content: Seq<char>,
        id: Option<u32>,
        normalized: NormalizedView,
    ) -> bool {
        match id {
            Some(id) => normalized == NormalizedView::identity(content),
            None => exists|pre_tokens: Seq<(Seq<char>, Offsets)>|
                #[trigger] self.prepares(content, normalized, pre_tokens),
        }
    }

    /// Whether `parts` are normalized pieces of `text`, one for each piece into which the
    /// added tokens cut it.
    pub open spec fn normalizes_pieces(self, text: Seq<char>, parts: Seq<NormalizedView>) -> bool {
        let pieces = self.vocabulary.split(text);
        &&& parts.len() == pieces.len()
        &&& forall|i: int|
            0 <= i < pieces.len() ==> self.normalizes_piece(
                (#[trigger] pieces[i]).0,
                pieces[i].1,
                parts[i],
            )
    }

    /// Whether `normalized` is something `normalize` may give for `text`: the normalized
    /// pieces put together, with `text` as the original.
    pub open spec fn normalizes_sentence(self, text: Seq<char>, normalized: NormalizedView) -> bool {
        &&& normalized.original == text
        &&& exists|parts: Seq<NormalizedView>| #[trigger]
            self.normalizes_pieces(text, parts) && normalized == merge_normalized(parts)
    }

    /// Whether the model may give `tokens` for what normalization and pre-tokenization
    /// made of `text`.
    pub open spec fn tokenizes_through(
        self,
        text: Seq<char>,
        normalized: NormalizedView,
        pre_tokens: Seq<(Seq<char>, Offsets)>,
        tokens: Seq<TokenView>,
    ) -> bool {
        self.prepares(text, normalized, pre_tokens) && self.model.tokenizes(pre_tokens, tokens)
    }

    /// Whether `encoding` and `normalized` are something the pipeline may give for one
    /// piece of the sequence `type_id`. A piece that is an added token gives that one
    /// token and stays as it is; any other is normalized, pre-tokenized and handed to the
    /// model, whose tokens make up the encoding.
    pub open spec fn encodes_piece(
        self,
        content: Seq<char>,
        id: Option<u32>,
        type_id: u32,
        encoding: EncodingView,
        normalized: NormalizedView,
    ) -> bool {
        match id {
            Some(id) => encoding == encoding_of_added(content, id, type_id) && normalized
                == NormalizedView::identity(content),
            None => exists|pre_tokens: Seq<(Seq<char>, Offsets)>, tokens: Seq<TokenView>| #[trigger]
                self.tokenizes_through(content, normalized, pre_tokens, tokens) && encoding
                    == encoding_of(tokens, type_id),
        }
    }

    /// Whether `parts` are encodings and normalized texts of the pieces of `text`, one
    /// for each piece into which the added tokens cut it, each well formed and with
    /// offsets that are ranges of its normalized text.
    pub open spec fn encodes_pieces(
        self,
        text: Seq<char>,
        type_id: u32,
        parts: Seq<(EncodingView, NormalizedView)>,
    ) -> bool {
        let pieces = self.vocabulary.split(text);
        &&& parts.len() == pieces.len()
        &&& forall|i: int|
            0 <= i < pieces.len() ==> self.encodes_piece(
                (#[trigger] pieces[i]).0,
                pieces[i].1,
                type_id,
                parts[i].0,
                parts[i].1,
            )
        &&& forall|i: int| 0 <= i < parts.len() ==> valid_part(#[trigger] parts[i])
    }

    /// Whether `encoding` and `normalized` are something the pipeline may give for the
    /// sequence `text`: the encodings and the normalized texts of its pieces, put
    /// together, with `text` as the original.
    pub open spec fn encodes_sequence(
        self,
        text: Seq<char>,
        type_id: u32,
        encoding: EncodingView,
        normalized: NormalizedView,
    ) -> bool {
        &&& normalized.original == text
        &&& encoding.wf()
        &&& normalized.wf()
        &&& exists|parts: Seq<(EncodingView, NormalizedView)>| #[trigger]
            self.encodes_pieces(text, type_id, parts) && encoding == merge_encodings(
                parts.map_values(|p: (EncodingView, NormalizedView)| p.0),
            ) && normalized == merge_normalized(
                parts.map_values(|p: (EncodingView, NormalizedView)| p.1),
            )
    }

    /// The number of tokens that post-processing adds.
    pub open spec fn added_count(self, is_pair: bool) -> usize {
        match self.post_processor {
            Some(post_processor) => post_processor.added_count(is_pair),
            None => 0,
        }
    }

    /// Whether truncation leaves no room for the tokens that post-processing adds: more
    /// of them are to be added than truncation allows tokens in all.
    pub open spec fn miscalibrated(self, is_pair: bool, add_special_tokens: bool) -> bool {
        match self.truncation {
            Some(t) => add_special_tokens && self.added_count(is_pair) > t.max_length,
            None => false,
        }
    }

    /// How to truncate before post-processing: as the settings say, with room left for
    /// the tokens that post-processing adds. Only of use where that room is there.
    pub open spec fn room(self, is_pair: bool, add_special_tokens: bool) -> Option<
        TruncationParams,
    > {
        match self.truncation {
            Some(t) => Some(
                TruncationParams {
                    max_length: if add_special_tokens {
                        (t.max_length - self.added_count(is_pair)) as usize
                    } else {
                        t.max_length
                    },
                    strategy: t.strategy,
                    stride: t.stride,
                },
            ),
            None => None,
        }
    }

    /// What truncation leaves of the encodings of one or two sequences; `None` where
    /// truncation fails.
    pub open spec fn truncates(
        self,
        encoding: EncodingView,
        pair: Option<EncodingView>,
        add_special_tokens: bool,
    ) -> Option<(EncodingView, Option<EncodingView>)> {
        match self.room(pair is Some, add_special_tokens) {
            Some(params) => match kept_lengths(encoding.len(), pair_len(pair), params) {
                Some((a, b)) => Some(
                    (
                        encoding.truncated(a as usize, params.stride),
                        match pair {
                            Some(p) => Some(p.truncated(b as usize, params.stride)),
                            None => None,
                        },
                    ),
                ),
                None => None,
            },
            None => Some((encoding, pair)),
        }
    }

    /// Whether `out` is something the post-processor may make of the encodings: the
    /// first alone, or the two one after the other, where no post-processor is set.
    pub open spec fn processes(
        self,
        encoding: EncodingView,
        pair: Option<EncodingView>,
        add_special_tokens: bool,
        out: EncodingView,
    ) -> bool {
        match self.post_processor {
            Some(post_processor) => post_processor.processes(
                encoding,
                pair,
                add_special_tokens,
                out,
            ),
            None => out == default_processed(encoding, pair),
        }
    }

    /// A single encoding padded as the settings say: to the fixed length, if there is one.
    pub open spec fn pads(self, encoding: EncodingView) -> EncodingView {
        match self.padding {
            Some(params) => match params.strategy {
                PaddingStrategy::Fixed(size) => padded_with(encoding, size, params),
                PaddingStrategy::BatchLongest => encoding,
            },
            None => encoding,
        }
    }

    /// Whether `out` is something that truncation, post-processing and padding, one
    /// after the other, may make of the encodings of one or two sequences.
    pub open spec fn post_processes(
        self,
        encoding: EncodingView,
        pair: Option<EncodingView>,
        add_special_tokens: bool,
        out: EncodingView,
    ) -> bool {
        &&& !self.miscalibrated(pair is Some, add_special_tokens)
        &&& match self.truncates(encoding, pair, add_special_tokens) {
            Some((first, second)) => exists|processed: EncodingView| #[trigger]
                self.processes(first, second, add_special_tokens, processed) && out == self.pads(
                    processed,
                ),
            None => false,
        }
    }

    /// Whether `first` and `second` are encodings and normalized texts that the pipeline
    /// may give for the sequences of an input.
    pub open spec fn encodes_sequences(
        self,
        input: (Seq<char>, Option<Seq<char>>),
        first: (EncodingView, NormalizedView),
        second: Option<(EncodingView, NormalizedView)>,
    ) -> bool {
        &&& self.encodes_sequence(input.0, 0, first.0, first.1)
        &&& match input.1 {
            Some(text) => second matches Some(s) && self.encodes_sequence(text, 1, s.0, s.1),
            None => second is None,
        }
    }

    /// Whether truncation fails on encodings that the pipeline may give for the sequences
    /// of an input.
    pub open spec fn truncation_fails(
        self,
        input: (Seq<char>, Option<Seq<char>>),
        add_special_tokens: bool,
    ) -> bool {
        exists|first: (EncodingView, NormalizedView), second: Option<(EncodingView, NormalizedView)>| #[trigger]
            self.encodes_sequences(input, first, second) && self.truncates(
                first.0,
                match second {
                    Some(s) => Some(s.0),
                    None => None,
                },
                add_special_tokens,
            ) is None
    }

    /// Whether `out` comes from encodings and normalized texts that the pipeline may give
    /// for the sequences of an input.
    pub open spec fn encodes_through(
        self,
        input: (Seq<char>, Option<Seq<char>>),
        add_special_tokens: bool,
        out: EncodingView,
        first: (EncodingView, NormalizedView),
        second: Option<(EncodingView, NormalizedView)>,
        processed: EncodingView,
    ) -> bool {
        &&& self.encodes_sequences(input, first, second)
        &&& self.post_processes(
            first.0,
            match second {
                Some(s) => Some(s.0),
                None => None,
            },
            add_special_tokens,
            processed,
        )
        &&& out == (EncodingView {
            offsets: remapped(
                processed.offsets,
                first.1,
                match second {
                    Some(s) => Some(s.1),
                    None => None,
                },
            ),
            ..processed
        })
    }

    /// Whether `out` is something `encode` may give for an input: each sequence is cut at
    /// the added tokens, each piece goes through the pipeline, the encodings of the pieces
    /// are put together, the result is truncated, post-processed and padded, and its
    /// offsets are rewritten as offsets into the original texts.
    pub open spec fn encodes(
        self,
        input: (Seq<char>, Option<Seq<char>>),
        add_special_tokens: bool,
        out: EncodingView,
    ) -> bool {
        exists|
            first: (EncodingView, NormalizedView),
            second: Option<(EncodingView, NormalizedView)>,
            processed: EncodingView,
        | #[trigger]
            self.encodes_through(input, add_special_tokens, out, first, second, processed)
    }

    /// What normalization and pre-tokenization made of a text, one after the other, is
    /// something they may make of it.
    proof fn lemma_prepares(
        self,
        text: Seq<char>,
        between: NormalizedView,
        normalized: NormalizedView,
        pre_tokens: Seq<(Seq<char>, Offsets)>,
    )
        requires
            self.prepares_through(text, between, normalized, pre_tokens),
        ensures
            self.prepares(text, normalized, pre_tokens),
    {
    }

    /// What normalization and pre-tokenization left of a piece that is no added token is
    /// something they may leave of it.
    proof fn lemma_normalizes_piece(
        self,
        content: Seq<char>,
        normalized: NormalizedView,
        pre_tokens: Seq<(Seq<char>, Offsets)>,
    )
        requires
            self.prepares(content, normalized, pre_tokens),
        ensures
            self.normalizes_piece(content, None, normalized),
    {
    }

    /// The tokens that the model gave for a piece that is no added token make up an
    /// encoding that the pipeline may give for it.
    proof fn lemma_encodes_piece(
        self,
        content: Seq<char>,
        type_id: u32,
        normalized: NormalizedView,
        pre_tokens: Seq<(Seq<char>, Offsets)>,
        tokens: Seq<TokenView>,
    )
        requires
            self.tokenizes_through(content, normalized, pre_tokens, tokens),
        ensures
            self.encodes_piece(content, None, type_id, encoding_of(tokens, type_id), normalized),
    {
    }

    /// The normalized pieces of a sentence, put together, are something `normalize` may
    /// give for it.
    proof fn lemma_normalizes_sentence(self, text: Seq<char>, parts: Seq<NormalizedView>)
        requires
            self.normalizes_pieces(text, parts),
            merge_normalized(parts).original == text,
        ensures
            self.normalizes_sentence(text, merge_normalized(parts)),
    {
    }

    /// The encodings and the normalized texts of the pieces of a sequence, put together,
    /// are something the pipeline may give for it.
    proof fn lemma_encodes_sequence(
        self,
        text: Seq<char>,
        type_id: u32,
        parts: Seq<(EncodingView, NormalizedView)>,
    )
        requires
            self.encodes_pieces(text, type_id, parts),
            merge_normalized(parts.map_values(|p: (EncodingView, NormalizedView)| p.1)).original
                == text,
            merge_encodings(parts.map_values(|p: (EncodingView, NormalizedView)| p.0)).wf(),
            merge_normalized(parts.map_values(|p: (EncodingView, NormalizedView)| p.1)).wf(),
        ensures
            self.encodes_sequence(
                text,
                type_id,
                merge_encodings(parts.map_values(|p: (EncodingView, NormalizedView)| p.0)),
                merge_normalized(parts.map_values(|p: (EncodingView, NormalizedView)| p.1)),
            ),
    {
    }

    /// What the post-processor made of the truncated encodings, padded, is something that
    /// truncation, post-processing and padding may make of the encodings.
    proof fn lemma_post_processes(
        self,
        encoding: EncodingView,
        pair: Option<EncodingView>,
        add_special_tokens: bool,
        kept: (EncodingView, Option<EncodingView>),
        processed: EncodingView,
    )
        requires
            !self.miscalibrated(pair is Some, add_special_tokens),
            self.truncates(encoding, pair, add_special_tokens) == Some(kept),
            self.processes(kept.0, kept.1, add_special_tokens, processed),
        ensures
            self.post_processes(encoding, pair, add_special_tokens, self.pads(processed)),
    {
    }

    /// Truncation that fails on the encodings of the sequences of an input fails on
    /// encodings that the pipeline may give for them.
    proof fn lemma_truncation_fails(
        self,
        input: (Seq<char>, Option<Seq<char>>),
        add_special_tokens: bool,
        first: (EncodingView, NormalizedView),
        second: Option<(EncodingView, NormalizedView)>,
    )
        requires
            self.encodes_sequences(input, first, second),
            self.truncates(
                first.0,
                match second {
                    Some(s) => Some(s.0),
                    None => None,
                },
                add_special_tokens,
            ) is None,
        ensures
            self.truncation_fails(input, add_special_tokens),
    {
    }

    /// What came out of the steps of an encoding is something `encode` may give.
    proof fn lemma_encodes(
        self,
        input: (Seq<char>, Option<Seq<char>>),
        add_special_tokens: bool,
        out: EncodingView,
        first: (EncodingView, NormalizedView),
        second: Option<(EncodingView, NormalizedView)>,
        processed: EncodingView,
    )
        requires
            self.encodes_through(input, add_special_tokens, out, first, second, processed),
        ensures
            self.encodes(input, add_special_tokens, out),
    {
    }
}

/// Whether an encoding and a normalized text are well formed, and the offsets of the
/// encoding are ranges of the normalized text.
pub open spec fn valid_part(part: (EncodingView, NormalizedView)) -> bool {
    &&& part.0.wf()
    &&& part.1.wf()
    &&& all_within(part.0.offsets, utf8_len(part.1.normalized) as int)
}

/// The offsets of a sequence of pre-tokens.
pub open spec fn pre_token_offsets(pre_tokens: Seq<(Seq<char>, Offsets)>) -> Seq<Offsets> {
    pre_tokens.map_values(|p: (Seq<char>, Offsets)| p.1)
}

/// The offsets of a sequence of tokens.
pub open spec fn token_offsets(tokens: Seq<TokenView>) -> Seq<Offsets> {
    tokens.map_values(|t: TokenView| t.offsets)
}

/// An encoding whose offsets keep to a limit can be followed by another that does: the
/// offsets of the second, moved right by the end of the first, keep to the sum of the
/// limits.
proof fn lemma_merge_within(a: EncodingView, b: EncodingView, limit_a: int, limit_b: int)
    requires
        a.wf(),
        b.wf(),
        all_within(a.offsets, limit_a),
        all_within(b.offsets, limit_b),
        0 <= limit_a,
        0 <= limit_b,
        limit_a + limit_b <= usize::MAX,
    ensures
        a.can_merge(b, true),
        all_within(a.merged(b, true).offsets, limit_a + limit_b),
{
    let shift = a.merge_shift(true);
    if a.offsets.len() > 0 {
        assert(a.offsets.last() == a.offsets[a.offsets.len() - 1]);
    }
    assert(shift <= limit_a);
    assert forall|i: int| 0 <= i < b.offsets.len() implies (#[trigger] b.offsets[i]).0 + shift
        <= usize::MAX && b.offsets[i].1 + shift <= usize::MAX by {
        assert(b.offsets[i].0 <= b.offsets[i].1 <= limit_b);
    }
    let m = a.merged(b, true);
    assert forall|i: int| 0 <= i < m.offsets.len() implies (#[trigger] m.offsets[i]).0
        <= m.offsets[i].1 <= limit_a + limit_b by {
        if i < a.offsets.len() {
            assert(m.offsets[i] == a.offsets[i]);
        } else {
            let k = i - a.offsets.len();
            assert(b.offsets[k].0 <= b.offsets[k].1 <= limit_b);
        }
    }
}

impl<M: Model, N: Normalizer, PT: PreTokenizer, PP: PostProcessor, D: Decoder> Tokenizer<
    M,
    N,
    PT,
    PP,
    D,
> {
    /// Normalizes `sequence`, or leaves it as it is where no normalizer is set.
    fn do_normalize(&self, sequence: &str) -> (r: Result<NormalizedString, Error>)
        ensures
            r matches Ok(n) ==> n@.wf() && self@.normalizes(sequence@, n@),
            r matches Err(e) ==> e is NormalizerFailure && self@.can_fail_with(e),
    {
        let mut normalized = NormalizedString::from(sequence);
        match &self.normalizer {
            Some(normalizer) => match normalizer.normalize(&mut normalized) {
                Ok(()) => Ok(normalized),
                Err(message) => Err(Error::NormalizerFailure(message)),
            },
            None => Ok(normalized),
        }
    }

    /// Cuts a normalized text into pre-tokens, or gives all of it as one pre-token where
    /// no pre-tokenizer is set.
    fn pre_tokenize(&self, normalized: &mut NormalizedString) -> (r: Result<
        Vec<(String, Offsets)>,
        Error,
    >)
        requires
            old(normalized)@.wf(),
        ensures
            final(normalized)@.wf(),
            r matches Ok(pre_tokens) ==> {
                &&& self@.pre_tokenizes(
                    old(normalized)@,
                    final(normalized)@,
                    pre_token_views(pre_tokens@),
                )
                &&& all_within(
                    pre_token_offsets(pre_token_views(pre_tokens@)),
                    utf8_len(final(normalized)@.normalized) as int,
                )
            },
            r matches Err(e) ==> e is PreTokenizerFailure && self@.can_fail_with(e),
    {
        match &self.pre_tokenizer {
            None => {
                let text = normalized.get().to_owned();
                let len = normalized.len();
                let mut pre_tokens: Vec<(String, Offsets)> = Vec::new();
                pre_tokens.push((text, (0, len)));
                assert(pre_token_views(pre_tokens@) =~= seq![
                    (normalized@.normalized, (0usize, utf8_len(normalized@.normalized) as usize)),
                ]);
                Ok(pre_tokens)
            },
            Some(pre_tokenizer) => match pre_tokenizer.pre_tokenize(normalized) {
                Ok(pre_tokens) => Ok(pre_tokens),
                Err(message) => Err(Error::PreTokenizerFailure(message)),
            },
        }
    }

    /// Takes one piece of a sequence through the pipeline.
    fn encode_piece(&self, content: &str, id: Option<u32>, type_id: u32) -> (r: Result<
        (Encoding, NormalizedString),
        Error,
    >)
        ensures
            r matches Ok((e, n)) ==> {
                &&& e@.wf()
                &&& n@.wf()
                &&& self@.encodes_piece(content@, id, type_id, e@, n@)
                &&& all_within(e@.offsets, utf8_len(n@.normalized) as int)
                &&& n@.original == content@
            },
            r matches Err(e) ==> id is None && self@.can_fail_with(e) && (e is NormalizerFailure
                || e is PreTokenizerFailure || e is ModelFailure),
    {
        if let Some(id) = id {
            let len = byte_len(content);
            let mut tokens: Vec<Token> = Vec::new();
            tokens.push(Token::new(id, content.to_owned(), (0, len)));
            assert(token_views(tokens@) =~= seq![
                TokenView { id, value: content@, offsets: (0usize, len) },
            ]);
            let encoding = encoding_of_tokens(tokens, type_id);
            return Ok((encoding, NormalizedString::from(content)));
        }
        let mut normalized = self.do_normalize(content)?;
        let ghost between = normalized@;
        let pre_tokens = self.pre_tokenize(&mut normalized)?;
        let ghost pre_views = pre_token_views(pre_tokens@);
        let tokens = match self.model.tokenize(pre_tokens) {
            Ok(tokens) => tokens,
            Err(message) => {
                return Err(Error::ModelFailure(message));
            },
        };
        let ghost views = token_views(tokens@);
        let encoding = encoding_of_tokens(tokens, type_id);
        proof {
            let limit = utf8_len(normalized@.normalized) as int;
            lemma_furthest_end(pre_token_offsets(pre_views), limit);
            assert(all_within(encoding@.offsets, limit)) by {
                assert forall|i: int| 0 <= i < encoding@.offsets.len() implies (
                #[trigger] encoding@.offsets[i]).0 <= encoding@.offsets[i].1 <= limit by {
                    assert(encoding@.offsets[i] == token_offsets(views)[i]);
                }
            }
            self@.lemma_prepares(content@, between, normalized@, pre_views);
            self@.lemma_encodes_piece(content@, type_id, normalized@, pre_views, views);
        }
        Ok((encoding, normalized))
    }

    /// Takes one sequence through the pipeline: cuts it at the added tokens, encodes each
    /// piece, and puts the encodings and the normalized pieces together.
    fn encode_sequence(&self, sentence: &str, type_id: u32) -> (r: Result<
        (Encoding, NormalizedString),
        Error,
    >)
        ensures
            r matches Ok((e, n)) ==> {
                &&& e@.wf()
                &&& n@.wf()
                &&& self@.encodes_sequence(sentence@, type_id, e@, n@)
            },
            !self.ready() <==> (r matches Err(e) && e is PatternFailure),
            r matches Err(e) ==> self@.can_fail_with(e) && (e is PatternFailure
                || e is NormalizerFailure || e is PreTokenizerFailure || e is ModelFailure),
    {
        let pieces = match self.added_vocabulary.split_on_added_tokens(sentence) {
            Some(pieces) => pieces,
            None => {
                return Err(Error::PatternFailure);
            },
        };
        let mut encoding = Encoding::default();
        let mut normalized = NormalizedString::from("");
        let ghost mut parts: Seq<(EncodingView, NormalizedView)> = Seq::empty();
        proof {
            reveal_strlit("");
            assert(""@ =~= Seq::<char>::empty());
            assert(parts.map_values(|p: (EncodingView, NormalizedView)| p.0) =~= Seq::empty());
            assert(parts.map_values(|p: (EncodingView, NormalizedView)| p.1) =~= Seq::empty());
            assert(piece_views(pieces@).subrange(0, 0) =~= Seq::empty());
        }
        let n = pieces.len();
        let mut i: usize = 0;
        while i < n
            invariant
                i <= n,
                n == pieces@.len(),
                self.ready(),
                self@.vocabulary.split(sentence@) == piece_views(pieces@),
                parts.len() == i,
                forall|k: int|
                    0 <= k < i ==> self@.encodes_piece(
                        (#[trigger] piece_views(pieces@)[k]).0,
                        piece_views(pieces@)[k].1,
                        type_id,
                        parts[k].0,
                        parts[k].1,
                    ),
                forall|k: int| 0 <= k < i ==> valid_part(#[trigger] parts[k]),
                encoding@ == merge_encodings(
                    parts.map_values(|p: (EncodingView, NormalizedView)| p.0),
                ),
                normalized@ == merge_normalized(
                    parts.map_values(|p: (EncodingView, NormalizedView)| p.1),
                ),
                encoding@.wf(),
                normalized@.wf(),
                all_within(encoding@.offsets, utf8_len(normalized@.normalized) as int),
                normalized@.original == concat_texts(piece_views(pieces@).subrange(0, i as int)),
            decreases n - i,
        {
            let (e, piece) = self.encode_piece(pieces[i].0.as_str(), pieces[i].1, type_id)?;
            let ghost firsts = parts.map_values(|p: (EncodingView, NormalizedView)| p.0);
            let ghost seconds = parts.map_values(|p: (EncodingView, NormalizedView)| p.1);
            let ghost limit = utf8_len(normalized@.normalized) as int;
            let ghost piece_limit = utf8_len(piece@.normalized) as int;
            let ghost before = encoding@;
            normalized.merge_with(&piece);
            proof {
                crate::utils::text::lemma_encode_concat(
                    merge_normalized(seconds).normalized,
                    piece@.normalized,
                );
                lemma_merge_within(before, e@, limit, piece_limit);
                parts = parts.push((e@, piece@));
                assert(parts.map_values(|p: (EncodingView, NormalizedView)| p.0) =~= firsts.push(
                    e@,
                ));
                assert(parts.map_values(|p: (EncodingView, NormalizedView)| p.1) =~= seconds.push(
                    piece@,
                ));
                assert(firsts.push(e@).drop_last() =~= firsts);
                assert(seconds.push(piece@).drop_last() =~= seconds);
                assert(piece_views(pieces@)[i as int] == (pieces@[i as int].0@, pieces@[i as int].1));
                assert(piece_views(pieces@).subrange(0, i + 1).drop_last() =~= piece_views(
                    pieces@,
                ).subrange(0, i as int));
            }
            encoding.merge_with(e, true);
            i += 1;
        }
        proof {
            assert(piece_views(pieces@).subrange(0, n as int) =~= piece_views(pieces@));
            self@.lemma_encodes_sequence(sentence@, type_id, parts);
        }
        Ok((encoding, normalized))
    }

    /// Normalizes one piece of a sentence: leaves an added token as it is, and normalizes
    /// and pre-tokenizes any other piece.
    fn normalize_piece(&self, content: &str, id: Option<u32>) -> (r: Result<
        NormalizedString,
        Error,
    >)
        ensures
            r matches Ok(n) ==> {
                &&& n@.wf()
                &&& self@.normalizes_piece(content@, id, n@)
                &&& n@.original == content@
            },
            r matches Err(e) ==> id is None && self@.can_fail_with(e) && (e is NormalizerFailure
                || e is PreTokenizerFailure),
    {
        if id.is_some() {
            return Ok(NormalizedString::from(content));
        }
        let mut normalized = self.do_normalize(content)?;
        let ghost between = normalized@;
        let pre_tokens = self.pre_tokenize(&mut normalized)?;
        proof {
            let pre_views = pre_token_views(pre_tokens@);
            self@.lemma_prepares(content@, between, normalized@, pre_views);
            self@.lemma_normalizes_piece(content@, normalized@, pre_views);
        }
        Ok(normalized)
    }

    /// Normalizes a sentence as encoding does: cuts it at the added tokens, normalizes
    /// and pre-tokenizes what lies between them, and puts the pieces together again.
    pub fn normalize(&self, sentence: &str) -> (r: Result<NormalizedString, Error>)
        ensures
            r matches Ok(n) ==> n@.wf() && self@.normalizes_sentence(sentence@, n@),
            !self.ready() <==> (r matches Err(e) && e is PatternFailure),
            r matches Err(e) ==> self@.can_fail_with(e) && (e is PatternFailure
                || e is NormalizerFailure || e is PreTokenizerFailure),
    {
        let pieces = match self.added_vocabulary.split_on_added_tokens(sentence) {
            Some(pieces) => pieces,
            None => {
                return Err(Error::PatternFailure);
            },
        };
        let mut normalized = NormalizedString::from("");
        let ghost mut parts: Seq<NormalizedView> = Seq::empty();
        proof {
            reveal_strlit("");
            assert(""@ =~= Seq::<char>::empty());
            assert(piece_views(pieces@).subrange(0, 0) =~= Seq::empty());
        }
        let n = pieces.len();
        let mut i: usize = 0;
        while i < n
            invariant
                i <= n,
                n == pieces@.len(),
                self.ready(),
                self@.vocabulary.split(sentence@) == piece_views(pieces@),
                parts.len() == i,
                forall|k: int|
                    0 <= k < i ==> self@.normalizes_piece(
                        (#[trigger] piece_views(pieces@)[k]).0,
                        piece_views(pieces@)[k].1,
                        parts[k],
                    ),
                normalized@ == merge_normalized(parts),
                normalized@.wf(),
                normalized@.original == concat_texts(piece_views(pieces@).subrange(0, i as int)),
            decreases n - i,
        {
            let piece = self.normalize_piece(pieces[i].0.as_str(), pieces[i].1)?;
            let ghost so_far = parts;
            normalized.merge_with(&piece);
            proof {
                parts = parts.push(piece@);
                assert(parts.drop_last() =~= so_far);
                assert(piece_views(pieces@)[i as int] == (pieces@[i as int].0@, pieces@[i as int].1));
                assert(piece_views(pieces@).subrange(0, i + 1).drop_last() =~= piece_views(
                    pieces@,
                ).subrange(0, i as int));
            }
            i += 1;
        }
        proof {
            assert(piece_views(pieces@).subrange(0, n as int) =~= piece_views(pieces@));
            self@.lemma_normalizes_sentence(sentence@, parts);
        }
        Ok(normalized)
    }
}

impl<M: Model, N: Normalizer, PT: PreTokenizer, PP: PostProcessor, D: Decoder> Tokenizer<
    M,
    N,
    PT,
    PP,
    D,
> {
    /// How to truncate before post-processing: as the settings say, with room left for
    /// the tokens that post-processing adds. Fails where these are more than truncation
    /// allows tokens in all.
    fn room_for(&self, is_pair: bool, add_special_tokens: bool) -> (r: Result<
        Option<TruncationParams>,
        Error,
    >)
        ensures
            self@.miscalibrated(is_pair, add_special_tokens) <==> r is Err,
            r matches Err(e) ==> e is MaxLengthTooSmall && self@.can_fail_with(e),
            r matches Ok(params) ==> params == self@.room(is_pair, add_special_tokens),
    {
        match &self.trunc {
            Some(trunc) => {
                let n_added_tokens = match &self.post_processor {
                    Some(processor) => processor.added_tokens(is_pair),
                    None => 0,
                };
                if !add_special_tokens {
                    Ok(Some(*trunc))
                } else if n_added_tokens > trunc.max_length {
                    Err(Error::MaxLengthTooSmall)
                } else {
                    Ok(
                        Some(
                            TruncationParams {
                                max_length: trunc.max_length - n_added_tokens,
                                strategy: trunc.strategy,
                                stride: trunc.stride,
                            },
                        ),
                    )
                }
            },
            None => Ok(None),
        }
    }

    /// Truncates, post-processes and pads the encodings of one or two sequences. Fails
    /// where truncation leaves no room for the tokens that post-processing adds, where it
    /// cannot make room enough under its strategy, or where the post-processor fails.
    fn post_process(
        &self,
        encoding: Encoding,
        pair_encoding: Option<Encoding>,
        add_special_tokens: bool,
    ) -> (r: Result<Encoding, Error>)
        requires
            encoding@.wf(),
            pair_encoding matches Some(p) ==> p@.wf(),
        ensures
            r matches Ok(out) ==> out@.wf() && self@.post_processes(
                encoding@,
                view_of(pair_encoding),
                add_special_tokens,
                out@,
            ),
            self@.miscalibrated(pair_encoding is Some, add_special_tokens) <==> (r matches Err(e)
                && e is MaxLengthTooSmall),
            (!self@.miscalibrated(pair_encoding is Some, add_special_tokens) && self@.truncates(
                encoding@,
                view_of(pair_encoding),
                add_special_tokens,
            ) is None) <==> (r matches Err(e) && e is SequenceTooShort),
            r matches Err(e) ==> self@.can_fail_with(e) && (e is MaxLengthTooSmall
                || e is SequenceTooShort || e is PostProcessorFailure),
    {
        let ghost first_view = encoding@;
        let ghost pair_view = view_of(pair_encoding);
        let room = self.room_for(pair_encoding.is_some(), add_special_tokens)?;
        let (encoding, pair_encoding) = match room {
            Some(params) => truncate_encodings(encoding, pair_encoding, &params)?,
            None => (encoding, pair_encoding),
        };
        assert(self@.truncates(first_view, pair_view, add_special_tokens) == Some(
            (encoding@, view_of(pair_encoding)),
        ));
        let mut final_encoding = match &self.post_processor {
            Some(processor) => match processor.process(
                encoding,
                pair_encoding,
                add_special_tokens,
            ) {
                Ok(processed) => processed,
                Err(message) => {
                    return Err(Error::PostProcessorFailure(message));
                },
            },
            None => match PP::default_process(encoding, pair_encoding, add_special_tokens) {
                Ok(processed) => processed,
                Err(message) => {
                    return Err(Error::PostProcessorFailure(message));
                },
            },
        };
        let ghost processed = final_encoding@;
        let ghost kept = (encoding@, view_of(pair_encoding));
        assert(self@.processes(kept.0, kept.1, add_special_tokens, processed));
        if let Some(params) = &self.padding {
            if let PaddingStrategy::Fixed(size) = params.strategy {
                final_encoding.pad(
                    size,
                    params.pad_id,
                    params.pad_type_id,
                    params.pad_token.as_str(),
                    params.direction,
                );
            }
        }
        proof {
            self@.lemma_post_processes(first_view, pair_view, add_special_tokens, kept, processed);
        }
        Ok(final_encoding)
    }

    /// Encodes one sequence, or a pair of them: cuts each at the added tokens, takes the
    /// pieces through normalization, pre-tokenization and the model, puts the encodings
    /// together, truncates, post-processes and pads, and rewrites the offsets as offsets
    /// into the original texts. Fails where truncation leaves no room for the tokens that
    /// post-processing adds, where one of the parts fails, where truncation cannot make
    /// room enough, or where the pattern of the added tokens cannot be compiled.
    pub fn encode(&self, input: EncodeInput, add_special_tokens: bool) -> (r: Result<
        Encoding,
        Error,
    >)
        ensures
            self@.miscalibrated(input is Dual, add_special_tokens) <==> (r matches Err(e)
                && e is MaxLengthTooSmall),
            r matches Ok(out) ==> {
                &&& self@.encodes(input_texts(input), add_special_tokens, out@)
                &&& out@.wf()
                &&& out@.type_ids.len() == out@.ids.len()
                &&& out@.tokens.len() == out@.ids.len()
                &&& out@.offsets.len() == out@.ids.len()
                &&& out@.special_tokens_mask.len() == out@.ids.len()
                &&& out@.attention_mask.len() == out@.ids.len()
            },
            (r matches Err(e) && e is SequenceTooShort) ==> self@.truncation_fails(
                input_texts(input),
                add_special_tokens,
            ),
            (!self@.miscalibrated(input is Dual, add_special_tokens) && !self.ready()) <==> (
            r matches Err(e) && e is PatternFailure),
            r matches Err(e) ==> self@.can_fail_with(e) && !(e is DecoderFailure),
    {
        let ghost texts = input_texts(input);
        let (sentence, pair) = match input {
            EncodeInput::Single(first) => (first, None),
            EncodeInput::Dual(first, second) => (first, Some(second)),
        };
        // settings that cannot work are found before any work is done
        let _ = self.room_for(pair.is_some(), add_special_tokens)?;
        let (encoding, normalized) = self.encode_sequence(sentence.as_str(), 0)?;
        let ghost first = (encoding@, normalized@);
        let (pair_encoding, pair_normalized) = match pair {
            Some(pair) => {
                let (e, n) = self.encode_sequence(pair.as_str(), 1)?;
                (Some(e), Some(n))
            },
            None => (None, None),
        };
        let ghost second: Option<(EncodingView, NormalizedView)> = if pair_encoding is Some {
            Some((pair_encoding->0@, pair_normalized->0@))
        } else {
            None
        };
        let mut output = match self.post_process(encoding, pair_encoding, add_special_tokens) {
            Ok(output) => output,
            Err(e) => {
                proof {
                    if e is SequenceTooShort {
                        self@.lemma_truncation_fails(texts, add_special_tokens, first, second);
                    }
                }
                return Err(e);
            },
        };
        let ghost processed = output@;
        remap_offsets(&mut output, &normalized, pair_normalized.as_ref());
        proof {
            self@.lemma_encodes(texts, add_special_tokens, output@, first, second, processed);
        }
        Ok(output)
    }
}

/// The texts of a batch of inputs.
pub open spec fn batch_texts(inputs: Seq<EncodeInput>) -> Seq<(Seq<char>, Option<Seq<char>>)> {
    inputs.map_values(|input: EncodeInput| input_texts(input))
}

/// The texts of `tokens`, with a space between one and the next.
pub open spec fn joined(tokens: Seq<Seq<char>>) -> Seq<char>
    decreases tokens.len(),
{
    if tokens.len() == 0 {
        Seq::empty()
    } else if tokens.len() == 1 {
        tokens[0]
    } else {
        joined(tokens.drop_last()) + seq![' '] + tokens.last()
    }
}

/// Joins the texts of `tokens` with a space between one and the next.
pub fn join(tokens: &Vec<String>) -> (r: String)
    ensures
        r@ == joined(texts(tokens@)),
{
    let mut out = String::new();
    let n = tokens.len();
    let mut i: usize = 0;
    proof {
        reveal_strlit(" ");
        assert(" "@ =~= seq![' ']);
        assert(texts(tokens@).subrange(0, 0) =~= Seq::empty());
    }
    while i < n
        invariant
            i <= n,
            n == tokens@.len(),
            " "@ == seq![' '],
            out@ == joined(texts(tokens@).subrange(0, i as int)),
        decreases n - i,
    {
        if i > 0 {
            out.append(" ");
        }
        out.append(tokens[i].as_str());
        proof {
            let next = texts(tokens@).subrange(0, i + 1);
            assert(next.drop_last() =~= texts(tokens@).subrange(0, i as int));
            assert(next.last() == tokens@[i as int]@);
            assert(out@ =~= joined(next));
        }
        i += 1;
    }
    assert(texts(tokens@).subrange(0, n as int) =~= texts(tokens@));
    out
}

impl<M: Model, N: Normalizer, PT: PreTokenizer, PP: PostProcessor, D: Decoder> TokenizerView<
    M,
    N,
    PT,
    PP,
    D,
> {
    /// Whether `singles` are well-formed encodings that `encode` may give for `inputs`,
    /// one for each.
    pub open spec fn encodes_each(
        self,
        inputs: Seq<(Seq<char>, Option<Seq<char>>)>,
        add_special_tokens: bool,
        singles: Seq<EncodingView>,
    ) -> bool {
        &&& singles.len() == inputs.len()
        &&& forall|i: int|
            0 <= i < inputs.len() ==> self.encodes(
                #[trigger] inputs[i],
                add_special_tokens,
                singles[i],
            )
        &&& forall|i: int| 0 <= i < singles.len() ==> (#[trigger] singles[i]).wf()
    }

    /// A batch of encodings padded as the settings say: each to the fixed length, or to
    /// the length of the longest of them.
    pub open spec fn pads_batch(self, singles: Seq<EncodingView>) -> Seq<EncodingView> {
        match self.padding {
            Some(params) => singles.map_values(
                |e: EncodingView|
                    padded_with(e, pad_target(singles, params.strategy) as usize, params),
            ),
            None => singles,
        }
    }

    /// Whether the length that a batch is padded to fits.
    pub open spec fn batch_fits(self, singles: Seq<EncodingView>) -> bool {
        match self.padding {
            Some(params) => pad_target(singles, params.strategy) <= usize::MAX,
            None => true,
        }
    }

    /// Whether a batch is padded to the length of the longest of its encodings.
    pub open spec fn pads_to_longest(self) -> bool {
        match self.padding {
            Some(params) => params.strategy is BatchLongest,
            None => false,
        }
    }

    /// Whether truncation leaves no room for the tokens that post-processing adds to one
    /// of the inputs of a batch.
    pub open spec fn batch_miscalibrated(
        self,
        inputs: Seq<EncodeInput>,
        add_special_tokens: bool,
    ) -> bool {
        exists|i: int|
            0 <= i < inputs.len() && self.miscalibrated(
                (#[trigger] inputs[i]) is Dual,
                add_special_tokens,
            )
    }

    /// Whether `out` is something `encode_batch` may give for `inputs`: what `encode` may
    /// give for each input, in the order of the inputs, padded as a batch to a length
    /// that fits.
    pub open spec fn encodes_batch(
        self,
        inputs: Seq<(Seq<char>, Option<Seq<char>>)>,
        add_special_tokens: bool,
        out: Seq<EncodingView>,
    ) -> bool {
        exists|singles: Seq<EncodingView>| #[trigger]
            self.encodes_each(inputs, add_special_tokens, singles) && self.batch_fits(singles)
                && out == self.pads_batch(singles)
    }

    /// The encodings of the inputs of a batch, padded as a batch, are something
    /// `encode_batch` may give for it.
    proof fn lemma_encodes_batch(
        self,
        inputs: Seq<(Seq<char>, Option<Seq<char>>)>,
        add_special_tokens: bool,
        singles: Seq<EncodingView>,
    )
        requires
            self.encodes_each(inputs, add_special_tokens, singles),
            self.batch_fits(singles),
        ensures
            self.encodes_batch(inputs, add_special_tokens, self.pads_batch(singles)),
    {
    }

    /// The texts of the tokens that `ids` stand for, in order. An id that stands for no
    /// token is left out; so is, with `skip_special_tokens`, every special token.
    pub open spec fn surfaces(self, ids: Seq<u32>, skip_special_tokens: bool) -> Seq<Seq<char>>
        decreases ids.len(),
    {
        if ids.len() == 0 {
            Seq::empty()
        } else {
            let rest = self.surfaces(ids.drop_last(), skip_special_tokens);
            match self.id_token(ids.last()) {
                Some(token) => if skip_special_tokens && self.vocabulary.is_special(token) {
                    rest
                } else {
                    rest.push(token)
                },
                None => rest,
            }
        }
    }

    /// Whether `out` is something `decode` may give for `ids`: what the decoder may make
    /// of the texts of the tokens, or these texts with a space between them where no
    /// decoder is set.
    pub open spec fn decodes(self, ids: Seq<u32>, skip_special_tokens: bool, out: Seq<char>) -> bool {
        match self.decoder {
            Some(decoder) => decoder.decodes(self.surfaces(ids, skip_special_tokens), out),
            None => out == joined(self.surfaces(ids, skip_special_tokens)),
        }
    }
}

impl<M: Model, N: Normalizer, PT: PreTokenizer, PP: PostProcessor, D: Decoder> Tokenizer<
    M,
    N,
    PT,
    PP,
    D,
> {
    /// Encodes a batch of inputs, one after the other and in their order, and pads the
    /// encodings as a batch. Fails with the failure of the first input that fails.
    pub fn encode_batch(&self, inputs: Vec<EncodeInput>, add_special_tokens: bool) -> (r: Result<
        Vec<Encoding>,
        Error,
    >)
        ensures
            r matches Ok(out) ==> {
                &&& out@.len() == inputs@.len()
                &&& self@.encodes_batch(batch_texts(inputs@), add_special_tokens, views(out@))
                &&& forall|i: int| 0 <= i < out@.len() ==> (#[trigger] out@[i])@.wf()
                &&& self@.pads_to_longest() ==> forall|i: int, j: int|
                    0 <= i < out@.len() && 0 <= j < out@.len() ==> (#[trigger] out@[i])@.len() == (
                    #[trigger] out@[j])@.len()
            },
            inputs@.len() == 0 ==> (r matches Ok(out) && out@.len() == 0),
            self@.batch_miscalibrated(inputs@, add_special_tokens) ==> r is Err,
            (r matches Err(e) && e is MaxLengthTooSmall) ==> self@.batch_miscalibrated(
                inputs@,
                add_special_tokens,
            ),
            (r matches Err(e) && e is PatternFailure) ==> !self.ready(),
            r matches Err(e) ==> self@.can_fail_with(e) && !(e is DecoderFailure),
    {
        let ghost all = inputs@;
        let mut encodings: Vec<Encoding> = Vec::new();
        for input in it: inputs
            invariant
                it.seq() == all,
                forall|i: int|
                    0 <= i < it.index() ==> !self@.miscalibrated(
                        (#[trigger] all[i]) is Dual,
                        add_special_tokens,
                    ),
                encodings@.len() == it.index(),
                forall|i: int| 0 <= i < it.index() ==> (#[trigger] encodings@[i])@.wf(),
                forall|i: int|
                    0 <= i < it.index() ==> self@.encodes(
                        #[trigger] batch_texts(all)[i],
                        add_special_tokens,
                        encodings@[i]@,
                    ),
        {
            assert(input == all[it.index() as int]);
            let encoding = self.encode(input, add_special_tokens)?;
            encodings.push(encoding);
        }
        let ghost singles = views(encodings@);
        match &self.padding {
            Some(params) => {
                let padded = pad_encodings(encodings, params);
                proof {
                    self@.lemma_encodes_batch(batch_texts(all), add_special_tokens, singles);
                    if padded is Ok {
                        assert(views(padded->Ok_0@) =~= self@.pads_batch(singles));
                    }
                }
                padded
            },
            None => {
                proof {
                    self@.lemma_encodes_batch(batch_texts(all), add_special_tokens, singles);
                }
                Ok(encodings)
            },
        }
    }

    /// The texts of the tokens that `ids` stand for.
    pub fn decode_tokens(&self, ids: &Vec<u32>, skip_special_tokens: bool) -> (r: Vec<String>)
        ensures
            texts(r@) == self@.surfaces(ids@, skip_special_tokens),
    {
        let mut tokens: Vec<String> = Vec::new();
        let n = ids.len();
        let mut i: usize = 0;
        assert(ids@.subrange(0, 0) =~= Seq::empty());
        while i < n
            invariant
                i <= n,
                n == ids@.len(),
                texts(tokens@) == self@.surfaces(ids@.subrange(0, i as int), skip_special_tokens),
            decreases n - i,
        {
            assert(ids@.subrange(0, i + 1).drop_last() =~= ids@.subrange(0, i as int));
            let ghost so_far = tokens@;
            if let Some(token) = self.id_to_token(ids[i]) {
                if !(skip_special_tokens && self.added_vocabulary.is_special(token.as_str())) {
                    tokens.push(token);
                    assert(texts(tokens@) =~= texts(so_far).push(token@));
                }
            }
            i += 1;
        }
        assert(ids@.subrange(0, n as int) =~= ids@);
        tokens
    }

    /// Decodes ids back to a text: takes the texts of the tokens that the ids stand for,
    /// without the special tokens if so asked, and hands them to the decoder, or joins
    /// them with spaces where no decoder is set.
    pub fn decode(&self, ids: Vec<u32>, skip_special_tokens: bool) -> (r: Result<String, Error>)
        ensures
            r matches Ok(out) ==> self@.decodes(ids@, skip_special_tokens, out@),
            r matches Err(e) ==> e is DecoderFailure && self@.can_fail_with(e),
    {
        let tokens = self.decode_tokens(&ids, skip_special_tokens);
        match &self.decoder {
            Some(decoder) => match decoder.decode(tokens) {
                Ok(out) => Ok(out),
                Err(message) => Err(Error::DecoderFailure(message)),
            },
            None => Ok(join(&tokens)),
        }
    }

    /// Decodes a batch of sentences, one after the other and in their order. Fails with
    /// the failure of the first sentence that fails.
    pub fn decode_batch(&self, sentences: Vec<Vec<u32>>, skip_special_tokens: bool) -> (r: Result<
        Vec<String>,
        Error,
    >)
        ensures
            r matches Ok(out) ==> out@.len() == sentences@.len() && forall|i: int|
                0 <= i < out@.len() ==> self@.decodes(
                    (#[trigger] sentences@[i])@,
                    skip_special_tokens,
                    out@[i]@,
                ),
            sentences@.len() == 0 ==> (r matches Ok(out) && out@.len() == 0),
            r matches Err(e) ==> e is DecoderFailure && self@.can_fail_with(e),
    {
        let ghost all = sentences@;
        let mut out: Vec<String> = Vec::new();
        for sentence in it: sentences
            invariant
                it.seq() == all,
                out@.len() == it.index(),
                forall|i: int|
                    0 <= i < it.index() ==> self@.decodes(
                        (#[trigger] all[i])@,
                        skip_special_tokens,
                        out@[i]@,
                    ),
        {
            assert(sentence == all[it.index() as int]);
            let text = self.decode(sentence, skip_special_tokens)?;
            out.push(text);
        }
        Ok(out)
    }
}

/// A batch that is padded to its longest encoding holds encodings of that length only:
/// each is what it was, padded to the length of the longest, and one of that length is as
/// it was.
pub proof fn lemma_batch_padded_to_longest<
    M: Model,
    N: Normalizer,
    PT: PreTokenizer,
    PP: PostProcessor,
    D: Decoder,
>(tokenizer: TokenizerView<M, N, PT, PP, D>, singles: Seq<EncodingView>, i: int)
    requires
        tokenizer.pads_to_longest(),
        tokenizer.batch_fits(singles),
        forall|k: int| 0 <= k < singles.len() ==> (#[trigger] singles[k]).wf(),
        0 <= i < singles.len(),
    ensures
        tokenizer.pads_batch(singles)[i].len() == longest(singles),
        tokenizer.pads_batch(singles)[i] == padded_with(
            singles[i],
            longest(singles) as usize,
            tokenizer.padding->0,
        ),
        singles[i].len() == longest(singles) ==> tokenizer.pads_batch(singles)[i] == singles[i],
{
    let params = tokenizer.padding->0;
    lemma_longest(singles);
    lemma_padded_len(
        singles[i],
        longest(singles) as usize,
        params.pad_id,
        params.pad_type_id,
        params.pad_token@,
        params.direction,
    );
}

/// After tokens were added, the same tokens can be added again, and adding them again
/// changes nothing: the tokenizer is as it was, so its vocabulary is as large and every
/// token and every id stands for what it stood for, and the count of tokens added is 0.
pub proof fn lemma_add_tokens_a_second_time<
    M: Model,
    N: Normalizer,
    PT: PreTokenizer,
    PP: PostProcessor,
    D: Decoder,
>(
    before: TokenizerView<M, N, PT, PP, D>,
    tokens: Seq<(Seq<char>, bool)>,
    once: TokenizerView<M, N, PT, PP, D>,
    twice: TokenizerView<M, N, PT, PP, D>,
)
    requires
        before.adds(tokens, once),
    ensures
        ids_fit(once.vocabulary.added, tokens, &once.model),
        once.adds(tokens, twice) ==> twice == once && twice.vocabulary.added.len()
            - once.vocabulary.added.len() == 0,
{
    lemma_add_tokens_twice(before.vocabulary.added, tokens, &before.model);
    lemma_add_tokens_again(before.vocabulary.added, tokens, &before.model);
}

/// With `skip_special_tokens`, ids that stand for nothing but special tokens decode to
/// no token at all, and so to the empty text where no decoder is set.
pub proof fn lemma_decode_of_special_tokens<
    M: Model,
    N: Normalizer,
    PT: PreTokenizer,
    PP: PostProcessor,
    D: Decoder,
>(tokenizer: TokenizerView<M, N, PT, PP, D>, ids: Seq<u32>)
    requires
        forall|i: int|
            0 <= i < ids.len() ==> (tokenizer.id_token(#[trigger] ids[i]) matches Some(token)
                ==> tokenizer.vocabulary.is_special(token)),
    ensures
        tokenizer.surfaces(ids, true).len() == 0,
        tokenizer.decoder is None ==> forall|out: Seq<char>|
            tokenizer.decodes(ids, true, out) ==> out.len() == 0,
    decreases ids.len(),
{
    if ids.len() > 0 {
        assert forall|i: int| 0 <= i < ids.drop_last().len() implies (tokenizer.id_token(
            #[trigger] ids.drop_last()[i],
        ) matches Some(token) ==> tokenizer.vocabulary.is_special(token)) by {
            assert(ids.drop_last()[i] == ids[i]);
        }
        lemma_decode_of_special_tokens(tokenizer, ids.drop_last());
        assert(ids.last() == ids[ids.len() - 1]);
    }
}

/// With `skip_special_tokens`, no text that decoding hands on is a special token.
pub proof fn lemma_decode_skips_special<
    M: Model,
    N: Normalizer,
    PT: PreTokenizer,
    PP: PostProcessor,
    D: Decoder,
>(tokenizer: TokenizerView<M, N, PT, PP, D>, ids: Seq<u32>, i: int)
    requires
        0 <= i < tokenizer.surfaces(ids, true).len(),
    ensures
        !tokenizer.vocabulary.is_special(tokenizer.surfaces(ids, true)[i]),
    decreases ids.len(),
{
    if ids.len() > 0 {
        let rest = tokenizer.surfaces(ids.drop_last(), true);
        if i < rest.len() {
            lemma_decode_skips_special(tokenizer, ids.drop_last(), i);
        }
    }
}

/// Learns a model from the words of a training text.
pub trait Trainer: Sync {
    /// The model that this trainer gives.
    type Model: Model;

    /// Whether `model` and `special_tokens` are something this trainer may give for
    /// `words`. A trainer that says nothing of what it does leaves this as it is: anything
    /// may come out.
    open spec fn trains(
        &self,
        words: Seq<(Seq<char>, u32)>,
        model: Self::Model,
        special_tokens: Seq<Seq<char>>,
    ) -> bool {
        true
    }

    /// Whether `after` is something this trainer may make of the counts `before` when it
    /// is handed `tokens`. A trainer that says nothing of what it does leaves this as it
    /// is: anything may come out.
    open spec fn counts(
        &self,
        before: Seq<(Seq<char>, u32)>,
        tokens: Seq<Seq<char>>,
        after: Seq<(Seq<char>, u32)>,
    ) -> bool {
        true
    }

    /// Whether this trainer may fail. A trainer that does not say so leaves this as it is:
    /// it may.
    open spec fn may_fail(&self) -> bool {
        true
    }

    /// Whether progress is to be shown while the trainer works.
    fn should_show_progress(&self) -> bool;

    /// Trains a model on `words`. Gives the model, and the special tokens that go with
    /// it.
    fn train(&self, words: WordCounts) -> (r: Result<(Self::Model, Vec<String>), String>)
        requires
            words.wf(),
        ensures
            r matches Ok((model, special_tokens)) ==> self.trains(
                words@,
                model,
                texts(special_tokens@),
            ),
            r is Err ==> self.may_fail(),
    ;

    /// Counts the tokens of one line in `words`.
    fn process_tokens(&self, words: &mut WordCounts, tokens: Vec<String>)
        requires
            old(words).wf(),
        ensures
            final(words).wf(),
            self.counts(old(words)@, texts(tokens@), final(words)@),
    ;
}

/// The texts of the lines of a list of files.
pub open spec fn file_texts(files: Seq<Vec<String>>) -> Seq<Seq<Seq<char>>> {
    files.map_values(|lines: Vec<String>| texts(lines@))
}

/// The texts of a sequence of pre-tokens.
pub open spec fn pre_token_texts(pre_tokens: Seq<(Seq<char>, Offsets)>) -> Seq<Seq<char>> {
    pre_tokens.map_values(|p: (Seq<char>, Offsets)| p.0)
}

impl<M: Model, N: Normalizer, PT: PreTokenizer, PP: PostProcessor, D: Decoder> TokenizerView<
    M,
    N,
    PT,
    PP,
    D,
> {
    /// Whether `after` is something the trainer may make of the counts `before` when it
    /// is handed the pre-tokens of a line.
    pub open spec fn counts_through<T: Trainer>(
        self,
        trainer: &T,
        before: Seq<(Seq<char>, u32)>,
        line: Seq<char>,
        after: Seq<(Seq<char>, u32)>,
        normalized: NormalizedView,
        pre_tokens: Seq<(Seq<char>, Offsets)>,
    ) -> bool {
        self.prepares(line, normalized, pre_tokens) && trainer.counts(
            before,
            pre_token_texts(pre_tokens),
            after,
        )
    }

    /// Whether `after` is something the trainer may make of the counts `before` when the
    /// line is normalized and pre-tokenized, and the trainer is handed the pre-tokens.
    pub open spec fn counts_line<T: Trainer>(
        self,
        trainer: &T,
        before: Seq<(Seq<char>, u32)>,
        line: Seq<char>,
        after: Seq<(Seq<char>, u32)>,
    ) -> bool {
        exists|normalized: NormalizedView, pre_tokens: Seq<(Seq<char>, Offsets)>| #[trigger]
            self.counts_through(trainer, before, line, after, normalized, pre_tokens)
    }

    /// Whether `states` are counts as the trainer may make them line by line: none at
    /// first, and after each line what the trainer made of the counts before it.
    pub open spec fn counts_lines<T: Trainer>(
        self,
        trainer: &T,
        lines: Seq<Seq<char>>,
        states: Seq<Seq<(Seq<char>, u32)>>,
    ) -> bool {
        &&& states.len() == lines.len() + 1
        &&& states[0].len() == 0
        &&& forall|i: int|
            0 <= i < lines.len() ==> self.counts_line(
                trainer,
                states[i],
                #[trigger] lines[i],
                states[i + 1],
            )
    }

    /// Whether `words` are counts that the trainer may end up with for the lines of one
    /// file.
    pub open spec fn counts_file<T: Trainer>(
        self,
        trainer: &T,
        lines: Seq<Seq<char>>,
        words: Seq<(Seq<char>, u32)>,
    ) -> bool {
        exists|states: Seq<Seq<(Seq<char>, u32)>>| #[trigger]
            self.counts_lines(trainer, lines, states) && words == states.last()
    }

    /// Whether `counts` are counts that the trainer may end up with for `files`, one for
    /// each file.
    pub open spec fn counts_files<T: Trainer>(
        self,
        trainer: &T,
        files: Seq<Seq<Seq<char>>>,
        counts: Seq<Seq<(Seq<char>, u32)>>,
    ) -> bool {
        &&& counts.len() == files.len()
        &&& forall|i: int|
            0 <= i < files.len() ==> self.counts_file(trainer, #[trigger] files[i], counts[i])
    }

    /// The tokenizer after training gave `model` and `special_tokens`: the model takes the
    /// place of the old one, and the special tokens are added and marked as special.
    pub open spec fn retrained(self, model: M, special_tokens: Seq<Seq<char>>) -> Self {
        let added = offered_all(
            self.vocabulary.added,
            special_tokens.map_values(|t: Seq<char>| (t, false)),
            &model,
        );
        let special = marked_all(self.vocabulary.special, added, special_tokens, &model);
        TokenizerView {
            model,
            vocabulary: AddedVocabularyView {
                added,
                special,
                pattern: split_pattern(added, special),
            },
            ..self
        }
    }

    /// Whether training on `words`, the counts of the files added up word by word, may
    /// give `model` and `special_tokens`.
    pub open spec fn trains_through<T: Trainer<Model = M>>(
        self,
        trainer: &T,
        counts: Seq<Seq<(Seq<char>, u32)>>,
        words: Seq<(Seq<char>, u32)>,
        model: M,
        special_tokens: Seq<Seq<char>>,
    ) -> bool {
        &&& words == summed(counts)
        &&& trainer.trains(words, model, special_tokens)
    }

    /// Whether ids are left for the special tokens that go with a model: none of them is
    /// added, or the id of the last of them that is added fits.
    pub open spec fn has_ids_for(self, model: M, special_tokens: Seq<Seq<char>>) -> bool {
        ids_fit(
            self.vocabulary.added,
            special_tokens.map_values(|t: Seq<char>| (t, false)),
            &model,
        )
    }

    /// Whether training on the counts of the files may give a model and special tokens
    /// for which no ids are left.
    pub open spec fn training_overflows<T: Trainer<Model = M>>(
        self,
        trainer: &T,
        counts: Seq<Seq<(Seq<char>, u32)>>,
    ) -> bool {
        exists|words: Seq<(Seq<char>, u32)>, model: M, special_tokens: Seq<Seq<char>>| #[trigger]
            self.trains_through(trainer, counts, words, model, special_tokens)
                && !self.has_ids_for(model, special_tokens)
    }

    /// Whether `after` is something that training on the counts of the files may make of
    /// this tokenizer: the counts are added up word by word and handed to the trainer, the
    /// model that it gives takes the place of the old one, and the special tokens that it
    /// gives are added and marked as special.
    pub open spec fn trained_on<T: Trainer<Model = M>>(
        self,
        trainer: &T,
        counts: Seq<Seq<(Seq<char>, u32)>>,
        after: Self,
    ) -> bool {
        exists|words: Seq<(Seq<char>, u32)>, model: M, special_tokens: Seq<Seq<char>>| #[trigger]
            self.trains_through(trainer, counts, words, model, special_tokens)
                && self.has_ids_for(model, special_tokens) && after == self.retrained(
                model,
                special_tokens,
            )
    }

    /// Whether `after` is something `train` may make of this tokenizer: each file is
    /// counted on its own, and the tokenizer is trained on the counts of the files.
    pub open spec fn trained<T: Trainer<Model = M>>(
        self,
        trainer: &T,
        files: Seq<Seq<Seq<char>>>,
        after: Self,
    ) -> bool {
        exists|counts: Seq<Seq<(Seq<char>, u32)>>| #[trigger]
            self.counts_files(trainer, files, counts) && self.trained_on(trainer, counts, after)
    }

    /// Whether the files may be counted so that the counts of some word, added up, no
    /// longer fit.
    pub open spec fn counting_overflows<T: Trainer>(
        self,
        trainer: &T,
        files: Seq<Seq<Seq<char>>>,
    ) -> bool {
        exists|counts: Seq<Seq<(Seq<char>, u32)>>| #[trigger]
            self.counts_files(trainer, files, counts) && overflows(counts)
    }

    /// Whether training on the files may give a model and special tokens for which no ids
    /// are left.
    pub open spec fn training_on_files_overflows<T: Trainer<Model = M>>(
        self,
        trainer: &T,
        files: Seq<Seq<Seq<char>>>,
    ) -> bool {
        exists|counts: Seq<Seq<(Seq<char>, u32)>>| #[trigger]
            self.counts_files(trainer, files, counts) && self.training_overflows(trainer, counts)
    }

    /// What the trainer made of the counts when it was handed the pre-tokens of a line is
    /// something it may make of them.
    proof fn lemma_counts_line<T: Trainer>(
        self,
        trainer: &T,
        before: Seq<(Seq<char>, u32)>,
        line: Seq<char>,
        after: Seq<(Seq<char>, u32)>,
        normalized: NormalizedView,
        pre_tokens: Seq<(Seq<char>, Offsets)>,
    )
        requires
            self.counts_through(trainer, before, line, after, normalized, pre_tokens),
        ensures
            self.counts_line(trainer, before, line, after),
    {
    }

    /// The counts after the last line of a file are counts that the trainer may end up
    /// with for the file.
    proof fn lemma_counts_file<T: Trainer>(
        self,
        trainer: &T,
        lines: Seq<Seq<char>>,
        states: Seq<Seq<(Seq<char>, u32)>>,
    )
        requires
            self.counts_lines(trainer, lines, states),
        ensures
            self.counts_file(trainer, lines, states.last()),
    {
    }

    /// The tokenizer with the model and the special tokens that training gave is
    /// something that training may make of it.
    proof fn lemma_trained_on<T: Trainer<Model = M>>(
        self,
        trainer: &T,
        counts: Seq<Seq<(Seq<char>, u32)>>,
        words: Seq<(Seq<char>, u32)>,
        model: M,
        special_tokens: Seq<Seq<char>>,
    )
        requires
            self.trains_through(trainer, counts, words, model, special_tokens),
            self.has_ids_for(model, special_tokens),
        ensures
            self.trained_on(trainer, counts, self.retrained(model, special_tokens)),
    {
    }

    /// A model and special tokens that training gave, and for which no ids are left, show
    /// that training may give such.
    proof fn lemma_training_overflows<T: Trainer<Model = M>>(
        self,
        trainer: &T,
        counts: Seq<Seq<(Seq<char>, u32)>>,
        words: Seq<(Seq<char>, u32)>,
        model: M,
        special_tokens: Seq<Seq<char>>,
    )
        requires
            self.trains_through(trainer, counts, words, model, special_tokens),
            !self.has_ids_for(model, special_tokens),
        ensures
            self.training_overflows(trainer, counts),
    {
    }

    /// What held of the counts of the files holds of counts that the files may be
    /// counted to.
    proof fn lemma_counted<T: Trainer<Model = M>>(
        self,
        trainer: &T,
        files: Seq<Seq<Seq<char>>>,
        counts: Seq<Seq<(Seq<char>, u32)>>,
    )
        requires
            self.counts_files(trainer, files, counts),
        ensures
            overflows(counts) ==> self.counting_overflows(trainer, files),
            self.training_overflows(trainer, counts) ==> self.training_on_files_overflows(
                trainer,
                files,
            ),
    {
    }

    /// What training on the counts of the files made of the tokenizer is something
    /// `train` may make of it.
    proof fn lemma_trained<T: Trainer<Model = M>>(
        self,
        trainer: &T,
        files: Seq<Seq<Seq<char>>>,
        counts: Seq<Seq<(Seq<char>, u32)>>,
        after: Self,
    )
        requires
            self.counts_files(trainer, files, counts),
            self.trained_on(trainer, counts, after),
        ensures
            self.trained(trainer, files, after),
    {
    }
}

impl<M: Model, N: Normalizer, PT: PreTokenizer, PP: PostProcessor, D: Decoder> Tokenizer<
    M,
    N,
    PT,
    PP,
    D,
> {
    /// Counts the words of one line: normalizes and pre-tokenizes the line and hands the
    /// pre-tokens to the trainer. On a failure the counts stay as they are.
    pub fn count_line<T: Trainer>(&self, trainer: &T, words: &mut WordCounts, line: &str) -> (r:
        Result<(), Error>)
        requires
            old(words).wf(),
        ensures
            final(words).wf(),
            r is Ok ==> self@.counts_line(trainer, old(words)@, line@, final(words)@),
            r matches Err(e) ==> final(words)@ == old(words)@ && self@.can_fail_with(e) && (
            e is NormalizerFailure || e is PreTokenizerFailure),
    {
        let mut normalized = self.do_normalize(line)?;
        let ghost between = normalized@;
        let pre_tokens = self.pre_tokenize(&mut normalized)?;
        let ghost pre_views = pre_token_views(pre_tokens@);
        let mut tokens: Vec<String> = Vec::new();
        for pre_token in it: pre_tokens
            invariant
                pre_views == pre_token_views(it.seq()),
                texts(tokens@) == pre_token_texts(pre_views).subrange(0, it.index() as int),
        {
            let ghost so_far = tokens@;
            tokens.push(pre_token.0);
            assert(texts(tokens@) =~= texts(so_far).push(pre_token.0@));
            assert(texts(tokens@) =~= pre_token_texts(pre_views).subrange(0, it.index() + 1));
        }
        assert(texts(tokens@) =~= pre_token_texts(pre_views));
        trainer.process_tokens(words, tokens);
        proof {
            self@.lemma_prepares(line@, between, normalized@, pre_views);
            self@.lemma_counts_line(
                trainer,
                old(words)@,
                line@,
                words@,
                normalized@,
                pre_views,
            );
        }
        Ok(())
    }

    /// Counts the words of the lines of one file, line by line.
    pub fn count_words<T: Trainer>(&self, trainer: &T, lines: &Vec<String>) -> (r: Result<
        WordCounts,
        Error,
    >)
        ensures
            r matches Ok(words) ==> words.wf() && self@.counts_file(
                trainer,
                texts(lines@),
                words@,
            ),
            lines@.len() == 0 ==> (r matches Ok(words) && words@.len() == 0),
            r matches Err(e) ==> self@.can_fail_with(e) && (e is NormalizerFailure
                || e is PreTokenizerFailure),
    {
        let mut words = WordCounts::new();
        let ghost mut states: Seq<Seq<(Seq<char>, u32)>> = seq![words@];
        let n = lines.len();
        let mut i: usize = 0;
        while i < n
            invariant
                i <= n,
                n == lines@.len(),
                words.wf(),
                states.len() == i + 1,
                states[0].len() == 0,
                states.last() == words@,
                i == 0 ==> words@.len() == 0,
                forall|k: int|
                    0 <= k < i ==> self@.counts_line(
                        trainer,
                        states[k],
                        #[trigger] texts(lines@)[k],
                        states[k + 1],
                    ),
            decreases n - i,
        {
            self.count_line(trainer, &mut words, lines[i].as_str())?;
            proof {
                let ghost old_states = states;
                states = states.push(words@);
                assert forall|k: int| 0 <= k < i + 1 implies self@.counts_line(
                    trainer,
                    states[k],
                    #[trigger] texts(lines@)[k],
                    states[k + 1],
                ) by {
                    if k < i {
                        assert(states[k] == old_states[k]);
                        assert(states[k + 1] == old_states[k + 1]);
                    }
                }
            }
            i += 1;
        }
        proof {
            self@.lemma_counts_file(trainer, texts(lines@), states);
        }
        Ok(words)
    }

    /// Puts a model in the place of the model of the tokenizer, and adds the special
    /// tokens that go with it and marks them as special. Fails, and leaves the tokenizer
    /// as it is, exactly where no ids are left for the special tokens.
    pub fn replace_model(&mut self, model: M, special_tokens: Vec<String>) -> (r: Result<
        (),
        Error,
    >)
        requires
            old(self)@.wf(),
        ensures
            final(self)@.wf(),
            !old(self)@.has_ids_for(model, texts(special_tokens@)) <==> r is Err,
            r matches Err(e) ==> e is VocabularyOverflow && final(self)@ == old(self)@
                && final(self).ready() == old(self).ready(),
            r is Ok ==> final(self)@ == old(self)@.retrained(model, texts(special_tokens@)),
    {
        match self.added_vocabulary.try_add_special_tokens(special_tokens.as_slice(), &model) {
            Some(_) => {
                self.model = model;
                Ok(())
            },
            None => Err(Error::VocabularyOverflow),
        }
    }

    /// Trains a model on the word counts of a list of files and puts it in the place of
    /// the model of the tokenizer. The counts are added up word by word and handed to the
    /// trainer, and the special tokens that the trainer gives are added and marked as
    /// special. Fails where the counts of a word, added up, no longer fit, where the
    /// trainer fails, or where no ids are left for the special tokens; the tokenizer then
    /// stays as it is.
    pub fn train_on_counts<T: Trainer<Model = M>>(&mut self, trainer: &T, counts: Vec<WordCounts>) -> (r:
        Result<(), Error>)
        requires
            old(self)@.wf(),
            forall|i: int| 0 <= i < counts@.len() ==> (#[trigger] counts@[i]).wf(),
        ensures
            final(self)@.wf(),
            overflows(count_views(counts@)) <==> (r matches Err(e) && e is WordCountOverflow),
            r is Ok ==> old(self)@.trained_on(trainer, count_views(counts@), final(self)@),
            (r matches Err(e) && e is VocabularyOverflow) ==> old(self)@.training_overflows(
                trainer,
                count_views(counts@),
            ),
            (r matches Err(e) && e is TrainerFailure) ==> trainer.may_fail(),
            r is Err ==> final(self).ready() == old(self).ready(),
            r matches Err(e) ==> final(self)@ == old(self)@ && (e is WordCountOverflow
                || e is TrainerFailure || e is VocabularyOverflow),
    {
        let ghost all = count_views(counts@);
        let words = match WordCounts::sum(&counts) {
            Some(words) => words,
            None => {
                return Err(Error::WordCountOverflow);
            },
        };
        let ghost gathered = words@;
        let (model, special_tokens) = match trainer.train(words) {
            Ok(trained) => trained,
            Err(message) => {
                return Err(Error::TrainerFailure(message));
            },
        };
        let ghost before = self@;
        let ghost specials = texts(special_tokens@);
        let r = self.replace_model(model, special_tokens);
        proof {
            if r is Ok {
                before.lemma_trained_on(trainer, all, gathered, model, specials);
            } else {
                before.lemma_training_overflows(trainer, all, gathered, model, specials);
            }
        }
        r
    }

    /// Trains a model on the lines of `files` and puts it in the place of the model of the
    /// tokenizer. Each file is counted on its own, line by line, and the tokenizer is
    /// trained on the counts of the files. Fails where the normalizer or the
    /// pre-tokenizer fails on a line, and where training on the counts fails; the
    /// tokenizer then stays as it is.
    pub fn train<T: Trainer<Model = M>>(&mut self, trainer: &T, files: Vec<Vec<String>>) -> (r:
        Result<(), Error>)
        requires
            old(self)@.wf(),
        ensures
            final(self)@.wf(),
            r is Ok ==> old(self)@.trained(trainer, file_texts(files@), final(self)@),
            (r matches Err(e) && e is WordCountOverflow) ==> old(self)@.counting_overflows(
                trainer,
                file_texts(files@),
            ),
            (r matches Err(e) && e is VocabularyOverflow)
                ==> old(self)@.training_on_files_overflows(trainer, file_texts(files@)),
            (r matches Err(e) && e is TrainerFailure) ==> trainer.may_fail(),
            r is Err ==> final(self).ready() == old(self).ready(),
            r matches Err(e) ==> final(self)@ == old(self)@ && (e is WordCountOverflow
                || e is TrainerFailure || e is VocabularyOverflow || (old(self)@.can_fail_with(e)
                && (e is NormalizerFailure || e is PreTokenizerFailure))),
    {
        let mut counts: Vec<WordCounts> = Vec::new();
        let n = files.len();
        let mut i: usize = 0;
        while i < n
            invariant
                i <= n,
                n == files@.len(),
                *self == *old(self),
                self@.wf(),
                counts@.len() == i,
                forall|k: int| 0 <= k < i ==> (#[trigger] counts@[k]).wf(),
                forall|k: int|
                    0 <= k < i ==> self@.counts_file(
                        trainer,
                        #[trigger] file_texts(files@)[k],
                        counts@[k]@,
                    ),
            decreases n - i,
        {
            let counted = self.count_words(trainer, &files[i])?;
            counts.push(counted);
            i += 1;
        }
        let ghost seen = count_views(counts@);
        let ghost before = self@;
        let r = self.train_on_counts(trainer, counts);
        proof {
            before.lemma_counted(trainer, file_texts(files@), seen);
            if r is Ok {
                before.lemma_trained(trainer, file_texts(files@), seen, self@);
            }
        }
        r
    }
}

/// Rewriting offsets as offsets into the original keeps their order: within a single
/// sequence, of two ranges of the normalized text that are not empty, the one that starts
/// first still starts first.
pub proof fn lemma_remap_keeps_order(
    offsets: Seq<Offsets>,
    normalized: NormalizedView,
    i: int,
    j: int,
)
    requires
        normalized.wf(),
        0 <= i < offsets.len(),
        0 <= j < offsets.len(),
        offsets[i].0 < offsets[i].1 <= utf8_len(normalized.normalized),
        offsets[j].0 < offsets[j].1 <= utf8_len(normalized.normalized),
        offsets[i].0 <= offsets[j].0,
    ensures
        remapped(offsets, normalized, None)[i].0 <= remapped(offsets, normalized, None)[j].0,
{
    assert(normalized.alignments[offsets[i].0 as int].0 <= normalized.alignments[offsets[j].0 as int].0);
}

/// Where the text was never edited, rewriting offsets as offsets into the original
/// changes none of them, the empty ranges among them included: so all of them keep their
/// order.
pub proof fn lemma_remap_of_unedited_text(offsets: Seq<Offsets>, text: Seq<char>)
    requires
        NormalizedView::identity(text).wf(),
    ensures
        remapped(offsets, NormalizedView::identity(text), None) == offsets,
{
    let unedited = NormalizedView::identity(text);
    assert forall|i: int| 0 <= i < offsets.len() implies converted_or_kept(
        #[trigger] offsets[i],
        unedited,
    ) == offsets[i] by {
        if offsets[i].0 <= offsets[i].1 <= utf8_len(text) {
            lemma_identity_converts_to_itself(text, offsets[i].0, offsets[i].1);
        }
    }
    assert(remapped(offsets, unedited, None) =~= offsets);
}

/// Whether `offsets` are ranges that are not empty, with starts that never decrease.
pub open spec fn rising(offsets: Seq<Offsets>) -> bool {
    &&& forall|i: int| 0 <= i < offsets.len() ==> (#[trigger] offsets[i]).0 < offsets[i].1
    &&& forall|i: int, j: int|
        0 <= i <= j < offsets.len() ==> (#[trigger] offsets[i]).0 <= (#[trigger] offsets[j]).0
}

/// Two encodings whose offsets rise, put together with the offsets of the second moved
/// right by the end of the first, give an encoding whose offsets rise.
pub proof fn lemma_merged_rising(a: EncodingView, b: EncodingView)
    requires
        a.can_merge(b, true),
        rising(a.offsets),
        rising(b.offsets),
    ensures
        rising(a.merged(b, true).offsets),
{
    let m = a.merged(b, true).offsets;
    let n = a.offsets.len() as int;
    let shift = a.merge_shift(true);
    assert forall|i: int| 0 <= i < m.len() implies (#[trigger] m[i]).0 < m[i].1 by {
        if i < n {
            assert(m[i] == a.offsets[i]);
        } else {
            assert(b.offsets[i - n].0 < b.offsets[i - n].1);
        }
    }
    assert forall|i: int, j: int| 0 <= i <= j < m.len() implies (#[trigger] m[i]).0 <= (
    #[trigger] m[j]).0 by {
        if j < n {
            assert(m[i] == a.offsets[i]);
            assert(m[j] == a.offsets[j]);
        } else if i >= n {
            assert(b.offsets[i - n].0 <= b.offsets[j - n].0);
            assert(b.offsets[j - n].0 < b.offsets[j - n].1);
        } else {
            assert(m[i] == a.offsets[i]);
            assert(a.offsets[i].0 <= a.offsets[n - 1].0);
            assert(a.offsets[n - 1].0 < a.offsets[n - 1].1);
            assert(a.offsets.last() == a.offsets[n - 1]);
            assert(b.offsets[j - n].0 < b.offsets[j - n].1);
        }
    }
}

/// The parts of a sequence whose offsets rise, put together, give an encoding whose
/// offsets rise and are ranges of the normalized text.
proof fn lemma_parts_rising(encodings: Seq<EncodingView>, normalized: Seq<NormalizedView>)
    requires
        encodings.len() == normalized.len(),
        forall|i: int|
            0 <= i < encodings.len() ==> valid_part((#[trigger] encodings[i], normalized[i]))
                && rising(encodings[i].offsets),
        utf8_len(merge_normalized(normalized).normalized) <= usize::MAX,
    ensures
        merge_encodings(encodings).wf(),
        rising(merge_encodings(encodings).offsets),
        all_within(
            merge_encodings(encodings).offsets,
            utf8_len(merge_normalized(normalized).normalized) as int,
        ),
    decreases encodings.len(),
{
    if encodings.len() > 0 {
        let es = encodings.drop_last();
        let ns = normalized.drop_last();
        let a = merge_encodings(es);
        let b = encodings.last();
        let before = merge_normalized(ns);
        let piece = normalized.last();
        crate::utils::text::lemma_encode_concat(before.normalized, piece.normalized);
        assert forall|i: int| 0 <= i < es.len() implies valid_part((#[trigger] es[i], ns[i]))
            && rising(es[i].offsets) by {
            assert(es[i] == encodings[i]);
            assert(ns[i] == normalized[i]);
            assert(valid_part((encodings[i], normalized[i])));
        }
        lemma_parts_rising(es, ns);
        let last = encodings.len() - 1;
        assert(b == encodings[last]);
        assert(piece == normalized[last]);
        assert(valid_part((encodings[last], normalized[last])));
        lemma_merge_within(
            a,
            b,
            utf8_len(before.normalized) as int,
            utf8_len(piece.normalized) as int,
        );
        lemma_merged_rising(a, b);
    }
}

/// With nothing but a normalizer, a pre-tokenizer and a model, which give offsets that
/// rise for every piece of a single sequence, the offsets of its encoding, which are
/// offsets into the original text, have starts that never decrease.
pub proof fn lemma_encode_keeps_order<
    M: Model,
    N: Normalizer,
    PT: PreTokenizer,
    PP: PostProcessor,
    D: Decoder,
>(
    tokenizer: TokenizerView<M, N, PT, PP, D>,
    text: Seq<char>,
    add_special_tokens: bool,
    out: EncodingView,
    i: int,
    j: int,
)
    requires
        tokenizer.post_processor is None,
        tokenizer.truncation is None,
        tokenizer.padding is None,
        forall|k: int, e: EncodingView, n: NormalizedView|
            0 <= k < tokenizer.vocabulary.split(text).len() && #[trigger] tokenizer.encodes_piece(
                tokenizer.vocabulary.split(text)[k].0,
                tokenizer.vocabulary.split(text)[k].1,
                0,
                e,
                n,
            ) ==> rising(e.offsets),
        tokenizer.encodes((text, None), add_special_tokens, out),
        0 <= i <= j < out.offsets.len(),
    ensures
        out.offsets[i].0 <= out.offsets[j].0,
{
    let (first, second, processed) = choose|
        first: (EncodingView, NormalizedView),
        second: Option<(EncodingView, NormalizedView)>,
        processed: EncodingView,
    | #[trigger]
        tokenizer.encodes_through((text, None), add_special_tokens, out, first, second, processed);
    assert(second is None);
    let parts = choose|parts: Seq<(EncodingView, NormalizedView)>| #[trigger]
        tokenizer.encodes_pieces(text, 0, parts) && first.0 == merge_encodings(
            parts.map_values(|p: (EncodingView, NormalizedView)| p.0),
        ) && first.1 == merge_normalized(
            parts.map_values(|p: (EncodingView, NormalizedView)| p.1),
        );
    let pieces = tokenizer.vocabulary.split(text);
    let es = parts.map_values(|p: (EncodingView, NormalizedView)| p.0);
    let ns = parts.map_values(|p: (EncodingView, NormalizedView)| p.1);
    assert forall|k: int| 0 <= k < es.len() implies valid_part((#[trigger] es[k], ns[k]))
        && rising(es[k].offsets) by {
        assert(valid_part(parts[k]));
        assert(tokenizer.encodes_piece(pieces[k].0, pieces[k].1, 0, parts[k].0, parts[k].1));
    }
    lemma_parts_rising(es, ns);
    let e = first.0;
    assert(tokenizer.truncates(e, None, add_special_tokens) == Some((e, None::<EncodingView>)));
    let p = choose|p: EncodingView| #[trigger]
        tokenizer.processes(e, None, add_special_tokens, p) && processed == tokenizer.pads(p);
    assert(processed == e);
    assert(out.offsets == remapped(e.offsets, first.1, None));
    lemma_remap_keeps_order(e.offsets, first.1, i, j);
}

/// A range of the first of two merged texts is converted as in that text alone.
pub proof fn lemma_convert_in_merged(
    first: NormalizedView,
    second: NormalizedView,
    a: usize,
    b: usize,
)
    requires
        a < b <= first.alignments.len(),
    ensures
        first.merged(second).converted(a, b) == first.converted(a, b),
{
    lemma_upper_end_in_merged(first, second, a as int, b as int);
}

proof fn lemma_upper_end_in_merged(first: NormalizedView, second: NormalizedView, a: int, b: int)
    requires
        0 <= a <= b <= first.alignments.len(),
    ensures
        first.merged(second).upper_end(a, b) == first.upper_end(a, b),
    decreases b - a,
{
    if a < b {
        lemma_upper_end_in_merged(first, second, a, b - 1);
    }
}

proof fn lemma_upper_end_of_shifted(
    first: NormalizedView,
    content: Seq<char>,
    a: int,
    b: int,
)
    requires
        NormalizedView::identity(content).wf(),
        utf8_len(first.original) + utf8_len(content) <= usize::MAX,
        0 <= a < b <= utf8_len(content),
    ensures
        first.merged(NormalizedView::identity(content)).upper_end(
            first.alignments.len() + a,
            first.alignments.len() + b,
        ) == utf8_len(first.original) + b,
    decreases b - a,
{
    let merged = first.merged(NormalizedView::identity(content));
    let n = first.alignments.len() as int;
    if a < b - 1 {
        lemma_upper_end_of_shifted(first, content, a, b - 1);
    } else {
        assert(merged.upper_end(n + a, n + a) == 0);
    }
    assert(merged.alignments[n + b - 1].1 == utf8_len(first.original) + b);
}

/// An added token that follows tokens which end where their normalized text ends is
/// mapped back to exactly its own bytes of the original: those that follow the original
/// of what came before.
pub proof fn lemma_added_token_span(
    encoding: EncodingView,
    normalized: NormalizedView,
    content: Seq<char>,
    id: u32,
    type_id: u32,
)
    requires
        encoding.wf(),
        normalized.wf(),
        NormalizedView::identity(content).wf(),
        encoding.last_end() == utf8_len(normalized.normalized),
        utf8_len(content) > 0,
        utf8_len(normalized.normalized) + utf8_len(content) <= usize::MAX,
        utf8_len(normalized.original) + utf8_len(content) <= usize::MAX,
    ensures
        converted_or_kept(
            encoding.merged(encoding_of_added(content, id, type_id), true).offsets.last(),
            normalized.merged(NormalizedView::identity(content)),
        ) == (
            utf8_len(normalized.original) as usize,
            (utf8_len(normalized.original) + utf8_len(content)) as usize,
        ),
{
    let added = encoding_of_added(content, id, type_id);
    let merged = normalized.merged(NormalizedView::identity(content));
    let len = utf8_len(content) as int;
    let shift = encoding.last_end();
    assert(added.offsets[0] == (0usize, len as usize));
    assert(encoding.merged(added, true).offsets.last() == (shift, (shift + len) as usize));
    lemma_upper_end_of_shifted(normalized, content, 0, len);
    assert(merged.alignments[shift as int].0 == utf8_len(normalized.original));
}

/// In a single sequence, an added token that follows tokens which end where their
/// normalized text ends gets as its offsets exactly its own bytes of the original: those
/// that follow the original of what came before it, whatever comes after it.
pub proof fn lemma_added_token_offsets(
    before: (EncodingView, NormalizedView),
    content: Seq<char>,
    id: u32,
    type_id: u32,
    after: (EncodingView, NormalizedView),
)
    requires
        before.0.wf(),
        before.1.wf(),
        NormalizedView::identity(content).wf(),
        before.0.last_end() == utf8_len(before.1.normalized),
        utf8_len(content) > 0,
        utf8_len(before.1.normalized) + utf8_len(content) <= usize::MAX,
        utf8_len(before.1.original) + utf8_len(content) <= usize::MAX,
    ensures
        ({
            let encoding = before.0.merged(encoding_of_added(content, id, type_id), true).merged(
                after.0,
                true,
            );
            let normalized = before.1.merged(NormalizedView::identity(content)).merged(after.1);
            remapped(encoding.offsets, normalized, None)[before.0.len() as int] == (
                utf8_len(before.1.original) as usize,
                (utf8_len(before.1.original) + utf8_len(content)) as usize,
            )
        }),
{
    let added = encoding_of_added(content, id, type_id);
    let with_token = before.0.merged(added, true);
    let encoding = with_token.merged(after.0, true);
    let upto = before.1.merged(NormalizedView::identity(content));
    let shift = before.0.last_end();
    let len = utf8_len(content) as int;
    lemma_added_token_span(before.0, before.1, content, id, type_id);
    assert(added.offsets[0] == (0usize, len as usize));
    assert(with_token.offsets.last() == (shift, (shift + len) as usize));
    assert(encoding.offsets[before.0.len() as int] == with_token.offsets.last());
    crate::utils::text::lemma_encode_concat(before.1.normalized, content);
    lemma_convert_in_merged(upto, after.1, shift, (shift + len) as usize);
}

/// Putting together the parts of a sequence that has one part gives that part.
proof fn lemma_merge_one(e: EncodingView, n: NormalizedView)
    requires
        e.wf(),
        n.wf(),
    ensures
        merge_encodings(seq![e]) == e,
        merge_normalized(seq![n]) == n,
{
    let none = Seq::<EncodingView>::empty();
    assert(seq![e].drop_last() =~= none);
    assert(merge_encodings(none) == EncodingView::empty());
    assert(seq![e].last() == e);
    assert(merge_encodings(seq![e]) == merge_encodings(none).merged(e, true));
    let m = EncodingView::empty().merged(e, true);
    assert(m.ids =~= e.ids);
    assert(m.type_ids =~= e.type_ids);
    assert(m.tokens =~= e.tokens);
    assert(m.offsets =~= e.offsets);
    assert(m.special_tokens_mask =~= e.special_tokens_mask);
    assert(m.attention_mask =~= e.attention_mask);
    assert(m.overflowing =~= e.overflowing);
    let nothing = Seq::<NormalizedView>::empty();
    assert(seq![n].drop_last() =~= nothing);
    assert(merge_normalized(nothing) == NormalizedView::identity(Seq::<char>::empty()));
    assert(seq![n].last() == n);
    assert(merge_normalized(seq![n]) == merge_normalized(nothing).merged(n));
    let zero = NormalizedView::identity(Seq::<char>::empty());
    let k = zero.merged(n);
    assert(zero.original =~= Seq::<char>::empty());
    assert(utf8_len(zero.original) == 0);
    assert(k.original =~= n.original);
    assert(k.normalized =~= n.normalized);
    assert(k.alignments =~= n.alignments);
}

/// With nothing but a model, encoding a single sequence gives the tokens of the model for
/// the whole text as one pre-token, with their offsets rewritten over a text that was
/// never edited.
pub proof fn lemma_encode_with_model_alone<
    M: Model,
    N: Normalizer,
    PT: PreTokenizer,
    PP: PostProcessor,
    D: Decoder,
>(tokenizer: TokenizerView<M, N, PT, PP, D>, text: Seq<char>, add_special_tokens: bool, out: EncodingView)
    requires
        tokenizer.normalizer is None,
        tokenizer.pre_tokenizer is None,
        tokenizer.post_processor is None,
        tokenizer.truncation is None,
        tokenizer.padding is None,
        tokenizer.vocabulary.pattern is None,
        NormalizedView::identity(text).wf(),
        tokenizer.encodes((text, None), add_special_tokens, out),
    ensures
        exists|tokens: Seq<TokenView>| #[trigger]
            tokenizer.model.tokenizes(seq![(text, (0usize, utf8_len(text) as usize))], tokens)
                && out == (EncodingView {
                offsets: remapped(token_offsets(tokens), NormalizedView::identity(text), None),
                ..encoding_of(tokens, 0)
            }),
{
    let (first, second, processed) = choose|
        first: (EncodingView, NormalizedView),
        second: Option<(EncodingView, NormalizedView)>,
        processed: EncodingView,
    | #[trigger]
        tokenizer.encodes_through((text, None), add_special_tokens, out, first, second, processed);
    let parts = choose|parts: Seq<(EncodingView, NormalizedView)>| #[trigger]
        tokenizer.encodes_pieces(text, 0, parts) && first.0 == merge_encodings(
            parts.map_values(|p: (EncodingView, NormalizedView)| p.0),
        ) && first.1 == merge_normalized(
            parts.map_values(|p: (EncodingView, NormalizedView)| p.1),
        );
    let pieces = tokenizer.vocabulary.split(text);
    assert(pieces == seq![(text, None::<u32>)]);
    assert(tokenizer.encodes_piece(pieces[0].0, pieces[0].1, 0, parts[0].0, parts[0].1));
    let e = parts[0].0;
    let n = parts[0].1;
    let (pre_tokens, tokens) = choose|pre_tokens: Seq<(Seq<char>, Offsets)>, tokens: Seq<TokenView>| #[trigger]
        tokenizer.tokenizes_through(text, n, pre_tokens, tokens) && e == encoding_of(tokens, 0);
    let between = choose|between: NormalizedView| #[trigger]
        tokenizer.prepares_through(text, between, n, pre_tokens);
    assert(n == NormalizedView::identity(text));
    assert(pre_tokens == seq![(text, (0usize, utf8_len(text) as usize))]);
    assert(parts.map_values(|p: (EncodingView, NormalizedView)| p.0) =~= seq![e]);
    assert(parts.map_values(|p: (EncodingView, NormalizedView)| p.1) =~= seq![n]);
    lemma_merge_one(e, n);
    assert(first.0 == e);
    assert(first.1 == n);
    assert(second is None);
    assert(tokenizer.truncates(e, None, add_special_tokens) == Some((e, None::<EncodingView>)));
    let p = choose|p: EncodingView| #[trigger]
        tokenizer.processes(e, None, add_special_tokens, p) && processed == tokenizer.pads(p);
    assert(processed == e);
    assert(e.offsets =~= token_offsets(tokens));
    assert(tokenizer.model.tokenizes(seq![(text, (0usize, utf8_len(text) as usize))], tokens));
}

/// With nothing but a model that gives one token for every byte of its input, the
/// offsets of an encoding are those bytes one by one: cutting the text at them gives the
/// text back.
pub proof fn lemma_offsets_of_one_token_per_byte<
    M: Model,
    N: Normalizer,
    PT: PreTokenizer,
    PP: PostProcessor,
    D: Decoder,
>(tokenizer: TokenizerView<M, N, PT, PP, D>, text: Seq<char>, add_special_tokens: bool, out: EncodingView)
    requires
        tokenizer.normalizer is None,
        tokenizer.pre_tokenizer is None,
        tokenizer.post_processor is None,
        tokenizer.truncation is None,
        tokenizer.padding is None,
        tokenizer.vocabulary.pattern is None,
        NormalizedView::identity(text).wf(),
        forall|tokens: Seq<TokenView>| #[trigger]
            tokenizer.model.tokenizes(seq![(text, (0usize, utf8_len(text) as usize))], tokens)
                ==> token_offsets(tokens) == Seq::new(
                utf8_len(text),
                |i: int| (i as usize, (i + 1) as usize),
            ),
        tokenizer.encodes((text, None), add_special_tokens, out),
    ensures
        out.offsets == Seq::new(utf8_len(text), |i: int| (i as usize, (i + 1) as usize)),
{
    lemma_encode_with_model_alone(tokenizer, text, add_special_tokens, out);
    let tokens = choose|tokens: Seq<TokenView>| #[trigger]
        tokenizer.model.tokenizes(seq![(text, (0usize, utf8_len(text) as usize))], tokens) && out
            == (EncodingView {
            offsets: remapped(token_offsets(tokens), NormalizedView::identity(text), None),
            ..encoding_of(tokens, 0)
        });
    let bytes = Seq::new(utf8_len(text), |i: int| (i as usize, (i + 1) as usize));
    assert forall|i: int| 0 <= i < bytes.len() implies out.offsets[i] == bytes[i] by {
        crate::tokenizer::normalizer::lemma_identity_converts_to_itself(
            text,
            i as usize,
            (i + 1) as usize,
        );
    }
    assert(out.offsets =~= bytes);
}

} // verus!
