use std::collections::hash_map::DefaultHasher;
use std::collections::HashSet;
use std::hash::{Hash, Hasher};
use tokenizers::tokenizer::added_vocabulary::{AddedToken, AddedVocabulary};
use tokenizers::tokenizer::encoding::Encoding;
use tokenizers::tokenizer::normalizer::NormalizedString;
use tokenizers::tokenizer::{
    encoding_of_tokens, join, remap_offsets, Decoder, EncodeInput, Error, Model, Normalizer,
    Offsets, PostProcessor, PreTokenizer, Token, Tokenizer,
};

/// A model without any token.
struct Empty;

impl Model for Empty {
    fn tokenize(&self, tokens: Vec<(String, Offsets)>) -> Result<Vec<Token>, String> {
        Ok(tokens.into_iter().map(|(text, offsets)| Token::new(0, text, offsets)).collect())
    }

    fn token_to_id(&self, _token: &str) -> Option<u32> {
        None
    }

    fn id_to_token(&self, _id: u32) -> Option<String> {
        None
    }

    fn get_vocab_size(&self) -> usize {
        100
    }
}

struct Failing;

impl Normalizer for Failing {
    fn normalize(&self, _normalized: &mut NormalizedString) -> Result<(), String> {
        Ok(())
    }
}

impl PreTokenizer for Failing {
    fn pre_tokenize(
        &self,
        _normalized: &mut NormalizedString,
    ) -> Result<Vec<(String, Offsets)>, String> {
        Err("cannot cut".to_string())
    }
}

impl PostProcessor for Failing {
    fn added_tokens(&self, _is_pair: bool) -> usize {
        0
    }

    fn process(
        &self,
        _encoding: Encoding,
        _pair_encoding: Option<Encoding>,
        _add_special_tokens: bool,
    ) -> Result<Encoding, String> {
        Err("cannot finish".to_string())
    }
}

impl Decoder for Failing {
    fn decode(&self, _tokens: Vec<String>) -> Result<String, String> {
        Err("cannot join".to_string())
    }
}

type Bare = Tokenizer<Empty, Failing, Failing, Failing, Failing>;

fn added(content: &str, single_word: bool) -> AddedToken {
    AddedToken { content: content.to_string(), single_word }
}

fn hash_of(token: &AddedToken) -> u64 {
    let mut hasher = DefaultHasher::new();
    token.hash(&mut hasher);
    hasher.finish()
}

fn pieces(vocabulary: &AddedVocabulary, text: &str) -> Vec<(String, Option<u32>)> {
    vocabulary.split_on_added_tokens(text).unwrap()
}

fn piece(text: &str, id: Option<u32>) -> (String, Option<u32>) {
    (text.to_string(), id)
}

#[test]
fn added_tokens_are_compared_and_hashed_by_their_text() {
    assert_eq!(added("a", true), added("a", false));
    assert_ne!(added("a", true), added("b", true));
    assert_eq!(hash_of(&added("a", true)), hash_of(&added("a", false)));
    let mut set = HashSet::new();
    assert!(set.insert(added("a", true)));
    assert!(!set.insert(added("a", false)));
    assert!(set.insert(added("b", false)));
}

#[test]
fn added_token_from_and_default() {
    let token = AddedToken::from("x".to_string());
    assert_eq!(token.content, "x");
    assert!(!token.single_word);
    let token = AddedToken::default();
    assert_eq!(token.content, "");
    assert!(!token.single_word);
}

#[test]
fn token_new_keeps_its_parts() {
    let token = Token::new(3, "abc".to_string(), (1, 4));
    assert_eq!(token.id, 3);
    assert_eq!(token.value, "abc");
    assert_eq!(token.offsets, (1, 4));
    assert_eq!(token, Token { id: 3, value: "abc".to_string(), offsets: (1, 4) });
}

#[test]
fn split_without_tokens_gives_the_whole_text() {
    let vocabulary = AddedVocabulary::new();
    assert_eq!(pieces(&vocabulary, "a b"), vec![piece("a b", None)]);
    assert_eq!(pieces(&vocabulary, ""), vec![piece("", None)]);
}

#[test]
fn split_gives_matches_and_what_lies_between() {
    let mut vocabulary = AddedVocabulary::new();
    assert_eq!(vocabulary.add_tokens(&[added("[A]", false), added("[B]", false)], &Empty), 2);
    assert_eq!(vocabulary.len(), 2);
    assert_eq!(
        pieces(&vocabulary, "x[A][B]y[A]"),
        vec![
            piece("x", None),
            piece("[A]", Some(100)),
            piece("[B]", Some(101)),
            piece("y", None),
            piece("[A]", Some(100)),
        ]
    );
    assert_eq!(pieces(&vocabulary, "[B]"), vec![piece("[B]", Some(101))]);
    assert_eq!(pieces(&vocabulary, "xy"), vec![piece("xy", None)]);
    assert_eq!(pieces(&vocabulary, ""), vec![piece("", None)]);
}

#[test]
fn split_cuts_at_character_boundaries() {
    let mut vocabulary = AddedVocabulary::new();
    vocabulary.add_tokens(&[added("é", false), added("→", true)], &Empty);
    assert_eq!(
        pieces(&vocabulary, "cafés → thé"),
        vec![
            piece("caf", None),
            piece("é", Some(100)),
            piece("s ", None),
            piece("→", Some(101)),
            piece(" th", None),
            piece("é", Some(100)),
        ]
    );
}

#[test]
fn split_at_spans_cuts_where_it_is_told() {
    let mut vocabulary = AddedVocabulary::new();
    vocabulary.add_tokens(&[added("bc", false)], &Empty);
    assert_eq!(
        vocabulary.split_at_spans("abcde", &vec![(1, 3)]),
        vec![piece("a", None), piece("bc", Some(100)), piece("de", None)]
    );
    assert_eq!(
        vocabulary.split_at_spans("abcde", &vec![(0, 2), (2, 5)]),
        vec![piece("ab", None), piece("cde", None)]
    );
    assert_eq!(vocabulary.split_at_spans("abcde", &vec![]), vec![piece("abcde", None)]);
}

#[test]
fn a_special_token_is_found_as_a_whole_word_when_the_model_knows_it() {
    struct Knows;
    impl Model for Knows {
        fn tokenize(&self, _tokens: Vec<(String, Offsets)>) -> Result<Vec<Token>, String> {
            Ok(vec![])
        }
        fn token_to_id(&self, token: &str) -> Option<u32> {
            if token == "end" {
                Some(1)
            } else {
                None
            }
        }
        fn id_to_token(&self, _id: u32) -> Option<String> {
            None
        }
        fn get_vocab_size(&self) -> usize {
            2
        }
    }
    let mut vocabulary = AddedVocabulary::new();
    assert_eq!(vocabulary.add_special_tokens(&["end".to_string()], &Knows), 0);
    assert!(vocabulary.is_special("end"));
    assert_eq!(vocabulary.special_id("end"), Some(1));
    assert_eq!(vocabulary.added_id("end"), None);
    assert_eq!(
        pieces(&vocabulary, "the end of endings"),
        vec![piece("the ", None), piece("end", Some(1)), piece(" of endings", None)]
    );
}

#[test]
fn a_special_token_that_was_added_is_found_as_a_whole_word_only() {
    let mut vocabulary = AddedVocabulary::new();
    assert_eq!(vocabulary.add_special_tokens(&["sep".to_string()], &Empty), 1);
    assert_eq!(vocabulary.added_id("sep"), Some(100));
    assert_eq!(vocabulary.special_id("sep"), Some(100));
    assert_eq!(pieces(&vocabulary, "separate"), vec![piece("separate", None)]);
    assert_eq!(
        pieces(&vocabulary, "a sep b"),
        vec![piece("a ", None), piece("sep", Some(100)), piece(" b", None)]
    );
    assert_eq!(
        pieces(&vocabulary, "sep, unsep sep"),
        vec![piece("sep", Some(100)), piece(", unsep ", None), piece("sep", Some(100))]
    );
}

#[test]
fn a_token_that_becomes_special_is_no_longer_found_inside_words() {
    let mut vocabulary = AddedVocabulary::new();
    vocabulary.add_tokens(&[added("end", false), added("ing", false)], &Empty);
    assert_eq!(
        pieces(&vocabulary, "endings"),
        vec![piece("end", Some(100)), piece("ing", Some(101)), piece("s", None)]
    );
    assert_eq!(vocabulary.add_special_tokens(&["end".to_string()], &Empty), 0);
    assert_eq!(
        pieces(&vocabulary, "endings end"),
        vec![
            piece("end", None),
            piece("ing", Some(101)),
            piece("s ", None),
            piece("end", Some(100)),
        ]
    );
}

#[test]
fn of_two_tokens_that_fit_the_one_added_first_is_found() {
    let mut vocabulary = AddedVocabulary::new();
    vocabulary.add_tokens(&[added("ab", false), added("abc", false), added("xyz", false)], &Empty);
    vocabulary.add_tokens(&[added("xy", false)], &Empty);
    assert_eq!(
        pieces(&vocabulary, "abcxyz"),
        vec![piece("ab", Some(100)), piece("c", None), piece("xyz", Some(102))]
    );
}

#[test]
fn ids_follow_those_of_the_model_and_of_the_tokens_added_before() {
    let mut vocabulary = AddedVocabulary::new();
    vocabulary.add_tokens(&[added("x", false)], &Empty);
    vocabulary.add_special_tokens(&["y".to_string(), "x".to_string()], &Empty);
    vocabulary.add_tokens(&[added("z", true)], &Empty);
    assert_eq!(vocabulary.added_id("x"), Some(100));
    assert_eq!(vocabulary.added_id("y"), Some(101));
    assert_eq!(vocabulary.added_id("z"), Some(102));
    assert_eq!(vocabulary.added_content(101).map(|s| s.as_str()), Some("y"));
    assert_eq!(vocabulary.added_content(7), None);
    assert!(vocabulary.is_special("x"));
    assert!(vocabulary.is_special("y"));
    assert!(!vocabulary.is_special("z"));
    assert_eq!(vocabulary.special_id("x"), Some(100));
}

#[test]
fn with_two_tokens_of_one_id_the_later_one_decodes() {
    let mut t: Bare = Tokenizer::new(Empty);
    t.add_tokens(&[added("old", false)]);
    assert_eq!(t.id_to_token(100), Some("old".to_string()));
    struct Smaller;
    impl Model for Smaller {
        fn tokenize(&self, _tokens: Vec<(String, Offsets)>) -> Result<Vec<Token>, String> {
            Ok(vec![])
        }
        fn token_to_id(&self, _token: &str) -> Option<u32> {
            None
        }
        fn id_to_token(&self, _id: u32) -> Option<String> {
            None
        }
        fn get_vocab_size(&self) -> usize {
            99
        }
    }
    let mut vocabulary = AddedVocabulary::new();
    vocabulary.add_tokens(&[added("old", false)], &Empty);
    vocabulary.add_tokens(&[added("new", false)], &Smaller);
    assert_eq!(vocabulary.added_id("old"), Some(100));
    assert_eq!(vocabulary.added_id("new"), Some(100));
    assert_eq!(vocabulary.added_content(100).map(|s| s.as_str()), Some("new"));
}

#[test]
fn a_pattern_that_is_too_large_fails_the_encoding() {
    let mut t: Bare = Tokenizer::new(Empty);
    assert!(t.is_ready());
    assert_eq!(t.add_tokens(&[added("[A]", true)]), 1);
    assert!(t.is_ready());
    assert_eq!(t.add_tokens(&[added(&"a".repeat(1_500_000), false)]), 1);
    assert!(!t.is_ready());
    let r = t.encode(EncodeInput::Single("abc".to_string()), false);
    assert_eq!(r.unwrap_err(), Error::PatternFailure);
    let r = t.normalize("abc");
    assert_eq!(r.unwrap_err(), Error::PatternFailure);
    let r = t.encode_batch(vec![EncodeInput::Single("abc".to_string())], false);
    assert_eq!(r.unwrap_err(), Error::PatternFailure);
    // nothing is looked for where nothing is encoded
    assert!(t.encode_batch(vec![], false).unwrap().is_empty());
    assert_eq!(t.token_to_id("[A]"), Some(100));
}

#[test]
fn failures_of_the_pre_tokenizer_and_the_post_processor() {
    let mut t: Bare = Tokenizer::new(Empty);
    t.with_post_processor(Failing);
    let r = t.encode(EncodeInput::Single("abc".to_string()), false);
    assert_eq!(r.unwrap_err(), Error::PostProcessorFailure("cannot finish".to_string()));
    t.with_pre_tokenizer(Failing);
    let r = t.encode(EncodeInput::Single("abc".to_string()), false);
    assert_eq!(r.unwrap_err(), Error::PreTokenizerFailure("cannot cut".to_string()));
    let r = t.normalize("abc");
    assert_eq!(r.unwrap_err(), Error::PreTokenizerFailure("cannot cut".to_string()));
    t.with_decoder(Failing);
    let r = t.decode(vec![], false);
    assert_eq!(r.unwrap_err(), Error::DecoderFailure("cannot join".to_string()));
    let r = t.decode_batch(vec![vec![1]], false);
    assert_eq!(r.unwrap_err(), Error::DecoderFailure("cannot join".to_string()));
}

#[test]
fn encoding_of_tokens_fills_the_parallel_arrays() {
    let e = encoding_of_tokens(
        vec![Token::new(4, "ab".to_string(), (0, 2)), Token::new(9, "c".to_string(), (3, 4))],
        1,
    );
    assert_eq!(e.get_ids(), &[4, 9]);
    assert_eq!(e.get_type_ids(), &[1, 1]);
    assert_eq!(e.get_tokens(), &["ab", "c"]);
    assert_eq!(e.get_offsets(), &[(0, 2), (3, 4)]);
    assert_eq!(e.get_special_tokens_mask(), &[0, 0]);
    assert_eq!(e.get_attention_mask(), &[1, 1]);
    assert!(e.get_overflowing().is_empty());
    assert_eq!(encoding_of_tokens(vec![], 0), Encoding::default());
}

#[test]
fn default_process_merges_a_pair_without_moving_offsets() {
    let a = encoding_of_tokens(vec![Token::new(1, "a".to_string(), (0, 1))], 0);
    let b = encoding_of_tokens(vec![Token::new(2, "b".to_string(), (0, 1))], 1);
    let alone = <Failing as PostProcessor>::default_process(a.clone(), None, true).unwrap();
    assert_eq!(alone, a);
    let both = <Failing as PostProcessor>::default_process(a, Some(b), true).unwrap();
    assert_eq!(both.get_ids(), &[1, 2]);
    assert_eq!(both.get_type_ids(), &[0, 1]);
    assert_eq!(both.get_offsets(), &[(0, 1), (0, 1)]);
}

#[test]
fn get_offsets_mut_rewrites_in_place() {
    let mut e = encoding_of_tokens(
        vec![Token::new(1, "a".to_string(), (0, 1)), Token::new(2, "b".to_string(), (1, 2))],
        0,
    );
    e.get_offsets_mut()[1] = (5, 6);
    assert_eq!(e.get_offsets(), &[(0, 1), (5, 6)]);
    assert_eq!(e.get_ids(), &[1, 2]);
}

#[test]
fn clone_copies_the_tokens_and_the_overflowing_pieces() {
    let mut e = encoding_of_tokens(
        vec![
            Token::new(1, "a".to_string(), (0, 1)),
            Token::new(2, "b".to_string(), (1, 2)),
            Token::new(3, "c".to_string(), (2, 3)),
        ],
        0,
    );
    e.truncate(1, 0);
    let copy = e.clone();
    assert_eq!(copy, e);
    assert_eq!(copy.get_overflowing().len(), 2);
    assert_eq!(copy.get_overflowing()[1].get_tokens(), &["c"]);
}

#[test]
fn remap_offsets_switches_to_the_pair_where_the_offsets_go_back() {
    let mut first = NormalizedString::from("  ab");
    first.replace(0, 2, "");
    let mut second = NormalizedString::from("   cd");
    second.replace(0, 3, "");
    let mut e = encoding_of_tokens(
        vec![
            Token::new(1, "a".to_string(), (0, 1)),
            Token::new(2, "b".to_string(), (1, 2)),
            Token::new(3, "c".to_string(), (0, 1)),
            Token::new(4, "d".to_string(), (1, 2)),
            Token::new(5, "?".to_string(), (7, 9)),
            Token::new(6, "!".to_string(), (2, 1)),
        ],
        0,
    );
    let mut alone = e.clone();
    remap_offsets(&mut e, &first, Some(&second));
    assert_eq!(e.get_offsets(), &[(2, 3), (3, 4), (3, 4), (4, 5), (7, 9), (2, 1)]);
    remap_offsets(&mut alone, &first, None);
    assert_eq!(alone.get_offsets(), &[(2, 3), (3, 4), (2, 3), (3, 4), (7, 9), (2, 1)]);
}

#[test]
fn remap_offsets_keeps_the_order_of_starts_in_a_single_sequence() {
    let mut n = NormalizedString::from("Hello,  world!");
    n.replace(5, 8, " ");
    n.replace(0, 1, "hh");
    assert_eq!(n.get(), "hhello world!");
    let mut e = encoding_of_tokens(
        vec![
            Token::new(1, "hh".to_string(), (0, 2)),
            Token::new(2, "ello".to_string(), (2, 6)),
            Token::new(3, " ".to_string(), (6, 7)),
            Token::new(4, "world".to_string(), (7, 12)),
            Token::new(5, "!".to_string(), (12, 13)),
        ],
        0,
    );
    remap_offsets(&mut e, &n, None);
    assert_eq!(e.get_offsets(), &[(0, 1), (1, 5), (5, 8), (8, 13), (13, 14)]);
    let starts: Vec<usize> = e.get_offsets().iter().map(|o| o.0).collect();
    assert!(starts.windows(2).all(|w| w[0] <= w[1]));
}

#[test]
fn join_puts_a_space_between_tokens() {
    assert_eq!(join(&vec![]), "");
    assert_eq!(join(&vec!["a".to_string()]), "a");
    assert_eq!(join(&vec!["a".to_string(), "".to_string(), "b c".to_string()]), "a  b c");
}

#[test]
fn decode_tokens_gives_the_texts_in_order() {
    let mut t: Bare = Tokenizer::new(Empty);
    t.add_tokens(&[added("x", false)]);
    t.add_special_tokens(&["y".to_string()]);
    assert_eq!(t.decode_tokens(&vec![101, 100, 5, 101, 100], false), vec!["y", "x", "y", "x"]);
    assert_eq!(t.decode_tokens(&vec![101, 100, 5, 101, 100], true), vec!["x", "x"]);
    assert_eq!(t.decode(vec![101, 101], true).unwrap(), "");
}
