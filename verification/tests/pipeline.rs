use tokenizers::tokenizer::added_vocabulary::AddedToken;
use tokenizers::tokenizer::encoding::Encoding;
use tokenizers::tokenizer::normalizer::NormalizedString;
use tokenizers::tokenizer::{
    Decoder, EncodeInput, Error, Model, Normalizer, Offsets, PostProcessor, PreTokenizer, Token,
    Tokenizer, Unused,
};
use tokenizers::utils::padding::{PaddingDirection, PaddingParams, PaddingStrategy};
use tokenizers::utils::truncation::{TruncationParams, TruncationStrategy};

/// One token for every character of the input, with the code of the character as its id.
struct Chars;

impl Model for Chars {
    fn tokenize(&self, tokens: Vec<(String, Offsets)>) -> Result<Vec<Token>, String> {
        let mut out = vec![];
        for (text, (start, _)) in tokens {
            for (at, c) in text.char_indices() {
                let from = start + at;
                out.push(Token::new(c as u32, c.to_string(), (from, from + c.len_utf8())));
            }
        }
        Ok(out)
    }

    fn token_to_id(&self, token: &str) -> Option<u32> {
        let mut chars = token.chars();
        match (chars.next(), chars.next()) {
            (Some(c), None) => Some(c as u32),
            _ => None,
        }
    }

    fn id_to_token(&self, id: u32) -> Option<String> {
        if id < 1000 {
            char::from_u32(id).map(|c| c.to_string())
        } else {
            None
        }
    }

    fn get_vocab_size(&self) -> usize {
        1000
    }
}

/// One token for every pre-token, or a failure on the word "fail".
struct Words;

impl Model for Words {
    fn tokenize(&self, tokens: Vec<(String, Offsets)>) -> Result<Vec<Token>, String> {
        let mut out = vec![];
        for (text, offsets) in tokens {
            if text == "fail" {
                return Err("no such word".to_string());
            }
            out.push(Token::new(text.len() as u32, text, offsets));
        }
        Ok(out)
    }

    fn token_to_id(&self, token: &str) -> Option<u32> {
        if token == "known" {
            Some(5)
        } else {
            None
        }
    }

    fn id_to_token(&self, id: u32) -> Option<String> {
        if id == 5 {
            Some("known".to_string())
        } else {
            None
        }
    }

    fn get_vocab_size(&self) -> usize {
        10
    }
}

/// Turns capital ASCII letters into small ones.
struct Lower;

impl Normalizer for Lower {
    fn normalize(&self, normalized: &mut NormalizedString) -> Result<(), String> {
        let text = normalized.get().to_string();
        for (at, c) in text.char_indices() {
            if c.is_ascii_uppercase() {
                normalized.replace(at, at + 1, &c.to_ascii_lowercase().to_string());
            }
        }
        Ok(())
    }
}

/// Takes away the spaces at both ends, or fails on a text that holds a "!".
struct Strip;

impl Normalizer for Strip {
    fn normalize(&self, normalized: &mut NormalizedString) -> Result<(), String> {
        if normalized.get().contains('!') {
            return Err("no shouting".to_string());
        }
        let text = normalized.get().to_string();
        let kept = text.trim_end().len();
        normalized.replace(kept, text.len(), "");
        let lead = text.len() - text.trim_start().len();
        normalized.replace(0, lead.min(kept), "");
        Ok(())
    }
}

/// Cuts at spaces, which belong to no pre-token.
struct Spaces;

impl PreTokenizer for Spaces {
    fn pre_tokenize(
        &self,
        normalized: &mut NormalizedString,
    ) -> Result<Vec<(String, Offsets)>, String> {
        let text = normalized.get();
        let mut out = vec![];
        let mut start = 0;
        for (at, c) in text.char_indices() {
            if c == ' ' {
                if start < at {
                    out.push((text[start..at].to_string(), (start, at)));
                }
                start = at + 1;
            }
        }
        if start < text.len() {
            out.push((text[start..].to_string(), (start, text.len())));
        }
        Ok(out)
    }
}

/// Puts a separator between the two sequences of a pair, and after a single one.
struct Separator {
    id: u32,
}

impl Separator {
    fn token(&self) -> Encoding {
        Encoding::new(
            vec![self.id],
            vec![0],
            vec!["[SEP]".to_string()],
            vec![(0, 0)],
            vec![1],
            vec![0],
            vec![],
        )
    }
}

impl PostProcessor for Separator {
    fn added_tokens(&self, _is_pair: bool) -> usize {
        1
    }

    fn process(
        &self,
        encoding: Encoding,
        pair_encoding: Option<Encoding>,
        add_special_tokens: bool,
    ) -> Result<Encoding, String> {
        let mut out = encoding;
        if add_special_tokens {
            let mut separator = self.token();
            separator.get_offsets_mut()[0] = (0, 0);
            out.merge_with(separator, false);
        }
        if let Some(pair) = pair_encoding {
            out.merge_with(pair, false);
        }
        Ok(out)
    }
}

/// Joins the tokens without anything between them.
struct Glue;

impl Decoder for Glue {
    fn decode(&self, tokens: Vec<String>) -> Result<String, String> {
        if tokens.iter().any(|t| t == "?") {
            return Err("cannot decode".to_string());
        }
        Ok(tokens.concat())
    }
}

type Plain<M> = Tokenizer<M, Lower, Spaces, Separator, Glue>;

fn single(text: &str) -> EncodeInput {
    EncodeInput::Single(text.to_string())
}

fn pair(first: &str, second: &str) -> EncodeInput {
    EncodeInput::Dual(first.to_string(), second.to_string())
}

fn added(content: &str, single_word: bool) -> AddedToken {
    AddedToken { content: content.to_string(), single_word }
}

fn tokens_of(e: &Encoding) -> Vec<&str> {
    e.get_tokens().iter().map(|t| t.as_str()).collect()
}

#[test]
fn identity_model_gives_one_token_per_byte() {
    let t: Plain<Chars> = Tokenizer::new(Chars);
    let e = t.encode(single("abc"), false).unwrap();
    assert_eq!(tokens_of(&e), vec!["a", "b", "c"]);
    assert_eq!(e.get_ids(), &[97, 98, 99]);
    assert_eq!(e.get_type_ids(), &[0, 0, 0]);
    assert_eq!(e.get_offsets(), &[(0, 1), (1, 2), (2, 3)]);
    assert_eq!(e.get_attention_mask(), &[1, 1, 1]);
    assert_eq!(e.get_special_tokens_mask(), &[0, 0, 0]);
    assert!(e.get_overflowing().is_empty());
}

#[test]
fn parallel_arrays_have_one_length() {
    let mut t: Plain<Chars> = Tokenizer::new(Chars);
    t.add_tokens(&[added("[X]", false)]);
    t.with_post_processor(Separator { id: 9 });
    for input in [single(""), single("a[X]b"), pair("ab", "c[X]"), pair("", "")] {
        let e = t.encode(input, true).unwrap();
        let n = e.get_ids().len();
        assert_eq!(e.get_type_ids().len(), n);
        assert_eq!(e.get_tokens().len(), n);
        assert_eq!(e.get_offsets().len(), n);
        assert_eq!(e.get_special_tokens_mask().len(), n);
        assert_eq!(e.get_attention_mask().len(), n);
    }
}

#[test]
fn offsets_of_the_identity_model_slice_the_input_back() {
    let t: Plain<Chars> = Tokenizer::new(Chars);
    let text = "héllo wörld";
    let e = t.encode(single(text), false).unwrap();
    let rebuilt: String = e.get_offsets().iter().map(|&(a, b)| &text[a..b]).collect();
    assert_eq!(rebuilt, text);
}

#[test]
fn an_added_token_is_cut_out_and_gets_the_next_id() {
    let mut t: Plain<Chars> = Tokenizer::new(Chars);
    assert_eq!(t.add_tokens(&[added("[X]", false)]), 1);
    let e = t.encode(single("a[X]b"), false).unwrap();
    assert_eq!(tokens_of(&e), vec!["a", "[X]", "b"]);
    assert_eq!(e.get_ids(), &[97, 1000, 98]);
    assert_eq!(e.get_offsets(), &[(0, 1), (1, 4), (4, 5)]);
    assert_eq!(t.token_to_id("[X]"), Some(1000));
    assert_eq!(t.id_to_token(1000), Some("[X]".to_string()));
    assert_eq!(t.get_vocab_size(true), 1001);
    assert_eq!(t.get_vocab_size(false), 1000);
}

#[test]
fn an_added_token_with_pattern_characters_is_found_as_it_is_written() {
    let mut t: Plain<Chars> = Tokenizer::new(Chars);
    t.add_tokens(&[added("a.c", false), added("x|y", false), added("(", false)]);
    let e = t.encode(single("abc a.c x|y ("), false).unwrap();
    assert_eq!(
        tokens_of(&e),
        vec!["a", "b", "c", " ", "a.c", " ", "x|y", " ", "("]
    );
}

#[test]
fn every_pattern_character_is_found_as_it_is_written() {
    let all = "\\.+*?()|[]{}^$#&-~";
    assert_eq!(all.len(), 18);
    let mut t: Plain<Chars> = Tokenizer::new(Chars);
    assert_eq!(t.add_tokens(&[added(all, false)]), 1);
    assert!(t.is_ready());
    let text = format!("a{}b{}", all, all);
    let e = t.encode(single(&text), false).unwrap();
    assert_eq!(tokens_of(&e), vec!["a", all, "b", all]);
    assert_eq!(e.get_offsets(), &[(0, 1), (1, 19), (19, 20), (20, 38)]);

    for c in all.chars() {
        let mut t: Plain<Chars> = Tokenizer::new(Chars);
        let token = format!("{}{}", c, c);
        assert_eq!(t.add_tokens(&[added(&token, false)]), 1);
        let e = t.encode(single(&format!("x{}y", token)), false).unwrap();
        assert_eq!(tokens_of(&e), vec!["x", token.as_str(), "y"]);
        // a single one of the two is no match
        let e = t.encode(single(&format!("x{}y", c)), false).unwrap();
        assert_eq!(e.get_ids().len(), 3);
        assert!(!e.get_ids().contains(&1000));
    }
}

#[test]
fn a_token_beyond_ascii_with_pattern_characters() {
    let mut t: Plain<Chars> = Tokenizer::new(Chars);
    assert_eq!(t.add_tokens(&[added("é+ü", false)]), 1);
    let e = t.encode(single("é+ü+"), false).unwrap();
    assert_eq!(tokens_of(&e)[0], "é+ü");
    assert_eq!(e.get_offsets()[0], (0, 5));
    assert_eq!(e.get_ids()[0], 1000);
    assert_eq!(e.get_ids().len(), 2);
}

#[test]
fn adding_the_same_tokens_twice_adds_nothing() {
    let mut t: Plain<Chars> = Tokenizer::new(Chars);
    let tokens = [added("[X]", false), added("[Y]", true), added("[X]", true)];
    assert_eq!(t.add_tokens(&tokens), 2);
    assert_eq!(t.get_vocab_size(true), 1002);
    assert_eq!(t.add_tokens(&tokens), 0);
    assert_eq!(t.get_vocab_size(true), 1002);
    assert_eq!(t.token_to_id("[X]"), Some(1000));
    assert_eq!(t.token_to_id("[Y]"), Some(1001));
}

#[test]
fn an_empty_token_is_never_added() {
    let mut t: Plain<Chars> = Tokenizer::new(Chars);
    assert_eq!(t.add_tokens(&[added("", false)]), 0);
    assert_eq!(t.add_tokens(&[added("", true)]), 0);
    assert_eq!(t.get_vocab_size(true), 1000);
    assert_eq!(t.add_special_tokens(&["".to_string()]), 0);
    let e = t.encode(single("ab"), false).unwrap();
    assert_eq!(tokens_of(&e), vec!["a", "b"]);
}

#[test]
fn a_token_of_the_model_is_not_added() {
    let mut t: Plain<Chars> = Tokenizer::new(Chars);
    assert_eq!(t.add_tokens(&[added("a", false)]), 0);
    assert_eq!(t.token_to_id("a"), Some(97));
    assert_eq!(t.get_vocab_size(true), 1000);
}

#[test]
fn a_single_word_token_is_not_found_inside_a_word() {
    let mut t: Plain<Words> = Tokenizer::new(Words);
    assert_eq!(t.add_tokens(&[added("cat", true)]), 1);
    let e = t.encode(single("category"), false).unwrap();
    assert_eq!(tokens_of(&e), vec!["category"]);
    assert_eq!(e.get_offsets(), &[(0, 8)]);

    let e = t.encode(single("a cat sat"), false).unwrap();
    assert_eq!(tokens_of(&e), vec!["a ", "cat", " sat"]);
    assert_eq!(e.get_ids(), &[2, 10, 4]);
    assert_eq!(e.get_offsets(), &[(0, 2), (2, 5), (5, 9)]);
}

#[test]
fn a_single_word_token_that_ends_in_punctuation_needs_no_boundary_there() {
    let mut t: Plain<Words> = Tokenizer::new(Words);
    t.add_tokens(&[added("cat!", true)]);
    let e = t.encode(single("cat!x"), false).unwrap();
    assert_eq!(tokens_of(&e), vec!["cat!", "x"]);
    let e = t.encode(single("xcat!"), false).unwrap();
    assert_eq!(tokens_of(&e), vec!["xcat!"]);
}

#[test]
fn a_separator_between_the_sequences_of_a_pair() {
    let mut t: Plain<Chars> = Tokenizer::new(Chars);
    assert_eq!(t.add_special_tokens(&["[SEP]".to_string()]), 1);
    let id = t.token_to_id("[SEP]").unwrap();
    assert_eq!(id, 1000);
    t.with_post_processor(Separator { id });
    let e = t.encode(pair("x", "y"), true).unwrap();
    assert_eq!(tokens_of(&e), vec!["x", "[SEP]", "y"]);
    assert_eq!(e.get_ids(), &[120, 1000, 121]);
    assert_eq!(e.get_special_tokens_mask(), &[0, 1, 0]);
    assert_eq!(e.get_type_ids(), &[0, 0, 1]);
    assert_eq!(e.get_offsets(), &[(0, 1), (0, 0), (0, 1)]);

    let e = t.encode(pair("x", "y"), false).unwrap();
    assert_eq!(tokens_of(&e), vec!["x", "y"]);
}

#[test]
fn a_pair_without_a_post_processor_is_put_one_after_the_other() {
    let t: Plain<Chars> = Tokenizer::new(Chars);
    let e = t.encode(pair("ab", "cd"), true).unwrap();
    assert_eq!(tokens_of(&e), vec!["a", "b", "c", "d"]);
    assert_eq!(e.get_type_ids(), &[0, 0, 1, 1]);
    assert_eq!(e.get_offsets(), &[(0, 1), (1, 2), (0, 1), (1, 2)]);
}

#[test]
fn fixed_padding_on_the_right() {
    let mut t: Plain<Chars> = Tokenizer::new(Chars);
    t.with_padding(Some(PaddingParams {
        strategy: PaddingStrategy::Fixed(5),
        direction: PaddingDirection::Right,
        pad_id: 0,
        pad_type_id: 0,
        pad_token: "[P]".to_string(),
    }));
    let e = t.encode(single("ab"), false).unwrap();
    assert_eq!(e.get_ids().len(), 5);
    assert_eq!(e.get_attention_mask(), &[1, 1, 0, 0, 0]);
    assert_eq!(tokens_of(&e), vec!["a", "b", "[P]", "[P]", "[P]"]);
    assert_eq!(e.get_offsets(), &[(0, 1), (1, 2), (0, 0), (0, 0), (0, 0)]);
    assert_eq!(e.get_special_tokens_mask(), &[0, 0, 1, 1, 1]);
}

#[test]
fn longest_first_truncation_of_a_pair() {
    let mut t: Plain<Chars> = Tokenizer::new(Chars);
    t.with_truncation(Some(TruncationParams {
        max_length: 2,
        strategy: TruncationStrategy::LongestFirst,
        stride: 0,
    }));
    let e = t.encode(pair("abc", "xyz"), false).unwrap();
    assert_eq!(tokens_of(&e), vec!["a", "x"]);
    assert_eq!(e.get_type_ids(), &[0, 1]);
}

#[test]
fn truncation_leaves_room_for_the_tokens_of_the_post_processor() {
    let mut t: Plain<Chars> = Tokenizer::new(Chars);
    t.with_post_processor(Separator { id: 7 });
    t.with_truncation(Some(TruncationParams {
        max_length: 4,
        strategy: TruncationStrategy::LongestFirst,
        stride: 0,
    }));
    let e = t.encode(pair("abc", "xyz"), true).unwrap();
    assert_eq!(tokens_of(&e), vec!["a", "[SEP]", "x", "y"]);
    let e = t.encode(pair("abc", "xyz"), false).unwrap();
    assert_eq!(tokens_of(&e), vec!["a", "b", "x", "y"]);
}

#[test]
fn truncation_that_cannot_make_room_fails() {
    let mut t: Plain<Chars> = Tokenizer::new(Chars);
    t.with_truncation(Some(TruncationParams {
        max_length: 2,
        strategy: TruncationStrategy::OnlyFirst,
        stride: 0,
    }));
    let r = t.encode(pair("abc", "xyz"), false);
    assert_eq!(r.unwrap_err(), Error::SequenceTooShort);
}

#[test]
fn a_normalizer_rewrites_and_offsets_point_into_the_original() {
    let mut t: Tokenizer<Words, Strip, Spaces, Separator, Glue> = Tokenizer::new(Words);
    t.with_normalizer(Strip);
    t.with_pre_tokenizer(Spaces);
    let e = t.encode(single("  ab cde  "), false).unwrap();
    assert_eq!(tokens_of(&e), vec!["ab", "cde"]);
    assert_eq!(e.get_offsets(), &[(2, 4), (5, 8)]);

    let n = t.normalize("  ab cde  ").unwrap();
    assert_eq!(n.get(), "ab cde");
    assert_eq!(n.get_original(), "  ab cde  ");
}

#[test]
fn lower_casing_keeps_the_offsets() {
    let mut t: Plain<Words> = Tokenizer::new(Words);
    t.with_normalizer(Lower);
    t.with_pre_tokenizer(Spaces);
    let e = t.encode(single("Hello WORLD"), false).unwrap();
    assert_eq!(tokens_of(&e), vec!["hello", "world"]);
    assert_eq!(e.get_offsets(), &[(0, 5), (6, 11)]);
}

#[test]
fn added_tokens_are_not_normalized() {
    let mut t: Plain<Words> = Tokenizer::new(Words);
    t.with_normalizer(Lower);
    t.add_tokens(&[added("[MASK]", false)]);
    let e = t.encode(single("AB[MASK]CD"), false).unwrap();
    assert_eq!(tokens_of(&e), vec!["ab", "[MASK]", "cd"]);
    assert_eq!(e.get_offsets(), &[(0, 2), (2, 8), (8, 10)]);
    let n = t.normalize("AB[MASK]CD").unwrap();
    assert_eq!(n.get(), "ab[MASK]cd");
}

#[test]
fn offsets_after_an_added_token_with_a_normalizer_that_shortens() {
    let mut t: Tokenizer<Words, Strip, Spaces, Separator, Glue> = Tokenizer::new(Words);
    t.with_normalizer(Strip);
    t.add_tokens(&[added("[X]", false)]);
    let text = " a [X] b ";
    let e = t.encode(single(text), false).unwrap();
    assert_eq!(tokens_of(&e), vec!["a", "[X]", "b"]);
    assert_eq!(e.get_offsets(), &[(1, 2), (3, 6), (7, 8)]);
    for (token, &(a, b)) in tokens_of(&e).into_iter().zip(e.get_offsets()) {
        assert_eq!(&text[a..b], token);
    }
}

#[test]
fn failures_of_the_parts_come_with_their_stage() {
    let mut t: Tokenizer<Words, Strip, Spaces, Separator, Glue> = Tokenizer::new(Words);
    let r = t.encode(single("fail"), false);
    assert_eq!(r.unwrap_err(), Error::ModelFailure("no such word".to_string()));
    t.with_normalizer(Strip);
    let r = t.encode(single("hey!"), false);
    assert_eq!(r.unwrap_err(), Error::NormalizerFailure("no shouting".to_string()));
    let r = t.normalize("hey!");
    assert_eq!(r.unwrap_err(), Error::NormalizerFailure("no shouting".to_string()));
    t.with_decoder(Glue);
    let r = t.decode(vec![63], false);
    assert!(r.is_ok());
}

#[test]
fn decode_joins_with_spaces_and_leaves_out_unknown_ids() {
    let t: Plain<Chars> = Tokenizer::new(Chars);
    assert_eq!(t.decode(vec![97, 98, 5000, 99], false).unwrap(), "a b c");
    assert_eq!(t.decode(vec![], false).unwrap(), "");
    assert_eq!(t.decode(vec![97], true).unwrap(), "a");
}

#[test]
fn decode_hands_the_tokens_to_the_decoder() {
    let mut t: Plain<Chars> = Tokenizer::new(Chars);
    t.with_decoder(Glue);
    assert_eq!(t.decode(vec![97, 98, 99], false).unwrap(), "abc");
    assert_eq!(
        t.decode(vec![97, 63], false).unwrap_err(),
        Error::DecoderFailure("cannot decode".to_string())
    );
}

#[test]
fn decode_can_skip_special_tokens() {
    let mut t: Plain<Chars> = Tokenizer::new(Chars);
    t.add_special_tokens(&["[SEP]".to_string()]);
    t.add_tokens(&[added("[X]", false)]);
    let e = t.encode(single("a[SEP]b[X]"), false).unwrap();
    assert_eq!(tokens_of(&e), vec!["a", "[SEP]", "b", "[X]"]);
    let ids = e.get_ids().to_vec();
    assert_eq!(t.decode(ids.clone(), false).unwrap(), "a [SEP] b [X]");
    assert_eq!(t.decode(ids, true).unwrap(), "a b [X]");

    let e = t.encode(single("[SEP]"), false).unwrap();
    let text = t.decode(e.get_ids().to_vec(), true).unwrap();
    assert!(!text.contains("[SEP]"));
    assert_eq!(text, "");
}

#[test]
fn a_special_token_of_the_model_keeps_the_id_of_the_model() {
    let mut t: Plain<Words> = Tokenizer::new(Words);
    assert_eq!(t.add_special_tokens(&["known".to_string(), "new".to_string()]), 1);
    assert_eq!(t.token_to_id("known"), Some(5));
    assert_eq!(t.token_to_id("new"), Some(10));
    let e = t.encode(single("a known new unknown"), false).unwrap();
    assert_eq!(tokens_of(&e), vec!["a ", "known", " ", "new", " unknown"]);
    assert_eq!(e.get_ids(), &[2, 5, 1, 10, 8]);
    assert_eq!(t.decode(vec![5, 10, 5], true).unwrap(), "");
    assert_eq!(t.decode(vec![5, 10, 5], false).unwrap(), "known new known");
}

#[test]
fn encode_batch_keeps_the_order_and_pads_to_the_longest() {
    let mut t: Plain<Chars> = Tokenizer::new(Chars);
    let inputs = vec![single("a"), single("abc"), pair("a", "b")];
    let batch = t.encode_batch(inputs.clone(), false).unwrap();
    assert_eq!(batch.len(), 3);
    for (input, encoding) in inputs.iter().zip(&batch) {
        assert_eq!(encoding, &t.encode(input.clone(), false).unwrap());
    }
    t.with_padding(Some(PaddingParams {
        strategy: PaddingStrategy::BatchLongest,
        direction: PaddingDirection::Right,
        pad_id: 0,
        pad_type_id: 0,
        pad_token: "[P]".to_string(),
    }));
    let batch = t.encode_batch(inputs, false).unwrap();
    assert_eq!(tokens_of(&batch[0]), vec!["a", "[P]", "[P]"]);
    assert_eq!(tokens_of(&batch[1]), vec!["a", "b", "c"]);
    assert_eq!(tokens_of(&batch[2]), vec!["a", "b", "[P]"]);
    assert_eq!(tokens_of(&t.encode(single("a"), false).unwrap()), vec!["a"]);
}

#[test]
fn encode_batch_fails_with_the_first_failure() {
    let t: Plain<Words> = Tokenizer::new(Words);
    let r = t.encode_batch(vec![single("ok"), single("fail"), single("ok")], false);
    assert_eq!(r.unwrap_err(), Error::ModelFailure("no such word".to_string()));
    assert!(t.encode_batch(vec![], false).unwrap().is_empty());
}

#[test]
fn an_empty_batch_gives_an_empty_result_whatever_is_set() {
    let mut t: Plain<Words> = Tokenizer::new(Words);
    t.with_post_processor(Separator { id: 7 });
    t.with_truncation(Some(TruncationParams {
        max_length: 0,
        strategy: TruncationStrategy::LongestFirst,
        stride: 0,
    }));
    t.with_padding(Some(PaddingParams {
        strategy: PaddingStrategy::BatchLongest,
        direction: PaddingDirection::Left,
        pad_id: 0,
        pad_type_id: 0,
        pad_token: "[P]".to_string(),
    }));
    t.with_decoder(Glue);
    t.add_tokens(&[added("[A]", false)]);
    assert_eq!(t.encode_batch(vec![], true).unwrap(), vec![]);
    assert_eq!(t.encode_batch(vec![], false).unwrap(), vec![]);
    assert_eq!(t.decode_batch(vec![], true).unwrap(), Vec::<String>::new());
    assert_eq!(t.decode_batch(vec![], false).unwrap(), Vec::<String>::new());
}

#[test]
fn decode_batch_keeps_the_order() {
    let t: Plain<Chars> = Tokenizer::new(Chars);
    let out = t.decode_batch(vec![vec![97, 98], vec![], vec![99]], false).unwrap();
    assert_eq!(out, vec!["a b", "", "c"]);
}

#[test]
fn getters_give_what_the_setters_set() {
    let mut t: Plain<Chars> = Tokenizer::new(Chars);
    assert!(t.get_normalizer().is_none());
    assert!(t.get_pre_tokenizer().is_none());
    assert!(t.get_post_processor().is_none());
    assert!(t.get_decoder().is_none());
    t.with_normalizer(Lower);
    t.with_pre_tokenizer(Spaces);
    t.with_post_processor(Separator { id: 3 });
    t.with_decoder(Glue);
    assert!(t.get_normalizer().is_some());
    assert!(t.get_pre_tokenizer().is_some());
    assert_eq!(t.get_post_processor().unwrap().id, 3);
    assert!(t.get_decoder().is_some());
    assert_eq!(t.get_model().get_vocab_size(), 1000);
    t.with_model(Chars);
    assert_eq!(t.get_vocab_size(true), 1000);
}

#[test]
fn an_empty_input_gives_an_empty_encoding() {
    let t: Plain<Chars> = Tokenizer::new(Chars);
    let e = t.encode(single(""), true).unwrap();
    assert!(e.get_ids().is_empty());
    assert!(e.get_offsets().is_empty());
    let e = t.encode(pair("", "a"), true).unwrap();
    assert_eq!(tokens_of(&e), vec!["a"]);
    assert_eq!(e.get_type_ids(), &[1]);
    assert_eq!(e.get_offsets(), &[(0, 1)]);
    assert_eq!(t.normalize("").unwrap().get(), "");
}

#[test]
fn added_tokens_in_both_sequences_of_a_pair() {
    let mut t: Plain<Chars> = Tokenizer::new(Chars);
    t.add_tokens(&[added("[X]", false)]);
    let e = t.encode(pair("a[X]", "[X]b"), false).unwrap();
    assert_eq!(tokens_of(&e), vec!["a", "[X]", "[X]", "b"]);
    assert_eq!(e.get_ids(), &[97, 1000, 1000, 98]);
    assert_eq!(e.get_type_ids(), &[0, 0, 1, 1]);
    assert_eq!(e.get_offsets(), &[(0, 1), (1, 4), (0, 3), (3, 4)]);
}

#[test]
fn a_single_word_token_with_letters_beyond_ascii() {
    let mut t: Plain<Words> = Tokenizer::new(Words);
    t.add_tokens(&[added("été", true)]);
    let e = t.encode(single("un été chaud"), false).unwrap();
    assert_eq!(tokens_of(&e), vec!["un ", "été", " chaud"]);
    assert_eq!(e.get_offsets(), &[(0, 3), (3, 8), (8, 14)]);
    // inside a word the token is not found: the letters around it are word characters
    let e = t.encode(single("répétées"), false).unwrap();
    assert_eq!(tokens_of(&e), vec!["répétées"]);
}

#[test]
fn truncation_with_stride_keeps_what_it_cuts_off() {
    let mut t: Plain<Chars> = Tokenizer::new(Chars);
    t.with_truncation(Some(TruncationParams {
        max_length: 3,
        strategy: TruncationStrategy::OnlyFirst,
        stride: 1,
    }));
    let e = t.encode(single("abcdef"), false).unwrap();
    assert_eq!(tokens_of(&e), vec!["a", "b", "c"]);
    assert_eq!(e.get_offsets(), &[(0, 1), (1, 2), (2, 3)]);
    let pieces: Vec<Vec<&str>> = e.get_overflowing().iter().map(tokens_of).collect();
    assert_eq!(pieces, vec![vec!["c", "d", "e"], vec!["e", "f"]]);
}

#[test]
fn left_padding_of_a_pair_keeps_the_offsets_of_both_sequences() {
    let mut t: Plain<Chars> = Tokenizer::new(Chars);
    t.with_padding(Some(PaddingParams {
        strategy: PaddingStrategy::Fixed(6),
        direction: PaddingDirection::Left,
        pad_id: 1,
        pad_type_id: 2,
        pad_token: "[P]".to_string(),
    }));
    let e = t.encode(pair("ab", "cd"), false).unwrap();
    assert_eq!(tokens_of(&e), vec!["[P]", "[P]", "a", "b", "c", "d"]);
    assert_eq!(e.get_ids(), &[1, 1, 97, 98, 99, 100]);
    assert_eq!(e.get_type_ids(), &[2, 2, 0, 0, 1, 1]);
    assert_eq!(e.get_attention_mask(), &[0, 0, 1, 1, 1, 1]);
    assert_eq!(e.get_offsets(), &[(0, 0), (0, 0), (0, 1), (1, 2), (0, 1), (1, 2)]);
}

#[test]
fn normalize_keeps_the_input_as_the_original() {
    let mut t: Tokenizer<Words, Strip, Spaces, Separator, Glue> = Tokenizer::new(Words);
    t.with_normalizer(Strip);
    t.with_pre_tokenizer(Spaces);
    t.add_tokens(&[added("[X]", false)]);
    for text in ["", " a ", "[X]", " a [X][X] b  c ", "é[X]è"] {
        let n = t.normalize(text).unwrap();
        assert_eq!(n.get_original(), text);
    }
    let n = t.normalize(" a [X] b ").unwrap();
    assert_eq!(n.get(), "a[X]b");
}

#[test]
fn unused_parts_do_what_a_tokenizer_does_without_them() {
    let without: Tokenizer<Chars, Unused, Unused, Unused, Unused> = Tokenizer::new(Chars);
    let mut with: Tokenizer<Chars, Unused, Unused, Unused, Unused> = Tokenizer::new(Chars);
    with.with_normalizer(Unused);
    with.with_pre_tokenizer(Unused);
    with.with_post_processor(Unused);
    with.with_decoder(Unused);
    for input in [single(""), single("a b"), pair("ab", "c"), pair("", "")] {
        assert_eq!(
            with.encode(input.clone(), true).unwrap(),
            without.encode(input, true).unwrap()
        );
    }
    assert_eq!(with.normalize(" a ").unwrap(), without.normalize(" a ").unwrap());
    assert_eq!(with.decode(vec![97, 98], false).unwrap(), "a b");
    assert_eq!(without.decode(vec![97, 98], false).unwrap(), "a b");
    assert_eq!(Unused.added_tokens(true), 0);
    assert_eq!(Unused.added_tokens(false), 0);
}

#[test]
fn truncation_without_room_for_the_added_tokens_fails() {
    let mut t: Plain<Chars> = Tokenizer::new(Chars);
    t.with_post_processor(Separator { id: 7 });
    t.with_truncation(Some(TruncationParams {
        max_length: 0,
        strategy: TruncationStrategy::LongestFirst,
        stride: 0,
    }));
    assert_eq!(t.encode(single("abc"), true).unwrap_err(), Error::MaxLengthTooSmall);
    assert_eq!(t.encode(pair("abc", "d"), true).unwrap_err(), Error::MaxLengthTooSmall);
    assert_eq!(
        t.encode_batch(vec![single("a"), single("b")], true).unwrap_err(),
        Error::MaxLengthTooSmall
    );
    // without the added tokens the same settings truncate to nothing
    let e = t.encode(single("abc"), false).unwrap();
    assert!(e.get_ids().is_empty());
    // with just room enough for the added token nothing else is left
    t.with_truncation(Some(TruncationParams {
        max_length: 1,
        strategy: TruncationStrategy::LongestFirst,
        stride: 0,
    }));
    let e = t.encode(single("abc"), true).unwrap();
    assert_eq!(tokens_of(&e), vec!["[SEP]"]);
}

#[test]
fn the_failure_of_the_settings_comes_before_that_of_the_parts() {
    let mut t: Plain<Words> = Tokenizer::new(Words);
    t.with_post_processor(Separator { id: 7 });
    t.with_truncation(Some(TruncationParams {
        max_length: 0,
        strategy: TruncationStrategy::OnlyFirst,
        stride: 0,
    }));
    assert_eq!(t.encode(single("fail"), true).unwrap_err(), Error::MaxLengthTooSmall);
    assert_eq!(
        t.encode(single("fail"), false).unwrap_err(),
        Error::ModelFailure("no such word".to_string())
    );
}

#[test]
fn batch_longest_gives_every_encoding_the_length_of_the_longest() {
    let mut t: Plain<Chars> = Tokenizer::new(Chars);
    t.with_padding(Some(PaddingParams {
        strategy: PaddingStrategy::BatchLongest,
        direction: PaddingDirection::Left,
        pad_id: 0,
        pad_type_id: 0,
        pad_token: "[P]".to_string(),
    }));
    let inputs = vec![single("abcd"), single(""), pair("a", "bc"), single("abcd")];
    let batch = t.encode_batch(inputs.clone(), false).unwrap();
    assert_eq!(batch.len(), 4);
    for e in &batch {
        assert_eq!(e.get_ids().len(), 4);
    }
    assert_eq!(batch[0], t.encode(inputs[0].clone(), false).unwrap());
    assert_eq!(tokens_of(&batch[1]), vec!["[P]", "[P]", "[P]", "[P]"]);
    assert_eq!(tokens_of(&batch[2]), vec!["[P]", "a", "b", "c"]);
}
