use tokenizers::tokenizer::encoding::Encoding;
use tokenizers::tokenizer::normalizer::NormalizedString;
use tokenizers::tokenizer::word_counts::WordCounts;
use tokenizers::tokenizer::{
    Decoder, EncodeInput, Error, Model, Normalizer, Offsets, PostProcessor, PreTokenizer, Token,
    Tokenizer, Trainer,
};

/// The words it was trained on, each with its place in the list as its id.
struct Vocabulary {
    words: Vec<(String, u32)>,
}

impl Model for Vocabulary {
    fn tokenize(&self, tokens: Vec<(String, Offsets)>) -> Result<Vec<Token>, String> {
        let mut out = vec![];
        for (text, offsets) in tokens {
            match self.token_to_id(&text) {
                Some(id) => out.push(Token::new(id, text, offsets)),
                None => return Err(format!("unknown word {:?}", text)),
            }
        }
        Ok(out)
    }

    fn token_to_id(&self, token: &str) -> Option<u32> {
        self.words.iter().position(|(w, _)| w == token).map(|i| i as u32)
    }

    fn id_to_token(&self, id: u32) -> Option<String> {
        self.words.get(id as usize).map(|(w, _)| w.clone())
    }

    fn get_vocab_size(&self) -> usize {
        self.words.len()
    }
}

struct Trim;

impl Normalizer for Trim {
    fn normalize(&self, normalized: &mut NormalizedString) -> Result<(), String> {
        if normalized.get().contains('#') {
            return Err("a comment".to_string());
        }
        Ok(())
    }
}

struct Spaces;

impl PreTokenizer for Spaces {
    fn pre_tokenize(
        &self,
        normalized: &mut NormalizedString,
    ) -> Result<Vec<(String, Offsets)>, String> {
        let text = normalized.get();
        let mut out = vec![];
        let mut start = 0;
        for (at, c) in text.char_indices() {
            if c == ' ' {
                if start < at {
                    out.push((text[start..at].to_string(), (start, at)));
                }
                start = at + 1;
            }
        }
        if start < text.len() {
            out.push((text[start..].to_string(), (start, text.len())));
        }
        Ok(out)
    }
}

struct Nothing;

impl PostProcessor for Nothing {
    fn added_tokens(&self, _is_pair: bool) -> usize {
        0
    }

    fn process(
        &self,
        encoding: Encoding,
        _pair_encoding: Option<Encoding>,
        _add_special_tokens: bool,
    ) -> Result<Encoding, String> {
        Ok(encoding)
    }
}

impl Decoder for Nothing {
    fn decode(&self, tokens: Vec<String>) -> Result<String, String> {
        Ok(tokens.concat())
    }
}

/// Counts every token once, and fails on a training text without words.
struct Counter {
    weight: u32,
}

impl Trainer for Counter {
    type Model = Vocabulary;

    fn should_show_progress(&self) -> bool {
        false
    }

    fn train(&self, words: WordCounts) -> Result<(Vocabulary, Vec<String>), String> {
        if words.len() == 0 {
            return Err("nothing to learn from".to_string());
        }
        let mut list = vec![];
        for i in 0..words.len() {
            let (word, count) = words.entry(i);
            list.push((word.to_string(), count));
        }
        Ok((Vocabulary { words: list }, vec!["[UNK]".to_string(), "b".to_string()]))
    }

    fn process_tokens(&self, words: &mut WordCounts, tokens: Vec<String>) {
        for token in tokens {
            words.add(&token, self.weight);
        }
    }
}

type Trained = Tokenizer<Vocabulary, Trim, Spaces, Nothing, Nothing>;

fn lines(text: &[&str]) -> Vec<String> {
    text.iter().map(|l| l.to_string()).collect()
}

#[test]
fn word_counts_add_up() {
    let mut words = WordCounts::new();
    assert_eq!(words.len(), 0);
    assert_eq!(words.get("a"), 0);
    assert!(words.add("a", 2));
    assert!(words.add("b", 1));
    assert!(words.add("a", 3));
    assert_eq!(words.len(), 2);
    assert_eq!(words.get("a"), 5);
    assert_eq!(words.get("b"), 1);
    assert_eq!(words.entry(0), ("a", 5));
    assert_eq!(words.entry(1), ("b", 1));
    // a word that is new follows the others, also where it is counted no times
    assert!(words.add("c", 0));
    assert_eq!(words.len(), 3);
    assert_eq!(words.entry(2), ("c", 0));
}

#[test]
fn word_counts_refuse_a_count_that_does_not_fit() {
    let mut words = WordCounts::new();
    assert!(words.add("a", u32::MAX - 1));
    assert!(!words.add("a", 2));
    assert_eq!(words.get("a"), u32::MAX - 1);
    assert!(words.add("a", 1));
    assert_eq!(words.get("a"), u32::MAX);
}

#[test]
fn word_counts_merge_by_summing() {
    let mut a = WordCounts::new();
    a.add("x", 1);
    a.add("y", 2);
    let mut b = WordCounts::new();
    b.add("y", 10);
    b.add("z", 20);
    assert!(a.fits(&b));
    assert!(a.merge(&b));
    assert_eq!(a.get("x"), 1);
    assert_eq!(a.get("y"), 12);
    assert_eq!(a.get("z"), 20);
    assert_eq!(a.len(), 3);
    assert_eq!(a.entry(0), ("x", 1));
    assert_eq!(a.entry(1), ("y", 12));
    assert_eq!(a.entry(2), ("z", 20));

    let mut big = WordCounts::new();
    big.add("z", u32::MAX);
    let before = a.clone();
    assert!(!a.fits(&big));
    assert!(!a.merge(&big));
    assert!(a == before);
}

#[test]
fn count_words_hands_the_pre_tokens_of_each_line_to_the_trainer() {
    let mut t: Trained = Tokenizer::new(Vocabulary { words: vec![] });
    t.with_pre_tokenizer(Spaces);
    let words = t.count_words(&Counter { weight: 1 }, &lines(&["a b\n", "b c\r\n", ""])).unwrap();
    assert_eq!(words.len(), 4);
    assert_eq!(words.get("a"), 1);
    assert_eq!(words.get("b\n"), 1);
    assert_eq!(words.get("b"), 1);
    assert_eq!(words.get("c\r\n"), 1);
}

#[test]
fn count_words_of_no_line_counts_no_word() {
    let mut t: Trained = Tokenizer::new(Vocabulary { words: vec![] });
    t.with_pre_tokenizer(Spaces);
    t.with_normalizer(Trim);
    let words = t.count_words(&Counter { weight: 3 }, &vec![]).unwrap();
    assert_eq!(words.len(), 0);
    assert_eq!(words.get(""), 0);
}

#[test]
fn count_words_without_a_pre_tokenizer_counts_whole_lines() {
    let t: Trained = Tokenizer::new(Vocabulary { words: vec![] });
    let words = t.count_words(&Counter { weight: 2 }, &lines(&["a b\n", "a b\n"])).unwrap();
    assert_eq!(words.len(), 1);
    assert_eq!(words.get("a b\n"), 4);
}

#[test]
fn train_replaces_the_model_and_adds_the_special_tokens() {
    let mut t: Trained = Tokenizer::new(Vocabulary { words: vec![] });
    t.with_pre_tokenizer(Spaces);
    let files = vec![lines(&["a b", "b c"]), lines(&[]), lines(&["c c a"])];
    t.train(&Counter { weight: 1 }, files).unwrap();
    assert_eq!(t.get_model().words, vec![
        ("a".to_string(), 2),
        ("b".to_string(), 2),
        ("c".to_string(), 3),
    ]);
    assert_eq!(t.get_vocab_size(false), 3);
    // "[UNK]" is new and gets the next id, "b" is a word of the model and keeps its id
    assert_eq!(t.get_vocab_size(true), 4);
    assert_eq!(t.token_to_id("[UNK]"), Some(3));
    assert_eq!(t.token_to_id("b"), Some(1));
    let e = t.encode(EncodeInput::Single("c [UNK] a".to_string()), false).unwrap();
    assert_eq!(e.get_ids(), &[2, 3, 0]);
    // the offsets of a piece follow the end of the last token before it, so the spaces
    // that the pre-tokenizer left out are not counted
    assert_eq!(e.get_offsets(), &[(0, 1), (1, 6), (7, 8)]);
    assert_eq!(t.decode(vec![2, 3, 1, 0], true).unwrap(), "c a");
    assert_eq!(t.decode(vec![2, 3, 1, 0], false).unwrap(), "c [UNK] b a");
    t.with_decoder(Nothing);
    assert_eq!(t.decode(vec![2, 3, 1, 0], true).unwrap(), "ca");
}

#[test]
fn train_fails_with_the_failure_of_a_part_and_changes_nothing() {
    let mut t: Trained = Tokenizer::new(Vocabulary { words: vec![("old".to_string(), 1)] });
    t.with_normalizer(Trim);
    let r = t.train(&Counter { weight: 1 }, vec![lines(&["a", "# b"])]);
    assert_eq!(r.unwrap_err(), Error::NormalizerFailure("a comment".to_string()));
    assert_eq!(t.get_vocab_size(true), 1);

    let r = t.train(&Counter { weight: 1 }, vec![]);
    assert_eq!(r.unwrap_err(), Error::TrainerFailure("nothing to learn from".to_string()));
    assert_eq!(t.token_to_id("old"), Some(0));

    let r = t.train(&Counter { weight: u32::MAX }, vec![lines(&["a"]), lines(&["a"])]);
    assert_eq!(r.unwrap_err(), Error::WordCountOverflow);
    assert_eq!(t.token_to_id("old"), Some(0));
}

#[test]
fn sum_adds_up_word_by_word_or_gives_nothing() {
    let mut a = WordCounts::new();
    a.add("x", 1);
    a.add("y", u32::MAX - 3);
    let mut b = WordCounts::new();
    b.add("y", 3);
    b.add("z", 7);
    let total = WordCounts::sum(&vec![a.clone(), WordCounts::new(), b.clone()]).unwrap();
    assert_eq!(total.len(), 3);
    assert_eq!(total.get("x"), 1);
    assert_eq!(total.get("y"), u32::MAX);
    assert_eq!(total.get("z"), 7);
    assert_eq!(total.entry(0), ("x", 1));
    assert_eq!(total.entry(1), ("y", u32::MAX));
    assert_eq!(total.entry(2), ("z", 7));
    assert_eq!(total.get("w"), 0);
    assert_eq!(WordCounts::sum(&vec![]).unwrap().len(), 0);
    // the words come in the order in which the counts hold them
    let turned = WordCounts::sum(&vec![b.clone(), a.clone()]).unwrap();
    assert_eq!(turned.entry(0), ("y", u32::MAX));
    assert_eq!(turned.entry(1), ("z", 7));
    assert_eq!(turned.entry(2), ("x", 1));

    let mut c = WordCounts::new();
    c.add("y", 1);
    assert!(WordCounts::sum(&vec![a, b, c]).is_none());
}

#[test]
fn train_on_counts_fails_on_counts_that_do_not_fit_before_it_asks_the_trainer() {
    let mut t: Trained = Tokenizer::new(Vocabulary { words: vec![("old".to_string(), 1)] });
    let mut a = WordCounts::new();
    a.add("w", u32::MAX);
    let mut b = WordCounts::new();
    b.add("w", 1);
    let r = t.train_on_counts(&Counter { weight: 1 }, vec![a.clone(), b]);
    assert_eq!(r.unwrap_err(), Error::WordCountOverflow);
    assert_eq!(t.token_to_id("old"), Some(0));
    t.train_on_counts(&Counter { weight: 1 }, vec![a]).unwrap();
    assert_eq!(t.token_to_id("w"), Some(0));
    assert_eq!(t.token_to_id("old"), None);
}

/// A model that claims to hold as many tokens as it is told.
struct Huge {
    size: usize,
}

impl Model for Huge {
    fn tokenize(&self, _tokens: Vec<(String, Offsets)>) -> Result<Vec<Token>, String> {
        Ok(vec![])
    }

    fn token_to_id(&self, _token: &str) -> Option<u32> {
        None
    }

    fn id_to_token(&self, _id: u32) -> Option<String> {
        None
    }

    fn get_vocab_size(&self) -> usize {
        self.size
    }
}

#[test]
fn replace_model_needs_ids_for_the_special_tokens() {
    let mut t: Tokenizer<Huge, Trim, Spaces, Nothing, Nothing> = Tokenizer::new(Huge { size: 5 });
    let full = u32::MAX as usize;
    // the last id is still to be had
    t.replace_model(Huge { size: full }, vec!["[A]".to_string()]).unwrap();
    assert_eq!(t.token_to_id("[A]"), Some(u32::MAX));
    assert_eq!(t.get_vocab_size(false), full);

    // no id is left for another token
    let r = t.replace_model(Huge { size: 7 + full }, vec!["[B]".to_string()]);
    assert_eq!(r.unwrap_err(), Error::VocabularyOverflow);
    assert_eq!(t.get_vocab_size(false), full);
    assert_eq!(t.token_to_id("[B]"), None);
    assert_eq!(t.token_to_id("[A]"), Some(u32::MAX));

    // a token that stands for an id already needs none, nor does an empty one
    t.replace_model(Huge { size: 7 + full }, vec!["[A]".to_string(), String::new()]).unwrap();
    assert_eq!(t.get_vocab_size(false), 7 + full);
    assert_eq!(t.token_to_id("[A]"), Some(u32::MAX));

    // without special tokens any model fits
    t.replace_model(Huge { size: full }, vec![]).unwrap();
    assert_eq!(t.get_vocab_size(false), full);
}

#[test]
fn replace_model_adds_no_token_where_one_of_them_gets_no_id() {
    let mut t: Tokenizer<Huge, Trim, Spaces, Nothing, Nothing> = Tokenizer::new(Huge { size: 5 });
    let full = u32::MAX as usize;
    let wanted = vec!["[X]".to_string(), "[Y]".to_string(), "[Z]".to_string()];
    let r = t.replace_model(Huge { size: full - 1 }, wanted.clone());
    assert_eq!(r.unwrap_err(), Error::VocabularyOverflow);
    assert_eq!(t.get_vocab_size(true), 5);
    assert_eq!(t.token_to_id("[X]"), None);
    assert_eq!(t.token_to_id("[Y]"), None);
    assert_eq!(t.decode(vec![u32::MAX - 1], true).unwrap(), "");

    t.replace_model(Huge { size: full - 2 }, wanted).unwrap();
    assert_eq!(t.token_to_id("[X]"), Some(u32::MAX - 2));
    assert_eq!(t.token_to_id("[Y]"), Some(u32::MAX - 1));
    assert_eq!(t.token_to_id("[Z]"), Some(u32::MAX));
    // the three are special now
    assert_eq!(t.decode(vec![u32::MAX - 1, u32::MAX], false).unwrap(), "[Y] [Z]");
    assert_eq!(t.decode(vec![u32::MAX - 1, u32::MAX], true).unwrap(), "");
}

#[test]
fn try_add_tokens_adds_all_of_them_or_none() {
    let size = u32::MAX as usize - 1;
    let mut t: Tokenizer<Huge, Trim, Spaces, Nothing, Nothing> = Tokenizer::new(Huge { size });
    let three = [
        tokenizers::tokenizer::AddedToken::from("[A]".to_string()),
        tokenizers::tokenizer::AddedToken::from("[B]".to_string()),
        tokenizers::tokenizer::AddedToken::from("[C]".to_string()),
    ];
    assert_eq!(t.try_add_tokens(&three), None);
    assert_eq!(t.get_vocab_size(true), size);
    assert_eq!(t.token_to_id("[A]"), None);
    assert_eq!(t.try_add_tokens(&three[..2]), Some(2));
    assert_eq!(t.token_to_id("[A]"), Some(u32::MAX - 1));
    assert_eq!(t.token_to_id("[B]"), Some(u32::MAX));
    // the two that are known are passed over, the third still gets no id
    assert_eq!(t.try_add_tokens(&three[..2]), Some(0));
    assert_eq!(t.try_add_tokens(&three), None);
    assert_eq!(t.get_vocab_size(true), size + 2);

    assert_eq!(t.try_add_special_tokens(&["[C]".to_string()]), None);
    assert_eq!(t.try_add_special_tokens(&["[B]".to_string()]), Some(0));
    assert_eq!(t.decode(vec![u32::MAX - 1, u32::MAX], true).unwrap(), "[A]");
}

#[test]
fn the_last_ids_can_be_handed_out_and_the_same_tokens_added_again() {
    let size = u32::MAX as usize - 1;
    let mut t: Tokenizer<Huge, Trim, Spaces, Nothing, Nothing> = Tokenizer::new(Huge { size });
    let tokens = [
        tokenizers::tokenizer::AddedToken::from("[A]".to_string()),
        tokenizers::tokenizer::AddedToken::from("[B]".to_string()),
    ];
    assert_eq!(t.add_tokens(&tokens), 2);
    assert_eq!(t.token_to_id("[A]"), Some(u32::MAX - 1));
    assert_eq!(t.token_to_id("[B]"), Some(u32::MAX));
    assert_eq!(t.add_tokens(&tokens), 0);
    assert_eq!(t.get_vocab_size(true), size + 2);
    assert_eq!(t.id_to_token(u32::MAX), Some("[B]".to_string()));
}
