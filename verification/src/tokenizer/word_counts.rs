//! The words of a training text, counted.

use crate::utils::text::same_text;
use vstd::hash_map::StringHashMap;
use vstd::prelude::*;
use vstd::std_specs::cmp::PartialEqSpecImpl;

verus! {

/// How often `word` was counted in `entries`.
pub open spec fn count_of(entries: Seq<(Seq<char>, u32)>, word: Seq<char>) -> nat
    decreases entries.len(),
{
    if entries.len() == 0 {
        0
    } else if entries.last().0 == word {
        entries.last().1 as nat + count_of(entries.drop_last(), word)
    } else {
        count_of(entries.drop_last(), word)
    }
}

/// Whether no word stands twice in `entries`.
pub open spec fn distinct_words(entries: Seq<(Seq<char>, u32)>) -> bool {
    forall|i: int, j: int|
        0 <= i < j < entries.len() ==> (#[trigger] entries[i]).0 != (#[trigger] entries[j]).0
}

/// Whether `word` stands in `entries`.
pub open spec fn has_word(entries: Seq<(Seq<char>, u32)>, word: Seq<char>) -> bool {
    exists|i: int| 0 <= i < entries.len() && (#[trigger] entries[i]).0 == word
}

/// Where `word` stands in `entries`: the place of its first entry, or the number of
/// entries where it has none.
pub open spec fn place_of(entries: Seq<(Seq<char>, u32)>, word: Seq<char>) -> nat
    decreases entries.len(),
{
    if entries.len() == 0 || entries.first().0 == word {
        0
    } else {
        1 + place_of(entries.drop_first(), word)
    }
}

/// The entries after `word` was counted another `count` times: the count of its entry
/// has grown by `count`, or, where it had none, the entry `(word, count)` follows the
/// others.
pub open spec fn counted(entries: Seq<(Seq<char>, u32)>, word: Seq<char>, count: u32) -> Seq<
    (Seq<char>, u32),
> {
    let place = place_of(entries, word) as int;
    if place < entries.len() {
        entries.update(place, (word, (entries[place].1 + count) as u32))
    } else {
        entries.push((word, count))
    }
}

/// The entries of `a` after the words of `b` were counted, one after the other, as often
/// as `b` counts them.
pub open spec fn merged(a: Seq<(Seq<char>, u32)>, b: Seq<(Seq<char>, u32)>) -> Seq<
    (Seq<char>, u32),
>
    decreases b.len(),
{
    if b.len() == 0 {
        a
    } else {
        counted(merged(a, b.drop_last()), b.last().0, b.last().1)
    }
}

/// The counts of `counts` added up: the first of them, then the words of each of the
/// others counted in their order.
pub open spec fn summed(counts: Seq<Seq<(Seq<char>, u32)>>) -> Seq<(Seq<char>, u32)>
    decreases counts.len(),
{
    if counts.len() == 0 {
        Seq::empty()
    } else {
        merged(summed(counts.drop_last()), counts.last())
    }
}

/// Whether the counts of `a` and `b` can be added up word by word.
pub open spec fn sums_fit(a: Seq<(Seq<char>, u32)>, b: Seq<(Seq<char>, u32)>) -> bool {
    forall|i: int|
        0 <= i < b.len() ==> count_of(a, (#[trigger] b[i]).0) + b[i].1 <= u32::MAX
}

/// The words of a training text with the number of times each was counted, in the order
/// in which the words were first seen.
pub struct WordCounts {
    entries: Vec<(String, u32)>,
    /// Where each word stands among the entries.
    index: StringHashMap<usize>,
}

/// The words and counts that a list of entries stands for.
pub open spec fn entry_views(entries: Seq<(String, u32)>) -> Seq<(Seq<char>, u32)> {
    entries.map_values(|e: (String, u32)| (e.0@, e.1))
}

impl View for WordCounts {
    type V = Seq<(Seq<char>, u32)>;

    closed spec fn view(&self) -> Seq<(Seq<char>, u32)> {
        entry_views(self.entries@)
    }
}

/// A word that stands in no entry was not counted.
pub proof fn lemma_count_of_absent(entries: Seq<(Seq<char>, u32)>, word: Seq<char>)
    requires
        forall|i: int| 0 <= i < entries.len() ==> (#[trigger] entries[i]).0 != word,
    ensures
        count_of(entries, word) == 0,
    decreases entries.len(),
{
    if entries.len() > 0 {
        assert forall|i: int| 0 <= i < entries.drop_last().len() implies (
        #[trigger] entries.drop_last()[i]).0 != word by {
            assert(entries.drop_last()[i] == entries[i]);
        }
        lemma_count_of_absent(entries.drop_last(), word);
        assert(entries.last() == entries[entries.len() - 1]);
    }
}

/// Where no word stands twice, the count of a word is that of its entry.
pub proof fn lemma_count_of_entry(entries: Seq<(Seq<char>, u32)>, k: int)
    requires
        distinct_words(entries),
        0 <= k < entries.len(),
    ensures
        count_of(entries, entries[k].0) == entries[k].1,
    decreases entries.len(),
{
    let init = entries.drop_last();
    if k == entries.len() - 1 {
        assert forall|i: int| 0 <= i < init.len() implies (#[trigger] init[i]).0 != entries[k].0 by {
            assert(init[i] == entries[i]);
        }
        lemma_count_of_absent(init, entries[k].0);
    } else {
        assert(init[k] == entries[k]);
        assert(distinct_words(init)) by {
            assert forall|i: int, j: int| 0 <= i < j < init.len() implies (#[trigger] init[i]).0 != (
            #[trigger] init[j]).0 by {
                assert(init[i] == entries[i]);
                assert(init[j] == entries[j]);
            }
        }
        lemma_count_of_entry(init, k);
        assert(entries.last() == entries[entries.len() - 1]);
    }
}

/// Changing the count of one entry changes the count of its word by as much, and that of
/// no other word.
pub proof fn lemma_count_of_update(
    entries: Seq<(Seq<char>, u32)>,
    k: int,
    count: u32,
    word: Seq<char>,
)
    requires
        0 <= k < entries.len(),
    ensures
        count_of(entries.update(k, (entries[k].0, count)), word) == if word == entries[k].0 {
            count_of(entries, word) - entries[k].1 + count
        } else {
            count_of(entries, word) as int
        },
    decreases entries.len(),
{
    let updated = entries.update(k, (entries[k].0, count));
    if k == entries.len() - 1 {
        assert(updated.drop_last() =~= entries.drop_last());
    } else {
        assert(updated.drop_last() =~= entries.drop_last().update(k, (entries[k].0, count)));
        assert(entries.drop_last()[k] == entries[k]);
        lemma_count_of_update(entries.drop_last(), k, count, word);
    }
}

/// The place of a word is that of its first entry, and the number of entries exactly
/// where it has none.
pub proof fn lemma_place_of(entries: Seq<(Seq<char>, u32)>, word: Seq<char>)
    ensures
        place_of(entries, word) <= entries.len(),
        place_of(entries, word) < entries.len() ==> entries[place_of(entries, word) as int].0
            == word,
        forall|i: int| 0 <= i < place_of(entries, word) ==> (#[trigger] entries[i]).0 != word,
        has_word(entries, word) <==> place_of(entries, word) < entries.len(),
    decreases entries.len(),
{
    if entries.len() > 0 && entries.first().0 != word {
        let rest = entries.drop_first();
        lemma_place_of(rest, word);
        assert forall|i: int| 0 <= i < place_of(entries, word) implies (#[trigger] entries[i]).0
            != word by {
            if i > 0 {
                assert(rest[i - 1] == entries[i]);
            }
        }
        if place_of(entries, word) < entries.len() {
            assert(rest[place_of(rest, word) as int] == entries[place_of(entries, word) as int]);
        }
    }
    if place_of(entries, word) < entries.len() {
        assert(entries[place_of(entries, word) as int].0 == word);
    }
}

/// Counting a word adds it to the words, and no other word.
pub proof fn lemma_counted_words(
    entries: Seq<(Seq<char>, u32)>,
    word: Seq<char>,
    count: u32,
    other: Seq<char>,
)
    ensures
        has_word(counted(entries, word, count), other) <==> has_word(entries, other) || other
            == word,
{
    let after = counted(entries, word, count);
    let place = place_of(entries, word) as int;
    lemma_place_of(entries, word);
    if has_word(entries, other) {
        let i = choose|i: int| 0 <= i < entries.len() && (#[trigger] entries[i]).0 == other;
        assert(after[i].0 == other);
    }
    if other == word {
        if place < entries.len() {
            assert(after[place].0 == word);
        } else {
            assert(after[entries.len() as int].0 == word);
        }
    }
    if has_word(after, other) {
        let i = choose|i: int| 0 <= i < after.len() && (#[trigger] after[i]).0 == other;
        if i < entries.len() && other != word {
            assert(entries[i].0 == other);
        }
    }
}

/// Where the count fits, counting a word another `count` times adds `count` to the count
/// of the word and leaves the count of every other word as it is; and no word stands
/// twice afterwards where none did before.
pub proof fn lemma_counted(entries: Seq<(Seq<char>, u32)>, word: Seq<char>, count: u32)
    requires
        distinct_words(entries),
        count_of(entries, word) + count <= u32::MAX,
    ensures
        distinct_words(counted(entries, word, count)),
        forall|w: Seq<char>| #[trigger]
            count_of(counted(entries, word, count), w) == count_of(entries, w) + if w == word {
                count as nat
            } else {
                0
            },
{
    let after = counted(entries, word, count);
    let place = place_of(entries, word) as int;
    lemma_place_of(entries, word);
    if place < entries.len() {
        lemma_count_of_entry(entries, place);
        assert forall|w: Seq<char>| #[trigger]
            count_of(after, w) == count_of(entries, w) + if w == word {
                count as nat
            } else {
                0
            } by {
            lemma_count_of_update(entries, place, (entries[place].1 + count) as u32, w);
        }
        assert forall|i: int, j: int| 0 <= i < j < after.len() implies (#[trigger] after[i]).0 != (
        #[trigger] after[j]).0 by {
            assert(after[i].0 == entries[i].0);
            assert(after[j].0 == entries[j].0);
        }
    } else {
        assert(after.drop_last() =~= entries);
        assert forall|i: int| 0 <= i < entries.len() implies (#[trigger] entries[i]).0 != word by {
            if entries[i].0 == word {
                assert(has_word(entries, word));
            }
        }
        lemma_count_of_absent(entries, word);
        assert forall|i: int, j: int| 0 <= i < j < after.len() implies (#[trigger] after[i]).0 != (
        #[trigger] after[j]).0 by {
            assert(after[i] == entries[i]);
            if j < entries.len() {
                assert(after[j] == entries[j]);
            }
        }
    }
}

/// Adding counts to others gives the words of both, and no other word.
pub proof fn lemma_merged_words(
    a: Seq<(Seq<char>, u32)>,
    b: Seq<(Seq<char>, u32)>,
    word: Seq<char>,
)
    ensures
        has_word(merged(a, b), word) <==> has_word(a, word) || has_word(b, word),
    decreases b.len(),
{
    if b.len() > 0 {
        let init = b.drop_last();
        lemma_merged_words(a, init, word);
        lemma_counted_words(merged(a, init), b.last().0, b.last().1, word);
        if has_word(init, word) {
            let i = choose|i: int| 0 <= i < init.len() && (#[trigger] init[i]).0 == word;
            assert(b[i].0 == word);
        }
        if b.last().0 == word {
            assert(b[b.len() - 1].0 == word);
        }
        if has_word(b, word) {
            let i = choose|i: int| 0 <= i < b.len() && (#[trigger] b[i]).0 == word;
            if i < init.len() {
                assert(init[i].0 == word);
            }
        }
    }
}

/// Where the counts can be added up word by word, adding counts to others adds up the
/// counts of every word; and no word stands twice afterwards.
pub proof fn lemma_merged(a: Seq<(Seq<char>, u32)>, b: Seq<(Seq<char>, u32)>)
    requires
        distinct_words(a),
        distinct_words(b),
        sums_fit(a, b),
    ensures
        distinct_words(merged(a, b)),
        forall|w: Seq<char>| #[trigger]
            count_of(merged(a, b), w) == count_of(a, w) + count_of(b, w),
    decreases b.len(),
{
    if b.len() > 0 {
        let init = b.drop_last();
        let word = b.last().0;
        assert(distinct_words(init)) by {
            assert forall|i: int, j: int| 0 <= i < j < init.len() implies (#[trigger] init[i]).0 != (
            #[trigger] init[j]).0 by {
                assert(init[i] == b[i]);
                assert(init[j] == b[j]);
            }
        }
        assert(sums_fit(a, init)) by {
            assert forall|i: int| 0 <= i < init.len() implies count_of(a, (#[trigger] init[i]).0)
                + init[i].1 <= u32::MAX by {
                assert(init[i] == b[i]);
            }
        }
        lemma_merged(a, init);
        assert(count_of(init, word) == 0) by {
            assert forall|i: int| 0 <= i < init.len() implies (#[trigger] init[i]).0 != word by {
                assert(init[i] == b[i]);
                assert(b.last() == b[b.len() - 1]);
            }
            lemma_count_of_absent(init, word);
        }
        assert(b.last() == b[b.len() - 1]);
        assert(count_of(merged(a, init), word) == count_of(a, word) + count_of(init, word));
        lemma_counted(merged(a, init), word, b.last().1);
        assert forall|w: Seq<char>| #[trigger]
            count_of(merged(a, b), w) == count_of(a, w) + count_of(b, w) by {
            assert(count_of(merged(a, init), w) == count_of(a, w) + count_of(init, w));
        }
    }
}

/// The counts of a list of word counts.
pub open spec fn count_views(counts: Seq<WordCounts>) -> Seq<Seq<(Seq<char>, u32)>> {
    counts.map_values(|c: WordCounts| c@)
}

/// How often `word` was counted in all of `counts` together.
pub open spec fn total(counts: Seq<Seq<(Seq<char>, u32)>>, word: Seq<char>) -> nat
    decreases counts.len(),
{
    if counts.len() == 0 {
        0
    } else {
        total(counts.drop_last(), word) + count_of(counts.last(), word)
    }
}

/// Whether some word was counted more often in all of `counts` together than fits.
pub open spec fn overflows(counts: Seq<Seq<(Seq<char>, u32)>>) -> bool {
    exists|w: Seq<char>| #[trigger] total(counts, w) > u32::MAX
}

/// Where no word stands twice, the count of a word fits.
pub proof fn lemma_count_of_fits(entries: Seq<(Seq<char>, u32)>, word: Seq<char>)
    requires
        distinct_words(entries),
    ensures
        count_of(entries, word) <= u32::MAX,
{
    if exists|k: int| 0 <= k < entries.len() && (#[trigger] entries[k]).0 == word {
        let k = choose|k: int| 0 <= k < entries.len() && (#[trigger] entries[k]).0 == word;
        lemma_count_of_entry(entries, k);
    } else {
        lemma_count_of_absent(entries, word);
    }
}

/// A word was counted no more often in the first of `counts` than in all of them.
pub proof fn lemma_total_grows(counts: Seq<Seq<(Seq<char>, u32)>>, upto: int, word: Seq<char>)
    requires
        0 <= upto <= counts.len(),
    ensures
        total(counts.subrange(0, upto), word) <= total(counts, word),
    decreases counts.len(),
{
    if upto == counts.len() {
        assert(counts.subrange(0, upto) =~= counts);
    } else {
        lemma_total_grows(counts.drop_last(), upto, word);
        assert(counts.drop_last().subrange(0, upto) =~= counts.subrange(0, upto));
    }
}

/// The counts of a list, added up, hold the words of each of them, and no other word.
pub proof fn lemma_summed_words(counts: Seq<Seq<(Seq<char>, u32)>>, word: Seq<char>)
    ensures
        has_word(summed(counts), word) <==> exists|i: int|
            0 <= i < counts.len() && has_word(#[trigger] counts[i], word),
    decreases counts.len(),
{
    if counts.len() > 0 {
        let init = counts.drop_last();
        lemma_summed_words(init, word);
        lemma_merged_words(summed(init), counts.last(), word);
        if exists|i: int| 0 <= i < init.len() && has_word(#[trigger] init[i], word) {
            let i = choose|i: int| 0 <= i < init.len() && has_word(#[trigger] init[i], word);
            assert(counts[i] == init[i]);
        }
        if has_word(counts.last(), word) {
            assert(counts[counts.len() - 1] == counts.last());
        }
        if exists|i: int| 0 <= i < counts.len() && has_word(#[trigger] counts[i], word) {
            let i = choose|i: int| 0 <= i < counts.len() && has_word(#[trigger] counts[i], word);
            if i < init.len() {
                assert(init[i] == counts[i]);
            }
        }
    }
}

/// Where the counts of no word, added up, are more than fits, the counts of a list, added
/// up, count each word as often as all of the list together; and no word stands twice.
pub proof fn lemma_summed(counts: Seq<Seq<(Seq<char>, u32)>>)
    requires
        forall|i: int| 0 <= i < counts.len() ==> distinct_words(#[trigger] counts[i]),
        !overflows(counts),
    ensures
        distinct_words(summed(counts)),
        forall|w: Seq<char>| #[trigger] count_of(summed(counts), w) == total(counts, w),
    decreases counts.len(),
{
    if counts.len() > 0 {
        let init = counts.drop_last();
        let last = counts.last();
        assert(counts[counts.len() - 1] == last);
        assert forall|i: int| 0 <= i < init.len() implies distinct_words(#[trigger] init[i]) by {
            assert(init[i] == counts[i]);
        }
        assert(!overflows(init)) by {
            assert forall|w: Seq<char>| #[trigger] total(init, w) <= u32::MAX by {
                assert(total(counts, w) <= u32::MAX);
            }
        }
        lemma_summed(init);
        assert(sums_fit(summed(init), last)) by {
            assert forall|i: int| 0 <= i < last.len() implies count_of(
                summed(init),
                (#[trigger] last[i]).0,
            ) + last[i].1 <= u32::MAX by {
                let w = last[i].0;
                lemma_count_of_entry(last, i);
                assert(count_of(summed(init), w) == total(init, w));
                assert(total(counts, w) <= u32::MAX);
            }
        }
        lemma_merged(summed(init), last);
        assert forall|w: Seq<char>| #[trigger] count_of(summed(counts), w) == total(counts, w) by {
            assert(count_of(summed(init), w) == total(init, w));
            assert(count_of(merged(summed(init), last), w) == count_of(summed(init), w)
                + count_of(last, w));
        }
    } else {
        assert forall|w: Seq<char>| #[trigger] count_of(summed(counts), w) == total(counts, w) by {}
    }
}

impl WordCounts {
    /// The index knows each word, and where it stands.
    pub closed spec fn indexed(&self) -> bool {
        &&& forall|i: int|
            0 <= i < self.entries@.len() ==> self.index@.contains_key(
                (#[trigger] self.entries@[i]).0@,
            ) && self.index@[self.entries@[i].0@] == i
        &&& forall|w: Seq<char>| #[trigger]
            self.index@.contains_key(w) ==> self.index@[w] < self.entries@.len()
                && self.entries@[self.index@[w] as int].0@ == w
    }

    /// No word stands twice, and the index is in order.
    pub open spec fn wf(&self) -> bool {
        distinct_words(self@) && self.indexed()
    }

    /// How often `word` was counted.
    pub open spec fn count(&self, word: Seq<char>) -> nat {
        count_of(self@, word)
    }

    /// Counts without any word.
    pub fn new() -> (r: WordCounts)
        ensures
            r@.len() == 0,
            r.wf(),
    {
        WordCounts { entries: Vec::new(), index: StringHashMap::new() }
    }

    /// The number of words.
    pub fn len(&self) -> (n: usize)
        ensures
            n == self@.len(),
    {
        self.entries.len()
    }

    /// The word at `index`, with its count.
    pub fn entry(&self, index: usize) -> (r: (&str, u32))
        requires
            index < self@.len(),
        ensures
            (r.0@, r.1) == self@[index as int],
    {
        (self.entries[index].0.as_str(), self.entries[index].1)
    }

    /// Where `word` stands among the entries.
    fn position(&self, word: &str) -> (r: Option<usize>)
        requires
            self.indexed(),
        ensures
            match r {
                Some(k) => k < self@.len() && self@[k as int].0 == word@,
                None => forall|i: int| 0 <= i < self@.len() ==> (#[trigger] self@[i]).0 != word@,
            },
    {
        match self.index.get(word) {
            Some(k) => Some(*k),
            None => {
                assert forall|i: int| 0 <= i < self@.len() implies (#[trigger] self@[i]).0
                    != word@ by {
                    assert(self.index@.contains_key(self.entries@[i].0@));
                }
                None
            },
        }
    }

    /// How often `word` was counted.
    pub fn get(&self, word: &str) -> (r: u32)
        requires
            self.wf(),
        ensures
            r == self.count(word@),
    {
        match self.position(word) {
            Some(k) => {
                proof {
                    lemma_count_of_entry(self@, k as int);
                }
                self.entries[k].1
            },
            None => {
                proof {
                    lemma_count_of_absent(self@, word@);
                }
                0
            },
        }
    }

    /// Counts `word` another `count` times. Returns `false`, and changes nothing, where
    /// the count of the word would no longer fit.
    pub fn add(&mut self, word: &str, count: u32) -> (done: bool)
        requires
            old(self).wf(),
        ensures
            final(self).wf(),
            done == (old(self).count(word@) + count <= u32::MAX),
            !done ==> final(self)@ == old(self)@,
            done ==> final(self)@ == counted(old(self)@, word@, count),
            done ==> forall|w: Seq<char>|
                #[trigger] final(self).count(w) == old(self).count(w) + if w == word@ {
                    count as nat
                } else {
                    0
                },
    {
        let ghost before = self@;
        proof {
            lemma_place_of(before, word@);
        }
        match self.position(word) {
            Some(k) => {
                proof {
                    lemma_count_of_entry(before, k as int);
                    assert(has_word(before, word@));
                }
                let current = self.entries[k].1;
                if count > u32::MAX - current {
                    return false;
                }
                let ghost words = self.entries@;
                self.entries[k].1 = current + count;
                proof {
                    assert forall|i: int| 0 <= i < words.len() implies (
                    #[trigger] self.entries@[i]).0 == words[i].0 by {}
                    assert(self@ =~= before.update(
                        k as int,
                        (before[k as int].0, (current + count) as u32),
                    ));
                    assert forall|w: Seq<char>| #[trigger]
                        count_of(self@, w) == count_of(before, w) + if w == word@ {
                            count as nat
                        } else {
                            0
                        } by {
                        lemma_count_of_update(before, k as int, (current + count) as u32, w);
                    }
                }
                true
            },
            None => {
                proof {
                    lemma_count_of_absent(before, word@);
                }
                let place = self.entries.len();
                let ghost words = self.entries@;
                self.entries.push((word.to_owned(), count));
                self.index.insert(word.to_owned(), place);
                proof {
                    assert(self@ =~= before.push((word@, count)));
                    assert(self@.drop_last() =~= before);
                    assert forall|i: int| 0 <= i < words.len() implies (
                    #[trigger] self.entries@[i]).0 == words[i].0 by {}
                    assert forall|i: int| 0 <= i < words.len() implies words[i].0@ != word@ by {
                        assert(before[i].0 != word@);
                    }
                }
                true
            },
        }
    }

    /// Whether the counts of `other` can be added to these word by word.
    pub fn fits(&self, other: &WordCounts) -> (r: bool)
        requires
            self.wf(),
        ensures
            r == sums_fit(self@, other@),
    {
        let n = other.entries.len();
        let mut i: usize = 0;
        while i < n
            invariant
                i <= n,
                n == other@.len(),
                self.wf(),
                forall|k: int|
                    0 <= k < i ==> count_of(self@, (#[trigger] other@[k]).0) + other@[k].1
                        <= u32::MAX,
            decreases n - i,
        {
            let current = self.get(other.entries[i].0.as_str());
            if other.entries[i].1 > u32::MAX - current {
                assert(count_of(self@, other@[i as int].0) + other@[i as int].1 > u32::MAX);
                return false;
            }
            i += 1;
        }
        true
    }

    /// Adds the counts of `other` to these, word by word. Returns `false`, and changes
    /// nothing, where the counts of some word would no longer fit.
    pub fn merge(&mut self, other: &WordCounts) -> (done: bool)
        requires
            old(self).wf(),
            other.wf(),
        ensures
            final(self).wf(),
            done == sums_fit(old(self)@, other@),
            !done ==> final(self)@ == old(self)@,
            done ==> final(self)@ == merged(old(self)@, other@),
            done ==> forall|w: Seq<char>|
                #[trigger] final(self).count(w) == old(self).count(w) + other.count(w),
    {
        if !self.fits(other) {
            return false;
        }
        let ghost before = self@;
        let n = other.entries.len();
        let mut i: usize = 0;
        assert(other@.subrange(0, 0) =~= Seq::empty());
        while i < n
            invariant
                i <= n,
                n == other@.len(),
                self.wf(),
                other.wf(),
                sums_fit(before, other@),
                self@ == merged(before, other@.subrange(0, i as int)),
                forall|w: Seq<char>|
                    #[trigger] count_of(self@, w) == count_of(before, w) + count_of(
                        other@.subrange(0, i as int),
                        w,
                    ),
            decreases n - i,
        {
            let ghost so_far = self@;
            let ghost word = other@[i as int].0;
            proof {
                assert(other@.subrange(0, i + 1).drop_last() =~= other@.subrange(0, i as int));
                assert(other@.subrange(0, i + 1).last() == other@[i as int]);
                assert(count_of(other@.subrange(0, i as int), word) == 0) by {
                    assert forall|k: int| 0 <= k < i implies (#[trigger] other@.subrange(
                        0,
                        i as int,
                    )[k]).0 != word by {
                        assert(other@.subrange(0, i as int)[k] == other@[k]);
                    }
                    lemma_count_of_absent(other@.subrange(0, i as int), word);
                }
                assert(count_of(so_far, word) == count_of(before, word));
            }
            let done = self.add(other.entries[i].0.as_str(), other.entries[i].1);
            assert(done);
            proof {
                assert forall|w: Seq<char>| #[trigger]
                    count_of(self@, w) == count_of(before, w) + count_of(
                        other@.subrange(0, i + 1),
                        w,
                    ) by {
                    assert(self.count(w) == count_of(so_far, w) + if w == word {
                        other@[i as int].1 as nat
                    } else {
                        0
                    });
                }
            }
            i += 1;
        }
        assert(other@.subrange(0, n as int) =~= other@);
        true
    }
}

impl WordCounts {
    /// Adds up the counts of `counts`, word by word. `None` exactly where the counts of
    /// some word, added up, no longer fit.
    pub fn sum(counts: &Vec<WordCounts>) -> (r: Option<WordCounts>)
        requires
            forall|i: int| 0 <= i < counts@.len() ==> (#[trigger] counts@[i]).wf(),
        ensures
            r is None <==> overflows(count_views(counts@)),
            r matches Some(words) ==> words.wf() && words@ == summed(count_views(counts@)),
            r matches Some(words) ==> forall|w: Seq<char>|
                #[trigger] words.count(w) == total(count_views(counts@), w),
    {
        let mut words = WordCounts::new();
        let ghost all = count_views(counts@);
        let n = counts.len();
        let mut i: usize = 0;
        proof {
            assert(all.subrange(0, 0) =~= Seq::empty());
            assert forall|w: Seq<char>| #[trigger]
                count_of(words@, w) == total(all.subrange(0, 0), w) by {
                lemma_count_of_absent(words@, w);
            }
        }
        while i < n
            invariant
                i <= n,
                n == counts@.len(),
                all == count_views(counts@),
                words.wf(),
                forall|k: int| 0 <= k < counts@.len() ==> (#[trigger] counts@[k]).wf(),
                words@ == summed(all.subrange(0, i as int)),
                forall|w: Seq<char>|
                    #[trigger] count_of(words@, w) == total(all.subrange(0, i as int), w),
            decreases n - i,
        {
            let ghost so_far = words;
            let ghost next = counts@[i as int];
            proof {
                assert(all.subrange(0, i + 1).drop_last() =~= all.subrange(0, i as int));
                assert(all.subrange(0, i + 1).last() == next@);
            }
            if !words.merge(&counts[i]) {
                proof {
                    // one word of the next counts no longer fits when it is added
                    let k = choose|k: int|
                        0 <= k < next@.len() && count_of(so_far@, (#[trigger] next@[k]).0)
                            + next@[k].1 > u32::MAX;
                    let w = next@[k].0;
                    lemma_count_of_entry(next@, k);
                    assert(total(all.subrange(0, i + 1), w) > u32::MAX);
                    lemma_total_grows(all, i + 1, w);
                    assert(total(all, w) > u32::MAX);
                }
                return None;
            }
            proof {
                assert forall|w: Seq<char>| #[trigger]
                    count_of(words@, w) == total(all.subrange(0, i + 1), w) by {
                    assert(words.count(w) == so_far.count(w) + next.count(w));
                }
            }
            i += 1;
        }
        proof {
            assert(all.subrange(0, n as int) =~= all);
            assert forall|w: Seq<char>| #[trigger] total(all, w) <= u32::MAX by {
                assert(count_of(words@, w) == total(all, w));
                lemma_count_of_fits(words@, w);
            }
        }
        Some(words)
    }
}

impl Clone for WordCounts {
    /// A copy with the same words and counts.
    fn clone(&self) -> (r: WordCounts)
        ensures
            r@ == self@,
            self.wf() ==> r.wf(),
    {
        let mut entries: Vec<(String, u32)> = Vec::new();
        let mut index: StringHashMap<usize> = StringHashMap::new();
        let n = self.entries.len();
        let mut i: usize = 0;
        while i < n
            invariant
                i <= n,
                n == self.entries@.len(),
                entry_views(entries@) == entry_views(self.entries@).subrange(0, i as int),
                entries@.len() == i,
                forall|k: int|
                    0 <= k < i ==> index@.contains_key((#[trigger] self.entries@[k]).0@),
                self.wf() ==> forall|k: int|
                    0 <= k < i ==> index@[(#[trigger] self.entries@[k]).0@] == k,
                forall|w: Seq<char>| #[trigger]
                    index@.contains_key(w) ==> exists|k: int|
                        0 <= k < i && (#[trigger] self.entries@[k]).0@ == w,
            decreases n - i,
        {
            let word = self.entries[i].0.clone();
            let count = self.entries[i].1;
            let ghost so_far = entries@;
            let ghost known = index@;
            entries.push((word, count));
            index.insert(self.entries[i].0.clone(), i);
            proof {
                assert(entry_views(entries@) =~= entry_views(so_far).push((word@, count)));
                assert(entry_views(entries@) =~= entry_views(self.entries@).subrange(0, i + 1));
                if self.wf() {
                    assert forall|k: int| 0 <= k < i + 1 implies index@[(
                    #[trigger] self.entries@[k]).0@] == k by {
                        if k < i {
                            assert(self@[k].0 != self@[i as int].0);
                        }
                    }
                }
                assert forall|w: Seq<char>| #[trigger] index@.contains_key(w) implies exists|
                    k: int,
                | 0 <= k < i + 1 && (#[trigger] self.entries@[k]).0@ == w by {
                    if known.contains_key(w) {
                        let k = choose|k: int| 0 <= k < i && (#[trigger] self.entries@[k]).0@ == w;
                        assert(self.entries@[k].0@ == w);
                    } else {
                        assert(self.entries@[i as int].0@ == w);
                    }
                }
            }
            i += 1;
        }
        assert(entry_views(self.entries@).subrange(0, n as int) =~= entry_views(self.entries@));
        let r = WordCounts { entries, index };
        proof {
            if self.wf() {
                assert forall|k: int| 0 <= k < r.entries@.len() implies r.index@.contains_key(
                    (#[trigger] r.entries@[k]).0@,
                ) && r.index@[r.entries@[k].0@] == k by {
                    assert(r@[k] == self@[k]);
                    assert(self.entries@[k].0@ == r.entries@[k].0@);
                }
                assert forall|w: Seq<char>| #[trigger] r.index@.contains_key(w) implies r.index@[w]
                    < r.entries@.len() && r.entries@[r.index@[w] as int].0@ == w by {
                    let k = choose|k: int| 0 <= k < n && (#[trigger] self.entries@[k]).0@ == w;
                    assert(r@[k] == self@[k]);
                }
            }
        }
        r
    }
}

impl PartialEq for WordCounts {
    /// Two counts are equal when they hold the same words with the same counts in the same
    /// order.
    fn eq(&self, other: &WordCounts) -> (r: bool) {
        let n = self.entries.len();
        if n != other.entries.len() {
            return false;
        }
        let mut i: usize = 0;
        while i < n
            invariant
                i <= n,
                n == self.entries@.len(),
                n == other.entries@.len(),
                self@.subrange(0, i as int) == other@.subrange(0, i as int),
            decreases n - i,
        {
            if self.entries[i].1 != other.entries[i].1 || !same_text(
                self.entries[i].0.as_str(),
                other.entries[i].0.as_str(),
            ) {
                assert(self@[i as int] != other@[i as int]);
                return false;
            }
            i += 1;
            assert(self@.subrange(0, i as int) =~= self@.subrange(0, i - 1).push(self@[i - 1]));
            assert(other@.subrange(0, i as int) =~= other@.subrange(0, i - 1).push(other@[i - 1]));
        }
        assert(self@ =~= self@.subrange(0, n as int));
        assert(other@ =~= other@.subrange(0, n as int));
        true
    }
}

impl PartialEqSpecImpl for WordCounts {
    open spec fn obeys_eq_spec() -> bool {
        true
    }

    open spec fn eq_spec(&self, other: &WordCounts) -> bool {
        self@ == other@
    }
}

} // verus!
