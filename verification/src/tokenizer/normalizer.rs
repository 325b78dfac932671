//! Normalized strings: a text with the original it was derived from, aligned byte by
//! byte.

use crate::utils::text::{byte_len, byte_slice, lemma_encode_concat, utf8_len};
use vstd::prelude::*;
use vstd::string::StringExecFns;
use vstd::utf8::{decode_utf8, encode_utf8, is_char_boundary};

verus! {

/// A byte range of a `NormalizedString`, tagged with the coordinate system it is written in.
#[derive(Debug)]
pub enum Range {
    /// Byte offsets into the normalized text.
    Normalized(std::ops::Range<usize>),
}

/// What a `NormalizedString` stands for: both texts, and for every byte of the normalized
/// text the byte range of the original text that it comes from.
pub struct NormalizedView {
    pub original: Seq<char>,
    pub normalized: Seq<char>,
    pub alignments: Seq<(usize, usize)>,
}

impl NormalizedView {
    /// One alignment per normalized byte, each a range inside the original, with starts
    /// that never decrease.
    pub open spec fn wf(self) -> bool {
        &&& utf8_len(self.original) <= usize::MAX
        &&& self.alignments.len() == utf8_len(self.normalized)
        &&& self.alignments.len() <= usize::MAX
        &&& forall|i: int|
            0 <= i < self.alignments.len() ==> (#[trigger] self.alignments[i]).0
                <= self.alignments[i].1 <= utf8_len(self.original)
        &&& forall|i: int, j: int|
            0 <= i <= j < self.alignments.len() ==> (#[trigger] self.alignments[i]).0 <= (
            #[trigger] self.alignments[j]).0
    }

    /// The text `s` before any edit: every byte stands for itself.
    pub open spec fn identity(s: Seq<char>) -> NormalizedView {
        NormalizedView {
            original: s,
            normalized: s,
            alignments: Seq::new(utf8_len(s), |i: int| (i as usize, (i + 1) as usize)),
        }
    }

    /// `self` followed by `other`, whose alignments move right by the length of
    /// `self.original`.
    pub open spec fn merged(self, other: NormalizedView) -> NormalizedView {
        let shift = utf8_len(self.original);
        NormalizedView {
            original: self.original + other.original,
            normalized: self.normalized + other.normalized,
            alignments: self.alignments + Seq::new(
                other.alignments.len(),
                |i: int| ((other.alignments[i].0 + shift) as usize, (other.alignments[i].1 + shift) as usize),
            ),
        }
    }

    /// The largest end among the alignments of the normalized bytes `a..b`, and 0 where the
    /// range is empty.
    pub open spec fn upper_end(self, a: int, b: int) -> usize
        decreases b - a,
    {
        if a >= b {
            0
        } else {
            let rest = self.upper_end(a, b - 1);
            let last = self.alignments[b - 1].1;
            if rest >= last {
                rest
            } else {
                last
            }
        }
    }

    /// The tightest range of the original that holds everything the normalized bytes `a..b`
    /// come from. An empty range holds nothing and stays as it is. `None` exactly when
    /// `a..b` is not a range of the normalized text.
    pub open spec fn converted(self, a: usize, b: usize) -> Option<(usize, usize)> {
        if a > b || b > self.alignments.len() {
            None
        } else if a == b {
            Some((a, b))
        } else {
            Some((self.alignments[a as int].0, self.upper_end(a as int, b as int)))
        }
    }

    /// Whether `start..end` is a range of the normalized text that is cut at character
    /// boundaries.
    pub open spec fn can_replace(self, start: usize, end: usize) -> bool {
        &&& start <= end <= utf8_len(self.normalized)
        &&& is_char_boundary(encode_utf8(self.normalized), start as int)
        &&& is_char_boundary(encode_utf8(self.normalized), end as int)
    }

    /// The range of the original that new bytes put in place of the normalized bytes
    /// `start..end` stand for: all that the replaced bytes came from, or, where nothing is
    /// replaced, the empty range at that place.
    pub open spec fn anchor(self, start: usize, end: usize) -> (usize, usize) {
        if start < end {
            (self.alignments[start as int].0, self.upper_end(start as int, end as int))
        } else if start < self.alignments.len() {
            (self.alignments[start as int].0, self.alignments[start as int].0)
        } else if self.alignments.len() > 0 {
            (self.alignments.last().1, self.alignments.last().1)
        } else {
            (0, 0)
        }
    }

    /// The value after the normalized bytes `start..end` gave way to `with`.
    pub open spec fn replaced(self, start: usize, end: usize, with: Seq<char>) -> NormalizedView {
        let bytes = encode_utf8(self.normalized);
        let anchor = self.anchor(start, end);
        NormalizedView {
            original: self.original,
            normalized: decode_utf8(bytes.subrange(0, start as int)) + with + decode_utf8(
                bytes.subrange(end as int, bytes.len() as int),
            ),
            alignments: self.alignments.subrange(0, start as int) + Seq::new(
                utf8_len(with),
                |i: int| anchor,
            ) + self.alignments.subrange(end as int, self.alignments.len() as int),
        }
    }
}

/// A text together with the original it was derived from, aligned byte by byte.
#[derive(Debug, Clone, PartialEq)]
pub struct NormalizedString {
    original: String,
    normalized: String,
    alignments: Vec<(usize, usize)>,
}

impl View for NormalizedString {
    type V = NormalizedView;

    closed spec fn view(&self) -> NormalizedView {
        NormalizedView {
            original: self.original@,
            normalized: self.normalized@,
            alignments: self.alignments@,
        }
    }
}

impl NormalizedString {
    /// A normalized string whose normalized text is the original, aligned byte for byte.
    pub fn from(s: &str) -> (r: NormalizedString)
        ensures
            r@ == NormalizedView::identity(s@),
            r@.wf(),
    {
        let n = byte_len(s);
        let mut alignments: Vec<(usize, usize)> = Vec::new();
        let mut i: usize = 0;
        while i < n
            invariant
                i <= n,
                n == utf8_len(s@),
                alignments@.len() == i,
                forall|k: int| 0 <= k < i ==> alignments@[k] == (k as usize, (k + 1) as usize),
            decreases n - i,
        {
            alignments.push((i, i + 1));
            i += 1;
        }
        assert(alignments@ =~= NormalizedView::identity(s@).alignments);
        NormalizedString { original: s.to_owned(), normalized: s.to_owned(), alignments }
    }

    /// The normalized text.
    pub fn get(&self) -> (r: &str)
        ensures
            r@ == self@.normalized,
    {
        self.normalized.as_str()
    }

    /// The text as it was before normalization.
    pub fn get_original(&self) -> (r: &str)
        ensures
            r@ == self@.original,
    {
        self.original.as_str()
    }

    /// Length of the normalized text in bytes.
    pub fn len(&self) -> (n: usize)
        ensures
            n == utf8_len(self@.normalized),
    {
        byte_len(self.normalized.as_str())
    }

    /// Length of the original text in bytes.
    pub fn len_original(&self) -> (n: usize)
        ensures
            n == utf8_len(self@.original),
    {
        byte_len(self.original.as_str())
    }

    /// Appends `other`: both texts grow by the texts of `other`, and the alignments of
    /// `other` follow those of `self`, moved right by the former length of the original.
    pub fn merge_with(&mut self, other: &NormalizedString)
        requires
            old(self)@.wf(),
            other@.wf(),
        ensures
            final(self)@ == old(self)@.merged(other@),
            final(self)@.wf(),
    {
        let shift = self.len_original();
        self.original.append(other.original.as_str());
        self.normalized.append(other.normalized.as_str());
        let total = byte_len(self.original.as_str());
        let total_normalized = byte_len(self.normalized.as_str());
        proof {
            lemma_encode_concat(old(self)@.original, other@.original);
            lemma_encode_concat(old(self)@.normalized, other@.normalized);
        }
        let n = other.alignments.len();
        let mut i: usize = 0;
        while i < n
            invariant
                i <= n,
                n == other.alignments@.len(),
                other@.wf(),
                shift == utf8_len(old(self)@.original),
                total == shift + utf8_len(other@.original),
                self.original@ == old(self)@.original + other@.original,
                self.normalized@ == old(self)@.normalized + other@.normalized,
                self.alignments@.len() == old(self)@.alignments.len() + i,
                forall|k: int|
                    0 <= k < old(self)@.alignments.len() ==> self.alignments@[k] == old(
                        self,
                    )@.alignments[k],
                forall|k: int|
                    0 <= k < i ==> self.alignments@[old(self)@.alignments.len() + k] == (
                        (other@.alignments[k].0 + shift) as usize,
                        (other@.alignments[k].1 + shift) as usize,
                    ),
            decreases n - i,
        {
            let (lo, hi) = other.alignments[i];
            assert(other@.alignments[i as int].1 <= utf8_len(other@.original));
            self.alignments.push((lo + shift, hi + shift));
            i += 1;
        }
        assert(self@.alignments =~= old(self)@.merged(other@).alignments);
        proof {
            lemma_merged_wf(old(self)@, other@);
        }
    }

    /// Maps a range of the normalized text to the tightest range of the original that
    /// holds everything those bytes come from. `None` exactly when the range is reversed or
    /// ends beyond the normalized text.
    pub fn convert_offsets(&self, range: Range) -> (r: Option<std::ops::Range<usize>>)
        requires
            self@.wf(),
        ensures
            match range {
                Range::Normalized(n) => match self@.converted(n.start, n.end) {
                    Some((lo, hi)) => r matches Some(o) && o.start == lo && o.end == hi,
                    None => r is None,
                },
            },
    {
        let Range::Normalized(n) = range;
        let a = n.start;
        let b = n.end;
        if a > b || b > self.alignments.len() {
            return None;
        }
        if a == b {
            return Some(a..b);
        }
        let lo = self.alignments[a].0;
        let hi = self.upper_end_of(a, b);
        Some(lo..hi)
    }

    /// Puts `with` in place of the normalized bytes `start..end`, and aligns each new byte
    /// with the part of the original that the replaced bytes came from. Returns `false`
    /// and changes nothing where `start..end` is not a range of the normalized text cut
    /// at character boundaries.
    pub fn replace(&mut self, start: usize, end: usize, with: &str) -> (done: bool)
        requires
            old(self)@.wf(),
        ensures
            done == old(self)@.can_replace(start, end),
            done ==> final(self)@ == old(self)@.replaced(start, end, with@),
            !done ==> final(self)@ == old(self)@,
            final(self)@.wf(),
    {
        let n = self.len();
        if start > end || end > n {
            return false;
        }
        let text = self.normalized.as_str();
        if !text.is_char_boundary(start) || !text.is_char_boundary(end) {
            return false;
        }
        let ghost before = self@;
        let ghost bytes = encode_utf8(before.normalized);
        proof {
            vstd::utf8::encode_utf8_valid_utf8(before.normalized);
            vstd::utf8::is_char_boundary_start_end_of_seq(bytes);
        }
        let head = byte_slice(text, 0, start);
        let tail = byte_slice(text, end, n);
        let mut normalized = head.to_owned();
        normalized.append(with);
        normalized.append(tail);
        let added = byte_len(with);
        let total = byte_len(normalized.as_str());
        proof {
            lemma_encode_concat(head@, with@);
            lemma_encode_concat(head@ + with@, tail@);
            vstd::utf8::encode_utf8_decode_utf8(head@);
            vstd::utf8::encode_utf8_decode_utf8(tail@);
        }
        let anchor: (usize, usize) = if start < end {
            (self.alignments[start].0, self.upper_end_of(start, end))
        } else if start < n {
            (self.alignments[start].0, self.alignments[start].0)
        } else if n > 0 {
            (self.alignments[n - 1].1, self.alignments[n - 1].1)
        } else {
            (0, 0)
        };
        let mut alignments: Vec<(usize, usize)> = Vec::new();
        let mut i: usize = 0;
        while i < start
            invariant
                i <= start <= self.alignments@.len(),
                alignments@ == self.alignments@.subrange(0, i as int),
            decreases start - i,
        {
            alignments.push(self.alignments[i]);
            i += 1;
            assert(alignments@ =~= self.alignments@.subrange(0, i as int));
        }
        let mut j: usize = 0;
        while j < added
            invariant
                j <= added,
                start <= self.alignments@.len(),
                alignments@ == self.alignments@.subrange(0, start as int) + Seq::new(
                    j as nat,
                    |i: int| anchor,
                ),
            decreases added - j,
        {
            alignments.push(anchor);
            j += 1;
            assert(alignments@ =~= self.alignments@.subrange(0, start as int) + Seq::new(
                j as nat,
                |i: int| anchor,
            ));
        }
        let mut k: usize = end;
        while k < n
            invariant
                end <= k <= n,
                start <= end,
                n == self.alignments@.len(),
                alignments@ == self.alignments@.subrange(0, start as int) + Seq::new(
                    added as nat,
                    |i: int| anchor,
                ) + self.alignments@.subrange(end as int, k as int),
            decreases n - k,
        {
            alignments.push(self.alignments[k]);
            k += 1;
            assert(alignments@ =~= self.alignments@.subrange(0, start as int) + Seq::new(
                added as nat,
                |i: int| anchor,
            ) + self.alignments@.subrange(end as int, k as int));
        }
        self.normalized = normalized;
        self.alignments = alignments;
        proof {
            assert(self@.normalized =~= before.replaced(start, end, with@).normalized);
            assert(self@ == before.replaced(start, end, with@));
            lemma_replaced_wf(before, start, end, with@);
        }
        true
    }

    /// The largest end among the alignments of the normalized bytes `a..b`.
    fn upper_end_of(&self, a: usize, b: usize) -> (hi: usize)
        requires
            a <= b <= self@.alignments.len(),
        ensures
            hi == self@.upper_end(a as int, b as int),
    {
        let mut hi: usize = 0;
        let mut i: usize = a;
        while i < b
            invariant
                a <= i <= b <= self.alignments@.len(),
                hi == self@.upper_end(a as int, i as int),
            decreases b - i,
        {
            let end = self.alignments[i].1;
            if end > hi {
                hi = end;
            }
            i += 1;
        }
        hi
    }
}

/// Merging two well-formed values whose originals fit together gives a well-formed value.
pub proof fn lemma_merged_wf(a: NormalizedView, b: NormalizedView)
    requires
        a.wf(),
        b.wf(),
        utf8_len(a.original) + utf8_len(b.original) <= usize::MAX,
        utf8_len(a.normalized) + utf8_len(b.normalized) <= usize::MAX,
    ensures
        a.merged(b).wf(),
{
    lemma_encode_concat(a.original, b.original);
    lemma_encode_concat(a.normalized, b.normalized);
    let m = a.merged(b);
    let shift = utf8_len(a.original);
    assert forall|i: int| 0 <= i < m.alignments.len() implies (#[trigger] m.alignments[i]).0
        <= m.alignments[i].1 <= utf8_len(m.original) by {
        if i >= a.alignments.len() {
            let k = i - a.alignments.len();
            assert(b.alignments[k].0 <= b.alignments[k].1);
        } else {
            assert(a.alignments[i].0 <= a.alignments[i].1);
        }
    }
    assert forall|i: int, j: int| 0 <= i <= j < m.alignments.len() implies (
    #[trigger] m.alignments[i]).0 <= (#[trigger] m.alignments[j]).0 by {
        let n = a.alignments.len();
        if j < n {
            assert(a.alignments[i].0 <= a.alignments[j].0);
        } else if i >= n {
            assert(b.alignments[i - n].0 <= b.alignments[j - n].0);
            assert(b.alignments[j - n].0 <= b.alignments[j - n].1);
        } else {
            assert(a.alignments[i].0 <= a.alignments[i].1);
            assert(b.alignments[j - n].0 <= b.alignments[j - n].1);
        }
    }
}

/// The end that `upper_end` gives is the end of one of the alignments in the range, and no
/// alignment in the range ends later.
pub proof fn lemma_upper_end(v: NormalizedView, a: int, b: int)
    requires
        0 <= a < b <= v.alignments.len(),
    ensures
        forall|i: int| a <= i < b ==> (#[trigger] v.alignments[i]).1 <= v.upper_end(a, b),
        exists|i: int| a <= i < b && (#[trigger] v.alignments[i]).1 == v.upper_end(a, b),
    decreases b - a,
{
    if a < b - 1 {
        lemma_upper_end(v, a, b - 1);
        let w = choose|i: int| a <= i < b - 1 && (#[trigger] v.alignments[i]).1 == v.upper_end(a, b - 1);
        if v.upper_end(a, b - 1) >= v.alignments[b - 1].1 {
            assert(v.alignments[w].1 == v.upper_end(a, b));
        } else {
            assert(v.alignments[b - 1].1 == v.upper_end(a, b));
        }
    } else {
        assert(v.upper_end(a, a) == 0);
        assert(v.alignments[a].1 == v.upper_end(a, b));
    }
}

/// A converted range lies inside the original, and is not reversed.
pub proof fn lemma_converted_in_original(v: NormalizedView, a: usize, b: usize)
    requires
        v.wf(),
        a < b,
    ensures
        v.converted(a, b) matches Some((lo, hi)) ==> lo <= hi <= utf8_len(v.original),
{
    if b <= v.alignments.len() {
        lemma_upper_end(v, a as int, b as int);
        assert(v.alignments[a as int].0 <= v.alignments[a as int].1);
    }
}

/// On a text that was never edited, every range converts to itself.
pub proof fn lemma_identity_converts_to_itself(s: Seq<char>, a: usize, b: usize)
    requires
        NormalizedView::identity(s).wf(),
        a <= b <= utf8_len(s),
    ensures
        NormalizedView::identity(s).converted(a, b) == Some((a, b)),
{
    let v = NormalizedView::identity(s);
    if a < b {
        lemma_identity_upper_end(s, a as int, b as int);
    }
}

proof fn lemma_identity_upper_end(s: Seq<char>, a: int, b: int)
    requires
        0 <= a < b <= utf8_len(s) <= usize::MAX,
    ensures
        NormalizedView::identity(s).upper_end(a, b) == b,
    decreases b - a,
{
    let v = NormalizedView::identity(s);
    if a < b - 1 {
        lemma_identity_upper_end(s, a, b - 1);
    } else {
        assert(v.upper_end(a, a) == 0);
    }
}

/// Replacing a range that can be replaced keeps the value well formed, as long as the new
/// normalized text still fits.
pub proof fn lemma_replaced_wf(v: NormalizedView, start: usize, end: usize, with: Seq<char>)
    requires
        v.wf(),
        v.can_replace(start, end),
        start + utf8_len(with) + (utf8_len(v.normalized) - end) <= usize::MAX,
    ensures
        v.replaced(start, end, with).wf(),
        utf8_len(v.replaced(start, end, with).normalized) == start + utf8_len(with) + (utf8_len(
            v.normalized,
        ) - end),
{
    let r = v.replaced(start, end, with);
    let bytes = encode_utf8(v.normalized);
    let n = v.alignments.len() as int;
    let head = decode_utf8(bytes.subrange(0, start as int));
    let tail = decode_utf8(bytes.subrange(end as int, bytes.len() as int));
    vstd::utf8::encode_utf8_valid_utf8(v.normalized);
    vstd::utf8::valid_utf8_split(bytes, start as int);
    vstd::utf8::valid_utf8_split(bytes, end as int);
    vstd::utf8::decode_utf8_encode_utf8(bytes.subrange(0, start as int));
    vstd::utf8::decode_utf8_encode_utf8(bytes.subrange(end as int, bytes.len() as int));
    lemma_encode_concat(head, with);
    lemma_encode_concat(head + with, tail);
    let anchor = v.anchor(start, end);
    let added = utf8_len(with) as int;
    if start < end {
        lemma_upper_end(v, start as int, end as int);
        assert(v.alignments[start as int].0 <= v.alignments[start as int].1);
    } else if start < n {
        assert(v.alignments[start as int].0 <= v.alignments[start as int].1);
    } else if n > 0 {
        assert(v.alignments[n - 1].0 <= v.alignments[n - 1].1);
    }
    assert(anchor.0 <= anchor.1 <= utf8_len(v.original));
    assert forall|i: int| 0 <= i < r.alignments.len() implies (#[trigger] r.alignments[i]).0
        <= r.alignments[i].1 <= utf8_len(r.original) by {
        if i < start {
            assert(r.alignments[i] == v.alignments[i]);
        } else if i < start + added {
            assert(r.alignments[i] == anchor);
        } else {
            assert(r.alignments[i] == v.alignments[i - start - added + end]);
        }
    }
    assert forall|i: int, j: int| 0 <= i <= j < r.alignments.len() implies (
    #[trigger] r.alignments[i]).0 <= (#[trigger] r.alignments[j]).0 by {
        let si: int = if i < start {
            i
        } else {
            i - start - added + end
        };
        let sj: int = if j < start {
            j
        } else {
            j - start - added + end
        };
        if i < start {
            assert(r.alignments[i] == v.alignments[si]);
        } else if i < start + added {
            assert(r.alignments[i] == anchor);
        } else {
            assert(r.alignments[i] == v.alignments[si]);
        }
        if j < start {
            assert(r.alignments[j] == v.alignments[sj]);
        } else if j < start + added {
            assert(r.alignments[j] == anchor);
        } else {
            assert(r.alignments[j] == v.alignments[sj]);
        }
        if i < start && start <= j < start + added {
            // a kept byte before the new ones
            if start < n {
                assert(v.alignments[i].0 <= v.alignments[start as int].0);
            } else {
                assert(v.alignments[i].0 <= v.alignments[n - 1].0);
                assert(v.alignments[n - 1].0 <= v.alignments[n - 1].1);
            }
        } else if start <= i < start + added && j >= start + added {
            // a kept byte after the new ones
            assert(v.alignments[start as int].0 <= v.alignments[sj].0);
        } else if !(start <= i < start + added) && !(start <= j < start + added) {
            assert(v.alignments[si].0 <= v.alignments[sj].0);
        }
    }
}

} // verus!
