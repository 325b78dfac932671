//! Encodings: the parallel arrays that tokenizing a text gives, and how they are put
//! together, padded and truncated.

use crate::utils::padding::PaddingDirection;
use vstd::prelude::*;

verus! {

/// What an `Encoding` stands for: its parallel arrays, as sequences.
pub struct EncodingView {
    pub ids: Seq<u32>,
    pub type_ids: Seq<u32>,
    pub tokens: Seq<Seq<char>>,
    pub offsets: Seq<(usize, usize)>,
    pub special_tokens_mask: Seq<u32>,
    pub attention_mask: Seq<u32>,
    pub overflowing: Seq<EncodingView>,
}

/// The texts of a sequence of strings.
pub open spec fn texts(tokens: Seq<String>) -> Seq<Seq<char>> {
    tokens.map_values(|t: String| t@)
}

/// The views of a sequence of encodings.
pub open spec fn views(encodings: Seq<Encoding>) -> Seq<EncodingView> {
    encodings.map_values(|e: Encoding| e@)
}

/// `offsets`, each moved right by `shift`.
pub open spec fn shifted(offsets: Seq<(usize, usize)>, shift: usize) -> Seq<(usize, usize)> {
    offsets.map_values(|o: (usize, usize)| ((o.0 + shift) as usize, (o.1 + shift) as usize))
}

/// `body` with `pad` on the given side.
pub open spec fn around<T>(direction: PaddingDirection, body: Seq<T>, pad: Seq<T>) -> Seq<T> {
    match direction {
        PaddingDirection::Left => pad + body,
        PaddingDirection::Right => body + pad,
    }
}

impl EncodingView {
    /// Number of tokens.
    pub open spec fn len(self) -> nat {
        self.ids.len()
    }

    /// The six parallel arrays have one length, here and in every overflowing piece.
    pub open spec fn wf(self) -> bool
        decreases self,
    {
        &&& self.type_ids.len() == self.ids.len()
        &&& self.tokens.len() == self.ids.len()
        &&& self.offsets.len() == self.ids.len()
        &&& self.special_tokens_mask.len() == self.ids.len()
        &&& self.attention_mask.len() == self.ids.len()
        &&& forall|i: int| 0 <= i < self.overflowing.len() ==> (#[trigger] self.overflowing[i]).wf()
    }

    /// The encoding without any token.
    pub open spec fn empty() -> EncodingView {
        EncodingView {
            ids: Seq::empty(),
            type_ids: Seq::empty(),
            tokens: Seq::empty(),
            offsets: Seq::empty(),
            special_tokens_mask: Seq::empty(),
            attention_mask: Seq::empty(),
            overflowing: Seq::empty(),
        }
    }

    /// Where the last token ends, and 0 without tokens.
    pub open spec fn last_end(self) -> usize {
        if self.offsets.len() == 0 {
            0
        } else {
            self.offsets.last().1
        }
    }

    /// By how much `merged` moves the offsets of the second encoding.
    pub open spec fn merge_shift(self, growing_offsets: bool) -> usize {
        if growing_offsets {
            self.last_end()
        } else {
            0
        }
    }

    /// Whether the offsets of `other`, moved as `merged` moves them, still fit.
    pub open spec fn can_merge(self, other: EncodingView, growing_offsets: bool) -> bool {
        forall|i: int|
            0 <= i < other.offsets.len() ==> (#[trigger] other.offsets[i]).0 + self.merge_shift(
                growing_offsets,
            ) <= usize::MAX && other.offsets[i].1 + self.merge_shift(growing_offsets)
                <= usize::MAX
    }

    /// `self` followed by `other`, array by array. With `growing_offsets` the offsets of
    /// `other` move right by the end of the last token of `self`.
    pub open spec fn merged(self, other: EncodingView, growing_offsets: bool) -> EncodingView {
        EncodingView {
            ids: self.ids + other.ids,
            type_ids: self.type_ids + other.type_ids,
            tokens: self.tokens + other.tokens,
            offsets: self.offsets + shifted(other.offsets, self.merge_shift(growing_offsets)),
            special_tokens_mask: self.special_tokens_mask + other.special_tokens_mask,
            attention_mask: self.attention_mask + other.attention_mask,
            overflowing: self.overflowing + other.overflowing,
        }
    }

    /// `self` brought to `target` tokens by padding on the given side; `self` itself where
    /// it has that many tokens already. A padding token has the given id, type id and text,
    /// the offsets `(0, 0)`, the special-token mark 1 and the attention mark 0. The
    /// overflowing pieces stay as they are.
    pub open spec fn padded(
        self,
        target: usize,
        pad_id: u32,
        pad_type_id: u32,
        pad_token: Seq<char>,
        direction: PaddingDirection,
    ) -> EncodingView {
        if self.len() >= target {
            self
        } else {
            let count = (target - self.len()) as nat;
            EncodingView {
                ids: around(direction, self.ids, Seq::new(count, |i: int| pad_id)),
                type_ids: around(direction, self.type_ids, Seq::new(count, |i: int| pad_type_id)),
                tokens: around(direction, self.tokens, Seq::new(count, |i: int| pad_token)),
                offsets: around(
                    direction,
                    self.offsets,
                    Seq::new(count, |i: int| (0usize, 0usize)),
                ),
                special_tokens_mask: around(
                    direction,
                    self.special_tokens_mask,
                    Seq::new(count, |i: int| 1u32),
                ),
                attention_mask: around(
                    direction,
                    self.attention_mask,
                    Seq::new(count, |i: int| 0u32),
                ),
                overflowing: self.overflowing,
            }
        }
    }

    /// The tokens `from..to` alone, without overflowing pieces.
    pub open spec fn window(self, from: int, to: int) -> EncodingView {
        EncodingView {
            ids: self.ids.subrange(from, to),
            type_ids: self.type_ids.subrange(from, to),
            tokens: self.tokens.subrange(from, to),
            offsets: self.offsets.subrange(from, to),
            special_tokens_mask: self.special_tokens_mask.subrange(from, to),
            attention_mask: self.attention_mask.subrange(from, to),
            overflowing: Seq::empty(),
        }
    }

    /// How many tokens of what is kept an overflowing piece repeats: `stride`, or none where
    /// `stride` tokens would leave no room for a new one.
    pub open spec fn overlap(max_len: usize, stride: usize) -> int {
        if stride < max_len {
            stride as int
        } else {
            0
        }
    }

    /// How many new tokens an overflowing piece takes: what `max_len` leaves beside the
    /// overlap, or all that is cut off where `max_len` is 0.
    pub open spec fn step(self, max_len: usize, stride: usize) -> int {
        if max_len > 0 {
            max_len - Self::overlap(max_len, stride)
        } else {
            self.len() as int
        }
    }

    /// The overflowing pieces for the tokens from `pos` on: each starts `overlap` tokens
    /// before the first token it adds, and adds `step` tokens, the last one what is left.
    pub open spec fn overflow_from(self, pos: int, step: int, overlap: int) -> Seq<EncodingView>
        decreases self.ids.len() - pos,
    {
        if pos >= self.ids.len() || step <= 0 {
            Seq::empty()
        } else {
            let end = if pos + step < self.ids.len() {
                pos + step
            } else {
                self.ids.len() as int
            };
            seq![self.window(pos - overlap, end)] + self.overflow_from(end, step, overlap)
        }
    }

    /// `self` cut to its first `max_len` tokens, with what was cut off as overflowing
    /// pieces; `self` itself where it has no more than `max_len` tokens.
    pub open spec fn truncated(self, max_len: usize, stride: usize) -> EncodingView {
        if self.len() <= max_len {
            self
        } else {
            EncodingView {
                overflowing: self.overflow_from(
                    max_len as int,
                    self.step(max_len, stride),
                    Self::overlap(max_len, stride),
                ),
                ..self.window(0, max_len as int)
            }
        }
    }
}

/// The result of tokenizing one input: parallel arrays with one entry per token, and the
/// pieces that truncation cut off.
#[derive(Debug, PartialEq)]
pub struct Encoding {
    ids: Vec<u32>,
    type_ids: Vec<u32>,
    tokens: Vec<String>,
    offsets: Vec<(usize, usize)>,
    special_tokens_mask: Vec<u32>,
    attention_mask: Vec<u32>,
    overflowing: Vec<Encoding>,
}

impl View for Encoding {
    type V = EncodingView;

    closed spec fn view(&self) -> EncodingView
        decreases self,
    {
        EncodingView {
            ids: self.ids@,
            type_ids: self.type_ids@,
            tokens: texts(self.tokens@),
            offsets: self.offsets@,
            special_tokens_mask: self.special_tokens_mask@,
            attention_mask: self.attention_mask@,
            overflowing: Seq::new(
                self.overflowing@.len(),
                |i: int|
                    if 0 <= i < self.overflowing.len() {
                        self.overflowing[i]@
                    } else {
                        arbitrary()
                    },
            ),
        }
    }
}

impl Encoding {
    proof fn lemma_view(&self)
        ensures
            self@.ids == self.ids@,
            self@.type_ids == self.type_ids@,
            self@.tokens == texts(self.tokens@),
            self@.offsets == self.offsets@,
            self@.special_tokens_mask == self.special_tokens_mask@,
            self@.attention_mask == self.attention_mask@,
            self@.overflowing == views(self.overflowing@),
    {
        reveal_with_fuel(<Encoding as View>::view, 2);
        assert(self@.overflowing =~= views(self.overflowing@));
    }

    /// An encoding of the given arrays, which must have one length.
    pub fn new(
        ids: Vec<u32>,
        type_ids: Vec<u32>,
        tokens: Vec<String>,
        offsets: Vec<(usize, usize)>,
        special_tokens_mask: Vec<u32>,
        attention_mask: Vec<u32>,
        overflowing: Vec<Encoding>,
    ) -> (r: Encoding)
        requires
            type_ids@.len() == ids@.len(),
            tokens@.len() == ids@.len(),
            offsets@.len() == ids@.len(),
            special_tokens_mask@.len() == ids@.len(),
            attention_mask@.len() == ids@.len(),
            forall|i: int| 0 <= i < overflowing@.len() ==> (#[trigger] overflowing@[i])@.wf(),
        ensures
            r@ == (EncodingView {
                ids: ids@,
                type_ids: type_ids@,
                tokens: texts(tokens@),
                offsets: offsets@,
                special_tokens_mask: special_tokens_mask@,
                attention_mask: attention_mask@,
                overflowing: views(overflowing@),
            }),
            r@.wf(),
    {
        let r = Encoding {
            ids,
            type_ids,
            tokens,
            offsets,
            special_tokens_mask,
            attention_mask,
            overflowing,
        };
        proof {
            r.lemma_view();
        }
        r
    }

    /// The token ids.
    pub fn get_ids(&self) -> (r: &[u32])
        ensures
            r@ == self@.ids,
    {
        self.ids.as_slice()
    }

    /// For each token, the segment of the input it belongs to.
    pub fn get_type_ids(&self) -> (r: &[u32])
        ensures
            r@ == self@.type_ids,
    {
        self.type_ids.as_slice()
    }

    /// The text of each token.
    pub fn get_tokens(&self) -> (r: &[String])
        ensures
            texts(r@) == self@.tokens,
    {
        self.tokens.as_slice()
    }

    /// The byte range of each token.
    pub fn get_offsets(&self) -> (r: &[(usize, usize)])
        ensures
            r@ == self@.offsets,
    {
        self.offsets.as_slice()
    }

    /// For each token, 1 where post-processing added it.
    pub fn get_special_tokens_mask(&self) -> (r: &[u32])
        ensures
            r@ == self@.special_tokens_mask,
    {
        self.special_tokens_mask.as_slice()
    }

    /// For each token, 1 where it is a real token and 0 where it is padding.
    pub fn get_attention_mask(&self) -> (r: &[u32])
        ensures
            r@ == self@.attention_mask,
    {
        self.attention_mask.as_slice()
    }

    /// The pieces that truncation cut off.
    pub fn get_overflowing(&self) -> (r: &Vec<Encoding>)
        ensures
            views(r@) == self@.overflowing,
    {
        proof {
            self.lemma_view();
        }
        &self.overflowing
    }
}

proof fn lemma_texts_push(tokens: Seq<String>, token: String)
    ensures
        texts(tokens.push(token)) == texts(tokens).push(token@),
{
    assert(texts(tokens.push(token)) =~= texts(tokens).push(token@));
}

/// Brings `v` to `count` more items, all `value`, on the given side.
fn pad_items<T: Copy>(v: &mut Vec<T>, count: usize, value: T, direction: PaddingDirection)
    ensures
        final(v)@ == around(direction, old(v)@, Seq::new(count as nat, |i: int| value)),
{
    let ghost before = v@;
    match direction {
        PaddingDirection::Right => {
            let mut i: usize = 0;
            while i < count
                invariant
                    i <= count,
                    v@ == before + Seq::new(i as nat, |k: int| value),
                decreases count - i,
            {
                v.push(value);
                i += 1;
                assert(v@ =~= before + Seq::new(i as nat, |k: int| value));
            }
        },
        PaddingDirection::Left => {
            let mut padded: Vec<T> = Vec::new();
            let mut i: usize = 0;
            while i < count
                invariant
                    i <= count,
                    padded@ == Seq::new(i as nat, |k: int| value),
                decreases count - i,
            {
                padded.push(value);
                i += 1;
                assert(padded@ =~= Seq::new(i as nat, |k: int| value));
            }
            padded.append(v);
            *v = padded;
        },
    }
}

/// Brings `v` to `count` more strings, all with the text of `value`, on the given side.
fn pad_texts(v: &mut Vec<String>, count: usize, value: &str, direction: PaddingDirection)
    ensures
        texts(final(v)@) == around(
            direction,
            texts(old(v)@),
            Seq::new(count as nat, |i: int| value@),
        ),
{
    let ghost before = texts(v@);
    match direction {
        PaddingDirection::Right => {
            let mut i: usize = 0;
            while i < count
                invariant
                    i <= count,
                    texts(v@) == before + Seq::new(i as nat, |k: int| value@),
                decreases count - i,
            {
                let token = value.to_owned();
                proof {
                    lemma_texts_push(v@, token);
                }
                v.push(token);
                i += 1;
                assert(texts(v@) =~= before + Seq::new(i as nat, |k: int| value@));
            }
        },
        PaddingDirection::Left => {
            let mut padded: Vec<String> = Vec::new();
            let mut i: usize = 0;
            while i < count
                invariant
                    i <= count,
                    texts(padded@) == Seq::new(i as nat, |k: int| value@),
                decreases count - i,
            {
                let token = value.to_owned();
                proof {
                    lemma_texts_push(padded@, token);
                }
                padded.push(token);
                i += 1;
                assert(texts(padded@) =~= Seq::new(i as nat, |k: int| value@));
            }
            let ghost pads = padded@;
            padded.append(v);
            assert(texts(padded@) =~= texts(pads) + before);
            *v = padded;
        },
    }
}

/// A copy of the items `from..to` of `v`.
fn copy_items<T: Copy>(v: &Vec<T>, from: usize, to: usize) -> (r: Vec<T>)
    requires
        from <= to <= v@.len(),
    ensures
        r@ == v@.subrange(from as int, to as int),
{
    let mut r: Vec<T> = Vec::new();
    let mut i: usize = from;
    while i < to
        invariant
            from <= i <= to <= v@.len(),
            r@ == v@.subrange(from as int, i as int),
        decreases to - i,
    {
        r.push(v[i]);
        i += 1;
        assert(r@ =~= v@.subrange(from as int, i as int));
    }
    r
}

/// A copy of the strings `from..to` of `v`.
fn copy_texts(v: &Vec<String>, from: usize, to: usize) -> (r: Vec<String>)
    requires
        from <= to <= v@.len(),
    ensures
        texts(r@) == texts(v@).subrange(from as int, to as int),
{
    let mut r: Vec<String> = Vec::new();
    let mut i: usize = from;
    while i < to
        invariant
            from <= i <= to <= v@.len(),
            texts(r@) == texts(v@).subrange(from as int, i as int),
        decreases to - i,
    {
        let token = v[i].clone();
        proof {
            lemma_texts_push(r@, token);
        }
        r.push(token);
        i += 1;
        assert(texts(r@) =~= texts(v@).subrange(from as int, i as int));
    }
    r
}

impl Encoding {
    /// The byte range of each token, to be rewritten in place.
    pub fn get_offsets_mut(&mut self) -> (r: &mut [(usize, usize)])
        ensures
            r@ == old(self)@.offsets,
            final(self)@ == (EncodingView { offsets: final(r)@, ..old(self)@ }),
    {
        proof {
            self.lemma_view();
        }
        proof {
            assert forall|e: Encoding| #[trigger] e@.overflowing == views(e.overflowing@) && e@.tokens == texts(e.tokens@)
                && e@.ids == e.ids@ && e@.type_ids == e.type_ids@ && e@.offsets == e.offsets@
                && e@.special_tokens_mask == e.special_tokens_mask@ && e@.attention_mask
                == e.attention_mask@ by {
                e.lemma_view();
            }
        }
        self.offsets.as_mut_slice()
    }

    /// Appends `other`, array by array. With `growing_offsets` the offsets of `other` move
    /// right by the end of the last token of `self`.
    pub fn merge_with(&mut self, other: Encoding, growing_offsets: bool)
        requires
            old(self)@.wf(),
            other@.wf(),
            old(self)@.can_merge(other@, growing_offsets),
        ensures
            final(self)@ == old(self)@.merged(other@, growing_offsets),
            final(self)@.wf(),
    {
        proof {
            self.lemma_view();
            other.lemma_view();
        }
        let ghost before = self@;
        let ghost added = other@;
        let count = self.offsets.len();
        let shift: usize = if growing_offsets && count > 0 {
            self.offsets[count - 1].1
        } else {
            0
        };
        let n = other.offsets.len();
        let mut moved: Vec<(usize, usize)> = Vec::new();
        let mut i: usize = 0;
        while i < n
            invariant
                i <= n,
                n == other.offsets@.len(),
                other.offsets@ == added.offsets,
                shift == before.merge_shift(growing_offsets),
                before.can_merge(added, growing_offsets),
                moved@ == shifted(added.offsets, shift).subrange(0, i as int),
            decreases n - i,
        {
            let (start, end) = other.offsets[i];
            assert(added.offsets[i as int].0 + shift <= usize::MAX);
            moved.push((start + shift, end + shift));
            i += 1;
            assert(moved@ =~= shifted(added.offsets, shift).subrange(0, i as int));
        }
        assert(moved@ =~= shifted(added.offsets, shift));
        let mut other = other;
        self.ids.append(&mut other.ids);
        self.type_ids.append(&mut other.type_ids);
        let ghost old_tokens = self.tokens@;
        let ghost new_tokens = other.tokens@;
        self.tokens.append(&mut other.tokens);
        assert(texts(self.tokens@) =~= texts(old_tokens) + texts(new_tokens));
        self.offsets.append(&mut moved);
        self.special_tokens_mask.append(&mut other.special_tokens_mask);
        self.attention_mask.append(&mut other.attention_mask);
        let ghost old_overflowing = self.overflowing@;
        let ghost new_overflowing = other.overflowing@;
        self.overflowing.append(&mut other.overflowing);
        proof {
            self.lemma_view();
            assert(views(self.overflowing@) =~= views(old_overflowing) + views(new_overflowing));
            assert(self@ == before.merged(added, growing_offsets));
        }
    }

    /// Brings the encoding to `target_length` tokens by padding on the given side, and
    /// leaves it as it is where it has that many tokens already.
    pub fn pad(
        &mut self,
        target_length: usize,
        pad_id: u32,
        pad_type_id: u32,
        pad_token: &str,
        direction: PaddingDirection,
    )
        requires
            old(self)@.wf(),
        ensures
            final(self)@ == old(self)@.padded(
                target_length,
                pad_id,
                pad_type_id,
                pad_token@,
                direction,
            ),
            final(self)@.wf(),
    {
        proof {
            self.lemma_view();
        }
        let n = self.ids.len();
        if n >= target_length {
            return ;
        }
        let count = target_length - n;
        pad_items(&mut self.ids, count, pad_id, direction);
        pad_items(&mut self.type_ids, count, pad_type_id, direction);
        pad_texts(&mut self.tokens, count, pad_token, direction);
        pad_items(&mut self.offsets, count, (0usize, 0usize), direction);
        pad_items(&mut self.special_tokens_mask, count, 1u32, direction);
        pad_items(&mut self.attention_mask, count, 0u32, direction);
        proof {
            self.lemma_view();
        }
    }

    /// A new encoding of the tokens `from..to` alone.
    fn window_of(&self, from: usize, to: usize) -> (r: Encoding)
        requires
            self@.wf(),
            from <= to <= self@.len(),
        ensures
            r@ == self@.window(from as int, to as int),
            r@.wf(),
    {
        proof {
            self.lemma_view();
        }
        let r = Encoding {
            ids: copy_items(&self.ids, from, to),
            type_ids: copy_items(&self.type_ids, from, to),
            tokens: copy_texts(&self.tokens, from, to),
            offsets: copy_items(&self.offsets, from, to),
            special_tokens_mask: copy_items(&self.special_tokens_mask, from, to),
            attention_mask: copy_items(&self.attention_mask, from, to),
            overflowing: Vec::new(),
        };
        proof {
            r.lemma_view();
            assert(r@.overflowing =~= Seq::empty());
        }
        r
    }

    /// Cuts the encoding to its first `max_len` tokens. What is cut off becomes the
    /// overflowing pieces, each of which starts with the last `stride` tokens before it.
    /// An encoding of no more than `max_len` tokens stays as it is.
    pub fn truncate(&mut self, max_len: usize, stride: usize)
        requires
            old(self)@.wf(),
        ensures
            final(self)@ == old(self)@.truncated(max_len, stride),
            final(self)@.wf(),
    {
        proof {
            self.lemma_view();
        }
        let ghost before = self@;
        let n = self.ids.len();
        if n <= max_len {
            return ;
        }
        let overlap: usize = if stride < max_len {
            stride
        } else {
            0
        };
        let step: usize = if max_len > 0 {
            max_len - overlap
        } else {
            n
        };
        let mut overflowing: Vec<Encoding> = Vec::new();
        let mut pos: usize = max_len;
        while pos < n
            invariant
                max_len <= pos <= n,
                overlap <= max_len,
                step > 0,
                n == before.len(),
                self@ == before,
                before.wf(),
                forall|i: int| 0 <= i < overflowing@.len() ==> (#[trigger] overflowing@[i])@.wf(),
                views(overflowing@) + before.overflow_from(pos as int, step as int, overlap as int)
                    == before.overflow_from(max_len as int, step as int, overlap as int),
            decreases n - pos,
        {
            let end: usize = if n - pos > step {
                pos + step
            } else {
                n
            };
            let piece = self.window_of(pos - overlap, end);
            let ghost done = overflowing@;
            overflowing.push(piece);
            assert(views(overflowing@) + before.overflow_from(
                end as int,
                step as int,
                overlap as int,
            ) =~= views(done) + before.overflow_from(pos as int, step as int, overlap as int));
            pos = end;
        }
        assert(views(overflowing@) =~= before.overflow_from(
            max_len as int,
            step as int,
            overlap as int,
        ));
        self.ids.truncate(max_len);
        self.type_ids.truncate(max_len);
        let ghost old_tokens = self.tokens@;
        self.tokens.truncate(max_len);
        assert(texts(self.tokens@) =~= texts(old_tokens).subrange(0, max_len as int));
        self.offsets.truncate(max_len);
        self.special_tokens_mask.truncate(max_len);
        self.attention_mask.truncate(max_len);
        self.overflowing = overflowing;
        proof {
            self.lemma_view();
        }
    }
}

impl Clone for Encoding {
    /// A copy with the same tokens and the same overflowing pieces.
    fn clone(&self) -> (r: Encoding)
        ensures
            r@ == self@,
        decreases self,
    {
        proof {
            self.lemma_view();
        }
        let mut overflowing: Vec<Encoding> = Vec::new();
        let n = self.overflowing.len();
        let mut i: usize = 0;
        while i < n
            invariant
                i <= n,
                n == self.overflowing@.len(),
                views(overflowing@) == views(self.overflowing@).subrange(0, i as int),
            decreases n - i,
        {
            let piece = self.overflowing[i].clone();
            let ghost so_far = overflowing@;
            overflowing.push(piece);
            assert(views(overflowing@) =~= views(so_far).push(piece@));
            i += 1;
            assert(views(overflowing@) =~= views(self.overflowing@).subrange(0, i as int));
        }
        assert(views(self.overflowing@).subrange(0, n as int) =~= views(self.overflowing@));
        let r = Encoding {
            ids: copy_items(&self.ids, 0, self.ids.len()),
            type_ids: copy_items(&self.type_ids, 0, self.type_ids.len()),
            tokens: copy_texts(&self.tokens, 0, self.tokens.len()),
            offsets: copy_items(&self.offsets, 0, self.offsets.len()),
            special_tokens_mask: copy_items(
                &self.special_tokens_mask,
                0,
                self.special_tokens_mask.len(),
            ),
            attention_mask: copy_items(&self.attention_mask, 0, self.attention_mask.len()),
            overflowing,
        };
        proof {
            r.lemma_view();
            assert(r@.ids =~= self@.ids);
            assert(r@.type_ids =~= self@.type_ids);
            assert(r@.tokens =~= self@.tokens);
            assert(r@.offsets =~= self@.offsets);
            assert(r@.special_tokens_mask =~= self@.special_tokens_mask);
            assert(r@.attention_mask =~= self@.attention_mask);
        }
        r
    }
}

impl Default for Encoding {
    /// The encoding without any token.
    fn default() -> (r: Encoding)
        ensures
            r@ == EncodingView::empty(),
            r@.wf(),
    {
        let r = Encoding {
            ids: Vec::new(),
            type_ids: Vec::new(),
            tokens: Vec::new(),
            offsets: Vec::new(),
            special_tokens_mask: Vec::new(),
            attention_mask: Vec::new(),
            overflowing: Vec::new(),
        };
        proof {
            r.lemma_view();
            assert(r@.tokens =~= Seq::empty());
            assert(r@.overflowing =~= Seq::empty());
        }
        r
    }
}

/// Padding brings an encoding to the target length, or leaves a longer one alone; either
/// way what comes out is well formed.
pub proof fn lemma_padded_len(
    e: EncodingView,
    target: usize,
    pad_id: u32,
    pad_type_id: u32,
    pad_token: Seq<char>,
    direction: PaddingDirection,
)
    requires
        e.wf(),
    ensures
        e.padded(target, pad_id, pad_type_id, pad_token, direction).wf(),
        e.padded(target, pad_id, pad_type_id, pad_token, direction).len() == if e.len()
            >= target {
            e.len()
        } else {
            target as nat
        },
{
}

/// Padding twice is padding once: after padding to `first`, padding to a target that is
/// no larger changes nothing.
pub proof fn lemma_pad_idempotent(
    e: EncodingView,
    first: usize,
    second: usize,
    pad_id: u32,
    pad_type_id: u32,
    pad_token: Seq<char>,
    direction: PaddingDirection,
)
    requires
        e.wf(),
        second <= first,
    ensures
        e.padded(first, pad_id, pad_type_id, pad_token, direction).padded(
            second,
            pad_id,
            pad_type_id,
            pad_token,
            direction,
        ) == e.padded(first, pad_id, pad_type_id, pad_token, direction),
{
    lemma_padded_len(e, first, pad_id, pad_type_id, pad_token, direction);
}

/// Truncation leaves no more than `max_len` tokens, and keeps the encoding well formed.
pub proof fn lemma_truncated_len(e: EncodingView, max_len: usize, stride: usize)
    requires
        e.wf(),
    ensures
        e.truncated(max_len, stride).wf(),
        e.truncated(max_len, stride).len() == if e.len() <= max_len {
            e.len()
        } else {
            max_len as nat
        },
{
    if e.len() > max_len {
        lemma_overflow_wf(
            e,
            max_len as int,
            e.step(max_len, stride),
            EncodingView::overlap(max_len, stride),
        );
    }
}

proof fn lemma_overflow_wf(e: EncodingView, pos: int, step: int, overlap: int)
    requires
        e.wf(),
        0 <= overlap <= pos,
    ensures
        forall|i: int|
            0 <= i < e.overflow_from(pos, step, overlap).len() ==> (#[trigger] e.overflow_from(
                pos,
                step,
                overlap,
            )[i]).wf(),
    decreases e.ids.len() - pos,
{
    if pos < e.ids.len() && step > 0 {
        let end = if pos + step < e.ids.len() {
            pos + step
        } else {
            e.ids.len() as int
        };
        lemma_overflow_wf(e, end, step, overlap);
        let all = e.overflow_from(pos, step, overlap);
        let rest = e.overflow_from(end, step, overlap);
        assert(all =~= seq![e.window(pos - overlap, end)] + rest);
        assert forall|i: int| 0 <= i < all.len() implies (#[trigger] all[i]).wf() by {
            if i > 0 {
                assert(all[i] == rest[i - 1]);
            }
        }
    }
}

/// The overflowing pieces, one by one: with `d` tokens cut off there are as many pieces as
/// it takes `step` tokens at a time, and piece `k` holds the tokens from `overlap` before
/// `pos + k * step` up to `pos + (k + 1) * step`, or to the end for the last piece.
pub proof fn lemma_overflow_pieces(e: EncodingView, pos: int, step: int, overlap: int, k: int)
    requires
        0 <= pos <= e.len(),
        step > 0,
        0 <= k,
        pos + k * step < e.len(),
    ensures
        k < e.overflow_from(pos, step, overlap).len(),
        e.overflow_from(pos, step, overlap)[k] == e.window(
            pos + k * step - overlap,
            if pos + (k + 1) * step < e.len() {
                pos + (k + 1) * step
            } else {
                e.len() as int
            },
        ),
    decreases k,
{
    if k > 0 {
        assert(pos + step <= pos + k * step) by (nonlinear_arith)
            requires
                k >= 1,
                step > 0,
        ;
        assert(pos + step + (k - 1) * step == pos + k * step) by (nonlinear_arith);
        assert(pos + step + k * step == pos + (k + 1) * step) by (nonlinear_arith);
        assert(((k - 1) + 1) * step == k * step) by (nonlinear_arith);
        lemma_overflow_pieces(e, pos + step, step, overlap, k - 1);
        let all = e.overflow_from(pos, step, overlap);
        let rest = e.overflow_from(pos + step, step, overlap);
        assert(all =~= seq![e.window(pos - overlap, pos + step)] + rest);
        assert(all[k] == rest[k - 1]);
    } else {
        let end = if pos + step < e.ids.len() {
            pos + step
        } else {
            e.ids.len() as int
        };
        let all = e.overflow_from(pos, step, overlap);
        assert(all =~= seq![e.window(pos - overlap, end)] + e.overflow_from(end, step, overlap));
        assert(pos + (k + 1) * step == pos + step && k * step == 0) by (nonlinear_arith)
            requires
                k == 0,
        ;
    }
}

/// No overflowing piece starts at or after the end: with `k * step` tokens or fewer cut
/// off from `pos` on, there are at most `k` pieces.
pub proof fn lemma_overflow_count(e: EncodingView, pos: int, step: int, overlap: int, k: int)
    requires
        0 <= pos,
        step > 0,
        0 <= k,
        pos + k * step >= e.len(),
    ensures
        e.overflow_from(pos, step, overlap).len() <= k,
    decreases k,
{
    if pos < e.len() {
        assert(k > 0) by (nonlinear_arith)
            requires
                pos + k * step >= e.len(),
                pos < e.len(),
                k >= 0,
        ;
        let end = if pos + step < e.ids.len() {
            pos + step
        } else {
            e.ids.len() as int
        };
        if end == pos + step {
            assert(pos + step + (k - 1) * step == pos + k * step) by (nonlinear_arith);
            lemma_overflow_count(e, end, step, overlap, k - 1);
        } else {
            assert(e.overflow_from(end, step, overlap).len() == 0);
        }
    }
}

} // verus!
