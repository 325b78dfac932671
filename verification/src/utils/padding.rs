//! Padding of a batch of encodings to one length.

use crate::tokenizer::encoding::{lemma_padded_len, views, Encoding, EncodingView};
use crate::tokenizer::Error;
use vstd::prelude::*;

verus! {

/// The side on which padding is added.
#[derive(Debug, Clone, Copy, PartialEq, Eq, Structural)]
pub enum PaddingDirection {
    Left,
    Right,
}

/// The length to pad to: that of the longest encoding at hand, or a fixed one.
#[derive(Debug, Clone, Copy, PartialEq, Eq, Structural)]
pub enum PaddingStrategy {
    BatchLongest,
    Fixed(usize),
}

/// How to pad: to which length, on which side, and with which token.
#[derive(Debug, Clone)]
pub struct PaddingParams {
    pub strategy: PaddingStrategy,
    pub direction: PaddingDirection,
    pub pad_id: u32,
    pub pad_type_id: u32,
    pub pad_token: String,
}

/// The number of tokens of the longest of `encodings`, and 0 where there is none.
pub open spec fn longest(encodings: Seq<EncodingView>) -> nat
    decreases encodings.len(),
{
    if encodings.len() == 0 {
        0
    } else {
        let rest = longest(encodings.drop_last());
        if encodings.last().len() > rest {
            encodings.last().len()
        } else {
            rest
        }
    }
}

/// The length that a batch is padded to under `strategy`.
pub open spec fn pad_target(encodings: Seq<EncodingView>, strategy: PaddingStrategy) -> nat {
    match strategy {
        PaddingStrategy::Fixed(size) => size as nat,
        PaddingStrategy::BatchLongest => longest(encodings),
    }
}

/// `e` padded as `params` say, to `target` tokens.
pub open spec fn padded_with(e: EncodingView, target: usize, params: PaddingParams) -> EncodingView {
    e.padded(target, params.pad_id, params.pad_type_id, params.pad_token@, params.direction)
}

/// No encoding is longer than the longest, and a batch that is not empty holds one of
/// that length.
pub proof fn lemma_longest(encodings: Seq<EncodingView>)
    ensures
        forall|i: int| 0 <= i < encodings.len() ==> (#[trigger] encodings[i]).len() <= longest(encodings),
        encodings.len() > 0 ==> exists|i: int|
            0 <= i < encodings.len() && (#[trigger] encodings[i]).len() == longest(encodings),
    decreases encodings.len(),
{
    if encodings.len() > 0 {
        let init = encodings.drop_last();
        lemma_longest(init);
        assert forall|i: int| 0 <= i < encodings.len() implies (#[trigger] encodings[i]).len()
            <= longest(encodings) by {
            if i < init.len() {
                assert(init[i] == encodings[i]);
            }
        }
        if encodings.last().len() > longest(init) || init.len() == 0 {
            assert(encodings[encodings.len() - 1].len() == longest(encodings));
        } else {
            let w = choose|i: int| 0 <= i < init.len() && (#[trigger] init[i]).len() == longest(init);
            assert(encodings[w] == init[w]);
        }
    }
}

/// Pads every encoding of a batch to one length: a fixed one, or that of the longest
/// encoding of the batch. An encoding that is longer already stays as it is.
pub fn pad_encodings(encodings: Vec<Encoding>, params: &PaddingParams) -> (r: Result<
    Vec<Encoding>,
    Error,
>)
    requires
        forall|i: int| 0 <= i < encodings@.len() ==> (#[trigger] encodings@[i])@.wf(),
    ensures
        r matches Ok(padded) && padded@.len() == encodings@.len() && forall|i: int|
            0 <= i < padded@.len() ==> (#[trigger] padded@[i])@ == padded_with(
                encodings@[i]@,
                pad_target(views(encodings@), params.strategy) as usize,
                *params,
            ) && padded@[i]@.wf(),
        pad_target(views(encodings@), params.strategy) <= usize::MAX,
        r matches Ok(padded) && (params.strategy is BatchLongest ==> forall|i: int|
            0 <= i < padded@.len() ==> (#[trigger] padded@[i])@.len() == longest(
                views(encodings@),
            )),
{
    let target = match params.strategy {
        PaddingStrategy::Fixed(size) => size,
        PaddingStrategy::BatchLongest => longest_len(&encodings),
    };
    let mut encodings = encodings;
    let ghost before = encodings@;
    let n = encodings.len();
    let mut i: usize = 0;
    while i < n
        invariant
            i <= n,
            n == before.len(),
            encodings@.len() == n,
            forall|k: int| 0 <= k < n ==> (#[trigger] before[k])@.wf(),
            forall|k: int| i <= k < n ==> encodings@[k] == before[k],
            forall|k: int|
                0 <= k < i ==> (#[trigger] encodings@[k])@ == padded_with(
                    before[k]@,
                    target,
                    *params,
                ) && encodings@[k]@.wf(),
        decreases n - i,
    {
        assert(before[i as int]@.wf());
        encodings[i].pad(
            target,
            params.pad_id,
            params.pad_type_id,
            params.pad_token.as_str(),
            params.direction,
        );
        i += 1;
    }
    proof {
        if params.strategy is BatchLongest {
            lemma_longest(views(before));
            assert forall|k: int| 0 <= k < n implies (#[trigger] encodings@[k])@.len() == longest(
                views(before),
            ) by {
                assert(views(before)[k] == before[k]@);
                lemma_padded_len(
                    before[k]@,
                    target,
                    params.pad_id,
                    params.pad_type_id,
                    params.pad_token@,
                    params.direction,
                );
            }
        }
    }
    Ok(encodings)
}

/// The number of tokens of the longest of `encodings`.
fn longest_len(encodings: &Vec<Encoding>) -> (r: usize)
    ensures
        r == longest(views(encodings@)),
{
    let mut best: usize = 0;
    let n = encodings.len();
    let mut i: usize = 0;
    while i < n
        invariant
            i <= n,
            n == encodings@.len(),
            best == longest(views(encodings@).subrange(0, i as int)),
        decreases n - i,
    {
        let len = encodings[i].get_ids().len();
        assert(views(encodings@).subrange(0, i + 1).drop_last() =~= views(encodings@).subrange(
            0,
            i as int,
        ));
        if len > best {
            best = len;
        }
        i += 1;
    }
    assert(views(encodings@).subrange(0, n as int) =~= views(encodings@));
    best
}

} // verus!
