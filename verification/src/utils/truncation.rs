//! Truncation of one or two encodings to a length.

use crate::tokenizer::encoding::{lemma_truncated_len, Encoding, EncodingView};
use crate::tokenizer::Error;
use vstd::prelude::*;

verus! {

/// Which of two sequences gives up tokens when both together are too long.
#[derive(Debug, Clone, Copy, PartialEq, Eq, Structural)]
pub enum TruncationStrategy {
    /// One token at a time from whichever sequence is longer, from the first on a tie.
    LongestFirst,
    /// From the first sequence only.
    OnlyFirst,
    /// From the second sequence only.
    OnlySecond,
}

/// How to truncate: the number of tokens allowed in all, who gives them up, and how many
/// tokens each overflowing piece repeats.
#[derive(Debug, Clone, Copy)]
pub struct TruncationParams {
    pub max_length: usize,
    pub strategy: TruncationStrategy,
    pub stride: usize,
}

/// The lengths that are left of two sequences of `first` and `second` tokens once tokens
/// were dropped one at a time, each from the longer sequence and from the first on a tie,
/// until no more than `max_length` are left.
pub open spec fn longest_first(first: nat, second: nat, max_length: nat) -> (nat, nat)
    decreases first + second,
{
    if first + second <= max_length {
        (first, second)
    } else if first >= second {
        longest_first((first - 1) as nat, second, max_length)
    } else {
        longest_first(first, (second - 1) as nat, max_length)
    }
}

/// The lengths to which truncation cuts two sequences of `first` and `second` tokens, and
/// `None` where the one sequence that may give up tokens cannot make room enough.
pub open spec fn kept_lengths(first: nat, second: nat, params: TruncationParams) -> Option<
    (nat, nat),
> {
    let max = params.max_length as nat;
    match params.strategy {
        TruncationStrategy::LongestFirst => Some(longest_first(first, second, max)),
        TruncationStrategy::OnlyFirst => if second > max {
            None
        } else if first + second <= max {
            Some((first, second))
        } else {
            Some(((max - second) as nat, second))
        },
        TruncationStrategy::OnlySecond => if first > max {
            None
        } else if first + second <= max {
            Some((first, second))
        } else {
            Some((first, (max - first) as nat))
        },
    }
}

/// Number of tokens of the second sequence, which may be absent.
pub open spec fn pair_len(pair: Option<EncodingView>) -> nat {
    match pair {
        Some(p) => p.len(),
        None => 0,
    }
}

/// What dropping tokens one by one leaves is never longer than what was there, and fits.
pub proof fn lemma_longest_first(first: nat, second: nat, max_length: nat)
    ensures
        longest_first(first, second, max_length).0 <= first,
        longest_first(first, second, max_length).1 <= second,
        longest_first(first, second, max_length).0 + longest_first(first, second, max_length).1
            <= max_length,
        first + second <= max_length ==> longest_first(first, second, max_length) == (
            first,
            second,
        ),
        first + second >= max_length ==> longest_first(first, second, max_length).0
            + longest_first(first, second, max_length).1 == max_length,
    decreases first + second,
{
    if first + second <= max_length {
    } else if first >= second {
        lemma_longest_first((first - 1) as nat, second, max_length);
    } else {
        lemma_longest_first(first, (second - 1) as nat, max_length);
    }
}

/// The lengths that truncation keeps fit the length allowed, whatever the strategy.
pub proof fn lemma_kept_lengths_fit(first: nat, second: nat, params: TruncationParams)
    ensures
        kept_lengths(first, second, params) matches Some((a, b)) ==> a <= first && b <= second
            && a + b <= params.max_length,
{
    lemma_longest_first(first, second, params.max_length as nat);
}

/// Shortens `encoding` and `pair_encoding` so that together they hold no more than
/// `params.max_length` tokens. Tokens leave from the right end of a sequence and become
/// its overflowing pieces. Fails with `SequenceTooShort` exactly where only one sequence
/// may give up tokens and the other alone is longer than allowed.
pub fn truncate_encodings(
    encoding: Encoding,
    pair_encoding: Option<Encoding>,
    params: &TruncationParams,
) -> (r: Result<(Encoding, Option<Encoding>), Error>)
    requires
        encoding@.wf(),
        pair_encoding matches Some(p) ==> p@.wf(),
    ensures
        match kept_lengths(encoding@.len(), pair_len(view_of(pair_encoding)), *params) {
            Some((a, b)) => {
                &&& r matches Ok((first, second))
                &&& first@ == encoding@.truncated(a as usize, params.stride)
                &&& view_of(second) == match pair_encoding {
                    Some(p) => Some(p@.truncated(b as usize, params.stride)),
                    None => None,
                }
                &&& first@.wf()
                &&& second matches Some(s) ==> s@.wf()
                &&& first@.len() + pair_len(view_of(second)) <= params.max_length
            },
            None => r == Err::<(Encoding, Option<Encoding>), Error>(Error::SequenceTooShort),
        },
{
    let mut encoding = encoding;
    let mut pair_encoding = pair_encoding;
    let n_first = encoding.get_ids().len();
    let n_second = match &pair_encoding {
        Some(p) => p.get_ids().len(),
        None => 0,
    };
    let max = params.max_length;
    proof {
        lemma_kept_lengths_fit(n_first as nat, n_second as nat, *params);
    }
    let (keep_first, keep_second): (usize, usize) = match params.strategy {
        TruncationStrategy::LongestFirst => {
            let mut a: usize = n_first;
            let mut b: usize = n_second;
            while b > max || a > max - b
                invariant
                    a <= n_first,
                    b <= n_second,
                    longest_first(a as nat, b as nat, max as nat) == longest_first(
                        n_first as nat,
                        n_second as nat,
                        max as nat,
                    ),
                decreases a + b,
            {
                if a >= b {
                    a -= 1;
                } else {
                    b -= 1;
                }
            }
            (a, b)
        },
        TruncationStrategy::OnlyFirst => {
            if n_second > max {
                return Err(Error::SequenceTooShort);
            }
            if n_first <= max - n_second {
                (n_first, n_second)
            } else {
                (max - n_second, n_second)
            }
        },
        TruncationStrategy::OnlySecond => {
            if n_first > max {
                return Err(Error::SequenceTooShort);
            }
            if n_second <= max - n_first {
                (n_first, n_second)
            } else {
                (n_first, max - n_first)
            }
        },
    };
    proof {
        lemma_truncated_len(encoding@, keep_first, params.stride);
    }
    encoding.truncate(keep_first, params.stride);
    let pair_encoding = match pair_encoding {
        Some(p) => {
            let mut p = p;
            proof {
                lemma_truncated_len(p@, keep_second, params.stride);
            }
            p.truncate(keep_second, params.stride);
            Some(p)
        },
        None => None,
    };
    Ok((encoding, pair_encoding))
}

/// The view of an encoding that may be absent.
pub open spec fn view_of(encoding: Option<Encoding>) -> Option<EncodingView> {
    match encoding {
        Some(e) => Some(e@),
        None => None,
    }
}

} // verus!
