//! Texts as bytes: lengths, slices and comparison by the UTF-8 encoding.

use vstd::prelude::*;
use vstd::string::{StrSliceExecFns, StringSliceAdditionalSpecFns};
use vstd::utf8::{encode_utf8, is_char_boundary, valid_utf8};

verus! {

/// Number of bytes that the UTF-8 encoding of `s` takes.
pub open spec fn utf8_len(s: Seq<char>) -> nat {
    encode_utf8(s).len()
}

/// Encoding a concatenation is concatenating the encodings.
pub proof fn lemma_encode_concat(a: Seq<char>, b: Seq<char>)
    ensures
        encode_utf8(a + b) == encode_utf8(a) + encode_utf8(b),
        utf8_len(a + b) == utf8_len(a) + utf8_len(b),
    decreases a.len(),
{
    if a.len() == 0 {
        assert(a + b =~= b);
        assert(encode_utf8(a) + encode_utf8(b) =~= encode_utf8(b));
    } else {
        lemma_encode_concat(a.drop_first(), b);
        assert((a + b).drop_first() =~= a.drop_first() + b);
        assert((a + b)[0] == a[0]);
        assert(encode_utf8(a + b) =~= encode_utf8(a) + encode_utf8(b));
    }
}

/// Length of a string slice in bytes, with the bound that a real string meets.
pub(crate) fn byte_len(s: &str) -> (n: usize)
    ensures
        n == utf8_len(s@),
{
    let b = s.as_bytes();
    b.len()
}

/// The part of `s` between two byte offsets that fall on character boundaries.
pub(crate) fn byte_slice(s: &str, start: usize, end: usize) -> (r: &str)
    requires
        start <= end <= utf8_len(s@),
        is_char_boundary(encode_utf8(s@), start as int),
        is_char_boundary(encode_utf8(s@), end as int),
    ensures
        encode_utf8(r@) == encode_utf8(s@).subrange(start as int, end as int),
{
    let (head, _) = s.split_at(end);
    proof {
        vstd::utf8::encode_utf8_valid_utf8(s@);
        vstd::utf8::valid_utf8_split(encode_utf8(s@), end as int);
        lemma_boundary_in_prefix(encode_utf8(s@), start as int, end as int);
    }
    let (_, r) = head.split_at(start);
    assert(encode_utf8(r@) =~= encode_utf8(s@).subrange(start as int, end as int));
    r
}

/// A boundary of a byte sequence that lies inside a prefix cut at a boundary is a boundary
/// of that prefix too.
pub proof fn lemma_boundary_in_prefix(bytes: Seq<u8>, index: int, cut: int)
    requires
        valid_utf8(bytes),
        0 <= index <= cut <= bytes.len(),
        is_char_boundary(bytes, index),
        is_char_boundary(bytes, cut),
    ensures
        is_char_boundary(bytes.subrange(0, cut), index),
{
    vstd::utf8::valid_utf8_split(bytes, cut);
    let prefix = bytes.subrange(0, cut);
    if index == cut {
        vstd::utf8::is_char_boundary_start_end_of_seq(prefix);
    } else if index == 0 {
    } else {
        vstd::utf8::is_char_boundary_iff_not_is_continuation_byte(bytes, index);
        vstd::utf8::is_char_boundary_iff_not_is_continuation_byte(prefix, index);
    }
}

/// Two texts with the same encoding are the same text.
pub proof fn lemma_encode_injective(a: Seq<char>, b: Seq<char>)
    requires
        encode_utf8(a) == encode_utf8(b),
    ensures
        a == b,
{
    vstd::utf8::encode_utf8_decode_utf8(a);
    vstd::utf8::encode_utf8_decode_utf8(b);
}

/// Whether two string slices hold the same text.
pub(crate) fn same_text(a: &str, b: &str) -> (r: bool)
    ensures
        r == (a@ == b@),
{
    let x = a.as_bytes();
    let y = b.as_bytes();
    if x.len() != y.len() {
        return false;
    }
    let n = x.len();
    let mut i: usize = 0;
    while i < n
        invariant
            i <= n,
            n == x@.len(),
            n == y@.len(),
            x@ == encode_utf8(a@),
            y@ == encode_utf8(b@),
            x@.subrange(0, i as int) == y@.subrange(0, i as int),
        decreases n - i,
    {
        if x[i] != y[i] {
            assert(encode_utf8(a@)[i as int] != encode_utf8(b@)[i as int]);
            return false;
        }
        i += 1;
        assert(x@.subrange(0, i as int) =~= x@.subrange(0, i - 1).push(x@[i - 1]));
        assert(y@.subrange(0, i as int) =~= y@.subrange(0, i - 1).push(y@[i - 1]));
    }
    proof {
        assert(x@ =~= x@.subrange(0, n as int));
        assert(y@ =~= y@.subrange(0, n as int));
        lemma_encode_injective(a@, b@);
    }
    true
}

/// The first character of a text that is not empty.
pub(crate) fn first_char(s: &str) -> (c: char)
    requires
        s@.len() > 0,
    ensures
        c == s@.first(),
{
    s.get_char(0)
}

/// The last character of a text that is not empty.
pub(crate) fn last_char(s: &str) -> (c: char)
    requires
        s@.len() > 0,
    ensures
        c == s@.last(),
{
    let n = s.unicode_len();
    s.get_char(n - 1)
}

} // verus!
