//! Token estimation from the byte length of text.
use vstd::prelude::*;
use vstd::string::*;

verus! {

/// Number of bytes above 127 in `b`.
pub open spec fn non_ascii_count(b: Seq<u8>) -> nat
    decreases b.len(),
{
    if b.len() == 0 {
        0
    } else {
        non_ascii_count(b.drop_last()) + if b.last() > 127 { 1nat } else { 0nat }
    }
}

/// `ceil(a / d)` for a positive divisor.
pub open spec fn ceil_div(a: nat, d: nat) -> nat
    recommends
        d > 0,
{
    ((a + d - 1) as nat / d) as nat
}

/// The token estimate of `len` bytes of which `non_ascii` are above 127:
/// `ceil(len / 2.5)` when more than 30% of the bytes are non-ASCII,
/// `ceil(len / 3.5)` otherwise, and 0 for no bytes.
pub open spec fn tokens_for(len: nat, non_ascii: nat) -> nat {
    if len == 0 {
        0
    } else if 10 * non_ascii > 3 * len {
        ceil_div(2 * len, 5)
    } else {
        ceil_div(2 * len, 7)
    }
}

/// The token estimate of a byte string.
pub open spec fn spec_count_tokens(b: Seq<u8>) -> nat {
    tokens_for(b.len(), non_ascii_count(b))
}

/// Number of non-ASCII bytes among the first `n` bytes.
fn non_ascii_prefix(bytes: &[u8], n: usize) -> (c: usize)
    requires
        n <= bytes@.len(),
    ensures
        c == non_ascii_count(bytes@.take(n as int)),
        c <= n,
{
    let mut c: usize = 0;
    let mut i: usize = 0;
    while i < n
        invariant
            i <= n <= bytes@.len(),
            c == non_ascii_count(bytes@.take(i as int)),
            c <= i,
        decreases n - i,
    {
        assert(bytes@.take(i + 1).drop_last() == bytes@.take(i as int));
        if bytes[i] > 127 {
            c = c + 1;
        }
        i = i + 1;
    }
    c
}

/// Token estimate of the first `n` bytes of `bytes`.
pub fn count_tokens_prefix(bytes: &[u8], n: usize) -> (t: usize)
    requires
        n <= bytes@.len(),
    ensures
        t == spec_count_tokens(bytes@.take(n as int)),
        t <= n,
{
    if n == 0 {
        return 0;
    }
    let na = non_ascii_prefix(bytes, n) as u128;
    let len = n as u128;
    let t = if 10 * na > 3 * len {
        (2 * len + 4) / 5
    } else {
        (2 * len + 6) / 7
    };
    assert(t <= len) by (nonlinear_arith)
        requires
            len >= 1,
            t == (2 * len + 4) / 5 || t == (2 * len + 6) / 7;
    t as usize
}

/// Estimates the number of LLM tokens in `text`.
///
/// Byte heuristic: `ceil(bytes / 2.5)` when more than 30% of the bytes are
/// non-ASCII, `ceil(bytes / 3.5)` otherwise.
pub fn count_tokens(text: &str) -> (t: usize)
    ensures
        t == spec_count_tokens(text.spec_bytes()),
{
    let bytes = text.as_bytes();
    let t = count_tokens_prefix(bytes, bytes.len());
    assert(bytes@.take(bytes@.len() as int) == bytes@);
    t
}

} // verus!
