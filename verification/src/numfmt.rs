//! Decimal and hexadecimal rendering of integers, with the facts the
//! identifier scheme relies on (a rendering can be read back).
use vstd::prelude::*;
use vstd::string::*;
use crate::text::push_char;

verus! {

/// The character of a digit below 16 (`0`-`9`, then `a`-`f`).
pub open spec fn digit_char(d: nat) -> char {
    if d == 0 { '0' }
    else if d == 1 { '1' }
    else if d == 2 { '2' }
    else if d == 3 { '3' }
    else if d == 4 { '4' }
    else if d == 5 { '5' }
    else if d == 6 { '6' }
    else if d == 7 { '7' }
    else if d == 8 { '8' }
    else if d == 9 { '9' }
    else if d == 10 { 'a' }
    else if d == 11 { 'b' }
    else if d == 12 { 'c' }
    else if d == 13 { 'd' }
    else if d == 14 { 'e' }
    else { 'f' }
}

/// The value of a digit character, or 0 for any other character.
pub open spec fn digit_value(c: char) -> nat {
    if c == '1' { 1 }
    else if c == '2' { 2 }
    else if c == '3' { 3 }
    else if c == '4' { 4 }
    else if c == '5' { 5 }
    else if c == '6' { 6 }
    else if c == '7' { 7 }
    else if c == '8' { 8 }
    else if c == '9' { 9 }
    else if c == 'a' { 10 }
    else if c == 'b' { 11 }
    else if c == 'c' { 12 }
    else if c == 'd' { 13 }
    else if c == 'e' { 14 }
    else if c == 'f' { 15 }
    else { 0 }
}

/// The digits of `n` in base `b` (2..=16), most significant first, with no
/// leading zero; `"0"` for zero.
pub open spec fn digits(n: nat, b: nat) -> Seq<char>
    recommends
        2 <= b <= 16,
    decreases n,
{
    if n < b || b < 2 {
        seq![digit_char(n % 16)]
    } else {
        proof {
            assert(n / b < n) by (nonlinear_arith)
                requires
                    n >= b,
                    b >= 2,
            ;
        }
        digits(n / b, b).push(digit_char(n % b))
    }
}

/// The number that a string of base-`b` digits denotes.
pub open spec fn digits_value(s: Seq<char>, b: nat) -> nat
    decreases s.len(),
{
    if s.len() == 0 {
        0
    } else {
        digits_value(s.drop_last(), b) * b + digit_value(s.last())
    }
}

/// `s` preceded by as many `'0'` as it takes to reach `width` characters.
pub open spec fn zero_pad(s: Seq<char>, width: nat) -> Seq<char> {
    if s.len() >= width {
        s
    } else {
        Seq::new((width - s.len()) as nat, |i: int| '0') + s
    }
}

/// The decimal rendering of a signed integer (`-` before negative numbers).
pub open spec fn signed_decimal(n: int) -> Seq<char> {
    if n < 0 {
        seq!['-'] + digits((-n) as nat, 10)
    } else {
        digits(n as nat, 10)
    }
}

/// Digits are ASCII characters.
pub proof fn lemma_digits_ascii(n: nat, b: nat)
    ensures
        vstd::utf8::is_ascii_chars(digits(n, b)),
    decreases n,
{
    if n < b || b < 2 {
    } else {
        assert(n / b < n) by (nonlinear_arith)
            requires
                n >= b,
                b >= 2,
        ;
        lemma_digits_ascii(n / b, b);
        let d = digits(n / b, b);
        assert forall|i: int| 0 <= i < d.push(digit_char(n % b)).len() implies '\0' <= #[trigger] d.push(digit_char(n % b))[i] <= '\u{7f}' by {
            if i < d.len() {
                assert(d.push(digit_char(n % b))[i] == d[i]);
            }
        }
    }
}

proof fn lemma_digit_roundtrip(d: nat)
    requires
        d < 16,
    ensures
        digit_value(digit_char(d)) == d,
{
}

/// Reading back the base-`b` digits of `n` gives `n`.
pub proof fn lemma_digits_value(n: nat, b: nat)
    requires
        2 <= b <= 16,
    ensures
        digits_value(digits(n, b), b) == n,
    decreases n,
{
    if n < b {
        assert(n % 16 == n);
        lemma_digit_roundtrip(n);
        let d = digits(n, b);
        assert(d.drop_last() =~= Seq::<char>::empty());
        assert(digits_value(d.drop_last(), b) == 0);
        assert(0 * b == 0);
    } else {
        assert(n / b < n) by (nonlinear_arith)
            requires
                n >= b,
                b >= 2,
        ;
        lemma_digits_value(n / b, b);
        lemma_digit_roundtrip(n % b);
        let d = digits(n, b);
        assert(d.drop_last() == digits(n / b, b));
        assert(d.last() == digit_char(n % b));
        assert((n / b) * b + n % b == n) by (nonlinear_arith)
            requires
                b > 0,
        ;
    }
}

/// Leading zeros do not change the value of a digit string.
pub proof fn lemma_leading_zeros(z: nat, s: Seq<char>, b: nat)
    ensures
        digits_value(Seq::new(z, |i: int| '0') + s, b) == digits_value(s, b),
    decreases s.len(),
{
    let zs = Seq::new(z, |i: int| '0');
    if s.len() == 0 {
        assert(zs + s =~= zs);
        lemma_zeros_value(z, b);
    } else {
        lemma_leading_zeros(z, s.drop_last(), b);
        assert((zs + s).drop_last() =~= zs + s.drop_last());
    }
}

proof fn lemma_zeros_value(z: nat, b: nat)
    ensures
        digits_value(Seq::new(z, |i: int| '0'), b) == 0,
    decreases z,
{
    if z > 0 {
        let zs = Seq::new(z, |i: int| '0');
        lemma_zeros_value((z - 1) as nat, b);
        assert(zs.drop_last() =~= Seq::new((z - 1) as nat, |i: int| '0'));
        assert(zs.last() == '0');
        assert(digits_value(zs, b) == digits_value(zs.drop_last(), b) * b + digit_value(zs.last()));
    }
}

/// Zero-padded base-`b` renderings of different numbers differ.
pub proof fn lemma_padded_digits_injective(m: nat, n: nat, b: nat, width: nat)
    requires
        2 <= b <= 16,
        zero_pad(digits(m, b), width) == zero_pad(digits(n, b), width),
    ensures
        m == n,
{
    let dm = digits(m, b);
    let dn = digits(n, b);
    lemma_digits_value(m, b);
    lemma_digits_value(n, b);
    if dm.len() < width {
        lemma_leading_zeros((width - dm.len()) as nat, dm, b);
    }
    if dn.len() < width {
        lemma_leading_zeros((width - dn.len()) as nat, dn, b);
    }
}

/// The character of a digit below 16.
pub fn digit_to_char(d: u64) -> (c: char)
    requires
        d < 16,
    ensures
        c == digit_char(d as nat),
{
    if d == 0 { '0' }
    else if d == 1 { '1' }
    else if d == 2 { '2' }
    else if d == 3 { '3' }
    else if d == 4 { '4' }
    else if d == 5 { '5' }
    else if d == 6 { '6' }
    else if d == 7 { '7' }
    else if d == 8 { '8' }
    else if d == 9 { '9' }
    else if d == 10 { 'a' }
    else if d == 11 { 'b' }
    else if d == 12 { 'c' }
    else if d == 13 { 'd' }
    else if d == 14 { 'e' }
    else { 'f' }
}

/// Appends the base-`b` digits of `n` to `out`.
pub fn push_digits(out: &mut String, n: u64, b: u64)
    requires
        2 <= b <= 16,
    ensures
        final(out)@ == old(out)@ + digits(n as nat, b as nat),
    decreases n,
{
    if n < b {
        push_char(out, digit_to_char(n));
        assert(n % 16 == n);
    } else {
        assert(n / b < n) by (nonlinear_arith)
            requires
                n >= b,
                b >= 2,
        ;
        push_digits(out, n / b, b);
        push_char(out, digit_to_char(n % b));
    }
}

/// The decimal rendering of an unsigned integer.
pub fn u64_to_decimal(n: u64) -> (s: String)
    ensures
        s@ == digits(n as nat, 10),
{
    let mut s = String::new();
    push_digits(&mut s, n, 10);
    s
}

/// The decimal rendering of a signed integer.
pub fn i64_to_decimal(n: i64) -> (s: String)
    ensures
        s@ == signed_decimal(n as int),
{
    let mut s = String::new();
    if n < 0 {
        push_char(&mut s, '-');
        let m: u64 = if n == i64::MIN {
            9223372036854775808u64
        } else {
            (-n) as u64
        };
        push_digits(&mut s, m, 10);
    } else {
        push_digits(&mut s, n as u64, 10);
    }
    s
}

/// Appends `'0'` to `out` until the characters appended since `start`
/// together with `digits` reach `width`, then appends `digits`.
pub fn push_zero_padded(out: &mut String, d: &str, width: usize)
    ensures
        final(out)@ == old(out)@ + zero_pad(d@, width as nat),
{
    let len = d.unicode_len();
    if len < width {
        let ghost start = out@;
        let mut k: usize = 0;
        while k < width - len
            invariant
                len < width,
                k <= width - len,
                out@ == start + Seq::new(k as nat, |i: int| '0'),
            decreases width - len - k,
        {
            push_char(out, '0');
            assert(Seq::new((k + 1) as nat, |i: int| '0') =~= Seq::new(k as nat, |i: int| '0').push('0'));
            k = k + 1;
        }
    }
    out.append(d);
    assert(d@.len() < width ==> old(out)@ + zero_pad(d@, width as nat) =~= old(out)@ + Seq::new((width - d@.len()) as nat, |i: int| '0') + d@);
}

} // verus!
