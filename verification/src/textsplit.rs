//! Whitespace, trimming and splitting of character sequences.
use vstd::prelude::*;
use crate::text::{is_alphanumeric, char_is_alphanumeric};

verus! {

/// Unicode `White_Space`: the characters `char::is_whitespace` accepts.
pub open spec fn is_ws(c: char) -> bool {
    ||| ('\u{9}' <= c <= '\u{d}')
    ||| c == ' '
    ||| c == '\u{85}'
    ||| c == '\u{a0}'
    ||| c == '\u{1680}'
    ||| ('\u{2000}' <= c <= '\u{200a}')
    ||| c == '\u{2028}'
    ||| c == '\u{2029}'
    ||| c == '\u{202f}'
    ||| c == '\u{205f}'
    ||| c == '\u{3000}'
}

/// Whether `c` is a Unicode whitespace character.
pub fn is_whitespace(c: char) -> (r: bool)
    ensures
        r == is_ws(c),
{
    ('\u{9}' <= c && c <= '\u{d}') || c == ' ' || c == '\u{85}' || c == '\u{a0}' || c == '\u{1680}'
        || ('\u{2000}' <= c && c <= '\u{200a}') || c == '\u{2028}' || c == '\u{2029}'
        || c == '\u{202f}' || c == '\u{205f}' || c == '\u{3000}'
}

/// `s` without its leading whitespace.
pub open spec fn trim_start(s: Seq<char>) -> Seq<char>
    decreases s.len(),
{
    if s.len() > 0 && is_ws(s[0]) {
        trim_start(s.drop_first())
    } else {
        s
    }
}

/// `s` without its trailing whitespace.
pub open spec fn trim_end(s: Seq<char>) -> Seq<char>
    decreases s.len(),
{
    if s.len() > 0 && is_ws(s.last()) {
        trim_end(s.drop_last())
    } else {
        s
    }
}

/// `s` without leading and trailing whitespace (`str::trim`).
pub open spec fn trim(s: Seq<char>) -> Seq<char> {
    trim_end(trim_start(s))
}

/// The kinds of separator characters text is split on.
#[derive(Clone, Copy, PartialEq, Eq, Structural)]
pub enum Separator {
    /// `'\n'`.
    Newline,
    /// Any whitespace character.
    Whitespace,
    /// Any character that is neither alphabetic nor numeric.
    NonAlphanumeric,
}

/// Whether `c` separates pieces.
pub open spec fn is_sep(sep: Separator, c: char) -> bool {
    match sep {
        Separator::Newline => c == '\n',
        Separator::Whitespace => is_ws(c),
        Separator::NonAlphanumeric => !is_alphanumeric(c),
    }
}

/// `p` put in front of the first piece of `r`.
pub open spec fn prepend(p: Seq<char>, r: Seq<Seq<char>>) -> Seq<Seq<char>> {
    r.update(0, p + r[0])
}

/// The pieces between separator characters (`str::split` with a character
/// class): one more piece than there are separators.
pub open spec fn split_on(s: Seq<char>, sep: Separator) -> Seq<Seq<char>>
    decreases s.len(),
{
    if s.len() == 0 {
        seq![Seq::<char>::empty()]
    } else if is_sep(sep, s[0]) {
        seq![Seq::<char>::empty()] + split_on(s.drop_first(), sep)
    } else {
        prepend(seq![s[0]], split_on(s.drop_first(), sep))
    }
}

/// The pieces between non-overlapping blank lines (`"\n\n"`), matched from
/// the left (`str::split("\n\n")`).
pub open spec fn split_blank(s: Seq<char>) -> Seq<Seq<char>>
    decreases s.len(),
{
    if s.len() == 0 {
        seq![Seq::<char>::empty()]
    } else if s.len() >= 2 && s[0] == '\n' && s[1] == '\n' {
        seq![Seq::<char>::empty()] + split_blank(s.skip(2))
    } else {
        prepend(seq![s[0]], split_blank(s.drop_first()))
    }
}

/// The pieces trimmed, with the empty ones left out.
pub open spec fn trimmed_nonempty(pieces: Seq<Seq<char>>) -> Seq<Seq<char>>
    decreases pieces.len(),
{
    if pieces.len() == 0 {
        Seq::empty()
    } else if trim(pieces.last()).len() > 0 {
        trimmed_nonempty(pieces.drop_last()).push(trim(pieces.last()))
    } else {
        trimmed_nonempty(pieces.drop_last())
    }
}

/// The pieces that are not empty.
pub open spec fn nonempty(pieces: Seq<Seq<char>>) -> Seq<Seq<char>>
    decreases pieces.len(),
{
    if pieces.len() == 0 {
        Seq::empty()
    } else if pieces.last().len() > 0 {
        nonempty(pieces.drop_last()).push(pieces.last())
    } else {
        nonempty(pieces.drop_last())
    }
}

/// The words of `s`: maximal runs of non-whitespace (`str::split_whitespace`).
pub open spec fn words(s: Seq<char>) -> Seq<Seq<char>> {
    nonempty(split_on(s, Separator::Whitespace))
}

/// The number of lines `str::lines` yields: the number of positions that
/// start a line (the first one, and each one right after a `'\n'`).
pub open spec fn line_count(s: Seq<char>) -> nat
    decreases s.len(),
{
    if s.len() == 0 {
        0
    } else if s.len() == 1 || s[s.len() - 2] == '\n' {
        line_count(s.drop_last()) + 1
    } else {
        line_count(s.drop_last())
    }
}

/// Whether `s` holds a blank line (`"\n\n"`).
pub open spec fn has_blank_line(s: Seq<char>) -> bool {
    exists|i: int| 0 <= i < s.len() - 1 && #[trigger] s[i] == '\n' && s[i + 1] == '\n'
}

/// Texts joined with `sep` between consecutive ones.
pub open spec fn join_with(texts: Seq<Seq<char>>, sep: Seq<char>) -> Seq<char>
    decreases texts.len(),
{
    if texts.len() == 0 {
        Seq::empty()
    } else if texts.len() == 1 {
        texts[0]
    } else {
        join_with(texts.drop_last(), sep) + sep + texts.last()
    }
}

proof fn lemma_split_on_nonempty(s: Seq<char>, sep: Separator)
    ensures
        split_on(s, sep).len() >= 1,
    decreases s.len(),
{
    if s.len() > 0 {
        lemma_split_on_nonempty(s.drop_first(), sep);
    }
}

proof fn lemma_split_blank_nonempty(s: Seq<char>)
    ensures
        split_blank(s).len() >= 1,
    decreases s.len(),
{
    if s.len() >= 2 && s[0] == '\n' && s[1] == '\n' {
        lemma_split_blank_nonempty(s.skip(2));
    } else if s.len() > 0 {
        lemma_split_blank_nonempty(s.drop_first());
    }
}

proof fn lemma_prepend_twice(a: Seq<char>, b: Seq<char>, r: Seq<Seq<char>>)
    requires
        r.len() >= 1,
    ensures
        prepend(a, prepend(b, r)) == prepend(a + b, r),
{
    assert((a + b) + r[0] =~= a + (b + r[0]));
    assert(prepend(a, prepend(b, r)) =~= prepend(a + b, r));
}

/// The bounds of the trimmed part of `v[from..to]`.
pub fn trim_bounds(v: &Vec<char>, from: usize, to: usize) -> (r: (usize, usize))
    requires
        from <= to <= v.len(),
    ensures
        from <= r.0 <= r.1 <= to,
        v@.subrange(r.0 as int, r.1 as int) == trim(v@.subrange(from as int, to as int)),
{
    let mut a = from;
    while a < to && is_whitespace(v[a])
        invariant
            from <= a <= to <= v.len(),
            trim_start(v@.subrange(a as int, to as int)) == trim_start(v@.subrange(from as int, to as int)),
        decreases to - a,
    {
        assert(v@.subrange(a as int, to as int).drop_first() =~= v@.subrange(a + 1, to as int));
        a = a + 1;
    }
    let mut b = to;
    while b > a && is_whitespace(v[b - 1])
        invariant
            a <= b <= to <= v.len(),
            trim_end(v@.subrange(a as int, b as int)) == trim_end(v@.subrange(a as int, to as int)),
        decreases b - a,
    {
        assert(v@.subrange(a as int, b as int).drop_last() =~= v@.subrange(a as int, b - 1));
        b = b - 1;
    }
    proof {
        let t = v@.subrange(a as int, to as int);
        assert(trim_start(v@.subrange(from as int, to as int)) == t);
        let u = v@.subrange(a as int, b as int);
        assert(trim_end(u) == u);
    }
    (a, b)
}

/// Whether `c` separates pieces.
pub fn separates(sep: Separator, c: char) -> (r: bool)
    ensures
        r == is_sep(sep, c),
{
    match sep {
        Separator::Newline => c == '\n',
        Separator::Whitespace => is_whitespace(c),
        Separator::NonAlphanumeric => !char_is_alphanumeric(c),
    }
}

/// Every range `[a, b)` in `r` is ordered and ends by `n`.
pub open spec fn bounds_within(r: Seq<(usize, usize)>, n: nat) -> bool {
    forall|k: int| 0 <= k < r.len() ==> (#[trigger] r[k]).0 <= r[k].1 <= n
}

/// The bounds `[start, end)` in `v` of the pieces between separators.
pub fn split_bounds(v: &Vec<char>, sep: Separator) -> (r: Vec<(usize, usize)>)
    ensures
        r@.map_values(|p: (usize, usize)| v@.subrange(p.0 as int, p.1 as int)) == split_on(v@, sep),
        bounds_within(r@, v@.len()),
{
    let mut r: Vec<(usize, usize)> = Vec::new();
    let mut start: usize = 0;
    let mut i: usize = 0;
    let ghost s = v@;
    proof {
        lemma_split_on_nonempty(s, sep);
        assert(s.skip(0) =~= s);
        assert(prepend(Seq::<char>::empty(), split_on(s, sep)) =~= split_on(s, sep));
        assert(r@.map_values(|p: (usize, usize)| v@.subrange(p.0 as int, p.1 as int)) =~= Seq::<Seq<char>>::empty());
    }
    while i < v.len()
        invariant
            s == v@,
            start <= i <= v.len(),
            bounds_within(r@, v@.len()),
            r@.map_values(|p: (usize, usize)| v@.subrange(p.0 as int, p.1 as int))
                + prepend(s.subrange(start as int, i as int), split_on(s.skip(i as int), sep)) == split_on(s, sep),
        decreases v.len() - i,
    {
        let ghost before = r@.map_values(|p: (usize, usize)| v@.subrange(p.0 as int, p.1 as int));
        let ghost rest = s.skip(i as int);
        proof {
            lemma_split_on_nonempty(rest.drop_first(), sep);
            assert(rest.drop_first() =~= s.skip(i + 1));
            assert(rest[0] == s[i as int]);
        }
        if separates(sep, v[i]) {
            r.push((start, i));
            proof {
                assert(r@.map_values(|p: (usize, usize)| v@.subrange(p.0 as int, p.1 as int))
                    =~= before.push(s.subrange(start as int, i as int)));
                assert(s.subrange(i + 1, i + 1) =~= Seq::<char>::empty());
                assert(prepend(Seq::<char>::empty(), split_on(s.skip(i + 1), sep)) =~= split_on(s.skip(i + 1), sep));
                assert(prepend(s.subrange(start as int, i as int), split_on(rest, sep))
                    =~= seq![s.subrange(start as int, i as int)] + split_on(s.skip(i + 1), sep));
            }
            start = i + 1;
        } else {
            proof {
                lemma_prepend_twice(s.subrange(start as int, i as int), seq![s[i as int]], split_on(s.skip(i + 1), sep));
                assert(s.subrange(start as int, i as int) + seq![s[i as int]] =~= s.subrange(start as int, i + 1));
            }
        }
        i = i + 1;
    }
    r.push((start, i));
    proof {
        assert(s.skip(i as int) =~= Seq::<char>::empty());
        assert(prepend(s.subrange(start as int, i as int), seq![Seq::<char>::empty()])
            =~= seq![s.subrange(start as int, i as int)]);
        assert(r@.map_values(|p: (usize, usize)| v@.subrange(p.0 as int, p.1 as int))
            =~= split_on(s, sep));
    }
    r
}

/// The bounds `[start, end)` in `v` of the pieces between blank lines.
pub fn split_blank_bounds(v: &Vec<char>) -> (r: Vec<(usize, usize)>)
    ensures
        r@.map_values(|p: (usize, usize)| v@.subrange(p.0 as int, p.1 as int)) == split_blank(v@),
        bounds_within(r@, v@.len()),
{
    let mut r: Vec<(usize, usize)> = Vec::new();
    let mut start: usize = 0;
    let mut i: usize = 0;
    let ghost s = v@;
    proof {
        lemma_split_blank_nonempty(s);
        assert(s.skip(0) =~= s);
        assert(prepend(Seq::<char>::empty(), split_blank(s)) =~= split_blank(s));
        assert(r@.map_values(|p: (usize, usize)| v@.subrange(p.0 as int, p.1 as int)) =~= Seq::<Seq<char>>::empty());
    }
    while i < v.len()
        invariant
            s == v@,
            start <= i <= v.len(),
            bounds_within(r@, v@.len()),
            r@.map_values(|p: (usize, usize)| v@.subrange(p.0 as int, p.1 as int))
                + prepend(s.subrange(start as int, i as int), split_blank(s.skip(i as int))) == split_blank(s),
        decreases v.len() - i,
    {
        let ghost before = r@.map_values(|p: (usize, usize)| v@.subrange(p.0 as int, p.1 as int));
        let ghost rest = s.skip(i as int);
        if v[i] == '\n' && i + 1 < v.len() && v[i + 1] == '\n' {
            proof {
                lemma_split_blank_nonempty(s.skip(i + 2));
                assert(rest.skip(2) =~= s.skip(i + 2));
                assert(rest[0] == '\n' && rest[1] == '\n');
            }
            let ghost r_before = r@;
            r.push((start, i));
            proof {
                assert(r@ == r_before.push((start, i)));
                assert(r@.map_values(|p: (usize, usize)| v@.subrange(p.0 as int, p.1 as int))
                    =~= before.push(s.subrange(start as int, i as int)));
                assert(s.subrange(i + 2, i + 2) =~= Seq::<char>::empty());
                assert(prepend(Seq::<char>::empty(), split_blank(s.skip(i + 2))) =~= split_blank(s.skip(i + 2)));
                assert(prepend(s.subrange(start as int, i as int), split_blank(rest))
                    =~= seq![s.subrange(start as int, i as int)] + split_blank(s.skip(i + 2)));
            }
            start = i + 2;
            i = i + 2;
        } else {
            proof {
                lemma_split_blank_nonempty(s.skip(i + 1));
                assert(rest.drop_first() =~= s.skip(i + 1));
                assert(rest[0] == s[i as int]);
                lemma_prepend_twice(s.subrange(start as int, i as int), seq![s[i as int]], split_blank(s.skip(i + 1)));
                assert(s.subrange(start as int, i as int) + seq![s[i as int]] =~= s.subrange(start as int, i + 1));
            }
            i = i + 1;
        }
    }
    r.push((start, i));
    proof {
        assert(s.skip(i as int) =~= Seq::<char>::empty());
        assert(prepend(s.subrange(start as int, i as int), seq![Seq::<char>::empty()])
            =~= seq![s.subrange(start as int, i as int)]);
        assert(r@.map_values(|p: (usize, usize)| v@.subrange(p.0 as int, p.1 as int))
            =~= split_blank(s));
    }
    r
}

/// Whether `c` ends a sentence: `.`, `?` or `!`.
pub open spec fn is_sentence_end(c: char) -> bool {
    c == '.' || c == '?' || c == '!'
}

/// Whether `s` reads as prose: a sentence end followed by a space
/// (`". "`, `"? "` or `"! "`) occurs in it.
pub open spec fn has_sentence_break(s: Seq<char>) -> bool {
    exists|i: int| 0 <= i < s.len() - 1 && is_sentence_end(#[trigger] s[i]) && s[i + 1] == ' '
}

/// The sentences of `s`: a piece ends after each sentence end that a space
/// follows; the space starts the next piece.
pub open spec fn split_sentences(s: Seq<char>) -> Seq<Seq<char>>
    decreases s.len(),
{
    if s.len() == 0 {
        seq![Seq::<char>::empty()]
    } else if s.len() >= 2 && is_sentence_end(s[0]) && s[1] == ' ' {
        prepend(seq![s[0]], seq![Seq::<char>::empty()] + split_sentences(s.drop_first()))
    } else {
        prepend(seq![s[0]], split_sentences(s.drop_first()))
    }
}

proof fn lemma_split_sentences_nonempty(s: Seq<char>)
    ensures
        split_sentences(s).len() >= 1,
    decreases s.len(),
{
    if s.len() > 0 {
        lemma_split_sentences_nonempty(s.drop_first());
    }
}

/// Whether `c` ends a sentence.
pub fn ends_sentence(c: char) -> (r: bool)
    ensures
        r == is_sentence_end(c),
{
    c == '.' || c == '?' || c == '!'
}

/// The bounds of the sentences of `v` (see `split_sentences`).
pub fn split_sentence_bounds(v: &Vec<char>) -> (r: Vec<(usize, usize)>)
    ensures
        r@.map_values(|p: (usize, usize)| v@.subrange(p.0 as int, p.1 as int)) == split_sentences(v@),
        bounds_within(r@, v@.len()),
{
    let mut r: Vec<(usize, usize)> = Vec::new();
    let mut start: usize = 0;
    let mut i: usize = 0;
    let ghost s = v@;
    proof {
        lemma_split_sentences_nonempty(s);
        assert(s.skip(0) =~= s);
        assert(prepend(Seq::<char>::empty(), split_sentences(s)) =~= split_sentences(s));
        assert(r@.map_values(|p: (usize, usize)| v@.subrange(p.0 as int, p.1 as int)) =~= Seq::<Seq<char>>::empty());
    }
    while i < v.len()
        invariant
            s == v@,
            start <= i <= v.len(),
            bounds_within(r@, v@.len()),
            r@.map_values(|p: (usize, usize)| v@.subrange(p.0 as int, p.1 as int))
                + prepend(s.subrange(start as int, i as int), split_sentences(s.skip(i as int))) == split_sentences(s),
        decreases v.len() - i,
    {
        let ghost before = r@.map_values(|p: (usize, usize)| v@.subrange(p.0 as int, p.1 as int));
        let ghost rest = s.skip(i as int);
        proof {
            lemma_split_sentences_nonempty(s.skip(i + 1));
            assert(rest.drop_first() =~= s.skip(i + 1));
            assert(rest[0] == s[i as int]);
            assert(s.subrange(start as int, i as int) + seq![s[i as int]] =~= s.subrange(start as int, i + 1));
        }
        if ends_sentence(v[i]) && i + 1 < v.len() && v[i + 1] == ' ' {
            proof {
                assert(rest[1] == ' ');
                let tail = seq![Seq::<char>::empty()] + split_sentences(s.skip(i + 1));
                lemma_prepend_twice(s.subrange(start as int, i as int), seq![s[i as int]], tail);
                assert(prepend(s.subrange(start as int, i + 1), tail)
                    =~= seq![s.subrange(start as int, i + 1)] + split_sentences(s.skip(i + 1)));
                assert(prepend(s.subrange(i + 1, i + 1), split_sentences(s.skip(i + 1))) =~= split_sentences(s.skip(i + 1)));
            }
            let ghost r_before = r@;
            r.push((start, i + 1));
            proof {
                assert(r@ == r_before.push((start, (i + 1) as usize)));
                assert(r@.map_values(|p: (usize, usize)| v@.subrange(p.0 as int, p.1 as int))
                    =~= before.push(s.subrange(start as int, i + 1)));
            }
            start = i + 1;
            i = i + 1;
        } else {
            proof {
                lemma_prepend_twice(s.subrange(start as int, i as int), seq![s[i as int]], split_sentences(s.skip(i + 1)));
            }
            i = i + 1;
        }
    }
    r.push((start, i));
    proof {
        assert(s.skip(i as int) =~= Seq::<char>::empty());
        assert(prepend(s.subrange(start as int, i as int), seq![Seq::<char>::empty()])
            =~= seq![s.subrange(start as int, i as int)]);
        assert(r@.map_values(|p: (usize, usize)| v@.subrange(p.0 as int, p.1 as int))
            =~= split_sentences(s));
    }
    r
}

/// Every non-overlapping occurrence of `pat` in `s`, from the left,
/// replaced by `rep` (`str::replace`, for a non-empty pattern).
pub open spec fn replace_all(s: Seq<char>, pat: Seq<char>, rep: Seq<char>) -> Seq<char>
    decreases s.len(),
{
    if s.len() == 0 || pat.len() == 0 {
        s
    } else if s.len() >= pat.len() && s.take(pat.len() as int) == pat {
        rep + replace_all(s.skip(pat.len() as int), pat, rep)
    } else {
        seq![s[0]] + replace_all(s.drop_first(), pat, rep)
    }
}

/// Whether `pat` occurs in `v` at position `i`.
fn occurs_at(v: &Vec<char>, pat: &Vec<char>, i: usize) -> (r: bool)
    requires
        i <= v.len(),
    ensures
        r == (v@.len() - i >= pat@.len() && v@.skip(i as int).take(pat@.len() as int) == pat@),
{
    if v.len() - i < pat.len() {
        return false;
    }
    let mut k: usize = 0;
    while k < pat.len()
        invariant
            i <= v.len(),
            v.len() - i >= pat.len(),
            k <= pat.len(),
            forall|j: int| 0 <= j < k ==> v@[i + j] == pat@[j],
        decreases pat.len() - k,
    {
        if v[i + k] != pat[k] {
            assert(v@.skip(i as int).take(pat@.len() as int)[k as int] == v@[i + k]);
            return false;
        }
        k = k + 1;
    }
    assert(v@.skip(i as int).take(pat@.len() as int) =~= pat@);
    true
}

/// `s` with every occurrence of the non-empty `pat` replaced by `rep`.
pub fn replace(s: &str, pat: &str, rep: &str) -> (r: String)
    requires
        pat@.len() > 0,
    ensures
        r@ == replace_all(s@, pat@, rep@),
{
    let v = crate::text::to_chars(s);
    let p = crate::text::to_chars(pat);
    let mut out = String::new();
    let mut i: usize = 0;
    assert(v@.skip(0) =~= v@);
    while i < v.len()
        invariant
            v@ == s@,
            p@ == pat@,
            p@.len() > 0,
            i <= v.len(),
            out@ + replace_all(v@.skip(i as int), p@, rep@) == replace_all(s@, pat@, rep@),
        decreases v.len() - i,
    {
        let ghost rest = v@.skip(i as int);
        if occurs_at(&v, &p, i) {
            out.append(rep);
            proof {
                assert(rest.skip(p@.len() as int) =~= v@.skip(i + p@.len()));
                assert(out@ + replace_all(v@.skip(i + p@.len()), p@, rep@)
                    =~= (out@.subrange(0, out@.len() - rep@.len()) + rep@) + replace_all(v@.skip(i + p@.len()), p@, rep@));
            }
            i = i + p.len();
        } else {
            let ghost before = out@;
            crate::text::push_char(&mut out, v[i]);
            proof {
                assert(rest.drop_first() =~= v@.skip(i + 1));
                assert(rest[0] == v@[i as int]);
                assert(before + replace_all(rest, p@, rep@)
                    =~= before.push(v@[i as int]) + replace_all(v@.skip(i + 1), p@, rep@));
            }
            i = i + 1;
        }
    }
    assert(v@.skip(i as int) =~= Seq::<char>::empty());
    assert(out@ + Seq::<char>::empty() =~= out@);
    out
}

} // verus!
