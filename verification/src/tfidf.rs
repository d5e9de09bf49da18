//! Tokenizing tool descriptions for term-based tool search.
use vstd::prelude::*;
use vstd::string::*;
use vstd::utf8::*;
use crate::text::{lowercase, to_lowercase, to_chars, from_char_range, str_eq};
use crate::textsplit::{Separator, split_on, split_bounds, bounds_within, nonempty};

verus! {

/// Words too common to say anything about a tool.
pub open spec fn is_stop_word(t: Seq<char>) -> bool {
    ||| t == "a"@ ||| t == "an"@ ||| t == "the"@ ||| t == "is"@ ||| t == "it"@ ||| t == "in"@
    ||| t == "on"@ ||| t == "at"@ ||| t == "to"@ ||| t == "do"@ ||| t == "for"@ ||| t == "of"@
    ||| t == "and"@ ||| t == "or"@ ||| t == "not"@ ||| t == "be"@ ||| t == "by"@ ||| t == "as"@
    ||| t == "with"@ ||| t == "this"@ ||| t == "that"@ ||| t == "from"@ ||| t == "are"@
    ||| t == "was"@ ||| t == "has"@ ||| t == "have"@ ||| t == "but"@ ||| t == "if"@
    ||| t == "then"@ ||| t == "than"@ ||| t == "so"@ ||| t == "use"@ ||| t == "used"@
}

/// A piece is kept as a token when it has at least 3 bytes and is not a
/// stop word.
pub open spec fn keep_token(t: Seq<char>) -> bool {
    encode_utf8(t).len() >= 3 && !is_stop_word(t)
}

/// The kept pieces, in order.
pub open spec fn kept_tokens(pieces: Seq<Seq<char>>) -> Seq<Seq<char>>
    decreases pieces.len(),
{
    if pieces.len() == 0 {
        Seq::empty()
    } else if keep_token(pieces.last()) {
        kept_tokens(pieces.drop_last()).push(pieces.last())
    } else {
        kept_tokens(pieces.drop_last())
    }
}

/// The tokens of a text: its lower-case form split on every character that
/// is not alphanumeric, keeping pieces of 3 bytes or more that are not stop
/// words.
pub open spec fn spec_tokenize(text: Seq<char>) -> Seq<Seq<char>> {
    kept_tokens(split_on(lowercase(text), Separator::NonAlphanumeric))
}

/// Whether `t` is a stop word.
fn stop_word(t: &str) -> (r: bool)
    ensures
        r == is_stop_word(t@),
{
    str_eq(t, "a") || str_eq(t, "an") || str_eq(t, "the") || str_eq(t, "is") || str_eq(t, "it")
        || str_eq(t, "in") || str_eq(t, "on") || str_eq(t, "at") || str_eq(t, "to") || str_eq(t, "do")
        || str_eq(t, "for") || str_eq(t, "of") || str_eq(t, "and") || str_eq(t, "or") || str_eq(t, "not")
        || str_eq(t, "be") || str_eq(t, "by") || str_eq(t, "as") || str_eq(t, "with") || str_eq(t, "this")
        || str_eq(t, "that") || str_eq(t, "from") || str_eq(t, "are") || str_eq(t, "was") || str_eq(t, "has")
        || str_eq(t, "have") || str_eq(t, "but") || str_eq(t, "if") || str_eq(t, "then") || str_eq(t, "than")
        || str_eq(t, "so") || str_eq(t, "use") || str_eq(t, "used")
}

/// Splits a description into search terms: lower-cased, split on
/// non-alphanumeric characters, without pieces under 3 bytes or stop words.
pub fn tokenize(text: &str) -> (r: Vec<String>)
    ensures
        r@.map_values(|s: String| s@) == spec_tokenize(text@),
{
    let lower = to_lowercase(text);
    let v = to_chars(lower.as_str());
    let bounds = split_bounds(&v, Separator::NonAlphanumeric);
    let ghost pieces = bounds@.map_values(|p: (usize, usize)| v@.subrange(p.0 as int, p.1 as int));
    assert(pieces == split_on(lowercase(text@), Separator::NonAlphanumeric));
    let mut r: Vec<String> = Vec::new();
    let mut k: usize = 0;
    assert(r@.map_values(|s: String| s@) =~= kept_tokens(pieces.take(0)));
    while k < bounds.len()
        invariant
            k <= bounds.len(),
            bounds_within(bounds@, v@.len()),
            pieces == bounds@.map_values(|p: (usize, usize)| v@.subrange(p.0 as int, p.1 as int)),
            r@.map_values(|s: String| s@) == kept_tokens(pieces.take(k as int)),
        decreases bounds.len() - k,
    {
        let (a, b) = bounds[k];
        let piece = from_char_range(&v, a, b);
        proof {
            assert(bounds@[k as int].0 <= bounds@[k as int].1 <= v@.len());
            assert(pieces.take(k + 1).drop_last() =~= pieces.take(k as int));
            assert(pieces.take(k + 1).last() == piece@);
        }
        let keep = {
            let ps = piece.as_str();
            assert(ps.spec_bytes() == encode_utf8(piece@));
            ps.as_bytes().len() >= 3 && !stop_word(ps)
        };
        assert(keep == keep_token(piece@));
        if keep {
            let ghost before = r@;
            let ghost pv = piece@;
            r.push(piece);
            assert(r@.map_values(|s: String| s@) =~= before.map_values(|s: String| s@).push(pv));
        }
        k = k + 1;
    }
    assert(pieces.take(k as int) =~= pieces);
    r
}

/// The keywords of a text as the session's keyword accumulator takes
/// them: the text split on every character that is not alphanumeric, each
/// non-empty piece lower-cased, keeping those of 3 bytes or more that are
/// not stop words.
pub open spec fn spec_keyword_tokens(text: Seq<char>) -> Seq<Seq<char>> {
    kept_tokens(nonempty(split_on(text, Separator::NonAlphanumeric)).map_values(|p: Seq<char>| lowercase(p)))
}

/// The keywords of a text, in order (repeats kept).
pub fn keyword_tokens(text: &str) -> (r: Vec<String>)
    ensures
        r@.map_values(|s: String| s@) == spec_keyword_tokens(text@),
{
    let v = to_chars(text);
    let bounds = split_bounds(&v, Separator::NonAlphanumeric);
    let ghost pieces = bounds@.map_values(|p: (usize, usize)| v@.subrange(p.0 as int, p.1 as int));
    let ghost lowered = nonempty(pieces).map_values(|p: Seq<char>| lowercase(p));
    let mut r: Vec<String> = Vec::new();
    let mut k: usize = 0;
    assert(r@.map_values(|s: String| s@) =~= kept_tokens(nonempty(pieces.take(0)).map_values(|p: Seq<char>| lowercase(p))));
    while k < bounds.len()
        invariant
            k <= bounds.len(),
            v@ == text@,
            bounds_within(bounds@, v@.len()),
            pieces == bounds@.map_values(|p: (usize, usize)| v@.subrange(p.0 as int, p.1 as int)),
            r@.map_values(|s: String| s@) == kept_tokens(nonempty(pieces.take(k as int)).map_values(|p: Seq<char>| lowercase(p))),
        decreases bounds.len() - k,
    {
        let (a, b) = bounds[k];
        proof {
            assert(bounds@[k as int].0 <= bounds@[k as int].1 <= v@.len());
            assert(pieces.take(k + 1).drop_last() =~= pieces.take(k as int));
            assert(pieces.take(k + 1).last() == v@.subrange(a as int, b as int));
        }
        if a < b {
            let piece = from_char_range(&v, a, b);
            let low = to_lowercase(piece.as_str());
            let keep = {
                let ls = low.as_str();
                assert(ls.spec_bytes() == encode_utf8(low@));
                ls.as_bytes().len() >= 3 && !stop_word(ls)
            };
            proof {
                let ne = nonempty(pieces.take(k as int));
                assert(nonempty(pieces.take(k + 1)) == ne.push(piece@));
                assert(nonempty(pieces.take(k + 1)).map_values(|p: Seq<char>| lowercase(p))
                    =~= ne.map_values(|p: Seq<char>| lowercase(p)).push(low@));
                assert(keep == keep_token(low@));
                let l0 = ne.map_values(|p: Seq<char>| lowercase(p));
                assert(l0.push(low@).drop_last() =~= l0);
                assert(l0.push(low@).last() == low@);
            }
            if keep {
                let ghost before = r@;
                let ghost lv = low@;
                r.push(low);
                assert(r@.map_values(|s: String| s@) =~= before.map_values(|s: String| s@).push(lv));
            }
        } else {
            assert(nonempty(pieces.take(k + 1)) == nonempty(pieces.take(k as int)));
        }
        k = k + 1;
    }
    assert(pieces.take(k as int) =~= pieces);
    r
}

/// A keyword given as it is: its lower-case form, when that has 3 bytes
/// or more and is not a stop word.
pub fn keyword_of(word: &str) -> (r: Option<String>)
    ensures
        match r {
            Some(k) => k@ == lowercase(word@) && keep_token(lowercase(word@)),
            None => !keep_token(lowercase(word@)),
        },
{
    let low = to_lowercase(word);
    let keep = {
        let ls = low.as_str();
        assert(ls.spec_bytes() == encode_utf8(low@));
        ls.as_bytes().len() >= 3 && !stop_word(ls)
    };
    if keep {
        Some(low)
    } else {
        None
    }
}

} // verus!
