//! Reading server-sent events from an HTTP backend, and when to reconnect.
use vstd::prelude::*;
use vstd::string::*;
use crate::routing::{find_char, first_index};
use crate::text::{from_char_range, to_chars};
use crate::textsplit::{trim, trim_bounds};

verus! {

/// The line without a trailing carriage return.
pub open spec fn strip_cr(l: Seq<char>) -> Seq<char> {
    if l.len() > 0 && l.last() == '\r' { l.drop_last() } else { l }
}

/// The lines of a text (`str::lines`): split at `\n`, a `\r` before the
/// `\n` dropped, no empty line after a final `\n`.
pub open spec fn text_lines(s: Seq<char>) -> Seq<Seq<char>>
    decreases s.len(),
{
    if s.len() == 0 {
        Seq::empty()
    } else {
        let i = first_index(s, '\n');
        if i < 0 {
            seq![s]
        } else {
            proof {
                lemma_first_index_below(s, '\n');
            }
            seq![strip_cr(s.take(i))] + text_lines(s.skip(i + 1))
        }
    }
}

/// A found position lies within the sequence.
pub proof fn lemma_first_index_below(s: Seq<char>, c: char)
    ensures
        first_index(s, c) < s.len(),
        first_index(s, c) >= -1,
    decreases s.len(),
{
    if s.len() > 0 && s[0] != c {
        lemma_first_index_below(s.drop_first(), c);
    }
}

/// The event-stream field prefix `data:`.
pub open spec fn data_prefix() -> Seq<char> {
    seq!['d', 'a', 't', 'a', ':']
}

/// The payload of the first `data:` line among `lines` whose trimmed
/// remainder is not empty.
pub open spec fn first_data(lines: Seq<Seq<char>>) -> Option<Seq<char>>
    decreases lines.len(),
{
    if lines.len() == 0 {
        None
    } else {
        let l = lines[0];
        if data_prefix().is_prefix_of(l) && trim(l.skip(5)).len() > 0 {
            Some(trim(l.skip(5)))
        } else {
            first_data(lines.drop_first())
        }
    }
}

/// The payload of the first non-empty `data:` line of an event stream,
/// trimmed; `None` when there is none.
pub fn sse_data(text: &str) -> (r: Option<String>)
    ensures
        match r {
            Some(d) => first_data(text_lines(text@)) == Some(d@),
            None => first_data(text_lines(text@)) is None,
        },
{
    let v = to_chars(text);
    let mut pos: usize = 0;
    assert(v@.skip(0) =~= v@);
    while pos < v.len()
        invariant
            v@ == text@,
            pos <= v.len(),
            first_data(text_lines(text@)) == first_data(text_lines(v@.skip(pos as int))),
        decreases v.len() - pos,
    {
        let ghost rest = v@.skip(pos as int);
        let nl = find_from_char(&v, '\n', pos);
        let (line_end, next) = match nl {
            Some(i) => {
                if i > pos && v[i - 1] == '\r' { (i - 1, i + 1) } else { (i, i + 1) }
            },
            None => (v.len(), v.len()),
        };
        let ghost line = v@.subrange(pos as int, line_end as int);
        proof {
            match nl {
                Some(i) => {
                    assert(rest.take(i - pos) =~= v@.subrange(pos as int, i as int));
                    assert(rest.skip(i - pos + 1) =~= v@.skip(i + 1));
                    if i > pos && v@[i - 1] == '\r' {
                        assert(line =~= strip_cr(rest.take(i - pos)));
                    } else {
                        assert(line =~= strip_cr(rest.take(i - pos)));
                    }
                    assert(text_lines(rest) == seq![line] + text_lines(v@.skip(next as int)));
                },
                None => {
                    assert(line =~= rest);
                    assert(text_lines(rest) == seq![line]);
                    assert(v@.skip(next as int) =~= Seq::<char>::empty());
                },
            }
            assert((seq![line] + text_lines(v@.skip(next as int)))[0] == line);
            assert((seq![line] + text_lines(v@.skip(next as int))).drop_first() =~= text_lines(v@.skip(next as int)));
        }
        if line_end - pos >= 5 && v[pos] == 'd' && v[pos + 1] == 'a' && v[pos + 2] == 't' && v[pos + 3] == 'a' && v[pos + 4] == ':' {
            assert(data_prefix().is_prefix_of(line)) by {
                assert(line.subrange(0, 5) =~= data_prefix());
            }
            let (a, b) = trim_bounds(&v, pos + 5, line_end);
            assert(line.skip(5) =~= v@.subrange(pos + 5, line_end as int));
            if a < b {
                let d = from_char_range(&v, a, b);
                return Some(d);
            }
        } else {
            assert(!data_prefix().is_prefix_of(line)) by {
                if data_prefix().is_prefix_of(line) {
                    assert(line.subrange(0, 5) =~= data_prefix());
                    assert(line[0] == v@[pos as int]);
                    assert(line[1] == v@[pos + 1]);
                    assert(line[2] == v@[pos + 2]);
                    assert(line[3] == v@[pos + 3]);
                    assert(line[4] == v@[pos + 4]);
                }
            }
        }
        pos = next;
    }
    assert(v@.skip(pos as int) =~= Seq::<char>::empty());
    None
}

/// The position of the first `c` in `v` at or after `from`, if any.
pub(crate) fn find_from_char(v: &Vec<char>, c: char, from: usize) -> (r: Option<usize>)
    requires
        from <= v.len(),
    ensures
        match r {
            Some(i) => from <= i < v.len() && i - from == first_index(v@.skip(from as int), c),
            None => first_index(v@.skip(from as int), c) < 0,
        },
{
    let mut i: usize = from;
    while i < v.len()
        invariant
            from <= i <= v.len(),
            first_index(v@.skip(from as int), c) == if first_index(v@.skip(i as int), c) < 0 {
                -1
            } else {
                first_index(v@.skip(i as int), c) + (i - from)
            },
        decreases v.len() - i,
    {
        let ghost rest = v@.skip(i as int);
        assert(rest[0] == v@[i as int]);
        assert(rest.drop_first() =~= v@.skip(i + 1));
        if v[i] == c {
            return Some(i);
        }
        i = i + 1;
    }
    assert(v@.skip(i as int) =~= Seq::<char>::empty());
    None
}

/// What the receiver does when an event stream ended without a message.
#[derive(Debug, Clone, Copy, PartialEq, Eq, Structural)]
pub enum Reconnect {
    /// Too many attempts: give up ("Max reconnection attempts exceeded").
    GiveUp,
    /// Wait this many seconds, then reconnect.
    After(u64),
}

/// The backoff before reconnection attempt `attempt` (from 1): `2^(attempt - 1)`
/// seconds, at most 30.
pub open spec fn reconnect_delay(attempt: nat) -> nat {
    let d = vstd::arithmetic::power2::pow2((attempt - 1) as nat);
    if d < 30 { d } else { 30 }
}

/// After a stream ended: the attempt count goes up by one; beyond five
/// attempts the receiver gives up, otherwise it waits `2^(n-1)` seconds
/// (at most 30) before attempt `n`.
pub fn reconnect_after_end(attempts: &mut u32) -> (r: Reconnect)
    requires
        *old(attempts) < u32::MAX,
    ensures
        *final(attempts) == *old(attempts) + 1,
        *final(attempts) > 5 ==> r == Reconnect::GiveUp,
        *final(attempts) <= 5 ==> r == Reconnect::After(reconnect_delay(*final(attempts) as nat) as u64),
{
    *attempts = *attempts + 1;
    if *attempts > 5 {
        return Reconnect::GiveUp;
    }
    let n = *attempts;
    proof {
        vstd::arithmetic::power2::lemma2_to64();
    }
    let d: u64 = if n == 1 { 1 } else if n == 2 { 2 } else if n == 3 { 4 } else if n == 4 { 8 } else { 16 };
    Reconnect::After(d)
}

} // verus!
