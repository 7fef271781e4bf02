//! Static trace input: one line per record, of the form
//! `frame;frame;...;frame count` — semicolon-separated frame names followed
//! by a space and a decimal sample weight.  A malformed line parses to
//! nothing and is skipped by the caller; it never aborts a load.

use crate::flame::FrameKey;
use vstd::prelude::*;

verus! {

/// Is `c` a decimal digit?
pub open spec fn is_digit(c: char) -> bool {
    '0' <= c <= '9'
}

/// The value of a digit string (most significant first), unbounded.
pub open spec fn digits_val(s: Seq<char>) -> int
    decreases s.len(),
{
    if s.len() == 0 {
        0
    } else {
        digits_val(s.drop_last()) * 10 + (s.last() as int - '0' as int)
    }
}

/// A valid sample count: at least one digit, digits only, and a value that
/// fits in a machine word.
pub open spec fn valid_count(s: Seq<char>) -> bool {
    &&& s.len() >= 1
    &&& (forall|i: int| 0 <= i < s.len() ==> is_digit(#[trigger] s[i]))
    &&& digits_val(s) <= u64::MAX
}

/// The position of the last space in `s`, if any.
pub open spec fn last_space(s: Seq<char>) -> Option<int>
    decreases s.len(),
{
    if s.len() == 0 {
        None
    } else if s.last() == ' ' {
        Some(s.len() - 1)
    } else {
        last_space(s.drop_last())
    }
}

/// The next semicolon at or after `k`, or the end of the string.
pub open spec fn next_semi(s: Seq<char>, k: int) -> int
    decreases s.len() - k,
{
    if k < 0 || k >= s.len() {
        s.len() as int
    } else if s[k] == ';' {
        k
    } else {
        next_semi(s, k + 1)
    }
}

/// The frame names obtained by splitting `s` at semicolons, from position
/// `start` on; empty segments are kept.
pub open spec fn split_frames(s: Seq<char>, start: int) -> Seq<Seq<char>>
    decreases s.len() - start,
        when 0 <= start <= s.len()
        via split_frames_decreases
{
    let e = next_semi(s, start);
    if start < 0 || start > s.len() {
        seq![]
    } else if e >= s.len() {
        seq![s.subrange(start, s.len() as int)]
    } else {
        seq![s.subrange(start, e)] + split_frames(s, e + 1)
    }
}

/// A semicolon scan never moves backwards and stops at the end.
proof fn lemma_next_semi_bounds(s: Seq<char>, k: int)
    requires
        0 <= k <= s.len(),
    ensures
        k <= next_semi(s, k) <= s.len(),
    decreases s.len() - k,
{
    if k < s.len() && s[k] != ';' {
        lemma_next_semi_bounds(s, k + 1);
    }
}

#[via_fn]
proof fn split_frames_decreases(s: Seq<char>, start: int) {
    lemma_next_semi_bounds(s, start);
}

/// A digit string never decreases by extension.
proof fn lemma_digits_val_nonneg(s: Seq<char>)
    requires
        forall|i: int| 0 <= i < s.len() ==> is_digit(#[trigger] s[i]),
    ensures
        digits_val(s) >= 0,
    decreases s.len(),
{
    if s.len() > 0 {
        lemma_digits_val_nonneg(s.drop_last());
        assert(digits_val(s.drop_last()) * 10 >= 0) by (nonlinear_arith)
            requires
                digits_val(s.drop_last()) >= 0,
        ;
    }
}

/// The value of a digit-string prefix never exceeds the whole value.
proof fn lemma_digits_val_prefix(s: Seq<char>, k: int)
    requires
        forall|i: int| 0 <= i < s.len() ==> is_digit(#[trigger] s[i]),
        0 <= k <= s.len(),
    ensures
        digits_val(s.subrange(0, k)) <= digits_val(s),
    decreases s.len() - k,
{
    if k == s.len() {
        assert(s.subrange(0, k) =~= s);
    } else {
        lemma_digits_val_prefix(s, k + 1);
        let p = s.subrange(0, k);
        let q = s.subrange(0, k + 1);
        assert(q.drop_last() =~= p);
        lemma_digits_val_nonneg(p);
        assert(digits_val(p) * 10 >= digits_val(p)) by (nonlinear_arith)
            requires
                digits_val(p) >= 0,
        ;
    }
}

/// Parse a decimal sample count; accepted exactly when the text is one or
/// more digits whose value fits.
pub fn parse_count(s: &str) -> (r: Option<u64>)
    ensures
        r is Some <==> valid_count(s@),
        r is Some ==> r->0 as int == digits_val(s@),
{
    let n = s.unicode_len();
    if n == 0 {
        return None;
    }
    let mut val: u64 = 0;
    let mut k: usize = 0;
    while k < n
        invariant
            n == s@.len(),
            k <= n,
            forall|i: int| 0 <= i < k ==> is_digit(#[trigger] s@[i]),
            val as int == digits_val(s@.subrange(0, k as int)),
        decreases n - k,
    {
        let c = s.get_char(k);
        if !(c >= '0' && c <= '9') {
            return None;
        }
        let d: u32 = c as u32 - 48;
        proof {
            assert(s@.subrange(0, k + 1).drop_last() =~= s@.subrange(0, k as int));
            assert(s@.subrange(0, k + 1).last() == s@[k as int]);
            assert(d as int == s@[k as int] as int - '0' as int);
        }
        if val > (u64::MAX - d as u64) / 10 {
            // the value no longer fits; by monotonicity the whole string
            // cannot fit either
            proof {
                assert(val * 10 + d > u64::MAX) by (nonlinear_arith)
                    requires
                        val as int > (u64::MAX as int - d) / 10,
                        0 <= d < 10,
                        val >= 0,
                ;
                if valid_count(s@) {
                    lemma_digits_val_prefix(s@, k + 1);
                    assert(digits_val(s@.subrange(0, k + 1)) == val * 10 + d);
                    assert(false);
                }
            }
            return None;
        }
        proof {
            assert(val * 10 + d <= u64::MAX) by (nonlinear_arith)
                requires
                    val as int <= (u64::MAX as int - d) / 10,
                    0 <= d < 10,
                    val >= 0,
            ;
        }
        val = val * 10 + d as u64;
        k += 1;
    }
    proof {
        assert(s@.subrange(0, n as int) =~= s@);
    }
    Some(val)
}

/// Find the last space of the line, if any.
fn find_last_space(s: &str) -> (r: Option<usize>)
    ensures
        match last_space(s@) {
            None => r is None,
            Some(i) => r == Some(i as usize),
        },
{
    let n = s.unicode_len();
    proof {
        assert(s@.subrange(0, n as int) =~= s@);
    }
    let mut k: usize = n;
    while k > 0
        invariant
            n == s@.len(),
            k <= n,
            last_space(s@) == last_space(s@.subrange(0, k as int)),
        decreases k,
    {
        let c = s.get_char(k - 1);
        proof {
            assert(s@.subrange(0, k as int).last() == s@[k - 1]);
            assert(s@.subrange(0, k as int).drop_last() =~= s@.subrange(0, k - 1));
        }
        if c == ' ' {
            return Some(k - 1);
        }
        k -= 1;
    }
    proof {
        assert(s@.subrange(0, 0).len() == 0);
    }
    None
}

/// The next semicolon of the line at or after `start`, or the line's end.
fn find_next_semi(s: &str, start: usize) -> (r: usize)
    requires
        start <= s@.len(),
    ensures
        r as int == next_semi(s@, start as int),
        start <= r <= s@.len(),
        r < s@.len() ==> s@[r as int] == ';',
{
    let n = s.unicode_len();
    let mut k: usize = start;
    while k < n
        invariant
            n == s@.len(),
            start <= k <= n,
            next_semi(s@, start as int) == next_semi(s@, k as int),
        decreases n - k,
    {
        if s.get_char(k) == ';' {
            return k;
        }
        k += 1;
    }
    k
}

/// Split the frame part of a line into frame keys, one per
/// semicolon-separated name (static input has no file or line fields).
fn split_frame_keys(s: &str, start: usize) -> (r: Vec<FrameKey>)
    requires
        start <= s@.len(),
    ensures
        r@.len() == split_frames(s@, start as int).len(),
        forall|j: int|
            0 <= j < r@.len() ==> {
                &&& (#[trigger] r@[j]).name@ == split_frames(s@, start as int)[j]
                &&& r@[j].file@ == Seq::<char>::empty()
                &&& r@[j].line == 0
            },
    decreases s@.len() - start,
{
    let e = find_next_semi(s, start);
    let name = s.substring_char(start, e).to_owned();
    let key = FrameKey { name, file: String::new(), line: 0 };
    if e == s.unicode_len() {
        let mut v: Vec<FrameKey> = Vec::new();
        v.push(key);
        v
    } else {
        let mut rest = split_frame_keys(s, e + 1);
        rest.insert(0, key);
        rest
    }
}

/// Parse one record line into its frame keys and sample weight.  The line
/// must carry a space followed by a valid decimal count; everything before
/// the last space is the semicolon-separated frame path.  Anything else
/// yields nothing.
pub fn parse_trace_line(s: &str) -> (r: Option<(Vec<FrameKey>, u64)>)
    ensures
        r is Some <==> (last_space(s@) is Some && valid_count(
            s@.subrange(last_space(s@)->0 + 1, s@.len() as int),
        )),
        r is Some ==> {
            let sp = last_space(s@)->0;
            let frames = (r->0).0;
            let weight = (r->0).1;
            &&& weight as int == digits_val(s@.subrange(sp + 1, s@.len() as int))
            &&& frames@.len() == split_frames(s@.subrange(0, sp), 0).len()
            &&& (forall|j: int|
                0 <= j < frames@.len() ==> (#[trigger] frames@[j]).name@ == split_frames(
                    s@.subrange(0, sp),
                    0,
                )[j])
            &&& (forall|j: int|
                0 <= j < frames@.len() ==> (#[trigger] frames@[j]).file@ == Seq::<char>::empty()
                    && frames@[j].line == 0)
        },
{
    let sp = match find_last_space(s) {
        None => {
            return None;
        },
        Some(i) => i,
    };
    proof {
        lemma_last_space_bound(s@);
    }
    let n = s.unicode_len();
    let count_part = s.substring_char(sp + 1, n);
    let count = match parse_count(count_part) {
        None => {
            return None;
        },
        Some(c) => c,
    };
    let frame_part = s.substring_char(0, sp);
    let frames = split_frame_keys(frame_part, 0);
    proof {
        lemma_split_frames_congruence(frame_part@, s@.subrange(0, sp as int), 0);
    }
    Some((frames, count))
}

/// A found last space lies inside the string.
proof fn lemma_last_space_bound(s: Seq<char>)
    ensures
        last_space(s) is Some ==> 0 <= last_space(s)->0 < s.len() && s[last_space(s)->0] == ' ',
    decreases s.len(),
{
    if s.len() > 0 && s.last() != ' ' {
        lemma_last_space_bound(s.drop_last());
        if last_space(s) is Some {
            assert(s.drop_last()[last_space(s)->0] == s[last_space(s)->0]);
        }
    }
}

/// Splitting equal texts gives equal frames.
proof fn lemma_split_frames_congruence(a: Seq<char>, b: Seq<char>, start: int)
    requires
        a == b,
    ensures
        split_frames(a, start) == split_frames(b, start),
{
}

} // verus!
