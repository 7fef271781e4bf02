//! Verified text formatting: decimal rendering of counts, fixed-point
//! percentages with two decimals, and zero-padded two-digit fields.  All
//! arithmetic is integral; percentages are computed in hundredths of a
//! percent.

use vstd::prelude::*;

verus! {

/// The decimal digit character for `d` (0 to 9).
pub open spec fn dec_digit(d: int) -> char {
    if d == 0 {
        '0'
    } else if d == 1 {
        '1'
    } else if d == 2 {
        '2'
    } else if d == 3 {
        '3'
    } else if d == 4 {
        '4'
    } else if d == 5 {
        '5'
    } else if d == 6 {
        '6'
    } else if d == 7 {
        '7'
    } else if d == 8 {
        '8'
    } else {
        '9'
    }
}

/// The decimal rendering of a non-negative integer, most significant digit
/// first.
pub open spec fn dec_str(n: int) -> Seq<char>
    decreases n,
{
    if n < 10 {
        seq![dec_digit(n)]
    } else {
        dec_str(n / 10).push(dec_digit(n % 10))
    }
}

/// Two digits with a leading zero (for values below 100; larger values
/// render in full).
pub open spec fn dec2_str(n: int) -> Seq<char> {
    if n < 10 {
        seq!['0'].push(dec_digit(n))
    } else {
        dec_str(n)
    }
}

/// `count` out of `total` in hundredths of a percent; zero when `total` is
/// not positive.
pub open spec fn percent_hundredths(count: int, total: int) -> int {
    if total <= 0 {
        0
    } else {
        count * 10000 / total
    }
}

/// "12.34"-style rendering of a value given in hundredths.
pub open spec fn hundredths_str(p: int) -> Seq<char> {
    dec_str(p / 100) + seq!['.'] + seq![dec_digit(p % 100 / 10)].push(dec_digit(p % 100 % 10))
}

/// The digit character of `d`, as a one-character string.
fn digit_str(d: u64) -> (r: &'static str)
    requires
        d < 10,
    ensures
        r@ == seq![dec_digit(d as int)],
{
    proof {
        reveal_strlit("0");
        reveal_strlit("1");
        reveal_strlit("2");
        reveal_strlit("3");
        reveal_strlit("4");
        reveal_strlit("5");
        reveal_strlit("6");
        reveal_strlit("7");
        reveal_strlit("8");
        reveal_strlit("9");
    }
    if d == 0 {
        "0"
    } else if d == 1 {
        "1"
    } else if d == 2 {
        "2"
    } else if d == 3 {
        "3"
    } else if d == 4 {
        "4"
    } else if d == 5 {
        "5"
    } else if d == 6 {
        "6"
    } else if d == 7 {
        "7"
    } else if d == 8 {
        "8"
    } else {
        "9"
    }
}

/// Decimal rendering of `n`.
pub fn u64_to_string(n: u64) -> (r: String)
    ensures
        r@ == dec_str(n as int),
    decreases n,
{
    if n < 10 {
        digit_str(n).to_owned()
    } else {
        let mut s = u64_to_string(n / 10);
        s.append(digit_str(n % 10));
        s
    }
}

/// Two-digit zero-padded rendering of `n` (wider if over 99).
pub fn u64_to_string2(n: u64) -> (r: String)
    ensures
        r@ == dec2_str(n as int),
{
    if n < 10 {
        proof {
            reveal_strlit("0");
        }
        let mut s = String::from_str("0");
        s.append(digit_str(n));
        proof {
            assert(s@ =~= dec2_str(n as int));
        }
        s
    } else {
        u64_to_string(n)
    }
}

/// Decimal rendering of a wide value.
pub fn u128_to_string(n: u128) -> (r: String)
    ensures
        r@ == dec_str(n as int),
    decreases n,
{
    if n < 10 {
        digit_str(n as u64).to_owned()
    } else {
        let mut s = u128_to_string(n / 10);
        s.append(digit_str((n % 10) as u64));
        s
    }
}

/// "12.34"-style percentage of `count` out of `total`, with two decimals,
/// computed in integer hundredths of a percent ("0.00" when `total` is 0;
/// above "100.00" when `count` exceeds `total`).
pub fn percent_string(count: u64, total: u64) -> (r: String)
    ensures
        r@ == hundredths_str(percent_hundredths(count as int, total as int)),
{
    let p: u128 = if total == 0 {
        0
    } else {
        proof {
            assert((count as int) * 10000 <= u64::MAX as int * 10000) by (nonlinear_arith)
                requires
                    0 <= count as int <= u64::MAX as int,
            ;
            vstd::arithmetic::div_mod::lemma_div_pos_is_pos(
                count as int * 10000,
                total as int,
            );
            assert(count as int * 10000 >= 0) by (nonlinear_arith)
                requires
                    count as int >= 0,
            ;
            vstd::arithmetic::div_mod::lemma_div_is_ordered(
                count as int * 10000,
                u64::MAX as int * 10000,
                total as int,
            );
            vstd::arithmetic::div_mod::lemma_div_nonincreasing(
                u64::MAX as int * 10000,
                total as int,
            );
        }
        (count as u128) * 10000 / (total as u128)
    };
    proof {
        assert(percent_hundredths(count as int, total as int) == p as int);
    }
    let whole = p / 100;
    let frac = (p % 100) as u64;
    let mut s = u128_to_string(whole);
    proof {
        reveal_strlit(".");
    }
    s.append(".");
    s.append(digit_str(frac / 10));
    s.append(digit_str(frac % 10));
    proof {
        assert(s@ =~= hundredths_str(p as int));
    }
    s
}

/// `n` space characters.
pub open spec fn spaces(n: int) -> Seq<char>
    decreases n,
{
    if n <= 0 {
        Seq::empty()
    } else {
        spaces(n - 1).push(' ')
    }
}

/// Pad `s` with spaces on the right up to `width` characters (longer
/// strings stay as they are).
pub fn pad_to_width(s: &mut String, width: usize)
    ensures
        final(s)@ == old(s)@ + spaces(width - old(s)@.len()),
{
    let ghost orig = s@;
    let mut have = s.as_str().unicode_len();
    proof {
        assert(s@ =~= orig + spaces(have - orig.len()));
        if have >= width {
            assert(orig + spaces(width - orig.len()) =~= orig);
        }
    }
    while have < width
        invariant
            have == s@.len(),
            s@ == orig + spaces(have - orig.len()),
            have >= orig.len(),
            have <= width || have == orig.len(),
        decreases width - have,
    {
        proof {
            reveal_strlit(" ");
        }
        s.append(" ");
        proof {
            assert(s@ =~= orig + spaces(have + 1 - orig.len()));
        }
        have += 1;
    }
    proof {
        if have > width {
            assert(orig + spaces(width - orig.len()) =~= orig);
            assert(orig + spaces(have - orig.len()) =~= orig);
        }
    }
}

/// "hh:mm:ss" rendering of a duration in seconds (hours unpadded past 99).
pub open spec fn duration_text(secs: int) -> Seq<char> {
    dec2_str(secs / 3600) + seq![':'] + dec2_str(secs / 60 % 60) + seq![':'] + dec2_str(secs % 60)
}

/// Render a whole-second duration as "hh:mm:ss".
pub fn duration_string(secs: u64) -> (r: String)
    ensures
        r@ == duration_text(secs as int),
{
    let mut s = u64_to_string2(secs / 3600);
    proof {
        reveal_strlit(":");
    }
    s.append(":");
    let m = u64_to_string2(secs / 60 % 60);
    s.append(m.as_str());
    s.append(":");
    let sec = u64_to_string2(secs % 60);
    s.append(sec.as_str());
    proof {
        assert(s@ =~= duration_text(secs as int));
    }
    s
}

} // verus!
