//! Rendering of bucket bounds as human-readable latency text.
//!
//! A bucket's upper bound is kept in the histogram's sub-nanosecond unit.
//! Below one nanosecond it renders as a whole number of those units; below
//! one hundred nanoseconds as nanoseconds with two fractional digits,
//! rounded half-up; above that as a coarse human-readable duration.

use vstd::prelude::*;
use vstd::string::StringExecFns;

verus! {

/// The decimal digit character for `d` in `0..=9`.
pub open spec fn digit_char(d: int) -> char {
    if d == 0 {
        '0'
    } else if d == 1 {
        '1'
    } else if d == 2 {
        '2'
    } else if d == 3 {
        '3'
    } else if d == 4 {
        '4'
    } else if d == 5 {
        '5'
    } else if d == 6 {
        '6'
    } else if d == 7 {
        '7'
    } else if d == 8 {
        '8'
    } else {
        '9'
    }
}

/// The decimal text of `n`, most significant digit first, no leading
/// zeros (a single zero for zero).
pub open spec fn dec_str(n: int) -> Seq<char>
    recommends
        n >= 0,
    decreases n,
{
    if n < 10 {
        seq![digit_char(n)]
    } else {
        dec_str(n / 10).push(digit_char(n % 10))
    }
}

/// The fractional text, zero-padded to two digits: a leading zero below
/// ten, plain decimal otherwise.
pub open spec fn two_digit_str(x: int) -> Seq<char>
    recommends
        0 <= x < 100,
{
    if x < 10 {
        seq!['0'] + dec_str(x)
    } else {
        dec_str(x)
    }
}

/// What humantime's duration formatter prints for `nanos` nanoseconds.
pub uninterp spec fn coarse_duration_text(nanos: u64) -> Seq<char>;

/// The display text of a bucket's upper bound `ps`, in the histogram's
/// sub-nanosecond unit: whole units below one nanosecond; nanoseconds with
/// two fractional digits, rounded half-up, below one hundred nanoseconds
/// (a fraction that rounds to a whole nanosecond carries into the whole
/// part); a coarse human-readable duration otherwise.
pub open spec fn bucket_end_text(ps: u64) -> Seq<char> {
    if ps < 1000 {
        dec_str(ps as int) + " ps"@
    } else if ps < 100000 {
        if ((ps as int % 1000) + 5) / 10 == 100 {
            dec_str(ps as int / 1000 + 1) + ".00 ns"@
        } else {
            dec_str(ps as int / 1000) + "."@ + two_digit_str(((ps as int % 1000) + 5) / 10)
                + " ns"@
        }
    } else {
        coarse_duration_text((ps / 1000) as u64)
    }
}

/// The single-character text of one decimal digit.
fn digit_str(d: u64) -> (s: &'static str)
    requires
        d < 10,
    ensures
        s@ == seq![digit_char(d as int)],
{
    proof {
        reveal_strlit("0");
        reveal_strlit("1");
        reveal_strlit("2");
        reveal_strlit("3");
        reveal_strlit("4");
        reveal_strlit("5");
        reveal_strlit("6");
        reveal_strlit("7");
        reveal_strlit("8");
        reveal_strlit("9");
    }
    let s: &'static str = match d {
        0 => "0",
        1 => "1",
        2 => "2",
        3 => "3",
        4 => "4",
        5 => "5",
        6 => "6",
        7 => "7",
        8 => "8",
        _ => "9",
    };
    proof {
        assert(s@ =~= seq![digit_char(d as int)]);
    }
    s
}

/// Formats a number as decimal text.
pub fn format_u64(n: u64) -> (s: String)
    ensures
        s@ == dec_str(n as int),
    decreases n,
{
    let d = n % 10;
    let ds = digit_str(d);
    if n < 10 {
        ds.to_owned()
    } else {
        let mut s = format_u64(n / 10);
        s.append(ds);
        proof {
            assert(s@ =~= dec_str(n as int));
        }
        s
    }
}

/// Formats a fraction's hundredths, zero-padded to two digits.
pub fn format_two_digits(x: u64) -> (s: String)
    ensures
        s@ == two_digit_str(x as int),
{
    if x < 10 {
        proof {
            reveal_strlit("0");
        }
        let mut s = "0".to_owned();
        s.append(digit_str(x));
        proof {
            assert(s@ =~= two_digit_str(x as int));
        }
        s
    } else {
        format_u64(x)
    }
}

/// Relies on humantime::format_duration: the returned text is a pure
/// function of the duration handed to it (years down to nanoseconds,
/// largest unit first, zero components omitted).
#[verifier::external_body]
fn coarse_duration(nanos: u64) -> (s: String)
    ensures
        s@ == coarse_duration_text(nanos),
{
    humantime::format_duration(std::time::Duration::from_nanos(nanos)).to_string()
}

/// Formats a bucket's upper bound: whole sub-nanosecond units below one
/// nanosecond ("500 ps"), two fractional digits rounded half-up below one
/// hundred nanoseconds ("12.35 ns"; "12.999 ns" worth rounds to
/// "13.00 ns"), a coarse duration above ("5us").
pub fn format_bucket_end(ps: u64) -> (s: String)
    ensures
        s@ == bucket_end_text(ps),
{
    if ps < 1000 {
        let mut s = format_u64(ps);
        s.append(" ps");
        s
    } else if ps < 100000 {
        let frac = ((ps % 1000) + 5) / 10;
        if frac == 100 {
            let mut s = format_u64(ps / 1000 + 1);
            s.append(".00 ns");
            s
        } else {
            let mut s = format_u64(ps / 1000);
            s.append(".");
            let frac_text = format_two_digits(frac);
            s.append(frac_text.as_str());
            s.append(" ns");
            s
        }
    } else {
        coarse_duration(ps / 1000)
    }
}

} // verus!
