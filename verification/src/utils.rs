//! Human-readable formatting of byte sizes and timestamps.  Purely
//! cosmetic helpers for the listing front end; no effect on archive
//! semantics.

use vstd::prelude::*;

verus! {

use vstd::string::StringExecFns;

/// The decimal digit character for `d`.
pub open spec fn digit_char(d: nat) -> char {
    if d == 0 {
        '0'
    } else if d == 1 {
        '1'
    } else if d == 2 {
        '2'
    } else if d == 3 {
        '3'
    } else if d == 4 {
        '4'
    } else if d == 5 {
        '5'
    } else if d == 6 {
        '6'
    } else if d == 7 {
        '7'
    } else if d == 8 {
        '8'
    } else {
        '9'
    }
}

/// The decimal digits of `n`, most significant first, no leading zeros
/// (zero itself is "0").
pub open spec fn dec_digits(n: nat) -> Seq<char>
    decreases n,
{
    if n < 10 {
        seq![digit_char(n)]
    } else {
        dec_digits(n / 10) + seq![digit_char(n % 10)]
    }
}

/// `size` scaled by `unit` with two decimal places, rounded half up:
/// the text `W.FF`.
pub open spec fn scaled_text(size: u64, unit: u64) -> Seq<char>
    recommends
        unit >= 2,
{
    let r = (100 * size + unit / 2) / unit as int;
    dec_digits((r / 100) as nat) + seq!['.', digit_char(((r / 10) % 10) as nat), digit_char(
        (r % 10) as nat,
    )]
}

/// A byte count for human eyes: `B` below 1024, otherwise `KB`, `MB` or
/// `GB` with two decimal places.
pub open spec fn size_text(size: u64) -> Seq<char> {
    if size >= 0x4000_0000 {
        scaled_text(size, 0x4000_0000) + seq![' ', 'G', 'B']
    } else if size >= 0x10_0000 {
        scaled_text(size, 0x10_0000) + seq![' ', 'M', 'B']
    } else if size >= 1024 {
        scaled_text(size, 1024) + seq![' ', 'K', 'B']
    } else {
        dec_digits(size as nat) + seq![' ', 'B']
    }
}

/// The one-character string for a decimal digit.
fn digit_str(d: u128) -> (r: &'static str)
    requires
        d < 10,
    ensures
        r@ == seq![digit_char(d as nat)],
{
    proof {
        reveal_strlit("0");
        reveal_strlit("1");
        reveal_strlit("2");
        reveal_strlit("3");
        reveal_strlit("4");
        reveal_strlit("5");
        reveal_strlit("6");
        reveal_strlit("7");
        reveal_strlit("8");
        reveal_strlit("9");
    }
    if d == 0 {
        "0"
    } else if d == 1 {
        "1"
    } else if d == 2 {
        "2"
    } else if d == 3 {
        "3"
    } else if d == 4 {
        "4"
    } else if d == 5 {
        "5"
    } else if d == 6 {
        "6"
    } else if d == 7 {
        "7"
    } else if d == 8 {
        "8"
    } else {
        "9"
    }
}

/// Append the decimal digits of `n` to `out`.
fn push_dec(n: u128, out: &mut String)
    ensures
        final(out)@ == old(out)@ + dec_digits(n as nat),
    decreases n,
{
    if n < 10 {
        out.append(digit_str(n));
    } else {
        push_dec(n / 10, out);
        out.append(digit_str(n % 10));
        proof {
            assert(old(out)@ + (dec_digits((n / 10) as nat) + seq![digit_char((n % 10) as nat)])
                =~= (old(out)@ + dec_digits((n / 10) as nat)) + seq![digit_char((n % 10) as nat)]);
        }
    }
}

/// Append `W.FF`, `size` scaled by `unit` with two rounded decimals.
fn push_scaled(size: u64, unit: u64, out: &mut String)
    requires
        1024 <= unit,
        unit == 1024 || unit == 0x10_0000 || unit == 0x4000_0000,
    ensures
        final(out)@ == old(out)@ + scaled_text(size, unit),
{
    let r: u128 = (100u128 * (size as u128) + (unit / 2) as u128) / (unit as u128);
    push_dec(r / 100, out);
    proof {
        reveal_strlit(".");
    }
    out.append(".");
    out.append(digit_str((r / 10) % 10));
    out.append(digit_str(r % 10));
    proof {
        assert(final(out)@ =~= old(out)@ + scaled_text(size, unit));
    }
}

/// Format a byte count for display: plain bytes below 1024, otherwise
/// two-decimal `KB`, `MB` or `GB`, rounding half up.
pub fn format_size(size: u64) -> (r: String)
    ensures
        r@ == size_text(size),
{
    let mut out = String::new();
    proof {
        reveal_strlit(" GB");
        reveal_strlit(" MB");
        reveal_strlit(" KB");
        reveal_strlit(" B");
    }
    if size >= 0x4000_0000 {
        push_scaled(size, 0x4000_0000, &mut out);
        out.append(" GB");
    } else if size >= 0x10_0000 {
        push_scaled(size, 0x10_0000, &mut out);
        out.append(" MB");
    } else if size >= 1024 {
        push_scaled(size, 1024, &mut out);
        out.append(" KB");
    } else {
        push_dec(size as u128, &mut out);
        out.append(" B");
    }
    proof {
        assert(out@ =~= size_text(size));
    }
    out
}

/// What the `YYYY-MM-DD HH:MM:SS` rendering of a count of seconds since
/// the Unix epoch looks like; a pure function of the seconds.
pub uninterp spec fn time_text_of(secs: u64) -> Seq<char>;

/// Relies on chrono's `DateTime::from_timestamp` and its formatter: the
/// rendering depends on the seconds alone.  A count above `i64::MAX`
/// passes through the signed conversion first, and seconds outside
/// chrono's calendar range render as the epoch; both lie far beyond any
/// real file time.
#[verifier::external_body]
pub fn format_time(secs: u64) -> (r: String)
    ensures
        r@ == time_text_of(secs),
{
    let moment = chrono::DateTime::from_timestamp(secs as i64, 0).unwrap_or_default();
    moment.naive_utc().format("%Y-%m-%d %H:%M:%S").to_string()
}

} // verus!
