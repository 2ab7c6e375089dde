use vstd::prelude::*;

use crate::calendar::{civil_from_days, epoch_day, is_valid_date};
use crate::text::string_from_chars;

verus! {

/// The character of a decimal digit.
pub open spec fn digit_char(d: int) -> char {
    (d + 48) as char
}

/// The decimal digits of `n`, without leading zeros.
pub open spec fn decimal(n: nat) -> Seq<char>
    decreases n,
{
    if n < 10 {
        seq![digit_char(n as int)]
    } else {
        decimal(n / 10).push(digit_char((n % 10) as int))
    }
}

/// The decimal digits of `n`, with zeros in front up to width `w`.
pub open spec fn zero_padded(n: nat, w: nat) -> Seq<char> {
    let ds = decimal(n);
    if ds.len() < w {
        Seq::new((w - ds.len()) as nat, |i: int| '0') + ds
    } else {
        ds
    }
}

/// The text that stands for a missing size or date.
pub open spec fn dash() -> Seq<char> {
    seq!['\u{2014}']
}

fn digit(d: u64) -> (c: char)
    requires
        d < 10,
    ensures
        c == digit_char(d as int),
{
    ((d as u8) + 48) as char
}

pub(crate) fn push_decimal(out: &mut Vec<char>, n: u64)
    ensures
        final(out)@ == old(out)@ + decimal(n as nat),
    decreases n,
{
    if n < 10 {
        out.push(digit(n));
    } else {
        push_decimal(out, n / 10);
        out.push(digit(n % 10));
    }
    proof {
        assert(final(out)@ =~= old(out)@ + decimal(n as nat));
    }
}

fn push_padded(out: &mut Vec<char>, n: u64, w: usize)
    ensures
        final(out)@ == old(out)@ + zero_padded(n as nat, w as nat),
{
    let mut ds: Vec<char> = Vec::new();
    push_decimal(&mut ds, n);
    assert(ds@ =~= decimal(n as nat));
    let ghost start = out@;
    if ds.len() < w {
        let pad = w - ds.len();
        let mut k: usize = 0;
        while k < pad
            invariant
                k <= pad,
                out@ == start + Seq::new(k as nat, |i: int| '0'),
            decreases pad - k,
        {
            out.push('0');
            k = k + 1;
            assert(out@ =~= start + Seq::new(k as nat, |i: int| '0'));
        }
    }
    let mut i: usize = 0;
    let ghost mid = out@;
    while i < ds.len()
        invariant
            i <= ds@.len(),
            out@ == mid + ds@.take(i as int),
        decreases ds@.len() - i,
    {
        out.push(ds[i]);
        i = i + 1;
        assert(out@ =~= mid + ds@.take(i as int));
    }
    assert(ds@.take(i as int) =~= ds@);
    assert(final(out)@ =~= old(out)@ + zero_padded(n as nat, w as nat));
}

/// The text shown for a date and time: `YYYY-MM-DD HH:MM`, each field
/// zero-padded to its width.
pub open spec fn date_text(y: nat, mo: nat, d: nat, h: nat, mi: nat) -> Seq<char> {
    zero_padded(y, 4) + seq!['-'] + zero_padded(mo, 2) + seq!['-'] + zero_padded(d, 2) + seq![' ']
        + zero_padded(h, 2) + seq![':'] + zero_padded(mi, 2)
}

/// `t` is the text shown for the time `ts`, in seconds since the Unix epoch:
/// a dash where `ts` is zero or negative, else the UTC date and time of the
/// day whose number since the epoch is `ts / 86400`.
pub open spec fn shows_date(ts: int, t: Seq<char>) -> bool {
    &&& ts <= 0 ==> t == dash()
    &&& ts > 0 ==> exists|y: int, m: int, d: int|
        {
            &&& is_valid_date(y, m, d)
            &&& #[trigger] epoch_day(y, m, d) == ts / 86400
            &&& t == date_text(
                y as nat,
                m as nat,
                d as nat,
                ((ts % 86400) / 3600) as nat,
                ((ts % 86400) % 3600 / 60) as nat,
            )
        }
}

/// Formats a modification time given in seconds since the Unix epoch, in
/// UTC. A time that is zero or negative (unknown) is shown as a dash.
pub fn format_date(ts: i64) -> (r: String)
    ensures
        shows_date(ts as int, r@),
{
    if ts <= 0 {
        let v = vec!['\u{2014}'];
        assert(v@ =~= dash());
        return string_from_chars(v);
    }
    let secs = ts;
    let days_since_epoch = secs / 86400;
    let (y, m, d) = civil_from_days(days_since_epoch);
    let remaining = secs % 86400;
    let h = remaining / 3600;
    let min = (remaining % 3600) / 60;
    let mut out: Vec<char> = Vec::new();
    push_padded(&mut out, y as u64, 4);
    out.push('-');
    push_padded(&mut out, m as u64, 2);
    out.push('-');
    push_padded(&mut out, d as u64, 2);
    out.push(' ');
    push_padded(&mut out, h as u64, 2);
    out.push(':');
    push_padded(&mut out, min as u64, 2);
    proof {
        assert(out@ =~= date_text(y as nat, m as nat, d as nat, h as nat, min as nat));
        assert(epoch_day(y as int, m as int, d as int) == ts / 86400);
    }
    string_from_chars(out)
}

/// The spacing of the `f64` values next to `n`: the first of `unit`,
/// `2 * unit`, ... by which `n` divides to less than 2^53.
pub open spec fn f64_spacing_from(n: nat, unit: nat) -> nat
    decreases n - unit,
    when unit >= 1
{
    if n / unit < 0x20000000000000 {
        unit
    } else {
        proof {
            assert(n >= unit * 2) by (nonlinear_arith)
                requires
                    n / unit >= 0x20000000000000,
                    unit >= 1,
            ;
        }
        f64_spacing_from(n, unit * 2)
    }
}

/// `n` divided by `d` and rounded to the nearest integer, ties to the even one.
pub open spec fn round_half_even(n: nat, d: nat) -> nat {
    let q = n / d;
    let r = n % d;
    if 2 * r > d || (2 * r == d && q % 2 == 1) {
        q + 1
    } else {
        q
    }
}

/// What `n as f64` is: `n` rounded to the nearest `f64`, ties to the even one.
pub open spec fn nearest_f64(n: nat) -> nat {
    let u = f64_spacing_from(n, 1);
    round_half_even(n, u) * u
}

/// A count of tenths written with one decimal, such as `1.5`.
pub open spec fn tenths_text(t: nat) -> Seq<char> {
    decimal(t / 10) + seq!['.'] + seq![digit_char((t % 10) as int)]
}

/// `bytes / unit` as the float division gives it, shown with one decimal
/// (rounded to the nearest tenth, ties to the even one).
pub open spec fn scaled_text(bytes: nat, unit: nat) -> Seq<char> {
    tenths_text(round_half_even(nearest_f64(bytes) * 10, unit))
}

/// The text shown for a file size.
pub open spec fn size_text(bytes: nat) -> Seq<char> {
    if bytes == 0 {
        dash()
    } else if bytes < 1024 {
        decimal(bytes) + seq![' ', 'B']
    } else if bytes < 1024 * 1024 {
        scaled_text(bytes, 1024) + seq![' ', 'K', 'B']
    } else if bytes < 1024 * 1024 * 1024 {
        scaled_text(bytes, 1024 * 1024) + seq![' ', 'M', 'B']
    } else {
        scaled_text(bytes, 1024 * 1024 * 1024) + seq![' ', 'G', 'B']
    }
}

fn round_half_even_u128(n: u128, d: u128) -> (r: u128)
    requires
        d > 0,
        n < u128::MAX,
    ensures
        r == round_half_even(n as nat, d as nat),
{
    let q = n / d;
    let r = n % d;
    proof {
        assert(q * d <= n) by (nonlinear_arith)
            requires
                q == n / d,
                d > 0,
        ;
        assert(q < u128::MAX) by (nonlinear_arith)
            requires
                q * d <= n,
                d > 0,
                n < u128::MAX,
        ;
    }
    if (r > d - r) || (r == d - r && q % 2 == 1) {
        q + 1
    } else {
        q
    }
}

fn nearest_f64_u128(n: u64) -> (r: u128)
    ensures
        r == nearest_f64(n as nat),
        r <= 0x20000000000000000,
{
    let m = n as u128;
    let mut unit: u128 = 1;
    while m / unit >= 0x20000000000000
        invariant
            1 <= unit <= m + 1,
            m < 0x10000000000000000,
            f64_spacing_from(m as nat, unit as nat) == f64_spacing_from(m as nat, 1),
        decreases m - unit,
    {
        proof {
            assert(m >= unit * 2) by (nonlinear_arith)
                requires
                    m / unit >= 0x20000000000000,
                    unit >= 1,
            ;
        }
        unit = unit * 2;
    }
    let k = round_half_even_u128(m, unit);
    proof {
        assert(m / unit < 0x20000000000000);
        assert(k <= m / unit + 1);
        assert((m / unit) * unit <= m) by (nonlinear_arith)
            requires
                unit >= 1,
        ;
        assert(k * unit <= 0x20000000000000000) by (nonlinear_arith)
            requires
                k <= m / unit + 1,
                unit >= 1,
                unit <= m + 1,
                (m / unit) * unit <= m,
                m < 0x10000000000000000,
        ;
    }
    k * unit
}

/// Formats a file size: a dash for 0, whole bytes below 1 KiB, else
/// kibibytes, mebibytes or gibibytes with one decimal.
pub fn format_size(bytes: u64) -> (r: String)
    ensures
        r@ == size_text(bytes as nat),
{
    if bytes == 0 {
        let v = vec!['\u{2014}'];
        return string_from_chars(v);
    }
    let mut out: Vec<char> = Vec::new();
    if bytes < 1024 {
        push_decimal(&mut out, bytes);
        out.push(' ');
        out.push('B');
        assert(out@ =~= size_text(bytes as nat));
        return string_from_chars(out);
    }
    let (unit, letter): (u128, char) = if bytes < 1024 * 1024 {
        (1024, 'K')
    } else if bytes < 1024 * 1024 * 1024 {
        (1024 * 1024, 'M')
    } else {
        (1024 * 1024 * 1024, 'G')
    };
    let f = nearest_f64_u128(bytes);
    let t = round_half_even_u128(f * 10, unit);
    proof {
        let ft: int = f * 10;
        assert(t <= ft / (unit as int) + 1);
        assert(ft / (unit as int) <= ft / 1024) by {
            vstd::arithmetic::div_mod::lemma_div_is_ordered_by_denominator(
                (f * 10) as int,
                1024,
                unit as int,
            );
        }
        assert(t / 10 < 0x10000000000000000);
    }
    push_decimal(&mut out, (t / 10) as u64);
    out.push('.');
    out.push(digit((t % 10) as u64));
    out.push(' ');
    out.push(letter);
    out.push('B');
    assert(out@ =~= size_text(bytes as nat));
    string_from_chars(out)
}

} // verus!
