use vstd::prelude::*;

use crate::calendar::{
    epoch_day, is_valid_date, lemma_div, lemma_epoch_day_increasing, lemma_epoch_day_injective,
    lemma_year_in_range,
};
use vstd::arithmetic::div_mod::lemma_div_is_ordered;
use crate::display::{date_text, decimal, digit_char, shows_date, zero_padded};
use crate::lexical::{
    chars_before, lemma_chars_before_concat, lemma_chars_before_irreflexive,
    lemma_chars_before_total,
};

verus! {

/// Two digits, with a leading zero below ten.
proof fn lemma_zp2(n: nat)
    requires
        n < 100,
    ensures
        zero_padded(n, 2) == seq![digit_char(n as int / 10), digit_char(n as int % 10)],
{
    reveal_with_fuel(decimal, 2);
    if n < 10 {
        lemma_div(n as int, 10, 0);
        assert(digit_char(0) == '0');
        assert(zero_padded(n, 2) =~= seq![digit_char(n as int / 10), digit_char(n as int % 10)]);
    } else {
        lemma_div(n as int, 10, n as int / 10);
        assert(decimal(n) =~= seq![digit_char(n as int / 10), digit_char(n as int % 10)]);
    }
}

/// Four digits are the two leading and the two trailing ones.
proof fn lemma_zp4(n: nat)
    requires
        n < 10000,
    ensures
        zero_padded(n, 4) == zero_padded(n / 100, 2) + zero_padded(n % 100, 2),
{
    reveal_with_fuel(decimal, 5);
    let q = n as int / 100;
    let r = n as int % 100;
    lemma_div(n as int, 100, q);
    let t = r / 10;
    let u = r % 10;
    lemma_div(r, 10, t);
    lemma_div(n as int, 10, 10 * q + t);
    lemma_div(10 * q + t, 10, q);
    lemma_zp2(q as nat);
    lemma_zp2(r as nat);
    assert(digit_char(0) == '0');
    if q < 10 {
        lemma_div(q, 10, 0);
    } else {
        lemma_div(q, 10, q / 10);
    }
    if n < 10 {
        assert(zero_padded(n, 4) =~= zero_padded(n / 100, 2) + zero_padded(n % 100, 2));
    } else if n < 100 {
        assert(decimal(n) =~= seq![digit_char(t), digit_char(u)]);
        assert(zero_padded(n, 4) =~= zero_padded(n / 100, 2) + zero_padded(n % 100, 2));
    } else if n < 1000 {
        assert(decimal(n) =~= seq![digit_char(q), digit_char(t), digit_char(u)]);
        assert(zero_padded(n, 4) =~= zero_padded(n / 100, 2) + zero_padded(n % 100, 2));
    } else {
        assert(decimal(n) =~= seq![digit_char(q / 10), digit_char(q % 10), digit_char(t), digit_char(u)]);
        assert(zero_padded(n, 4) =~= zero_padded(n / 100, 2) + zero_padded(n % 100, 2));
    }
}

/// One character comes before another by its code point.
proof fn lemma_one_char(x: char, y: char)
    ensures
        chars_before(seq![x], seq![y]) == ((x as int) < (y as int)),
{
    reveal_with_fuel(chars_before, 2);
    assert(seq![x].drop_first() =~= Seq::<char>::empty());
    assert(seq![y].drop_first() =~= Seq::<char>::empty());
}

/// Two-digit texts compare as their numbers do.
proof fn lemma_zp2_order(n1: nat, n2: nat)
    requires
        n1 < 100,
        n2 < 100,
    ensures
        chars_before(zero_padded(n1, 2), zero_padded(n2, 2)) == (n1 < n2),
        (zero_padded(n1, 2) == zero_padded(n2, 2)) == (n1 == n2),
        zero_padded(n1, 2).len() == 2,
        zero_padded(n2, 2).len() == 2,
{
    lemma_zp2(n1);
    lemma_zp2(n2);
    let a1 = digit_char(n1 as int / 10);
    let a2 = digit_char(n1 as int % 10);
    let b1 = digit_char(n2 as int / 10);
    let b2 = digit_char(n2 as int % 10);
    lemma_div(n1 as int, 10, n1 as int / 10);
    lemma_div(n2 as int, 10, n2 as int / 10);
    assert(seq![a1, a2] =~= seq![a1] + seq![a2]);
    assert(seq![b1, b2] =~= seq![b1] + seq![b2]);
    lemma_chars_before_concat(seq![a1], seq![a2], seq![b1], seq![b2]);
    lemma_one_char(a1, b1);
    lemma_one_char(a2, b2);
    if n1 != n2 {
        assert(seq![a1, a2][0] != seq![b1, b2][0] || seq![a1, a2][1] != seq![b1, b2][1]);
    }
}

/// Four-digit texts compare as their numbers do.
proof fn lemma_zp4_order(n1: nat, n2: nat)
    requires
        n1 < 10000,
        n2 < 10000,
    ensures
        chars_before(zero_padded(n1, 4), zero_padded(n2, 4)) == (n1 < n2),
        (zero_padded(n1, 4) == zero_padded(n2, 4)) == (n1 == n2),
        zero_padded(n1, 4).len() == 4,
        zero_padded(n2, 4).len() == 4,
{
    lemma_zp4(n1);
    lemma_zp4(n2);
    lemma_div(n1 as int, 100, n1 as int / 100);
    lemma_div(n2 as int, 100, n2 as int / 100);
    lemma_zp2(n1 / 100);
    lemma_zp2(n2 / 100);
    lemma_zp2(n1 % 100);
    lemma_zp2(n2 % 100);
    lemma_zp2_order(n1 / 100, n2 / 100);
    lemma_zp2_order(n1 % 100, n2 % 100);
    lemma_chars_before_concat(
        zero_padded(n1 / 100, 2),
        zero_padded(n1 % 100, 2),
        zero_padded(n2 / 100, 2),
        zero_padded(n2 % 100, 2),
    );
    if n1 == n2 {
        lemma_chars_before_irreflexive(zero_padded(n1, 4));
    } else {
        lemma_chars_before_total(zero_padded(n1, 4), zero_padded(n2, 4));
        if zero_padded(n1, 4) == zero_padded(n2, 4) {
            let p1 = zero_padded(n1 / 100, 2);
            let p2 = zero_padded(n2 / 100, 2);
            assert((p1 + zero_padded(n1 % 100, 2)).subrange(0, 2) =~= p1);
            assert((p2 + zero_padded(n2 % 100, 2)).subrange(0, 2) =~= p2);
            assert((p1 + zero_padded(n1 % 100, 2)).subrange(2, 4) =~= zero_padded(n1 % 100, 2));
            assert((p2 + zero_padded(n2 % 100, 2)).subrange(2, 4) =~= zero_padded(n2 % 100, 2));
        }
    }
}

/// Comparing `p1 + s1` with `p2 + s2`, where the prefixes have one length,
/// from what is known of comparing the parts.
proof fn lemma_step(
    p1: Seq<char>,
    p2: Seq<char>,
    s1: Seq<char>,
    s2: Seq<char>,
    lt_p: bool,
    eq_p: bool,
    lt_s: bool,
    eq_s: bool,
)
    requires
        p1.len() == p2.len(),
        s1.len() == s2.len(),
        chars_before(p1, p2) == lt_p,
        (p1 == p2) == eq_p,
        chars_before(s1, s2) == lt_s,
        (s1 == s2) == eq_s,
    ensures
        chars_before(p1 + s1, p2 + s2) == (lt_p || (eq_p && lt_s)),
        (p1 + s1 == p2 + s2) == (eq_p && eq_s),
        (p1 + s1).len() == (p2 + s2).len(),
{
    lemma_chars_before_concat(p1, s1, p2, s2);
    if p1 + s1 == p2 + s2 {
        assert((p1 + s1).subrange(0, p1.len() as int) =~= p1);
        assert((p2 + s2).subrange(0, p2.len() as int) =~= p2);
        assert((p1 + s1).subrange(p1.len() as int, (p1 + s1).len() as int) =~= s1);
        assert((p2 + s2).subrange(p2.len() as int, (p2 + s2).len() as int) =~= s2);
    }
}

/// A separator compared with itself.
proof fn lemma_same_char(c: char)
    ensures
        !chars_before(seq![c], seq![c]),
        seq![c].len() == 1,
{
    lemma_one_char(c, c);
}

/// Strict lexicographic order on (year, month, day, hour, minute).
pub open spec fn moment_before(
    y1: nat,
    m1: nat,
    d1: nat,
    h1: nat,
    i1: nat,
    y2: nat,
    m2: nat,
    d2: nat,
    h2: nat,
    i2: nat,
) -> bool {
    ||| y1 < y2
    ||| y1 == y2 && m1 < m2
    ||| y1 == y2 && m1 == m2 && d1 < d2
    ||| y1 == y2 && m1 == m2 && d1 == d2 && h1 < h2
    ||| y1 == y2 && m1 == m2 && d1 == d2 && h1 == h2 && i1 < i2
}

/// Date texts with four-digit years compare as the moments they show.
proof fn lemma_date_text_order(
    y1: nat,
    m1: nat,
    d1: nat,
    h1: nat,
    i1: nat,
    y2: nat,
    m2: nat,
    d2: nat,
    h2: nat,
    i2: nat,
)
    requires
        y1 < 10000,
        y2 < 10000,
        m1 < 100,
        m2 < 100,
        d1 < 100,
        d2 < 100,
        h1 < 100,
        h2 < 100,
        i1 < 100,
        i2 < 100,
    ensures
        chars_before(date_text(y1, m1, d1, h1, i1), date_text(y2, m2, d2, h2, i2)) == moment_before(
            y1,
            m1,
            d1,
            h1,
            i1,
            y2,
            m2,
            d2,
            h2,
            i2,
        ),
{
    lemma_zp4_order(y1, y2);
    lemma_zp2_order(m1, m2);
    lemma_zp2_order(d1, d2);
    lemma_zp2_order(h1, h2);
    lemma_zp2_order(i1, i2);
    lemma_same_char('-');
    lemma_same_char(' ');
    lemma_same_char(':');
    let dash = seq!['-'];
    let sp = seq![' '];
    let colon = seq![':'];
    let (y1t, y2t) = (zero_padded(y1, 4), zero_padded(y2, 4));
    lemma_step(y1t, y2t, dash, dash, y1 < y2, y1 == y2, false, true);
    let (a2, b2) = (y1t + dash, y2t + dash);
    lemma_step(a2, b2, zero_padded(m1, 2), zero_padded(m2, 2), y1 < y2, y1 == y2, m1 < m2, m1 == m2);
    let (a3, b3) = (a2 + zero_padded(m1, 2), b2 + zero_padded(m2, 2));
    let lt3 = y1 < y2 || (y1 == y2 && m1 < m2);
    let eq3 = y1 == y2 && m1 == m2;
    lemma_step(a3, b3, dash, dash, lt3, eq3, false, true);
    let (a4, b4) = (a3 + dash, b3 + dash);
    lemma_step(a4, b4, zero_padded(d1, 2), zero_padded(d2, 2), lt3, eq3, d1 < d2, d1 == d2);
    let (a5, b5) = (a4 + zero_padded(d1, 2), b4 + zero_padded(d2, 2));
    let lt5 = lt3 || (eq3 && d1 < d2);
    let eq5 = eq3 && d1 == d2;
    lemma_step(a5, b5, sp, sp, lt5, eq5, false, true);
    let (a6, b6) = (a5 + sp, b5 + sp);
    lemma_step(a6, b6, zero_padded(h1, 2), zero_padded(h2, 2), lt5, eq5, h1 < h2, h1 == h2);
    let (a7, b7) = (a6 + zero_padded(h1, 2), b6 + zero_padded(h2, 2));
    let lt7 = lt5 || (eq5 && h1 < h2);
    let eq7 = eq5 && h1 == h2;
    lemma_step(a7, b7, colon, colon, lt7, eq7, false, true);
    let (a8, b8) = (a7 + colon, b7 + colon);
    lemma_step(a8, b8, zero_padded(i1, 2), zero_padded(i2, 2), lt7, eq7, i1 < i2, i1 == i2);
    assert(date_text(y1, m1, d1, h1, i1) == a8 + zero_padded(i1, 2));
    assert(date_text(y2, m2, d2, h2, i2) == b8 + zero_padded(i2, 2));
}

/// A time shows one text.
pub proof fn lemma_date_text_unique(ts: int, t1: Seq<char>, t2: Seq<char>)
    requires
        shows_date(ts, t1),
        shows_date(ts, t2),
    ensures
        t1 == t2,
{
    if ts > 0 {
        let (y1, m1, d1) = choose|y: int, m: int, d: int|
            {
                &&& is_valid_date(y, m, d)
                &&& #[trigger] epoch_day(y, m, d) == ts / 86400
                &&& t1 == date_text(
                    y as nat,
                    m as nat,
                    d as nat,
                    ((ts % 86400) / 3600) as nat,
                    ((ts % 86400) % 3600 / 60) as nat,
                )
            };
        let (y2, m2, d2) = choose|y: int, m: int, d: int|
            {
                &&& is_valid_date(y, m, d)
                &&& #[trigger] epoch_day(y, m, d) == ts / 86400
                &&& t2 == date_text(
                    y as nat,
                    m as nat,
                    d as nat,
                    ((ts % 86400) / 3600) as nat,
                    ((ts % 86400) % 3600 / 60) as nat,
                )
            };
        lemma_epoch_day_injective(y1, m1, d1, y2, m2, d2);
    }
}

/// The text changes from minute to minute only: a time shows the text of
/// the start of its minute.
pub proof fn lemma_date_text_minute(ts: int, t: Seq<char>)
    requires
        ts - ts % 60 > 0,
        shows_date(ts, t),
    ensures
        shows_date(ts - ts % 60, t),
{
    let q = ts / 86400;
    let s = ts % 86400;
    lemma_div(ts, 86400, q);
    let h = s / 3600;
    let r = s % 3600;
    lemma_div(s, 3600, h);
    let mi = r / 60;
    let v = r % 60;
    lemma_div(r, 60, mi);
    lemma_div(ts, 60, 1440 * q + 60 * h + mi);
    let t0 = ts - ts % 60;
    assert(t0 == 86400 * q + 3600 * h + 60 * mi);
    lemma_div(t0, 86400, q);
    lemma_div(3600 * h + 60 * mi, 3600, h);
    lemma_div(60 * mi, 60, mi);
    assert(ts > 0);
    let (y, m, d) = choose|y: int, m: int, d: int|
        {
            &&& is_valid_date(y, m, d)
            &&& #[trigger] epoch_day(y, m, d) == ts / 86400
            &&& t == date_text(
                y as nat,
                m as nat,
                d as nat,
                ((ts % 86400) / 3600) as nat,
                ((ts % 86400) % 3600 / 60) as nat,
            )
        };
    assert(epoch_day(y, m, d) == t0 / 86400);
}

/// Text order follows time order: of two times from the epoch up to the end
/// of year 9999, the text of the earlier never comes after the text of the
/// later.
pub proof fn lemma_date_text_ordered(a: int, b: int, ta: Seq<char>, tb: Seq<char>)
    requires
        0 < a <= b < 253402300800,
        shows_date(a, ta),
        shows_date(b, tb),
    ensures
        !chars_before(tb, ta),
{
    let (ya, ma, da) = choose|y: int, m: int, d: int|
        {
            &&& is_valid_date(y, m, d)
            &&& #[trigger] epoch_day(y, m, d) == a / 86400
            &&& ta == date_text(
                y as nat,
                m as nat,
                d as nat,
                ((a % 86400) / 3600) as nat,
                ((a % 86400) % 3600 / 60) as nat,
            )
        };
    let (yb, mb, db) = choose|y: int, m: int, d: int|
        {
            &&& is_valid_date(y, m, d)
            &&& #[trigger] epoch_day(y, m, d) == b / 86400
            &&& tb == date_text(
                y as nat,
                m as nat,
                d as nat,
                ((b % 86400) / 3600) as nat,
                ((b % 86400) % 3600 / 60) as nat,
            )
        };
    lemma_div(a, 86400, a / 86400);
    lemma_div(b, 86400, b / 86400);
    lemma_div_is_ordered(a, b, 86400);
    lemma_div_is_ordered(b, 253402300799, 86400);
    lemma_div(253402300799, 86400, 2932896);
    lemma_year_in_range(ya, ma, da);
    lemma_year_in_range(yb, mb, db);
    let (sa, sb) = (a % 86400, b % 86400);
    let (ha, hb) = (sa / 3600, sb / 3600);
    let (ia, ib) = ((sa % 3600) / 60, (sb % 3600) / 60);
    lemma_div(sa, 3600, ha);
    lemma_div(sb, 3600, hb);
    lemma_div(sa % 3600, 60, ia);
    lemma_div(sb % 3600, 60, ib);
    assert(!moment_before(
        yb as nat,
        mb as nat,
        db as nat,
        hb as nat,
        ib as nat,
        ya as nat,
        ma as nat,
        da as nat,
        ha as nat,
        ia as nat,
    )) by {
        if a / 86400 == b / 86400 {
            lemma_epoch_day_injective(ya, ma, da, yb, mb, db);
            lemma_div_is_ordered(sa, sb, 3600);
            if ha == hb {
                lemma_div_is_ordered(sa % 3600, sb % 3600, 60);
            }
        } else {
            if yb < ya || (yb == ya && mb < ma) || (yb == ya && mb == ma && db < da) {
                lemma_epoch_day_increasing(yb, mb, db, ya, ma, da);
            }
        }
    }
    lemma_date_text_order(
        yb as nat,
        mb as nat,
        db as nat,
        hb as nat,
        ib as nat,
        ya as nat,
        ma as nat,
        da as nat,
        ha as nat,
        ia as nat,
    );
}

} // verus!
