//! Points in time, and the one way they are written.

use vstd::prelude::*;
use vstd::slice::slice_subrange;
use vstd::string::*;

use crate::calendar::{
    civil_from_days, date_of, day_number, days_from_civil, earlier, is_date, lemma_day_number_grows,
    lemma_every_day, Civil,
};
use crate::error::{ParseError, ParseErrorView};
use crate::number::{
    lemma_padded, lemma_padded_order, lemma_read_bound, lemma_read_padded, padded, padded_of, read_unsigned, unsigned_of,
};
use crate::text::{
    chars_of, is_digit, lemma_precedes_after, lemma_precedes_by_start, lemma_unbroken_digits,
    lemma_unbroken_join, precedes, same, unbroken,
};

verus! {

/// A point in time, milliseconds since the Unix epoch, rendered as exactly
/// `YYYY-MM-DDTHH:MM:SS.mmmZ`.
///
/// Fixed width and always UTC, because the column doubles as the sort key and
/// as a `grep` prefix.
#[derive(Clone, Copy, Debug, PartialEq, Eq, PartialOrd, Ord, Structural)]
pub struct Timestamp(pub u64);

/// The rendered width of a timestamp: `2026-08-23T09:14:22.031Z`.
pub const TIMESTAMP_WIDTH: usize = 24;

/// How a date is written: `YYYY-MM-DD`.
pub open spec fn date_text(c: Civil) -> Seq<char> {
    padded(c.year as nat, 4) + seq!['-'] + padded(c.month as nat, 2) + seq!['-'] + padded(
        c.day as nat,
        2,
    )
}

/// How a time of day, in milliseconds, is written: `HH:MM:SS.mmm`.
pub open spec fn clock_text(ms: nat) -> Seq<char> {
    padded(ms / 3_600_000, 2) + seq![':'] + padded(ms / 60_000 % 60, 2) + seq![':'] + padded(
        ms / 1000 % 60,
        2,
    ) + seq!['.'] + padded(ms % 1000, 3)
}

/// How a point in time is written: `YYYY-MM-DDTHH:MM:SS.mmmZ`.
pub open spec fn time_text(millis: nat) -> Seq<char> {
    date_text(date_of((millis / 86_400_000) as int)) + seq!['T'] + clock_text(millis % 86_400_000)
        + seq!['Z']
}

/// Whether `s` is the fixed-width rendering of the time `millis`.
pub open spec fn is_time_text(s: Seq<char>, millis: nat) -> bool {
    s.len() == TIMESTAMP_WIDTH && s == time_text(millis)
}

/// The time that `s` is the fixed-width rendering of.
pub open spec fn time_read(s: Seq<char>) -> Option<nat> {
    if exists|t: nat| is_time_text(s, t) {
        Some(choose|t: nat| is_time_text(s, t))
    } else {
        None
    }
}

impl Timestamp {
    /// A timestamp from milliseconds since the Unix epoch.
    pub fn from_millis(millis: u64) -> (t: Self)
        ensures
            t.0 == millis,
    {
        Timestamp(millis)
    }

    /// Milliseconds since the Unix epoch.
    pub fn as_millis(self) -> (millis: u64)
        ensures
            millis == self.0,
    {
        self.0
    }

    /// `YYYY-MM-DDTHH:MM:SS.mmmZ`.
    pub fn render(self) -> (s: String)
        ensures
            s@ == time_text(self.0 as nat),
    {
        let days: i64 = (self.0 / 86_400_000) as i64;
        let rem: u64 = self.0 % 86_400_000;
        let (y, m, d) = civil_from_days(days);
        let mut s = padded_of(y as u64, 4);
        s.push('-');
        s.append(&padded_of(m as u64, 2));
        s.push('-');
        s.append(&padded_of(d as u64, 2));
        assert(s@ =~= date_text(date_of(days as int)));
        s.push('T');
        let mut clock = padded_of(rem / 3_600_000, 2);
        clock.push(':');
        clock.append(&padded_of(rem / 60_000 % 60, 2));
        clock.push(':');
        clock.append(&padded_of(rem / 1000 % 60, 2));
        clock.push('.');
        clock.append(&padded_of(rem % 1000, 3));
        assert(clock@ =~= clock_text(rem as nat));
        s.append(&clock);
        s.push('Z');
        assert(s@ =~= time_text(self.0 as nat));
        s
    }

    /// Parse `YYYY-MM-DDTHH:MM:SS.mmmZ`, and nothing else.
    ///
    /// Strict by design: the shape is verified by re-rendering what was parsed
    /// and comparing, which rejects an impossible civil date (February 30th)
    /// without a table of month lengths.
    pub fn parse(s: &str) -> (r: Result<Timestamp, ParseError>)
        ensures
            match r {
                Ok(t) => time_read(s@) == Some(t.0 as nat) && is_time_text(s@, t.0 as nat),
                Err(e) => time_read(s@) is None && e@ == ParseErrorView::Timestamp(s@),
            },
    {
        let b = chars_of(s);
        match parse_chars(&b) {
            Some(t) => {
                proof {
                    lemma_time_read(s@, t.0 as nat);
                }
                Ok(t)
            },
            None => Err(ParseError::Timestamp(s.to_owned())),
        }
    }
}

/// The seven numbers in a rendered timestamp, each at its place in `b`, and the
/// time they add up to.
spec fn fields_of(b: Seq<char>, t: nat) -> bool {
    let days = (t / 86_400_000) as int;
    let c = date_of(days);
    let ms = t % 86_400_000;
    let max = u64::MAX as nat;
    &&& is_date(c)
    &&& day_number(c) == days
    &&& c.year <= 9999
    &&& b[4] == '-' && b[7] == '-' && b[10] == 'T' && b[13] == ':' && b[16] == ':'
    &&& b[19] == '.' && b[23] == 'Z'
    &&& read_unsigned(b.subrange(0, 4), max) == Some(c.year as nat)
    &&& read_unsigned(b.subrange(5, 7), max) == Some(c.month as nat)
    &&& read_unsigned(b.subrange(8, 10), max) == Some(c.day as nat)
    &&& read_unsigned(b.subrange(11, 13), max) == Some(ms / 3_600_000)
    &&& read_unsigned(b.subrange(14, 16), max) == Some(ms / 60_000 % 60)
    &&& read_unsigned(b.subrange(17, 19), max) == Some(ms / 1000 % 60)
    &&& read_unsigned(b.subrange(20, 23), max) == Some(ms % 1000)
}

proof fn lemma_time_fields(b: Seq<char>, t: nat)
    requires
        is_time_text(b, t),
    ensures
        fields_of(b, t),
{
    let days = (t / 86_400_000) as int;
    lemma_every_day(days);
    let c = date_of(days);
    let ms = t % 86_400_000;
    let max = u64::MAX as nat;
    let y = padded(c.year as nat, 4);
    let mo = padded(c.month as nat, 2);
    let d = padded(c.day as nat, 2);
    let hh = padded(ms / 3_600_000, 2);
    let mm = padded(ms / 60_000 % 60, 2);
    let ss = padded(ms / 1000 % 60, 2);
    let milli = padded(ms % 1000, 3);
    lemma_padded(c.year as nat, 4);
    lemma_padded(c.month as nat, 2);
    lemma_padded(c.day as nat, 2);
    lemma_padded(ms / 3_600_000, 2);
    lemma_padded(ms / 60_000 % 60, 2);
    lemma_padded(ms / 1000 % 60, 2);
    lemma_padded(ms % 1000, 3);
    assert(y.len() == 4);
    assert(b.subrange(0, 4) =~= y);
    assert(b.subrange(5, 7) =~= mo);
    assert(b.subrange(8, 10) =~= d);
    assert(b.subrange(11, 13) =~= hh);
    assert(b.subrange(14, 16) =~= mm);
    assert(b.subrange(17, 19) =~= ss);
    assert(b.subrange(20, 23) =~= milli);
    lemma_read_padded(c.year as nat, 4, max);
    lemma_read_padded(c.month as nat, 2, max);
    lemma_read_padded(c.day as nat, 2, max);
    lemma_read_padded(ms / 3_600_000, 2, max);
    lemma_read_padded(ms / 60_000 % 60, 2, max);
    lemma_read_padded(ms / 1000 % 60, 2, max);
    lemma_read_padded(ms % 1000, 3, max);
}

/// A time is the sum of its parts.
proof fn lemma_recombine(t: nat, days: nat, hh: nat, mm: nat, ss: nat, ms: nat)
    requires
        days == t / 86_400_000,
        hh == t % 86_400_000 / 3_600_000,
        mm == t % 86_400_000 / 60_000 % 60,
        ss == t % 86_400_000 / 1000 % 60,
        ms == t % 86_400_000 % 1000,
    ensures
        t == days * 86_400_000 + hh * 3_600_000 + mm * 60_000 + ss * 1000 + ms,
{
}

fn parse_chars(b: &[char]) -> (r: Option<Timestamp>)
    ensures
        match r {
            Some(t) => is_time_text(b@, t.0 as nat),
            None => forall|t: nat| !is_time_text(b@, t),
        },
{
    let ghost t = choose|t: nat| is_time_text(b@, t);
    let ghost readable = is_time_text(b@, t);
    proof {
        if readable {
            lemma_time_fields(b@, t);
        }
    }
    if b.len() != TIMESTAMP_WIDTH {
        return None;
    }
    if b[4] != '-' || b[7] != '-' || b[10] != 'T' || b[13] != ':' || b[16] != ':' {
        return None;
    }
    if b[19] != '.' || b[23] != 'Z' {
        return None;
    }
    let y = match unsigned_of(slice_subrange(b, 0, 4), u64::MAX) {
        Some(n) => n,
        None => return None,
    };
    let mo = match unsigned_of(slice_subrange(b, 5, 7), u64::MAX) {
        Some(n) => n,
        None => return None,
    };
    let d = match unsigned_of(slice_subrange(b, 8, 10), u64::MAX) {
        Some(n) => n,
        None => return None,
    };
    let hh = match unsigned_of(slice_subrange(b, 11, 13), u64::MAX) {
        Some(n) => n,
        None => return None,
    };
    let mm = match unsigned_of(slice_subrange(b, 14, 16), u64::MAX) {
        Some(n) => n,
        None => return None,
    };
    let ss = match unsigned_of(slice_subrange(b, 17, 19), u64::MAX) {
        Some(n) => n,
        None => return None,
    };
    let ms = match unsigned_of(slice_subrange(b, 20, 23), u64::MAX) {
        Some(n) => n,
        None => return None,
    };
    if mo < 1 || mo > 12 || d < 1 || d > 31 || hh > 23 || mm > 59 || ss > 59 {
        return None;
    }
    proof {
        lemma_read_bound(b@.subrange(0, 4), u64::MAX as nat);
        lemma_read_bound(b@.subrange(20, 23), u64::MAX as nat);
    }
    let days = days_from_civil(y as i64, mo as u32, d as u32);
    if days < 0 {
        return None;
    }
    let millis: u64 = days as u64 * 86_400_000 + hh * 3_600_000 + mm * 60_000 + ss * 1000 + ms;
    proof {
        if readable {
            lemma_recombine(t, days as nat, hh as nat, mm as nat, ss as nat, ms as nat);
        }
    }
    let stamp = Timestamp(millis);
    let again = chars_of(&stamp.render());
    if same(&again, b) {
        Some(stamp)
    } else {
        None
    }
}

// =====================================================================================
// Laws
// =====================================================================================

/// The first millisecond of the year 10000, from which on a rendering is wider.
pub const WIDE_FROM: u64 = 253_402_300_800_000;

proof fn lemma_width(t: nat)
    ensures
        t < WIDE_FROM ==> time_text(t).len() == TIMESTAMP_WIDTH,
        t >= WIDE_FROM ==> time_text(t).len() > TIMESTAMP_WIDTH,
        is_date(date_of((t / 86_400_000) as int)),
        day_number(date_of((t / 86_400_000) as int)) == t / 86_400_000,
        t < WIDE_FROM ==> date_of((t / 86_400_000) as int).year <= 9999,
{
    let days = (t / 86_400_000) as int;
    lemma_every_day(days);
    let c = date_of(days);
    let ms = t % 86_400_000;
    let last = Civil { year: 9999, month: 12, day: 31 };
    let next = Civil { year: 10000, month: 1, day: 1 };
    assert(day_number(next) == 2_932_897);
    if earlier(last, c) {
        lemma_day_number_grows(last, c);
    }
    if earlier(c, next) {
        lemma_day_number_grows(c, next);
    }
    lemma_padded(c.year as nat, 4);
    lemma_padded(c.month as nat, 2);
    lemma_padded(c.day as nat, 2);
    lemma_padded(ms / 3_600_000, 2);
    lemma_padded(ms / 60_000 % 60, 2);
    lemma_padded(ms / 1000 % 60, 2);
    lemma_padded(ms % 1000, 3);
}

/// Every time before the year 10000 is rendered in exactly 24 characters, and its
/// rendering is what parsing reads it back from.
pub proof fn law_time_round_trip(t: nat)
    requires
        t < WIDE_FROM,
    ensures
        time_text(t).len() == TIMESTAMP_WIDTH,
        time_read(time_text(t)) == Some(t),
{
    lemma_width(t);
    lemma_time_read(time_text(t), t);
}

/// A text is read as the time it is the rendering of.
proof fn lemma_time_read(s: Seq<char>, t: nat)
    requires
        is_time_text(s, t),
    ensures
        time_read(s) == Some(t),
{
    let u = choose|u: nat| is_time_text(s, u);
    assert(is_time_text(s, u));
    lemma_width(t);
    law_time_text_injective(t, u);
}

/// No text is the rendering of two times.
pub proof fn law_time_text_injective(t: nat, u: nat)
    requires
        time_text(t) == time_text(u),
        t < WIDE_FROM,
    ensures
        t == u,
{
    lemma_width(t);
    lemma_width(u);
    lemma_time_fields(time_text(t), t);
    lemma_time_fields(time_text(u), u);
    lemma_recombined(t);
    lemma_recombined(u);
}

proof fn lemma_recombined(t: nat)
    ensures
        t == (t / 86_400_000) * 86_400_000 + (t % 86_400_000 / 3_600_000) * 3_600_000 + (t
            % 86_400_000 / 60_000 % 60) * 60_000 + (t % 86_400_000 / 1000 % 60) * 1000 + (t
            % 86_400_000 % 1000),
{
    let ms = t % 86_400_000;
    lemma_recombine(
        t,
        t / 86_400_000,
        ms / 3_600_000,
        ms / 60_000 % 60,
        ms / 1000 % 60,
        ms % 1000,
    );
}

/// Rendered times sort as text in the order of time.
pub proof fn law_time_text_order(t: nat, u: nat)
    requires
        t < u,
        u < WIDE_FROM,
    ensures
        precedes(time_text(t), time_text(u)),
{
    lemma_width(t);
    lemma_width(u);
    let m = t / 86_400_000;
    let n = u / 86_400_000;
    let a = t % 86_400_000;
    let b = u % 86_400_000;
    assert(m < n || (m == n && a < b));
    lemma_parts_order(m as int, n as int, a, b);
}

proof fn lemma_parts_order(m: int, n: int, a: nat, b: nat)
    requires
        is_date(date_of(m)),
        is_date(date_of(n)),
        day_number(date_of(m)) == m,
        day_number(date_of(n)) == n,
        date_of(m).year <= 9999,
        date_of(n).year <= 9999,
        b < 86_400_000,
        m < n || (m == n && a < b),
    ensures
        precedes(
            date_text(date_of(m)) + seq!['T'] + clock_text(a) + seq!['Z'],
            date_text(date_of(n)) + seq!['T'] + clock_text(b) + seq!['Z'],
        ),
{
    let c = date_text(date_of(m));
    let e = date_text(date_of(n));
    let x = clock_text(a);
    let y = clock_text(b);
    let p = seq!['T'] + (x + seq!['Z']);
    let q = seq!['T'] + (y + seq!['Z']);
    assert(c + seq!['T'] + x + seq!['Z'] =~= c + p);
    assert(e + seq!['T'] + y + seq!['Z'] =~= e + q);
    if m < n {
        if earlier(date_of(n), date_of(m)) {
            lemma_day_number_grows(date_of(n), date_of(m));
        }
        lemma_date_order(date_of(m), date_of(n));
        lemma_precedes_by_start(c, e, p, q);
    } else {
        lemma_clock_order(a, b);
        lemma_precedes_by_start(x, y, seq!['Z'], seq!['Z']);
        lemma_precedes_after(seq!['T'], x + seq!['Z'], y + seq!['Z']);
        lemma_precedes_after(c, p, q);
    }
}

/// Two numbers of the same width, and what follows each, compare as the numbers do
/// and then as what follows.
proof fn lemma_columns(m: nat, n: nat, width: nat, a: Seq<char>, b: Seq<char>)
    requires
        padded(m, width).len() == padded(n, width).len(),
        m < n || (m == n && precedes(a, b)),
    ensures
        precedes(padded(m, width) + a, padded(n, width) + b),
{
    if m < n {
        lemma_padded_order(m, n, width);
        lemma_precedes_by_start(padded(m, width), padded(n, width), a, b);
    } else {
        lemma_precedes_after(padded(m, width), a, b);
    }
}

proof fn lemma_date_order(c: Civil, e: Civil)
    requires
        is_date(c),
        is_date(e),
        earlier(c, e),
        c.year <= 9999,
        e.year <= 9999,
    ensures
        precedes(date_text(c), date_text(e)),
        date_text(c).len() == date_text(e).len(),
{
    lemma_padded(c.year as nat, 4);
    lemma_padded(e.year as nat, 4);
    lemma_padded(c.month as nat, 2);
    lemma_padded(e.month as nat, 2);
    lemma_padded(c.day as nat, 2);
    lemma_padded(e.day as nat, 2);
    let dash = seq!['-'];
    let c3 = padded(c.day as nat, 2);
    let e3 = padded(e.day as nat, 2);
    let c2 = padded(c.month as nat, 2) + (dash + c3);
    let e2 = padded(e.month as nat, 2) + (dash + e3);
    assert(date_text(c) =~= padded(c.year as nat, 4) + (dash + c2));
    assert(date_text(e) =~= padded(e.year as nat, 4) + (dash + e2));
    if c.year == e.year {
        if c.month == e.month {
            lemma_padded_order(c.day as nat, e.day as nat, 2);
            lemma_precedes_after(dash, c3, e3);
        }
        lemma_columns(c.month as nat, e.month as nat, 2, dash + c3, dash + e3);
        lemma_precedes_after(dash, c2, e2);
    }
    lemma_columns(c.year as nat, e.year as nat, 4, dash + c2, dash + e2);
}

/// Four numbers as a time of day is written.
spec fn clock_columns(hh: nat, mm: nat, ss: nat, ms: nat) -> Seq<char> {
    padded(hh, 2) + (seq![':'] + (padded(mm, 2) + (seq![':'] + (padded(ss, 2) + (seq!['.'] + padded(
        ms,
        3,
    ))))))
}

/// Whether one time of day is before another, column by column.
spec fn clock_earlier(
    h1: nat,
    m1: nat,
    s1: nat,
    n1: nat,
    h2: nat,
    m2: nat,
    s2: nat,
    n2: nat,
) -> bool {
    h1 < h2 || (h1 == h2 && (m1 < m2 || (m1 == m2 && (s1 < s2 || (s1 == s2 && n1 < n2)))))
}

proof fn lemma_clock_columns(
    h1: nat,
    m1: nat,
    s1: nat,
    n1: nat,
    h2: nat,
    m2: nat,
    s2: nat,
    n2: nat,
)
    requires
        h1 < 100 && m1 < 100 && s1 < 100 && n1 < 1000,
        h2 < 100 && m2 < 100 && s2 < 100 && n2 < 1000,
        clock_earlier(h1, m1, s1, n1, h2, m2, s2, n2),
    ensures
        precedes(clock_columns(h1, m1, s1, n1), clock_columns(h2, m2, s2, n2)),
        clock_columns(h1, m1, s1, n1).len() == clock_columns(h2, m2, s2, n2).len(),
{
    lemma_padded(h1, 2);
    lemma_padded(m1, 2);
    lemma_padded(s1, 2);
    lemma_padded(n1, 3);
    lemma_padded(h2, 2);
    lemma_padded(m2, 2);
    lemma_padded(s2, 2);
    lemma_padded(n2, 3);
    let colon = seq![':'];
    let dot = seq!['.'];
    let a4 = padded(n1, 3);
    let b4 = padded(n2, 3);
    let a3 = padded(s1, 2) + (dot + a4);
    let b3 = padded(s2, 2) + (dot + b4);
    let a2 = padded(m1, 2) + (colon + a3);
    let b2 = padded(m2, 2) + (colon + b3);
    if h1 == h2 {
        if m1 == m2 {
            if s1 == s2 {
                lemma_padded_order(n1, n2, 3);
                lemma_precedes_after(dot, a4, b4);
            }
            lemma_columns(s1, s2, 2, dot + a4, dot + b4);
            lemma_precedes_after(colon, a3, b3);
        }
        lemma_columns(m1, m2, 2, colon + a3, colon + b3);
        lemma_precedes_after(colon, a2, b2);
    }
    lemma_columns(h1, h2, 2, colon + a2, colon + b2);
}

proof fn lemma_sum_order(
    h1: nat,
    m1: nat,
    s1: nat,
    n1: nat,
    h2: nat,
    m2: nat,
    s2: nat,
    n2: nat,
)
    requires
        m1 < 60 && s1 < 60 && n1 < 1000,
        m2 < 60 && s2 < 60 && n2 < 1000,
        h1 * 3_600_000 + m1 * 60_000 + s1 * 1000 + n1 < h2 * 3_600_000 + m2 * 60_000 + s2 * 1000
            + n2,
    ensures
        clock_earlier(h1, m1, s1, n1, h2, m2, s2, n2),
{
}

proof fn lemma_clock_sum(a: nat)
    requires
        a < 86_400_000,
    ensures
        a == (a / 3_600_000) * 3_600_000 + (a / 60_000 % 60) * 60_000 + (a / 1000 % 60) * 1000 + a
            % 1000,
{
    lemma_recombined(a);
    assert(a % 86_400_000 == a);
    assert(a / 86_400_000 == 0);
}

proof fn lemma_clock_parts(a: nat, b: nat)
    requires
        a < b,
        b < 86_400_000,
    ensures
        clock_earlier(
            a / 3_600_000,
            a / 60_000 % 60,
            a / 1000 % 60,
            a % 1000,
            b / 3_600_000,
            b / 60_000 % 60,
            b / 1000 % 60,
            b % 1000,
        ),
{
    lemma_clock_sum(a);
    lemma_clock_sum(b);
    lemma_sum_order(
        a / 3_600_000,
        a / 60_000 % 60,
        a / 1000 % 60,
        a % 1000,
        b / 3_600_000,
        b / 60_000 % 60,
        b / 1000 % 60,
        b % 1000,
    );
}

/// Texts joined from the left are the same joined from the right.
proof fn lemma_regrouped(
    a: Seq<char>,
    b: Seq<char>,
    c: Seq<char>,
    d: Seq<char>,
    colon: Seq<char>,
    dot: Seq<char>,
)
    ensures
        a + colon + b + colon + c + dot + d == a + (colon + (b + (colon + (c + (dot + d))))),
{
    assert(a + colon + b + colon + c + dot + d =~= a + (colon + (b + (colon + (c + (dot + d))))));
}

proof fn lemma_clock_text(a: nat)
    ensures
        clock_text(a) == clock_columns(
            a / 3_600_000,
            a / 60_000 % 60,
            a / 1000 % 60,
            a % 1000,
        ),
{
    lemma_regrouped(
        padded(a / 3_600_000, 2),
        padded(a / 60_000 % 60, 2),
        padded(a / 1000 % 60, 2),
        padded(a % 1000, 3),
        seq![':'],
        seq!['.'],
    );
}

proof fn lemma_clock_order(a: nat, b: nat)
    requires
        a < b,
        b < 86_400_000,
    ensures
        precedes(clock_text(a), clock_text(b)),
        clock_text(a).len() == clock_text(b).len(),
{
    let (h1, m1, s1, n1) = (a / 3_600_000, a / 60_000 % 60, a / 1000 % 60, a % 1000);
    let (h2, m2, s2, n2) = (b / 3_600_000, b / 60_000 % 60, b / 1000 % 60, b % 1000);
    lemma_clock_text(a);
    lemma_clock_text(b);
    lemma_clock_parts(a, b);
    lemma_clock_columns(h1, m1, s1, n1, h2, m2, s2, n2);
}

/// A rendered time is free of blanks and quotes.
pub proof fn lemma_time_unbroken(t: nat)
    ensures
        unbroken(time_text(t)),
        time_text(t).len() > 0,
        is_digit(time_text(t)[0]),
{
    let c = date_of((t / 86_400_000) as int);
    let ms = t % 86_400_000;
    lemma_padded(c.year as nat, 4);
    lemma_padded(c.month as nat, 2);
    lemma_padded(c.day as nat, 2);
    lemma_padded(ms / 3_600_000, 2);
    lemma_padded(ms / 60_000 % 60, 2);
    lemma_padded(ms / 1000 % 60, 2);
    lemma_padded(ms % 1000, 3);
    let y = padded(c.year as nat, 4);
    let m = padded(c.month as nat, 2);
    let d = padded(c.day as nat, 2);
    assert(is_digit(y[0]));
    lemma_unbroken_digits(y);
    lemma_unbroken_digits(m);
    lemma_unbroken_digits(d);
    lemma_unbroken_join(y, seq!['-']);
    lemma_unbroken_join(y + seq!['-'], m);
    lemma_unbroken_join(y + seq!['-'] + m, seq!['-']);
    lemma_unbroken_join(y + seq!['-'] + m + seq!['-'], d);
    let hh = padded(ms / 3_600_000, 2);
    let mm = padded(ms / 60_000 % 60, 2);
    let ss = padded(ms / 1000 % 60, 2);
    let milli = padded(ms % 1000, 3);
    lemma_unbroken_digits(hh);
    lemma_unbroken_digits(mm);
    lemma_unbroken_digits(ss);
    lemma_unbroken_digits(milli);
    lemma_unbroken_join(hh, seq![':']);
    lemma_unbroken_join(hh + seq![':'], mm);
    lemma_unbroken_join(hh + seq![':'] + mm, seq![':']);
    lemma_unbroken_join(hh + seq![':'] + mm + seq![':'], ss);
    lemma_unbroken_join(hh + seq![':'] + mm + seq![':'] + ss, seq!['.']);
    lemma_unbroken_join(hh + seq![':'] + mm + seq![':'] + ss + seq!['.'], milli);
    let date = date_text(c);
    let clock = clock_text(ms);
    lemma_unbroken_join(date, seq!['T']);
    lemma_unbroken_join(date + seq!['T'], clock);
    lemma_unbroken_join(date + seq!['T'] + clock, seq!['Z']);
    assert(time_text(t)[0] == y[0]);
}

/// A rendered time has at least its fixed width, and exactly that in the years it is made
/// for.
pub proof fn lemma_time_len(t: nat)
    ensures
        time_text(t).len() >= TIMESTAMP_WIDTH,
        t < WIDE_FROM <==> time_text(t).len() == TIMESTAMP_WIDTH,
{
    lemma_width(t);
}

/// Whether `s` is ASCII.
pub open spec fn is_ascii_text(s: Seq<char>) -> bool {
    forall|i: int| 0 <= i < s.len() ==> (#[trigger] s[i]) as u32 <= 0x7f
}

proof fn lemma_ascii_join(a: Seq<char>, b: Seq<char>)
    requires
        is_ascii_text(a),
        is_ascii_text(b),
    ensures
        is_ascii_text(a + b),
{
}

proof fn lemma_ascii_padded(n: nat, width: nat)
    ensures
        is_ascii_text(padded(n, width)),
{
    let s = padded(n, width);
    lemma_padded(n, width);
    assert forall|i: int| 0 <= i < s.len() implies (#[trigger] s[i]) as u32 <= 0x7f by {
        assert(is_digit(s[i]));
    }
}

/// A rendered time is ASCII.
pub proof fn lemma_time_ascii(t: nat)
    ensures
        is_ascii_text(time_text(t)),
{
    let c = date_of((t / 86_400_000) as int);
    let ms = t % 86_400_000;
    lemma_ascii_padded(c.year as nat, 4);
    lemma_ascii_padded(c.month as nat, 2);
    lemma_ascii_padded(c.day as nat, 2);
    lemma_ascii_padded(ms / 3_600_000, 2);
    lemma_ascii_padded(ms / 60_000 % 60, 2);
    lemma_ascii_padded(ms / 1000 % 60, 2);
    lemma_ascii_padded(ms % 1000, 3);
    assert(is_ascii_text(date_text(c)));
    assert(is_ascii_text(clock_text(ms)));
    lemma_ascii_join(date_text(c) + seq!['T'], clock_text(ms));
}

/// A time is written as its date and its clock, each column in its place: read as numbers
/// the clock adds up to the milliseconds since midnight, and the date is the day.
pub proof fn law_time_columns_add_up(t: nat)
    requires
        t < WIDE_FROM,
    ensures
        ({
            let s = time_text(t);
            let max = u64::MAX as nat;
            let c = date_of((t / 86_400_000) as int);
            &&& s[4] == '-' && s[7] == '-' && s[10] == 'T' && s[13] == ':' && s[16] == ':'
            &&& s[19] == '.' && s[23] == 'Z'
            &&& read_unsigned(s.subrange(0, 4), max) == Some(c.year as nat)
            &&& read_unsigned(s.subrange(5, 7), max) == Some(c.month as nat)
            &&& read_unsigned(s.subrange(8, 10), max) == Some(c.day as nat)
            &&& read_unsigned(s.subrange(11, 13), max) is Some
            &&& read_unsigned(s.subrange(14, 16), max) is Some
            &&& read_unsigned(s.subrange(17, 19), max) is Some
            &&& read_unsigned(s.subrange(20, 23), max) is Some
            &&& read_unsigned(s.subrange(14, 16), max)->0 < 60
            &&& read_unsigned(s.subrange(17, 19), max)->0 < 60
            &&& read_unsigned(s.subrange(20, 23), max)->0 < 1000
            &&& t == day_number(c) * 86_400_000 + read_unsigned(s.subrange(11, 13), max)->0
                * 3_600_000 + read_unsigned(s.subrange(14, 16), max)->0 * 60_000 + read_unsigned(
                s.subrange(17, 19),
                max,
            )->0 * 1000 + read_unsigned(s.subrange(20, 23), max)->0
        }),
{
    lemma_width(t);
    lemma_time_fields(time_text(t), t);
    lemma_recombined(t);
}

/// Nothing else reads as a time: what does is exactly how that time is written.
pub proof fn law_time_is_read_strictly(s: Seq<char>)
    ensures
        time_read(s) matches Some(t) ==> s == time_text(t),
{
    if let Some(t) = time_read(s) {
        assert(is_time_text(s, t));
    }
}

} // verus!
