//! Decimal numerals: how a number is written, and which texts read as one.

use vstd::prelude::*;
use vstd::slice::slice_subrange;
use vstd::string::*;

use crate::text::{
    chars_of, is_digit, lemma_precedes_after, lemma_precedes_by_start, precedes,
};

verus! {

/// The character for one decimal digit.
pub open spec fn digit(d: int) -> char {
    (48 + d) as char
}

/// The number a digit character stands for.
pub open spec fn digit_value(c: char) -> int {
    c as int - 48
}

/// The decimal numeral of `n`, without leading zeros.
pub open spec fn decimal(n: nat) -> Seq<char>
    decreases n,
{
    if n < 10 {
        seq![digit(n as int)]
    } else {
        decimal(n / 10).push(digit((n % 10) as int))
    }
}

/// `n` zeros.
pub open spec fn zeros(n: nat) -> Seq<char> {
    Seq::new(n, |i: int| '0')
}

/// The decimal numeral of `n`, with zeros in front up to `width` digits.
pub open spec fn padded(n: nat, width: nat) -> Seq<char> {
    let s = decimal(n);
    if s.len() < width {
        zeros((width - s.len()) as nat) + s
    } else {
        s
    }
}

/// Whether every character is a decimal digit.
pub open spec fn all_digits(s: Seq<char>) -> bool {
    forall|i: int| 0 <= i < s.len() ==> is_digit(#[trigger] s[i])
}

/// The number that a run of digits stands for.
pub open spec fn value(s: Seq<char>) -> nat
    decreases s.len(),
{
    if s.len() == 0 {
        0
    } else {
        (value(s.drop_last()) * 10 + digit_value(s.last())) as nat
    }
}

/// The number that `s` reads as: an optional `+`, then one or more digits whose
/// value is at most `max`.
pub open spec fn read_unsigned(s: Seq<char>, max: nat) -> Option<nat> {
    let body = if s.len() > 0 && s[0] == '+' {
        s.skip(1)
    } else {
        s
    };
    if body.len() > 0 && all_digits(body) && value(body) <= max {
        Some(value(body))
    } else {
        None
    }
}

/// The number that `s` reads as: an optional sign, then one or more digits whose
/// signed value is an `i64`.
pub open spec fn read_signed(s: Seq<char>) -> Option<int> {
    if s.len() > 0 && s[0] == '-' {
        let body = s.skip(1);
        if body.len() > 0 && all_digits(body) && -(value(body) as int) >= i64::MIN {
            Some(-(value(body) as int))
        } else {
            None
        }
    } else {
        match read_unsigned(s, i64::MAX as nat) {
            Some(n) => Some(n as int),
            None => None,
        }
    }
}

// =====================================================================================
// Facts
// =====================================================================================

/// The value of a run of digits followed by one more.
pub proof fn lemma_value_push(s: Seq<char>, d: int)
    requires
        0 <= d < 10,
    ensures
        value(s.push(digit(d))) == value(s) * 10 + d,
{
    assert(s.push(digit(d)).drop_last() =~= s);
}

/// The value of a longer run of digits is no smaller.
pub proof fn lemma_value_prefix(s: Seq<char>, n: int)
    requires
        0 <= n <= s.len(),
        all_digits(s),
    ensures
        value(s.take(n)) <= value(s),
    decreases s.len(),
{
    if n == s.len() {
        assert(s.take(n) =~= s);
    } else {
        let t = s.drop_last();
        assert(all_digits(t));
        lemma_value_prefix(t, n);
        assert(t.take(n) =~= s.take(n));
        assert(is_digit(s[s.len() - 1]));
    }
}

/// How large the value of a few digits can be.
pub proof fn lemma_value_bound(s: Seq<char>)
    requires
        all_digits(s),
    ensures
        s.len() <= 1 ==> value(s) < 10,
        s.len() <= 2 ==> value(s) < 100,
        s.len() <= 3 ==> value(s) < 1000,
        s.len() <= 4 ==> value(s) < 10000,
    decreases s.len(),
{
    if s.len() > 0 {
        assert(all_digits(s.drop_last()));
        lemma_value_bound(s.drop_last());
        assert(is_digit(s[s.len() - 1]));
    }
}

/// How large a number a few characters can read as.
pub proof fn lemma_read_bound(s: Seq<char>, max: nat)
    requires
        read_unsigned(s, max) is Some,
    ensures
        s.len() <= 3 ==> read_unsigned(s, max)->0 < 1000,
        s.len() <= 4 ==> read_unsigned(s, max)->0 < 10000,
{
    if s[0] == '+' {
        lemma_value_bound(s.skip(1));
    } else {
        lemma_value_bound(s);
    }
}

/// A numeral is a non-empty run of digits whose value is the number written.
pub proof fn lemma_decimal(n: nat)
    ensures
        decimal(n).len() > 0,
        all_digits(decimal(n)),
        value(decimal(n)) == n,
        n > 0 ==> decimal(n)[0] != '0',
    decreases n,
{
    if n < 10 {
        let s = seq![digit(n as int)];
        assert(s =~= Seq::<char>::empty().push(digit(n as int)));
        lemma_value_push(Seq::<char>::empty(), n as int);
    } else {
        lemma_decimal(n / 10);
        lemma_value_push(decimal(n / 10), (n % 10) as int);
    }
}

/// A numeral reads back as the number it was written for.
pub proof fn lemma_read_decimal(n: nat, max: nat)
    requires
        n <= max,
    ensures
        read_unsigned(decimal(n), max) == Some(n),
{
    lemma_decimal(n);
    assert(is_digit(decimal(n)[0]));
}

/// Leading zeros do not change the value.
pub proof fn lemma_value_zeros(k: nat, s: Seq<char>)
    ensures
        value(zeros(k) + s) == value(s),
    decreases k + s.len(),
{
    let t = zeros(k) + s;
    if s.len() > 0 {
        assert(t.drop_last() =~= zeros(k) + s.drop_last());
        lemma_value_zeros(k, s.drop_last());
    } else if k > 0 {
        assert(t.drop_last() =~= zeros((k - 1) as nat) + s);
        lemma_value_zeros((k - 1) as nat, s);
    }
}

/// How many digits a numeral of at most `width` digits has.
pub proof fn lemma_decimal_width(n: nat)
    ensures
        n < 10 ==> decimal(n).len() == 1,
        10 <= n < 100 ==> decimal(n).len() == 2,
        100 <= n < 1000 ==> decimal(n).len() == 3,
        1000 <= n < 10000 ==> decimal(n).len() == 4,
        10000 <= n ==> decimal(n).len() >= 5,
    decreases n,
{
    if n >= 10 {
        lemma_decimal_width(n / 10);
    }
}

/// A padded numeral is a run of digits of at least the asked width, and its value is
/// the number written.
pub proof fn lemma_padded(n: nat, width: nat)
    ensures
        padded(n, width).len() >= width,
        padded(n, width).len() > 0,
        all_digits(padded(n, width)),
        value(padded(n, width)) == n,
        width == 2 && n < 100 ==> padded(n, width).len() == 2,
        width == 3 && n < 1000 ==> padded(n, width).len() == 3,
        width == 4 && n < 10000 ==> padded(n, width).len() == 4,
        width == 4 && n >= 10000 ==> padded(n, width).len() > 4,
{
    lemma_decimal(n);
    lemma_decimal_width(n);
    let s = decimal(n);
    if s.len() < width {
        lemma_value_zeros((width - s.len()) as nat, s);
    }
}

/// A padded numeral reads back as the number it was written for.
pub proof fn lemma_read_padded(n: nat, width: nat, max: nat)
    requires
        n <= max,
    ensures
        read_unsigned(padded(n, width), max) == Some(n),
{
    lemma_padded(n, width);
    assert(is_digit(padded(n, width)[0]));
}

/// Runs of as many digits with the same value are the same.
pub proof fn lemma_value_injective(a: Seq<char>, b: Seq<char>)
    requires
        all_digits(a),
        all_digits(b),
        a.len() == b.len(),
        value(a) == value(b),
    ensures
        a == b,
    decreases a.len(),
{
    if a.len() > 0 {
        let p = a.drop_last();
        let q = b.drop_last();
        assert(all_digits(p));
        assert(all_digits(q));
        assert(is_digit(a[a.len() - 1]));
        assert(is_digit(b[b.len() - 1]));
        assert(value(p) == value(q) && a.last() == b.last());
        lemma_value_injective(p, q);
        assert(a =~= p.push(a.last()));
        assert(b =~= q.push(b.last()));
    } else {
        assert(a =~= b);
    }
}

/// Runs of as many digits are ordered as texts the way their values are.
pub proof fn lemma_value_order(a: Seq<char>, b: Seq<char>)
    requires
        all_digits(a),
        all_digits(b),
        a.len() == b.len(),
        value(a) < value(b),
    ensures
        precedes(a, b),
    decreases a.len(),
{
    let p = a.drop_last();
    let q = b.drop_last();
    assert(all_digits(p));
    assert(all_digits(q));
    assert(is_digit(a[a.len() - 1]));
    assert(is_digit(b[b.len() - 1]));
    assert(a =~= p + seq![a.last()]);
    assert(b =~= q + seq![b.last()]);
    if value(p) < value(q) {
        lemma_value_order(p, q);
        lemma_precedes_by_start(p, q, seq![a.last()], seq![b.last()]);
    } else {
        lemma_value_injective(p, q);
        lemma_precedes_after(p, seq![a.last()], seq![b.last()]);
    }
}

/// Numerals padded to the same width are ordered the way the numbers are.
pub proof fn lemma_padded_order(m: nat, n: nat, width: nat)
    requires
        m < n,
        padded(m, width).len() == padded(n, width).len(),
    ensures
        precedes(padded(m, width), padded(n, width)),
{
    lemma_padded(m, width);
    lemma_padded(n, width);
    lemma_value_order(padded(m, width), padded(n, width));
}

// =====================================================================================
// Writing and reading
// =====================================================================================

fn digit_char(d: u64) -> (c: char)
    requires
        d < 10,
    ensures
        c == digit(d as int),
{
    (48u8 + d as u8) as char
}

/// The decimal numeral of `n`.
pub fn decimal_of(n: u64) -> (s: String)
    ensures
        s@ == decimal(n as nat),
    decreases n,
{
    if n < 10 {
        let mut s = String::new();
        s.push(digit_char(n));
        s
    } else {
        let mut s = decimal_of(n / 10);
        s.push(digit_char(n % 10));
        s
    }
}

/// The decimal numeral of `n`, padded with zeros to `width` digits.
pub fn padded_of(n: u64, width: usize) -> (s: String)
    ensures
        s@ == padded(n as nat, width as nat),
{
    let body = decimal_of(n);
    let len = chars_of(&body).len();
    let mut s = String::new();
    if len < width {
        let mut i: usize = 0;
        while i < width - len
            invariant
                len < width,
                i <= width - len,
                s@ == zeros(i as nat),
            decreases width - len - i,
        {
            s.push('0');
            i = i + 1;
            assert(s@ =~= zeros(i as nat));
        }
    }
    s.append(&body);
    assert(s@ =~= padded(n as nat, width as nat));
    s
}

/// The value of a run of digits, where it is one and is at most `max`.
fn read_digits(s: &[char], max: u64) -> (r: Option<u64>)
    ensures
        match r {
            Some(n) => s@.len() > 0 && all_digits(s@) && value(s@) == n && n <= max,
            None => !(s@.len() > 0 && all_digits(s@) && value(s@) <= max),
        },
{
    if s.len() == 0 {
        return None;
    }
    let mut n: u64 = 0;
    let mut i: usize = 0;
    while i < s.len()
        invariant
            i <= s.len(),
            n <= max,
            n == value(s@.take(i as int)),
            forall|j: int| 0 <= j < i ==> is_digit(#[trigger] s@[j]),
        decreases s.len() - i,
    {
        let c = s[i];
        if !('0' <= c && c <= '9') {
            assert(!is_digit(s@[i as int]));
            return None;
        }
        let d: u64 = (c as u32 - 48) as u64;
        proof {
            let t = s@.take(i as int);
            assert(s@.take(i + 1) =~= t.push(digit(d as int)));
            lemma_value_push(t, d as int);
            if all_digits(s@) {
                lemma_value_prefix(s@, i + 1);
            }
        }
        if n > max / 10 {
            return None;
        }
        if d > max - n * 10 {
            return None;
        }
        n = n * 10 + d;
        i = i + 1;
    }
    assert(s@.take(i as int) =~= s@);
    Some(n)
}

/// The number that `s` reads as, where it is at most `max`.
pub fn unsigned_of(s: &[char], max: u64) -> (r: Option<u64>)
    ensures
        match r {
            Some(n) => read_unsigned(s@, max as nat) == Some(n as nat),
            None => read_unsigned(s@, max as nat) is None,
        },
{
    if s.len() > 0 && s[0] == '+' {
        let body = slice_subrange(s, 1, s.len());
        assert(body@ =~= s@.skip(1));
        read_digits(body, max)
    } else {
        read_digits(s, max)
    }
}

/// The `i64` that `s` reads as.
pub fn signed_of(s: &[char]) -> (r: Option<i64>)
    ensures
        match r {
            Some(n) => read_signed(s@) == Some(n as int),
            None => read_signed(s@) is None,
        },
{
    if s.len() > 0 && s[0] == '-' {
        let body = slice_subrange(s, 1, s.len());
        assert(body@ =~= s@.skip(1));
        match read_digits(body, 0x8000_0000_0000_0000) {
            Some(n) => if n == 0x8000_0000_0000_0000 {
                Some(i64::MIN)
            } else {
                Some(-(n as i64))
            },
            None => None,
        }
    } else {
        match unsigned_of(s, i64::MAX as u64) {
            Some(n) => Some(n as i64),
            None => None,
        }
    }
}

} // verus!
