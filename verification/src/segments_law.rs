//! What holds of segments as they are found: their order, and when one is finished.

use vstd::prelude::*;

use crate::calendar::date_of;
use crate::header::{header_read, HeaderView};
use crate::number::{lemma_padded, padded};
use crate::segments::{ended, in_name_order, last_entry_class, placed};
use crate::text::{
    is_digit, lemma_precedes_after, lemma_precedes_by_start, lemma_precedes_total,
    lemma_precedes_transitive, lines, precedes,
};
use crate::time::{date_text, law_time_text_order, lemma_time_len, time_text, WIDE_FROM};
use crate::verify::{after_lines, body_start, end_findings, progress};
use crate::vocabulary::VocabularyView;
use crate::writer::{hyphenated, segment_name, stamp_text};

verus! {

// =====================================================================================
// Order
// =====================================================================================

/// Whether no pair of `s` comes before one that stands earlier.
pub open spec fn ordered<T>(s: Seq<(Seq<char>, T)>) -> bool {
    forall|i: int, j: int|
        0 <= i < j < s.len() ==> !precedes(#[trigger] s[j].0, #[trigger] s[i].0)
}

proof fn lemma_placed<T>(s: Seq<(Seq<char>, T)>, k: Seq<char>, v: T)
    requires
        ordered(s),
    ensures
        ordered(placed(s, k, v)),
        placed(s, k, v).to_multiset() == s.to_multiset().insert((k, v)),
        placed(s, k, v).len() == s.len() + 1,
    decreases s.len(),
{
    broadcast use vstd::seq_lib::group_to_multiset_ensures;

    let r = placed(s, k, v);
    if s.len() == 0 {
        let none = Seq::<(Seq<char>, T)>::empty();
        assert(s =~= none);
        assert(seq![(k, v)] =~= none.push((k, v)));
    } else if precedes(k, s.last().0) {
        let front = s.drop_last();
        let before = placed(front, k, v);
        assert forall|i: int, j: int| 0 <= i < j < front.len() implies !precedes(
            #[trigger] front[j].0,
            #[trigger] front[i].0,
        ) by {
            assert(front[i] == s[i] && front[j] == s[j]);
        }
        lemma_placed(front, k, v);
        assert(s =~= front.push(s.last()));
        assert(before.push(s.last()).to_multiset() =~= s.to_multiset().insert((k, v)));
        assert forall|i: int, j: int| 0 <= i < j < r.len() implies !precedes(
            #[trigger] r[j].0,
            #[trigger] r[i].0,
        ) by {
            if j < before.len() {
                assert(r[i] == before[i] && r[j] == before[j]);
            } else {
                assert(r[j] == s.last());
                assert(before.contains(before[i]));
                assert(before.to_multiset().count(before[i]) > 0);
                if before[i] == (k, v) {
                    lemma_precedes_total(k, s.last().0);
                } else {
                    assert(front.to_multiset().count(before[i]) > 0);
                    assert(front.contains(before[i]));
                    let m = choose|m: int| 0 <= m < front.len() && front[m] == before[i];
                    assert(s[m] == before[i]);
                    assert(s[s.len() - 1] == s.last());
                }
            }
        }
    } else {
        assert forall|i: int, j: int| 0 <= i < j < r.len() implies !precedes(
            #[trigger] r[j].0,
            #[trigger] r[i].0,
        ) by {
            if j == s.len() {
                lemma_precedes_total(k, s.last().0);
                if i < s.len() - 1 {
                    assert(!precedes(s[s.len() - 1].0, s[i].0));
                    lemma_precedes_total(s[i].0, s.last().0);
                    if precedes(k, s[i].0) {
                        if precedes(s[i].0, s.last().0) {
                            lemma_precedes_transitive(k, s[i].0, s.last().0);
                        }
                    }
                }
            }
        }
    }
}

/// Putting pairs in the order of their names loses none, adds none, and orders them.
pub proof fn law_name_order<T>(s: Seq<(Seq<char>, T)>)
    ensures
        ordered(in_name_order(s)),
        in_name_order(s).to_multiset() == s.to_multiset(),
        in_name_order(s).len() == s.len(),
    decreases s.len(),
{
    broadcast use vstd::seq_lib::group_to_multiset_ensures;

    if s.len() == 0 {
        assert(s =~= in_name_order(s));
    } else {
        law_name_order(s.drop_last());
        lemma_placed(in_name_order(s.drop_last()), s.last().0, s.last().1);
        assert(s =~= s.drop_last().push(s.last()));
        assert((s.last().0, s.last().1) == s.last());
    }
}

// =====================================================================================
// Stamps
// =====================================================================================

/// The part of a time that a stamp keeps.
spec fn to_the_second(t: nat) -> Seq<char> {
    let ms = t % 86_400_000;
    date_text(date_of((t / 86_400_000) as int)) + seq!['T'] + padded(ms / 3_600_000, 2) + seq![
        ':',
    ] + padded(ms / 60_000 % 60, 2) + seq![':'] + padded(ms / 1000 % 60, 2)
}

proof fn lemma_to_the_second(t: nat)
    requires
        t < WIDE_FROM,
    ensures
        time_text(t) == to_the_second(t) + seq!['.'] + padded(t % 1000, 3) + seq!['Z'],
        to_the_second(t).len() == 19,
        forall|i: int| 0 <= i < 19 ==> (#[trigger] to_the_second(t)[i] == ':' <==> i == 13 || i == 16),
{
    let c = date_of((t / 86_400_000) as int);
    let ms = t % 86_400_000;
    let y = padded(c.year as nat, 4);
    let m = padded(c.month as nat, 2);
    let d = padded(c.day as nat, 2);
    let hh = padded(ms / 3_600_000, 2);
    let mm = padded(ms / 60_000 % 60, 2);
    let ss = padded(ms / 1000 % 60, 2);
    lemma_padded(c.year as nat, 4);
    lemma_padded(c.month as nat, 2);
    lemma_padded(c.day as nat, 2);
    lemma_padded(ms / 3_600_000, 2);
    lemma_padded(ms / 60_000 % 60, 2);
    lemma_padded(ms / 1000 % 60, 2);
    lemma_padded(ms % 1000, 3);
    lemma_time_len(t);
    assert(ms % 1000 == t % 1000);
    let text = to_the_second(t);
    assert(time_text(t) =~= text + seq!['.'] + padded(t % 1000, 3) + seq!['Z']);
    assert(y.len() == 4 && m.len() == 2 && d.len() == 2);
    assert forall|i: int| 0 <= i < 19 implies (#[trigger] text[i] == ':' <==> i == 13 || i
        == 16) by {
        if i < 4 {
            assert(text[i] == y[i]);
            assert(is_digit(y[i]));
        } else if 5 <= i < 7 {
            assert(text[i] == m[i - 5]);
            assert(is_digit(m[i - 5]));
        } else if 8 <= i < 10 {
            assert(text[i] == d[i - 8]);
            assert(is_digit(d[i - 8]));
        } else if 11 <= i < 13 {
            assert(text[i] == hh[i - 11]);
            assert(is_digit(hh[i - 11]));
        } else if 14 <= i < 16 {
            assert(text[i] == mm[i - 14]);
            assert(is_digit(mm[i - 14]));
        } else if 17 <= i {
            assert(text[i] == ss[i - 17]);
            assert(is_digit(ss[i - 17]));
        }
    }
}

/// Turning the colons that two texts share into hyphens keeps their order.
proof fn lemma_hyphenated_order(a: Seq<char>, b: Seq<char>)
    requires
        a.len() == b.len(),
        forall|i: int| 0 <= i < a.len() ==> (#[trigger] a[i] == ':' <==> b[i] == ':'),
        precedes(a, b),
    ensures
        precedes(hyphenated(a), hyphenated(b)),
    decreases a.len(),
{
    if a.len() > 0 && a[0] == b[0] {
        let x = a.drop_first();
        let y = b.drop_first();
        assert forall|i: int| 0 <= i < x.len() implies (#[trigger] x[i] == ':' <==> y[i] == ':') by {
            assert(x[i] == a[i + 1] && y[i] == b[i + 1]);
        }
        lemma_hyphenated_order(x, y);
        assert(hyphenated(a).drop_first() =~= hyphenated(x));
        assert(hyphenated(b).drop_first() =~= hyphenated(y));
    } else if a.len() > 0 {
        assert(a[0] == ':' <==> b[0] == ':');
        assert(hyphenated(a)[0] == a[0] || a[0] == ':');
    }
}

/// Texts that end alike, and are equally long before that, are ordered by what comes
/// before.
proof fn lemma_order_before(a: Seq<char>, b: Seq<char>, end: Seq<char>)
    requires
        a.len() == b.len(),
        precedes(a + end, b + end),
    ensures
        precedes(a, b),
{
    lemma_precedes_total(a, b);
    if a == b {
        lemma_precedes_total(a + end, a + end);
    } else if precedes(b, a) {
        lemma_precedes_by_start(b, a, end, end);
        lemma_precedes_total(a + end, b + end);
    }
}

/// The text of a whole second.
proof fn lemma_whole_second(t: nat)
    requires
        t < WIDE_FROM,
        t % 1000 == 0,
    ensures
        time_text(t) == to_the_second(t) + (seq!['.'] + padded(0, 3) + seq!['Z']),
        to_the_second(t).len() == 19,
{
    lemma_to_the_second(t);
    assert(time_text(t) =~= to_the_second(t) + (seq!['.'] + padded(0, 3) + seq!['Z']));
}

/// The second that a time falls into.
proof fn lemma_second_of(t: nat)
    requires
        t < WIDE_FROM,
    ensures
        t / 1000 * 1000 < WIDE_FROM,
        (t / 1000 * 1000) % 1000 == 0,
        to_the_second(t) == to_the_second(t / 1000 * 1000),
{
    lemma_same_second(t);
}

/// Times of different seconds are ordered by their seconds.
proof fn lemma_seconds_order(a: nat, b: nat)
    requires
        a / 1000 < b / 1000,
        b < WIDE_FROM,
    ensures
        precedes(to_the_second(a), to_the_second(b)),
{
    let p = a / 1000 * 1000;
    let q = b / 1000 * 1000;
    let end = seq!['.'] + padded(0, 3) + seq!['Z'];
    lemma_second_of(a);
    lemma_second_of(b);
    law_time_text_order(p, q);
    lemma_whole_second(p);
    lemma_whole_second(q);
    lemma_order_before(to_the_second(p), to_the_second(q), end);
}

/// A stamp is the seconds of a time, with hyphens.
proof fn lemma_stamp(t: nat)
    requires
        t < WIDE_FROM,
    ensures
        stamp_text(t) == hyphenated(to_the_second(t)) + seq!['Z'],
{
    lemma_to_the_second(t);
    assert(time_text(t).take(19) =~= to_the_second(t));
}

/// Within an instance the IRIs of segments sort in the order of time, from one second to
/// the next.
pub proof fn law_iris_sort_in_time(instance: Seq<char>, a: nat, b: nat)
    requires
        a / 1000 < b / 1000,
        b < WIDE_FROM,
    ensures
        precedes(
            segment_name(instance, stamp_text(a)),
            segment_name(instance, stamp_text(b)),
        ),
{
    let x = to_the_second(a);
    let y = to_the_second(b);
    lemma_seconds_order(a, b);
    lemma_to_the_second(a);
    lemma_to_the_second(b);
    assert forall|i: int| 0 <= i < x.len() implies (#[trigger] x[i] == ':' <==> y[i] == ':') by {
        assert(y[i] == ':' <==> i == 13 || i == 16);
    }
    lemma_hyphenated_order(x, y);
    lemma_stamp(a);
    lemma_stamp(b);
    lemma_precedes_by_start(hyphenated(x), hyphenated(y), seq!['Z'], seq!['Z']);
    let head = "urn:log:"@ + crate::config::unprefixed(instance, crate::config::INSTANCE_NS@)
        + seq![':'];
    lemma_precedes_after(head, stamp_text(a), stamp_text(b));
}

/// A time has the same seconds as the whole second it lies in.
proof fn lemma_same_second(t: nat)
    ensures
        to_the_second(t / 1000 * 1000) == to_the_second(t),
{
    let u = t / 1000 * 1000;
    let ms = t % 86_400_000;
    let us = u % 86_400_000;
    assert(u / 86_400_000 == t / 86_400_000);
    assert(us == ms / 1000 * 1000);
    assert(us / 3_600_000 == ms / 3_600_000);
    assert(us / 60_000 == ms / 60_000);
    assert(us / 1000 == ms / 1000);
}

// =====================================================================================
// Ends
// =====================================================================================

proof fn lemma_last_class(h: HeaderView, v: VocabularyView, skipped: nat, ls: Seq<Seq<char>>)
    ensures
        after_lines(h, v, skipped, ls).last_class == last_entry_class(ls, h.prefixes),
    decreases ls.len(),
{
    if ls.len() > 0 {
        lemma_last_class(h, v, skipped, ls.drop_last());
    }
}

/// A segment is finished exactly where verification does not note that its end is
/// unmarked.
pub proof fn law_finished_is_marked(text: Seq<char>, v: VocabularyView)
    requires
        header_read(text) is Ok,
    ensures
        ({
            let p = progress(text, header_read(text)->Ok_0.0, v);
            ended(text, v) <==> !(end_findings(p, v).len() > 0 && end_findings(
                p,
                v,
            )[0] is UnmarkedEnd)
        }),
{
    let h = header_read(text)->Ok_0.0;
    let skipped = body_start(lines(text));
    lemma_last_class(h, v, skipped as nat, lines(text).skip(skipped));
}

} // verus!
