//! What a verified text shows, told from its lines alone.
//!
//! A verdict is of use only as far as it speaks of what stands in the file. Here each check
//! is stated over the entries and the seals that the lines of a segment are read as.

use vstd::prelude::*;
use vstd::string::*;

use crate::chain::token_parts;
use crate::chain_law::chain_after;
use crate::error::parse_error_text;
use crate::finding::{breaks, report_ok, FindingView};
use crate::header::{header_read, HeaderView, PrevView};
use crate::entry::EntryView;
use crate::line::{line_read, LineView, SealView};
use crate::lineage::descends;
use crate::number::read_unsigned;
use crate::table::lookup;
use crate::text::lines;
use crate::verify::{
    after_lines, body_start, chain_report, end_findings, key_for, level_findings, link_findings,
    linked_report, progress, successor_findings, verified, ProgressView, LOG_SUCCESSOR,
};
use crate::verify_law::{entry_lines, law_recomputed_chain, law_verified_chain, unbroken_chain};
use crate::vocabulary::{
    KeyDefView, VocabularyView, CONFIG_CHANGE_CLASS, LEVEL_CHANGE_CLASS, PROCESS_STOP_CLASS,
    ROTATION_CLASS,
};

verus! {

// =====================================================================================
// What stands in a segment
// =====================================================================================

/// The entries among lines.
pub open spec fn entries_in(
    ls: Seq<Seq<char>>,
    prefixes: Seq<(Seq<char>, Seq<char>)>,
) -> Seq<EntryView>
    decreases ls.len(),
{
    if ls.len() == 0 {
        Seq::empty()
    } else {
        match line_read(ls.last(), prefixes) {
            Ok(LineView::Entry(e)) => entries_in(ls.drop_last(), prefixes).push(e),
            _ => entries_in(ls.drop_last(), prefixes),
        }
    }
}

/// The seals among lines, each with how many of the lines stand before it.
pub open spec fn seals_in(
    ls: Seq<Seq<char>>,
    prefixes: Seq<(Seq<char>, Seq<char>)>,
) -> Seq<(nat, SealView)>
    decreases ls.len(),
{
    if ls.len() == 0 {
        Seq::empty()
    } else {
        match line_read(ls.last(), prefixes) {
            Ok(LineView::Seal(s)) => seals_in(ls.drop_last(), prefixes).push(
                ((ls.len() - 1) as nat, s),
            ),
            _ => seals_in(ls.drop_last(), prefixes),
        }
    }
}

/// The sequence numbers that entries state, in order.
pub open spec fn numbers_in(es: Seq<EntryView>) -> Seq<nat>
    decreases es.len(),
{
    if es.len() == 0 {
        Seq::empty()
    } else {
        let before = numbers_in(es.drop_last());
        match lookup(es.last().fields, "seq"@) {
            Some(s) => match read_unsigned(s, u64::MAX as nat) {
                Some(n) => before.push(n),
                None => before,
            },
            None => before,
        }
    }
}

/// The lines of a segment after its header.
pub open spec fn body(text: Seq<char>) -> Seq<Seq<char>> {
    lines(text).skip(body_start(lines(text)))
}

/// The entries of a segment.
pub open spec fn entries_of(text: Seq<char>) -> Seq<EntryView> {
    entries_in(body(text), header_read(text)->Ok_0.0.prefixes)
}

/// The seals of a segment.
pub open spec fn seals_of(text: Seq<char>) -> Seq<(nat, SealView)> {
    seals_in(body(text), header_read(text)->Ok_0.0.prefixes)
}

/// Whether an entry says that the level was changed: it is a level change, or a change of
/// the configuration under the key `level`.
pub open spec fn says_level_changed(e: EntryView, v: VocabularyView) -> bool {
    ||| descends(v, e.class, LEVEL_CHANGE_CLASS@)
    ||| descends(v, e.class, CONFIG_CHANGE_CLASS@) && lookup(e.fields, "key"@) == Some("level"@)
}

/// Whether one of the entries says that the level was changed.
pub open spec fn level_change_among(es: Seq<EntryView>, v: VocabularyView) -> bool {
    exists|i: int| 0 <= i < es.len() && says_level_changed(#[trigger] es[i], v)
}

/// Whether numbers follow on each other without a gap.
pub open spec fn dense(s: Seq<nat>) -> bool {
    forall|i: int| 0 < i < s.len() ==> #[trigger] s[i] == s[i - 1] + 1
}

/// Whether seals cover a run from the first entry on, each what follows the one before it.
pub open spec fn contiguous(s: Seq<(nat, SealView)>) -> bool {
    &&& s.len() > 0 ==> s[0].1.first == 1
    &&& forall|i: int| 0 < i < s.len() ==> (#[trigger] s[i]).1.first == s[i - 1].1.last + 1
}

/// What reading lines has come to, told from the lines.
pub open spec fn tells(
    p: ProgressView,
    h: HeaderView,
    v: VocabularyView,
    ls: Seq<Seq<char>>,
) -> bool {
    let es = entries_in(ls, h.prefixes);
    let ss = seals_in(ls, h.prefixes);
    let ns = numbers_in(es);
    &&& p.entries == es.len()
    &&& p.seals == ss.len()
    &&& p.records_level_change == level_change_among(es, v)
    &&& p.last_class == (if es.len() > 0 {
        Some(es.last().class)
    } else {
        None
    })
    &&& p.last_seq == (if ns.len() > 0 {
        Some(ns.last())
    } else {
        None
    })
    &&& p.sealed_through == (if ss.len() > 0 {
        ss.last().1.last
    } else {
        0
    })
    &&& p.successor == (if es.len() > 0 {
        told_successor(es.last(), v)
    } else {
        None
    })
    &&& forall|i: int| 0 <= i < p.findings.len() ==> in_the_lines(#[trigger] p.findings[i])
}

/// Whether a finding is one that the lines of a segment alone can give.
pub open spec fn in_the_lines(f: FindingView) -> bool {
    f is Malformed || f is SealMismatch || f is SealRangeGap || f is SequenceGap
}

/// The successor that an entry names: where it is a rotation, under the key that is bound to
/// `log:successor`.
pub open spec fn told_successor(e: EntryView, v: VocabularyView) -> Option<Seq<char>> {
    if descends(v, e.class, ROTATION_CLASS@) && key_for(v.keys, LOG_SUCCESSOR@) is Some {
        lookup(e.fields, key_for(v.keys, LOG_SUCCESSOR@)->0)
    } else {
        None
    }
}

proof fn lemma_among_push(es: Seq<EntryView>, e: EntryView, v: VocabularyView)
    ensures
        level_change_among(es.push(e), v) <==> level_change_among(es, v) || says_level_changed(
            e,
            v,
        ),
{
    let all = es.push(e);
    if level_change_among(es, v) {
        let i = choose|i: int| 0 <= i < es.len() && says_level_changed(#[trigger] es[i], v);
        assert(says_level_changed(all[i], v));
    }
    if says_level_changed(e, v) {
        assert(says_level_changed(all[es.len() as int], v));
    }
    if level_change_among(all, v) {
        let i = choose|i: int| 0 <= i < all.len() && says_level_changed(#[trigger] all[i], v);
        if i < es.len() {
            assert(says_level_changed(es[i], v));
        }
    }
}

proof fn lemma_tells(h: HeaderView, v: VocabularyView, skipped: nat, ls: Seq<Seq<char>>)
    ensures
        tells(after_lines(h, v, skipped, ls), h, v, ls),
    decreases ls.len(),
{
    let q = after_lines(h, v, skipped, ls);
    if ls.len() == 0 {
        assert(!level_change_among(entries_in(ls, h.prefixes), v));
    } else {
        let front = ls.drop_last();
        let p = after_lines(h, v, skipped, front);
        lemma_tells(h, v, skipped, front);
        let es = entries_in(front, h.prefixes);
        match line_read(ls.last(), h.prefixes) {
            Ok(LineView::Entry(e)) => {
                lemma_among_push(es, e, v);
                assert(es.push(e).drop_last() =~= es);
            },
            _ => {},
        }
        assert forall|i: int| 0 <= i < q.findings.len() implies in_the_lines(
            #[trigger] q.findings[i],
        ) by {
            if i < p.findings.len() {
                assert(q.findings[i] == p.findings[i]);
            }
        }
    }
}

/// Where nothing breaks the chain, the numbers are dense, the seals contiguous, and each
/// seal states the hash of the entry lines before it; and where a line of each kind is in
/// order, nothing is found.
proof fn lemma_intact(h: HeaderView, v: VocabularyView, skipped: nat, ls: Seq<Seq<char>>)
    ensures
        unbroken_chain(after_lines(h, v, skipped, ls).findings) <==> {
            &&& dense(numbers_in(entries_in(ls, h.prefixes)))
            &&& contiguous(seals_in(ls, h.prefixes))
            &&& honest(h, ls)
            &&& readable(h, ls)
        },
    decreases ls.len(),
{
    let q = after_lines(h, v, skipped, ls);
    if ls.len() > 0 {
        let front = ls.drop_last();
        let p = after_lines(h, v, skipped, front);
        lemma_intact(h, v, skipped, front);
        lemma_tells(h, v, skipped, front);
        law_recomputed_chain(h, v, skipped, front);
        lemma_unbroken_grows(p.findings, q.findings);
        lemma_readable_push(h, ls);
        let es = entries_in(front, h.prefixes);
        let ss = seals_in(front, h.prefixes);
        let ns = numbers_in(es);
        match line_read(ls.last(), h.prefixes) {
            Ok(LineView::Entry(e)) => {
                assert(es.push(e).drop_last() =~= es);
                lemma_honest_same(h, ls);
                let after = numbers_in(es.push(e));
                if after.len() > ns.len() {
                    lemma_dense_push(ns, after.last());
                    assert(after =~= ns.push(after.last()));
                }
            },
            Ok(LineView::Seal(s)) => {
                lemma_contiguous_push(ss, (front.len(), s));
                lemma_honest_push(h, ls, s);
            },
            _ => {
                lemma_honest_same(h, ls);
            },
        }
        if q.findings.len() > p.findings.len() {
            assert(breaks(q.findings[p.findings.len() as int]));
        }
    } else {
        assert(q.findings =~= Seq::empty());
    }
}

/// Whether every line is one that a segment holds after its header.
pub open spec fn readable(h: HeaderView, ls: Seq<Seq<char>>) -> bool {
    forall|i: int|
        0 <= i < ls.len() ==> (line_read(#[trigger] ls[i], h.prefixes) matches Ok(l)
            && !(l is Directive))
}

/// Whether every seal states the hash of the entry lines before it.
pub open spec fn honest(h: HeaderView, ls: Seq<Seq<char>>) -> bool {
    forall|i: int|
        0 <= i < seals_in(ls, h.prefixes).len() ==> {
            let s = #[trigger] seals_in(ls, h.prefixes)[i];
            s.1.hash == chain_after(h, entry_lines(ls.take(s.0 as int), h.prefixes))
        }
}

proof fn lemma_readable_push(h: HeaderView, ls: Seq<Seq<char>>)
    requires
        ls.len() > 0,
    ensures
        readable(h, ls) <==> readable(h, ls.drop_last()) && (line_read(ls.last(), h.prefixes)
            matches Ok(l) && !(l is Directive)),
{
    let front = ls.drop_last();
    if readable(h, ls) {
        assert forall|i: int| 0 <= i < front.len() implies (line_read(
            #[trigger] front[i],
            h.prefixes,
        ) matches Ok(l) && !(l is Directive)) by {
            assert(front[i] == ls[i]);
        }
        assert(ls[ls.len() - 1] == ls.last());
    }
    if readable(h, front) && (line_read(ls.last(), h.prefixes) matches Ok(l) && !(l
        is Directive)) {
        assert forall|i: int| 0 <= i < ls.len() implies (line_read(
            #[trigger] ls[i],
            h.prefixes,
        ) matches Ok(l) && !(l is Directive)) by {
            if i < front.len() {
                assert(front[i] == ls[i]);
            }
        }
    }
}

proof fn lemma_seal_places(ls: Seq<Seq<char>>, prefixes: Seq<(Seq<char>, Seq<char>)>)
    ensures
        forall|i: int|
            0 <= i < seals_in(ls, prefixes).len() ==> (#[trigger] seals_in(ls, prefixes)[i]).0
                < ls.len(),
    decreases ls.len(),
{
    if ls.len() > 0 {
        let before = seals_in(ls.drop_last(), prefixes);
        let all = seals_in(ls, prefixes);
        lemma_seal_places(ls.drop_last(), prefixes);
        assert forall|i: int| 0 <= i < all.len() implies (#[trigger] all[i]).0 < ls.len() by {
            if i < before.len() {
                assert(all[i] == before[i]);
            }
        }
    }
}

proof fn lemma_honest_same(h: HeaderView, ls: Seq<Seq<char>>)
    requires
        ls.len() > 0,
        !(line_read(ls.last(), h.prefixes) matches Ok(LineView::Seal(_))),
    ensures
        honest(h, ls) <==> honest(h, ls.drop_last()),
{
    let front = ls.drop_last();
    lemma_seal_places(front, h.prefixes);
    let ss = seals_in(front, h.prefixes);
    assert(seals_in(ls, h.prefixes) == ss);
    assert forall|i: int| 0 <= i < ss.len() implies ls.take((#[trigger] ss[i]).0 as int)
        == front.take(ss[i].0 as int) by {
        assert(ls.take(ss[i].0 as int) =~= front.take(ss[i].0 as int));
    }
}

proof fn lemma_honest_push(h: HeaderView, ls: Seq<Seq<char>>, s: SealView)
    requires
        ls.len() > 0,
        line_read(ls.last(), h.prefixes) matches Ok(LineView::Seal(t)) && t == s,
    ensures
        honest(h, ls) <==> honest(h, ls.drop_last()) && s.hash == chain_after(
            h,
            entry_lines(ls.drop_last(), h.prefixes),
        ),
{
    let front = ls.drop_last();
    lemma_seal_places(front, h.prefixes);
    let ss = seals_in(front, h.prefixes);
    let all = seals_in(ls, h.prefixes);
    assert(all == ss.push((front.len(), s)));
    assert(ls.take(front.len() as int) =~= front);
    assert forall|i: int| 0 <= i < ss.len() implies ls.take((#[trigger] ss[i]).0 as int)
        == front.take(ss[i].0 as int) by {
        assert(ls.take(ss[i].0 as int) =~= front.take(ss[i].0 as int));
    }
    if honest(h, ls) {
        assert forall|i: int| 0 <= i < ss.len() implies ({
            let t = #[trigger] ss[i];
            t.1.hash == chain_after(h, entry_lines(front.take(t.0 as int), h.prefixes))
        }) by {
            assert(all[i] == ss[i]);
        }
        assert(all[ss.len() as int] == (front.len(), s));
    }
    if honest(h, front) && s.hash == chain_after(h, entry_lines(front, h.prefixes)) {
        assert forall|i: int| 0 <= i < all.len() implies ({
            let t = #[trigger] all[i];
            t.1.hash == chain_after(h, entry_lines(ls.take(t.0 as int), h.prefixes))
        }) by {
            if i < ss.len() {
                assert(all[i] == ss[i]);
            }
        }
    }
}

proof fn lemma_unbroken_grows(a: Seq<FindingView>, b: Seq<FindingView>)
    requires
        a.is_prefix_of(b),
    ensures
        unbroken_chain(b) ==> unbroken_chain(a),
        a == b && unbroken_chain(a) ==> unbroken_chain(b),
{
    if unbroken_chain(b) {
        assert forall|i: int| 0 <= i < a.len() implies !breaks(#[trigger] a[i]) by {
            assert(a[i] == b[i]);
        }
    }
}

proof fn lemma_dense_push(s: Seq<nat>, n: nat)
    ensures
        dense(s.push(n)) <==> dense(s) && (s.len() > 0 ==> n == s.last() + 1),
{
    let all = s.push(n);
    if dense(all) {
        assert forall|i: int| 0 < i < s.len() implies #[trigger] s[i] == s[i - 1] + 1 by {
            assert(all[i] == s[i] && all[i - 1] == s[i - 1]);
        }
        if s.len() > 0 {
            assert(all[s.len() as int] == n);
        }
    }
}

proof fn lemma_contiguous_push(s: Seq<(nat, SealView)>, t: (nat, SealView))
    ensures
        contiguous(s.push(t)) <==> contiguous(s) && t.1.first == (if s.len() > 0 {
            s.last().1.last
        } else {
            0
        }) + 1,
{
    let all = s.push(t);
    if contiguous(all) {
        if s.len() > 0 {
            assert(all[0] == s[0]);
            assert(all[s.len() as int] == t);
        }
        assert forall|i: int| 0 < i < s.len() implies (#[trigger] s[i]).1.first == s[i - 1].1.last
            + 1 by {
            assert(all[i] == s[i] && all[i - 1] == s[i - 1]);
        }
    }
}

// =====================================================================================
// The verdict on a segment
// =====================================================================================

/// A segment verifies exactly where it has a header, every line after it can be read, the
/// numbers that its entries state are dense, its seals cover a run from the first entry on,
/// each seal states the hash of the header and the entry lines before it, and it names the
/// head of the predecessor that it is given.
pub proof fn law_what_a_verified_segment_shows(
    text: Seq<char>,
    v: VocabularyView,
    predecessor: Option<(Seq<char>, Seq<char>)>,
)
    ensures
        report_ok(verified(text, v, predecessor)) <==> header_read(text) is Ok && ({
            let h = header_read(text)->Ok_0.0;
            &&& readable(h, body(text))
            &&& dense(numbers_in(entries_of(text)))
            &&& contiguous(seals_of(text))
            &&& honest(h, body(text))
            &&& predecessor matches Some((_, head)) ==> h.prev == PrevView::Seal(head)
        }),
{
    let r = verified(text, v, predecessor);
    if header_read(text) is Err {
        assert(breaks(r.findings[0]));
    } else {
        let h = header_read(text)->Ok_0.0;
        let skipped = body_start(lines(text)) as nat;
        let p = progress(text, h, v);
        let end = end_findings(p, v);
        let link = link_findings(h.prev, predecessor);
        lemma_intact(h, v, skipped, body(text));
        assert forall|i: int| 0 <= i < r.findings.len() implies {
            &&& i < p.findings.len() ==> #[trigger] r.findings[i] == p.findings[i]
            &&& p.findings.len() <= i < p.findings.len() + end.len() ==> !breaks(r.findings[i])
            &&& i >= p.findings.len() + end.len() ==> r.findings[i] == link[i - p.findings.len()
                - end.len()]
        } by {
            if p.findings.len() <= i < p.findings.len() + end.len() {
                assert(r.findings[i] == end[i - p.findings.len()]);
            }
        }
        if report_ok(r) {
            assert forall|i: int| 0 <= i < p.findings.len() implies !breaks(
                #[trigger] p.findings[i],
            ) by {
                assert(r.findings[i] == p.findings[i]);
            }
            if link.len() > 0 {
                assert(r.findings[(p.findings.len() + end.len()) as int] == link[0]);
                assert(breaks(link[0]));
            }
        }
        if unbroken_chain(p.findings) && link.len() == 0 {
            assert forall|i: int| 0 <= i < r.findings.len() implies !breaks(
                #[trigger] r.findings[i],
            ) by {
                if i < p.findings.len() {
                    assert(!breaks(p.findings[i]));
                }
            }
        }
    }
}

/// A report says what its segment says of itself: the columns of the header, and how many
/// entries and how many seals follow it.
pub proof fn law_report_tells_the_segment(
    text: Seq<char>,
    v: VocabularyView,
    predecessor: Option<(Seq<char>, Seq<char>)>,
)
    requires
        header_read(text) is Ok,
    ensures
        ({
            let h = header_read(text)->Ok_0.0;
            let r = verified(text, v, predecessor);
            &&& r.name == h.name
            &&& r.instance == h.instance
            &&& r.level == h.level
            &&& r.prev == h.prev
            &&& r.entries == entries_of(text).len()
            &&& r.seals == seals_of(text).len()
            &&& r.records_level_change == level_change_among(entries_of(text), v)
            &&& seals_of(text).len() > 0 ==> r.head == seals_of(text).last().1.hash
            &&& seals_of(text).len() == 0 ==> r.head == chain_after(h, Seq::empty())
        }),
{
    let h = header_read(text)->Ok_0.0;
    let skipped = body_start(lines(text)) as nat;
    lemma_tells(h, v, skipped, body(text));
    lemma_head(h, v, skipped, body(text));
}

proof fn lemma_head(h: HeaderView, v: VocabularyView, skipped: nat, ls: Seq<Seq<char>>)
    ensures
        seals_in(ls, h.prefixes).len() > 0 ==> after_lines(h, v, skipped, ls).head == seals_in(
            ls,
            h.prefixes,
        ).last().1.hash,
        seals_in(ls, h.prefixes).len() == 0 ==> after_lines(h, v, skipped, ls).head == chain_after(
            h,
            Seq::empty(),
        ),
    decreases ls.len(),
{
    if ls.len() > 0 {
        lemma_head(h, v, skipped, ls.drop_last());
    }
}

/// The algorithm that a seal says it is signed with.
pub open spec fn algorithm_of(s: SealView) -> Option<Seq<char>> {
    match s.signature {
        Some(token) => match token_parts(token) {
            Some((algorithm, _)) => Some(algorithm),
            None => None,
        },
        None => None,
    }
}

/// Whether one of the seals says it is signed with `algorithm`.
pub open spec fn signs_with(ss: Seq<(nat, SealView)>, algorithm: Seq<char>) -> bool {
    exists|i: int| 0 <= i < ss.len() && algorithm_of((#[trigger] ss[i]).1) == Some(algorithm)
}

proof fn lemma_signed_with(
    h: HeaderView,
    v: VocabularyView,
    skipped: nat,
    ls: Seq<Seq<char>>,
    algorithm: Seq<char>,
)
    ensures
        after_lines(h, v, skipped, ls).signed_with.contains(algorithm) <==> signs_with(
            seals_in(ls, h.prefixes),
            algorithm,
        ),
    decreases ls.len(),
{
    if ls.len() > 0 {
        let front = ls.drop_last();
        let ss = seals_in(front, h.prefixes);
        let all = seals_in(ls, h.prefixes);
        let p = after_lines(h, v, skipped, front).signed_with;
        let q = after_lines(h, v, skipped, ls).signed_with;
        lemma_signed_with(h, v, skipped, front, algorithm);
        if let Ok(LineView::Seal(s)) = line_read(ls.last(), h.prefixes) {
            assert(all[ss.len() as int].1 == s);
            if signs_with(ss, algorithm) {
                let i = choose|i: int|
                    0 <= i < ss.len() && algorithm_of((#[trigger] ss[i]).1) == Some(algorithm);
                assert(all[i] == ss[i]);
            }
            if signs_with(all, algorithm) {
                let i = choose|i: int|
                    0 <= i < all.len() && algorithm_of((#[trigger] all[i]).1) == Some(algorithm);
                if i < ss.len() {
                    assert(ss[i] == all[i]);
                }
            }
            if q != p {
                assert(q[p.len() as int] == algorithm_of(s)->0);
                if p.contains(algorithm) {
                    let i = choose|i: int| 0 <= i < p.len() && p[i] == algorithm;
                    assert(q[i] == algorithm);
                }
                if q.contains(algorithm) {
                    let i = choose|i: int| 0 <= i < q.len() && q[i] == algorithm;
                    if i < p.len() {
                        assert(p[i] == algorithm);
                    }
                }
            }
        }
    } else {
        assert(!after_lines(h, v, skipped, ls).signed_with.contains(algorithm));
    }
}

/// A report names exactly the algorithms that the seals say they are signed with.
pub proof fn law_report_names_the_algorithms(
    text: Seq<char>,
    v: VocabularyView,
    predecessor: Option<(Seq<char>, Seq<char>)>,
    algorithm: Seq<char>,
)
    requires
        header_read(text) is Ok,
    ensures
        verified(text, v, predecessor).signed_with.contains(algorithm) <==> signs_with(
            seals_of(text),
            algorithm,
        ),
{
    let h = header_read(text)->Ok_0.0;
    lemma_signed_with(h, v, body_start(lines(text)) as nat, body(text), algorithm);
}

/// Where a segment ends is told: that it neither stopped nor rotated, exactly where its last
/// entry is neither; and what no seal covers, exactly where its last number is past the last
/// seal.
pub proof fn law_end_is_told(
    text: Seq<char>,
    v: VocabularyView,
    predecessor: Option<(Seq<char>, Seq<char>)>,
)
    requires
        header_read(text) is Ok,
    ensures
        ({
            let es = entries_of(text);
            let ns = numbers_in(es);
            let sealed = if seals_of(text).len() > 0 {
                seals_of(text).last().1.last
            } else {
                0
            };
            let f = verified(text, v, predecessor).findings;
            &&& (exists|i: int| 0 <= i < f.len() && (#[trigger] f[i]) is UnmarkedEnd) <==> !(
            es.len() > 0 && (descends(v, es.last().class, PROCESS_STOP_CLASS@) || descends(
                v,
                es.last().class,
                ROTATION_CLASS@,
            )))
            &&& (exists|i: int| 0 <= i < f.len() && (#[trigger] f[i]) is UnmarkedEnd) ==> f.contains(
                FindingView::UnmarkedEnd {
                    last_class: if es.len() > 0 {
                        Some(es.last().class)
                    } else {
                        None
                    },
                },
            )
            &&& (exists|i: int| 0 <= i < f.len() && (#[trigger] f[i]) is UnsealedTail) <==> ns.len()
                > 0 && ns.last() > sealed
            &&& ns.len() > 0 && ns.last() > sealed ==> f.contains(
                FindingView::UnsealedTail { from: sealed + 1, to: ns.last() },
            )
        }),
{
    let h = header_read(text)->Ok_0.0;
    let skipped = body_start(lines(text)) as nat;
    let p = progress(text, h, v);
    let end = end_findings(p, v);
    let link = link_findings(h.prev, predecessor);
    let f = verified(text, v, predecessor).findings;
    let n = p.findings.len() as int;
    lemma_tells(h, v, skipped, body(text));
    assert forall|i: int| 0 <= i < n implies in_the_lines(#[trigger] f[i]) by {
        assert(f[i] == p.findings[i]);
    }
    assert forall|i: int| n <= i < n + end.len() implies #[trigger] f[i] == end[i - n] by {}
    assert forall|i: int| n + end.len() <= i < f.len() implies !((#[trigger] f[i]) is UnmarkedEnd)
        && !(f[i] is UnsealedTail) by {
        assert(f[i] == link[i - n - end.len()]);
    }
    if end.len() > 0 {
        assert(f[n] == end[0]);
        assert(f[n + end.len() - 1] == end[end.len() - 1]);
    }
}

// =====================================================================================
// What is said of a line that is out of order
// =====================================================================================

/// A gap in the numbers is named by the numbers on both sides of it.
pub proof fn law_sequence_gap_is_named(
    h: HeaderView,
    v: VocabularyView,
    skipped: nat,
    before: Seq<Seq<char>>,
    line: Seq<char>,
    e: EntryView,
    n: nat,
)
    requires
        line_read(line, h.prefixes) matches Ok(LineView::Entry(x)) && x == e,
        lookup(e.fields, "seq"@) is Some,
        read_unsigned(lookup(e.fields, "seq"@)->0, u64::MAX as nat) == Some(n),
        numbers_in(entries_in(before, h.prefixes)).len() > 0,
        n != numbers_in(entries_in(before, h.prefixes)).last() + 1,
    ensures
        after_lines(h, v, skipped, before.push(line)).findings.contains(
            FindingView::SequenceGap {
                after: numbers_in(entries_in(before, h.prefixes)).last(),
                next: n,
            },
        ),
{
    lemma_tells(h, v, skipped, before);
    let all = before.push(line);
    assert(all.drop_last() =~= before);
    let f = after_lines(h, v, skipped, all).findings;
    assert(f[f.len() - 1] == f.last());
}

/// A gap in what the seals cover is named by where the cover ended and where it goes on.
pub proof fn law_seal_gap_is_named(
    h: HeaderView,
    v: VocabularyView,
    skipped: nat,
    before: Seq<Seq<char>>,
    line: Seq<char>,
    s: SealView,
)
    requires
        line_read(line, h.prefixes) matches Ok(LineView::Seal(x)) && x == s,
    ensures
        ({
            let covered = if seals_in(before, h.prefixes).len() > 0 {
                seals_in(before, h.prefixes).last().1.last
            } else {
                0
            };
            s.first != covered + 1 ==> after_lines(
                h,
                v,
                skipped,
                before.push(line),
            ).findings.contains(FindingView::SealRangeGap { after: covered, next_first: s.first })
        }),
{
    lemma_tells(h, v, skipped, before);
    let all = before.push(line);
    assert(all.drop_last() =~= before);
    let p = after_lines(h, v, skipped, before).findings;
    let f = after_lines(h, v, skipped, all).findings;
    if f.len() > p.len() {
        assert(f.contains(f[p.len() as int]));
    }
}

/// A line that cannot be read is named by its place in the file.
pub proof fn law_unreadable_line_is_named(
    h: HeaderView,
    v: VocabularyView,
    skipped: nat,
    before: Seq<Seq<char>>,
    line: Seq<char>,
)
    requires
        line_read(line, h.prefixes) is Err || (line_read(line, h.prefixes) matches Ok(
            LineView::Directive { .. },
        )),
    ensures
        ({
            let f = after_lines(h, v, skipped, before.push(line)).findings;
            f == after_lines(h, v, skipped, before).findings.push(
                FindingView::Malformed {
                    line: skipped + before.len() + 1,
                    detail: match line_read(line, h.prefixes) {
                        Err(e) => parse_error_text(e),
                        Ok(LineView::Directive { name, .. }) => "@"@ + name
                            + " after the header block"@,
                        _ => Seq::empty(),
                    },
                },
            )
        }),
{
    assert(before.push(line).drop_last() =~= before);
}

/// A seal that states another hash than the entry lines before it come to is named, with
/// both.
pub proof fn law_wrong_hash_is_named(
    h: HeaderView,
    v: VocabularyView,
    skipped: nat,
    before: Seq<Seq<char>>,
    line: Seq<char>,
    s: SealView,
)
    requires
        line_read(line, h.prefixes) matches Ok(LineView::Seal(x)) && x == s,
    ensures
        ({
            let recomputed = chain_after(h, entry_lines(before, h.prefixes));
            let f = after_lines(h, v, skipped, before.push(line)).findings;
            &&& s.hash != recomputed ==> f.contains(
                FindingView::SealMismatch {
                    first: s.first,
                    last: s.last,
                    stated: s.hash,
                    recomputed,
                },
            )
            &&& s.hash == recomputed ==> !(f.len() > 0 && f.len() > after_lines(
                h,
                v,
                skipped,
                before,
            ).findings.len() && f.last() is SealMismatch)
        }),
{
    law_recomputed_chain(h, v, skipped, before);
    let all = before.push(line);
    assert(all.drop_last() =~= before);
    let p = after_lines(h, v, skipped, before).findings;
    let f = after_lines(h, v, skipped, all).findings;
    if f.len() > p.len() {
        assert(f.contains(f[f.len() - 1]));
    }
}

/// A text that has no header is no segment: it is reported as broken at its first line, with
/// what is wrong with the header, and as nothing else.
pub proof fn law_unreadable_header_is_named(
    text: Seq<char>,
    v: VocabularyView,
    predecessor: Option<(Seq<char>, Seq<char>)>,
)
    requires
        header_read(text) is Err,
    ensures
        verified(text, v, predecessor).findings == seq![
            FindingView::Malformed { line: 1, detail: parse_error_text(header_read(text)->Err_0) },
        ],
        verified(text, v, predecessor).entries == 0,
        verified(text, v, predecessor).seals == 0,
        verified(text, v, predecessor).signed_with.len() == 0,
        verified(text, v, predecessor).successor is None,
        !verified(text, v, predecessor).records_level_change,
        !report_ok(verified(text, v, predecessor)),
{
    let r = verified(text, v, predecessor);
    assert(breaks(r.findings[0]));
}

/// A segment that does not follow the predecessor it is given is told so, with both hashes,
/// or as one that starts a chain over.
pub proof fn law_broken_link_is_named(
    text: Seq<char>,
    v: VocabularyView,
    name: Seq<char>,
    head: Seq<char>,
)
    requires
        header_read(text) is Ok,
    ensures
        ({
            let h = header_read(text)->Ok_0.0;
            let f = verified(text, v, Some((name, head))).findings;
            &&& h.prev matches PrevView::Seal(stated) ==> stated != head ==> f.contains(
                FindingView::PrevMismatch { predecessor: name, stated, expected: head },
            )
            &&& h.prev is Genesis ==> f.contains(
                FindingView::UnexpectedGenesis { predecessor: name },
            )
        }),
{
    let h = header_read(text)->Ok_0.0;
    let f = verified(text, v, Some((name, head))).findings;
    let link = link_findings(h.prev, Some((name, head)));
    if link.len() > 0 {
        assert(f[f.len() - 1] == link[0]);
    }
}

// =====================================================================================
// The verdict on a chain
// =====================================================================================

proof fn lemma_linked(segments: Seq<Seq<char>>, v: VocabularyView, i: int)
    requires
        0 <= i < segments.len(),
    ensures
        linked_report(segments, v, i) == verified(segments[i], v, linked_to(segments, v, i)),
{
}

/// The predecessor that a segment of a chain is checked against.
pub open spec fn linked_to(segments: Seq<Seq<char>>, v: VocabularyView, i: int) -> Option<
    (Seq<char>, Seq<char>),
> {
    if i > 0 {
        Some((linked_report(segments, v, i - 1).name, linked_report(segments, v, i - 1).head))
    } else {
        None
    }
}

/// What is found of two adjacent segments whose headers state different levels.
pub open spec fn unexplained(a: Seq<char>, b: Seq<char>, v: VocabularyView) -> bool {
    let (h, k) = (header_read(a)->Ok_0.0, header_read(b)->Ok_0.0);
    &&& h.level != k.level
    &&& !level_change_among(entries_of(a), v)
    &&& !level_change_among(entries_of(b), v)
}

/// Whether a finding is one that a segment alone can give.
spec fn of_one_segment(f: FindingView) -> bool {
    !(f is UnbracketedLevelChange) && !(f is MissingSuccessor)
}

proof fn lemma_of_one_segment(
    text: Seq<char>,
    v: VocabularyView,
    predecessor: Option<(Seq<char>, Seq<char>)>,
)
    ensures
        forall|i: int|
            0 <= i < verified(text, v, predecessor).findings.len() ==> of_one_segment(
                #[trigger] verified(text, v, predecessor).findings[i],
            ),
{
    let r = verified(text, v, predecessor);
    if header_read(text) is Ok {
        let h = header_read(text)->Ok_0.0;
        let p = progress(text, h, v);
        let end = end_findings(p, v);
        let link = link_findings(h.prev, predecessor);
        let n = p.findings.len() as int;
        lemma_tells(h, v, body_start(lines(text)) as nat, body(text));
        assert forall|i: int| 0 <= i < r.findings.len() implies of_one_segment(
            #[trigger] r.findings[i],
        ) by {
            if i < n {
                assert(r.findings[i] == p.findings[i]);
                assert(in_the_lines(p.findings[i]));
            } else if i < n + end.len() {
                assert(r.findings[i] == end[i - n]);
            } else {
                assert(r.findings[i] == link[i - n - end.len()]);
            }
        }
    }
}

/// A level change is explained or it is reported: where two adjacent segments state
/// different levels, and no entry of either is a level change or a change of the
/// configuration under the key `level`, the later one is reported with both levels; and
/// otherwise no level change is reported.
pub proof fn law_unexplained_level_change_is_reported(
    segments: Seq<Seq<char>>,
    v: VocabularyView,
    i: int,
)
    requires
        0 < i < segments.len(),
        header_read(segments[i - 1]) is Ok,
        header_read(segments[i]) is Ok,
    ensures
        ({
            let h = header_read(segments[i - 1])->Ok_0.0;
            let k = header_read(segments[i])->Ok_0.0;
            let f = chain_report(segments, v, i).findings;
            &&& unexplained(segments[i - 1], segments[i], v) ==> f.contains(
                FindingView::UnbracketedLevelChange {
                    from_segment: h.name,
                    from: h.level,
                    to_segment: k.name,
                    to: k.level,
                },
            ) && !report_ok(chain_report(segments, v, i))
            &&& (exists|j: int|
                0 <= j < f.len() && (#[trigger] f[j]) is UnbracketedLevelChange) ==> unexplained(
                segments[i - 1],
                segments[i],
                v,
            )
        }),
{
    let a = linked_report(segments, v, i - 1);
    let b = linked_report(segments, v, i);
    lemma_linked(segments, v, i - 1);
    lemma_linked(segments, v, i);
    law_report_tells_the_segment(segments[i - 1], v, linked_to(segments, v, i - 1));
    law_report_tells_the_segment(segments[i], v, linked_to(segments, v, i));
    lemma_of_one_segment(segments[i], v, linked_to(segments, v, i));
    let f = chain_report(segments, v, i).findings;
    let level = level_findings(a, b);
    let n = b.findings.len() as int;
    let next = if i + 1 < segments.len() {
        Some(linked_report(segments, v, i + 1).name)
    } else {
        None
    };
    let follows = successor_findings(b, next);
    assert(f == b.findings + level + follows);
    if level.len() > 0 {
        assert(f[n] == level[0]);
        assert(breaks(f[n]));
    } else if exists|j: int| 0 <= j < f.len() && (#[trigger] f[j]) is UnbracketedLevelChange {
        let j = choose|j: int| 0 <= j < f.len() && (#[trigger] f[j]) is UnbracketedLevelChange;
        if j < n {
            assert(f[j] == b.findings[j]);
        } else {
            assert(f[j] == follows[j - n]);
        }
    }
}

/// Where two adjacent segments of a chain verify and state different levels, an entry of one
/// of them says that the level was changed.
pub proof fn law_level_change_is_explained(segments: Seq<Seq<char>>, v: VocabularyView, i: int)
    requires
        0 < i < segments.len(),
        report_ok(chain_report(segments, v, i - 1)),
        report_ok(chain_report(segments, v, i)),
        header_read(segments[i - 1])->Ok_0.0.level != header_read(segments[i])->Ok_0.0.level,
    ensures
        (exists|j: int|
            0 <= j < entries_of(segments[i - 1]).len() && {
                let e = #[trigger] entries_of(segments[i - 1])[j];
                ||| descends(v, e.class, LEVEL_CHANGE_CLASS@)
                ||| descends(v, e.class, CONFIG_CHANGE_CLASS@) && lookup(e.fields, "key"@) == Some(
                    "level"@,
                )
            }) || (exists|j: int|
            0 <= j < entries_of(segments[i]).len() && {
                let e = #[trigger] entries_of(segments[i])[j];
                ||| descends(v, e.class, LEVEL_CHANGE_CLASS@)
                ||| descends(v, e.class, CONFIG_CHANGE_CLASS@) && lookup(e.fields, "key"@) == Some(
                    "level"@,
                )
            }),
{
    law_verified_chain(segments, v, i - 1);
    law_verified_chain(segments, v, i);
    law_unexplained_level_change_is_reported(segments, v, i);
    if level_change_among(entries_of(segments[i - 1]), v) {
        let es = entries_of(segments[i - 1]);
        let j = choose|j: int| 0 <= j < es.len() && says_level_changed(#[trigger] es[j], v);
        assert(es[j] == entries_of(segments[i - 1])[j]);
    } else {
        let es = entries_of(segments[i]);
        let j = choose|j: int| 0 <= j < es.len() && says_level_changed(#[trigger] es[j], v);
        assert(es[j] == entries_of(segments[i])[j]);
    }
}

/// A key is found by the property it is bound to: the first that is.
pub proof fn law_key_is_found_by_its_property(
    keys: Seq<(Seq<char>, KeyDefView)>,
    property: Seq<char>,
    i: int,
)
    requires
        0 <= i < keys.len(),
        keys[i].1.property == property,
        forall|j: int| 0 <= j < i ==> (#[trigger] keys[j]).1.property != property,
    ensures
        key_for(keys, property) == Some(keys[i].1.key),
    decreases i,
{
    if i > 0 {
        let rest = keys.drop_first();
        assert(keys[0].1.property != property);
        assert forall|j: int| 0 <= j < i - 1 implies (#[trigger] rest[j]).1.property != property by {
            assert(rest[j] == keys[j + 1]);
        }
        law_key_is_found_by_its_property(rest, property, i - 1);
    }
}

/// A rotation is followed by the segment that it names, or the chain is reported as cut:
/// where the last entry of a segment is a rotation, and names a successor under the key that
/// is bound to `log:successor`, that is the name of the next segment.
pub proof fn law_rotation_is_followed(
    segments: Seq<Seq<char>>,
    v: VocabularyView,
    i: int,
    k: int,
    next: Seq<char>,
)
    requires
        0 <= i < segments.len(),
        header_read(segments[i]) is Ok,
        i + 1 < segments.len() ==> header_read(segments[i + 1]) is Ok,
        0 <= k < v.keys.len(),
        v.keys[k].1.property == "https://ikigai-rs.dev/ns/log#successor"@,
        forall|j: int|
            0 <= j < k ==> (#[trigger] v.keys[j]).1.property
                != "https://ikigai-rs.dev/ns/log#successor"@,
        entries_of(segments[i]).len() > 0,
        descends(v, entries_of(segments[i]).last().class, ROTATION_CLASS@),
        lookup(entries_of(segments[i]).last().fields, v.keys[k].1.key) == Some(next),
        !(i + 1 < segments.len() && header_read(segments[i + 1])->Ok_0.0.name == next),
    ensures
        chain_report(segments, v, i).findings.contains(
            FindingView::MissingSuccessor {
                after: header_read(segments[i])->Ok_0.0.name,
                successor: next,
            },
        ),
        !report_ok(chain_report(segments, v, i)),
{
    let r = linked_report(segments, v, i);
    lemma_linked(segments, v, i);
    law_key_is_found_by_its_property(v.keys, LOG_SUCCESSOR@, k);
    let h = header_read(segments[i])->Ok_0.0;
    lemma_tells(h, v, body_start(lines(segments[i])) as nat, body(segments[i]));
    assert(r.successor == Some(next));
    if i + 1 < segments.len() {
        lemma_linked(segments, v, i + 1);
    }
    let f = chain_report(segments, v, i).findings;
    assert(f[f.len() - 1] == FindingView::MissingSuccessor { after: h.name, successor: next });
    assert(breaks(f[f.len() - 1]));
}

/// Nothing is missing where nothing was promised: a segment whose last entry is no rotation
/// is not reported for a successor.
pub proof fn law_no_successor_is_missed(segments: Seq<Seq<char>>, v: VocabularyView, i: int)
    requires
        0 <= i < segments.len(),
        header_read(segments[i]) is Ok,
        entries_of(segments[i]).len() > 0 ==> !descends(
            v,
            entries_of(segments[i]).last().class,
            ROTATION_CLASS@,
        ),
    ensures
        forall|j: int|
            0 <= j < chain_report(segments, v, i).findings.len() ==> !((#[trigger] chain_report(
                segments,
                v,
                i,
            ).findings[j]) is MissingSuccessor),
{
    let r = linked_report(segments, v, i);
    lemma_linked(segments, v, i);
    let h = header_read(segments[i])->Ok_0.0;
    lemma_tells(h, v, body_start(lines(segments[i])) as nat, body(segments[i]));
    lemma_of_one_segment(segments[i], v, linked_to(segments, v, i));
    assert(r.successor is None);
    let f = chain_report(segments, v, i).findings;
    assert forall|j: int| 0 <= j < f.len() implies !((#[trigger] f[j]) is MissingSuccessor) by {
        if j < r.findings.len() {
            assert(f[j] == r.findings[j]);
            assert(of_one_segment(r.findings[j]));
        }
    }
}

/// A chain is checked link by link: each segment against the name and the head of the one
/// before it, which are those of its header and of its last seal.
pub proof fn law_chain_is_checked_link_by_link(segments: Seq<Seq<char>>, v: VocabularyView, i: int)
    requires
        0 < i < segments.len(),
        header_read(segments[i - 1]) is Ok,
        header_read(segments[i]) is Ok,
        report_ok(chain_report(segments, v, i)),
    ensures
        ({
            let prev = header_read(segments[i])->Ok_0.0.prev;
            let seals = seals_of(segments[i - 1]);
            &&& seals.len() > 0 ==> prev == PrevView::Seal(seals.last().1.hash)
            &&& seals.len() == 0 ==> prev == PrevView::Seal(
                chain_after(header_read(segments[i - 1])->Ok_0.0, Seq::empty()),
            )
        }),
{
    law_verified_chain(segments, v, i);
    lemma_linked(segments, v, i - 1);
    law_report_tells_the_segment(segments[i - 1], v, linked_to(segments, v, i - 1));
}

/// What breaks a record: everything that can be found of it but an end that is not marked
/// and a tail that is not sealed.
pub proof fn law_what_breaks(f: FindingView)
    ensures
        f is Malformed || f is SealMismatch || f is SealRangeGap || f is SequenceGap || f
            is PrevMismatch || f is UnexpectedGenesis || f is MissingSuccessor || f
            is UnbracketedLevelChange <==> breaks(f),
{
}

} // verus!
