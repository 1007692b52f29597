//! What a verified segment shows, and what a verified chain shows.

use vstd::prelude::*;

use crate::chain::{canonical_header, chain_start};
use crate::chain_law::{chain_after, collision, law_chain_commits};
use crate::error::ParseErrorView;
use crate::finding::{breaks, report_ok, FindingView};
use crate::header::{bytes_of, empty_draft, header_read, with_lines, DraftView, HeaderView, PrevView};
use crate::line::{line_read, LineView, SealView};
use crate::text::{chomp, lines, trim};
use crate::verify::{
    after_lines, body_start, chain_head, chain_report, end_findings, last_seal, level_findings,
    link_findings, linked_report, progress, stated_seq, successor_findings, verified, ProgressView,
};
use crate::vocabulary::VocabularyView;

verus! {

/// Whether nothing among `f` breaks a chain.
pub open spec fn unbroken_chain(f: Seq<FindingView>) -> bool {
    forall|i: int| 0 <= i < f.len() ==> !breaks(#[trigger] f[i])
}

/// Whether `raw` is a line that follows in order on what was read before.
pub open spec fn in_order(
    p: ProgressView,
    raw: Seq<char>,
    prefixes: Seq<(Seq<char>, Seq<char>)>,
) -> bool {
    match line_read(raw, prefixes) {
        Err(_) => false,
        Ok(LineView::Directive { .. }) => false,
        Ok(LineView::Entry(e)) => (stated_seq(e) is Some && p.last_seq is Some) ==> stated_seq(
            e,
        )->Some_0 == p.last_seq->Some_0 + 1,
        Ok(LineView::Seal(s)) => s.first == p.sealed_through + 1 && s.hash == p.chain,
        Ok(_) => true,
    }
}

/// What was found stays found.
proof fn lemma_findings_grow(h: HeaderView, v: VocabularyView, skipped: nat, ls: Seq<Seq<char>>)
    requires
        ls.len() > 0,
    ensures
        after_lines(h, v, skipped, ls.drop_last()).findings.is_prefix_of(
            after_lines(h, v, skipped, ls).findings,
        ),
        unbroken_chain(after_lines(h, v, skipped, ls).findings) ==> unbroken_chain(
            after_lines(h, v, skipped, ls.drop_last()).findings,
        ) && in_order(after_lines(h, v, skipped, ls.drop_last()), ls.last(), h.prefixes),
{
    let p = after_lines(h, v, skipped, ls.drop_last());
    let q = after_lines(h, v, skipped, ls);
    let n = p.findings.len() as int;
    assert(q.findings.take(n) =~= p.findings);
    if unbroken_chain(q.findings) {
        assert forall|i: int| 0 <= i < n implies !breaks(#[trigger] p.findings[i]) by {
            assert(p.findings[i] == q.findings[i]);
        }
        if !in_order(p, ls.last(), h.prefixes) {
            assert(q.findings.len() > n);
            assert(breaks(q.findings[n]));
        }
    }
}

/// Where nothing breaks the chain, every line follows in order on those before it: each
/// can be read, each seal covers what follows the one before it and states the hash that
/// the entries give, and no sequence number is left out.
pub proof fn law_intact_lines_are_in_order(
    h: HeaderView,
    v: VocabularyView,
    skipped: nat,
    ls: Seq<Seq<char>>,
)
    requires
        unbroken_chain(after_lines(h, v, skipped, ls).findings),
    ensures
        forall|i: int|
            0 <= i < ls.len() ==> in_order(
                after_lines(h, v, skipped, #[trigger] ls.take(i)),
                ls[i],
                h.prefixes,
            ),
    decreases ls.len(),
{
    if ls.len() > 0 {
        let front = ls.drop_last();
        lemma_findings_grow(h, v, skipped, ls);
        law_intact_lines_are_in_order(h, v, skipped, front);
        assert forall|i: int| 0 <= i < ls.len() implies in_order(
            after_lines(h, v, skipped, #[trigger] ls.take(i)),
            ls[i],
            h.prefixes,
        ) by {
            if i < front.len() {
                assert(front.take(i) =~= ls.take(i));
                assert(front[i] == ls[i]);
            } else {
                assert(ls.take(i) =~= front);
            }
        }
    }
}

/// A segment that verifies has a header, its lines are all in order, and it names the
/// chain head of the predecessor it is checked against.
pub proof fn law_verified_segment(
    text: Seq<char>,
    v: VocabularyView,
    predecessor: Option<(Seq<char>, Seq<char>)>,
)
    requires
        report_ok(verified(text, v, predecessor)),
    ensures
        header_read(text) is Ok,
        ({
            let h = header_read(text)->Ok_0.0;
            let skipped = body_start(lines(text));
            let body = lines(text).skip(skipped);
            &&& forall|i: int|
                0 <= i < body.len() ==> in_order(
                    after_lines(h, v, skipped as nat, #[trigger] body.take(i)),
                    body[i],
                    h.prefixes,
                )
            &&& predecessor matches Some((_, head)) ==> h.prev == PrevView::Seal(head)
        }),
{
    let r = verified(text, v, predecessor);
    if header_read(text) is Err {
        assert(breaks(r.findings[0]));
    }
    let h = header_read(text)->Ok_0.0;
    let p = progress(text, h, v);
    let end = end_findings(p, v);
    let link = link_findings(h.prev, predecessor);
    let skipped = body_start(lines(text));
    assert forall|i: int| 0 <= i < p.findings.len() implies !breaks(#[trigger] p.findings[i]) by {
        assert(p.findings[i] == r.findings[i]);
    }
    law_intact_lines_are_in_order(h, v, skipped as nat, lines(text).skip(skipped));
    if link.len() > 0 {
        assert(breaks(link[0]));
        assert(r.findings[(p.findings.len() + end.len()) as int] == link[0]);
    }
}

// =====================================================================================
// The chain that is recomputed
// =====================================================================================

/// The entry lines among `ls`, as they enter the chain.
pub open spec fn entry_lines(
    ls: Seq<Seq<char>>,
    prefixes: Seq<(Seq<char>, Seq<char>)>,
) -> Seq<Seq<char>>
    decreases ls.len(),
{
    if ls.len() == 0 {
        Seq::empty()
    } else {
        let before = entry_lines(ls.drop_last(), prefixes);
        match line_read(ls.last(), prefixes) {
            Ok(LineView::Entry(_)) => before.push(chomp(ls.last())),
            _ => before,
        }
    }
}

/// The hash that verification recomputes is the chain over the header and the entry lines
/// read so far: with [`crate::chain_law::law_chain_commits`], a seal that is in order
/// fixes all of them.
pub proof fn law_recomputed_chain(
    h: HeaderView,
    v: VocabularyView,
    skipped: nat,
    ls: Seq<Seq<char>>,
)
    ensures
        after_lines(h, v, skipped, ls).chain == chain_after(h, entry_lines(ls, h.prefixes)),
        after_lines(h, v, skipped, ls).entries == entry_lines(ls, h.prefixes).len(),
    decreases ls.len(),
{
    if ls.len() > 0 {
        law_recomputed_chain(h, v, skipped, ls.drop_last());
        let before = entry_lines(ls.drop_last(), h.prefixes);
        match line_read(ls.last(), h.prefixes) {
            Ok(LineView::Entry(_)) => {
                assert(before.push(chomp(ls.last())).drop_last() =~= before);
            },
            _ => {},
        }
    }
}

proof fn lemma_last_seal(h: HeaderView, v: VocabularyView, skipped: nat, ls: Seq<Seq<char>>)
    ensures
        after_lines(h, v, skipped, ls).head == last_seal(chain_start(h), ls, h.prefixes),
    decreases ls.len(),
{
    if ls.len() > 0 {
        lemma_last_seal(h, v, skipped, ls.drop_last());
    }
}

/// Verification and the chain head of a text agree, whatever the text is checked against:
/// there is one answer to what a successor must name.
pub proof fn law_head_agrees(
    text: Seq<char>,
    v: VocabularyView,
    predecessor: Option<(Seq<char>, Seq<char>)>,
)
    requires
        header_read(text) is Ok,
    ensures
        chain_head(text) == Some(verified(text, v, predecessor).head),
{
    let h = header_read(text)->Ok_0.0;
    let skipped = body_start(lines(text));
    lemma_last_seal(h, v, skipped as nat, lines(text).skip(skipped));
}

// =====================================================================================
// Alterations
// =====================================================================================

proof fn lemma_entry_lines_join(
    a: Seq<Seq<char>>,
    b: Seq<Seq<char>>,
    prefixes: Seq<(Seq<char>, Seq<char>)>,
)
    ensures
        entry_lines(a + b, prefixes) == entry_lines(a, prefixes) + entry_lines(b, prefixes),
    decreases b.len(),
{
    let all = a + b;
    let first = entry_lines(a, prefixes);
    if b.len() == 0 {
        assert(all =~= a);
        assert(first + entry_lines(b, prefixes) =~= first);
    } else {
        lemma_entry_lines_join(a, b.drop_last(), prefixes);
        assert(all.drop_last() =~= a + b.drop_last());
        assert(all.last() == b.last());
        let before = entry_lines(b.drop_last(), prefixes);
        match line_read(b.last(), prefixes) {
            Ok(LineView::Entry(_)) => {
                assert((first + before).push(chomp(b.last())) =~= first + before.push(
                    chomp(b.last()),
                ));
            },
            _ => {},
        }
    }
}

/// Tampering is localized: where the lines `honest` after `before` are replaced by others
/// with different entries among them, the seal `s` that followed is found not to match, and
/// the finding names the range that it covers, but for a collision of the hash function.
pub proof fn law_tampering_is_localized(
    h: HeaderView,
    v: VocabularyView,
    skipped: nat,
    before: Seq<Seq<char>>,
    honest: Seq<Seq<char>>,
    forged: Seq<Seq<char>>,
    line: Seq<char>,
    s: SealView,
)
    requires
        line_read(line, h.prefixes) == Ok::<LineView, ParseErrorView>(LineView::Seal(s)),
        s.hash == after_lines(h, v, skipped, before + honest).chain,
        entry_lines(honest, h.prefixes) != entry_lines(forged, h.prefixes),
    ensures
        ({
            let p = after_lines(h, v, skipped, before + forged);
            after_lines(h, v, skipped, (before + forged).push(line)).findings.contains(
                FindingView::SealMismatch {
                    first: s.first,
                    last: s.last,
                    stated: s.hash,
                    recomputed: p.chain,
                },
            )
        }) || collision(),
{
    let top = entry_lines(before, h.prefixes);
    let one = entry_lines(honest, h.prefixes);
    let two = entry_lines(forged, h.prefixes);
    lemma_entry_lines_join(before, honest, h.prefixes);
    lemma_entry_lines_join(before, forged, h.prefixes);
    law_recomputed_chain(h, v, skipped, before + honest);
    law_recomputed_chain(h, v, skipped, before + forged);
    let p = after_lines(h, v, skipped, before + forged);
    if p.chain == s.hash {
        law_chain_commits(h, top + one, h, top + two);
        if top + one == top + two {
            assert(one =~= (top + one).skip(top.len() as int));
            assert(two =~= (top + two).skip(top.len() as int));
        }
    } else {
        let all = (before + forged).push(line);
        assert(all.drop_last() =~= before + forged);
        let q = after_lines(h, v, skipped, all);
        let f = FindingView::SealMismatch {
            first: s.first,
            last: s.last,
            stated: s.hash,
            recomputed: p.chain,
        };
        assert(q.findings.last() == f);
        assert(q.findings.contains(q.findings[q.findings.len() - 1]));
    }
}

/// The entry lines that the last seal among `ls` covers.
pub open spec fn sealed_lines(
    ls: Seq<Seq<char>>,
    prefixes: Seq<(Seq<char>, Seq<char>)>,
) -> Seq<Seq<char>>
    decreases ls.len(),
{
    if ls.len() == 0 {
        Seq::empty()
    } else {
        match line_read(ls.last(), prefixes) {
            Ok(LineView::Seal(_)) => entry_lines(ls.drop_last(), prefixes),
            _ => sealed_lines(ls.drop_last(), prefixes),
        }
    }
}

proof fn lemma_head_is_chain(h: HeaderView, v: VocabularyView, skipped: nat, ls: Seq<Seq<char>>)
    requires
        unbroken_chain(after_lines(h, v, skipped, ls).findings),
    ensures
        after_lines(h, v, skipped, ls).head == chain_after(h, sealed_lines(ls, h.prefixes)),
    decreases ls.len(),
{
    if ls.len() > 0 {
        lemma_findings_grow(h, v, skipped, ls);
        lemma_head_is_chain(h, v, skipped, ls.drop_last());
        law_recomputed_chain(h, v, skipped, ls.drop_last());
    }
}

/// What a segment has sealed: its header, and the entry lines that its last seal covers.
pub open spec fn committed(text: Seq<char>) -> (Seq<char>, Seq<Seq<char>>) {
    let h = header_read(text)->Ok_0.0;
    (canonical_header(h), sealed_lines(lines(text).skip(body_start(lines(text))), h.prefixes))
}

proof fn lemma_verified_head(
    text: Seq<char>,
    v: VocabularyView,
    predecessor: Option<(Seq<char>, Seq<char>)>,
)
    requires
        report_ok(verified(text, v, predecessor)),
    ensures
        header_read(text) is Ok,
        verified(text, v, predecessor).head == chain_after(
            header_read(text)->Ok_0.0,
            committed(text).1,
        ),
{
    law_verified_segment(text, v, predecessor);
    let r = verified(text, v, predecessor);
    let h = header_read(text)->Ok_0.0;
    let p = progress(text, h, v);
    assert forall|i: int| 0 <= i < p.findings.len() implies !breaks(#[trigger] p.findings[i]) by {
        assert(p.findings[i] == r.findings[i]);
    }
    let skipped = body_start(lines(text));
    lemma_head_is_chain(h, v, skipped as nat, lines(text).skip(skipped));
}

/// A chain head stands for one history: two segments that verify and have one chain head
/// have sealed the same header and the same entry lines in the same order, but for a
/// collision of the hash function.
pub proof fn law_head_commits(
    a: Seq<char>,
    before_a: Option<(Seq<char>, Seq<char>)>,
    b: Seq<char>,
    before_b: Option<(Seq<char>, Seq<char>)>,
    v: VocabularyView,
)
    requires
        report_ok(verified(a, v, before_a)),
        report_ok(verified(b, v, before_b)),
        verified(a, v, before_a).head == verified(b, v, before_b).head,
    ensures
        committed(a) == committed(b) || collision(),
{
    lemma_verified_head(a, v, before_a);
    lemma_verified_head(b, v, before_b);
    let (ha, hb) = (header_read(a)->Ok_0.0, header_read(b)->Ok_0.0);
    law_chain_commits(ha, committed(a).1, hb, committed(b).1);
}

// =====================================================================================
// A chain of segments
// =====================================================================================

/// A chain that verifies: every segment after the first names the chain head of the one
/// before it, no level changed without a marker on either side of the boundary, and every
/// successor that a rotation named is the segment that follows.
pub proof fn law_verified_chain(segments: Seq<Seq<char>>, v: VocabularyView, i: int)
    requires
        0 <= i < segments.len(),
        report_ok(chain_report(segments, v, i)),
    ensures
        header_read(segments[i]) is Ok,
        i > 0 ==> header_read(segments[i])->Ok_0.0.prev == PrevView::Seal(
            linked_report(segments, v, i - 1).head,
        ),
        i > 0 ==> {
            let before = linked_report(segments, v, i - 1);
            let here = linked_report(segments, v, i);
            before.level == here.level || before.records_level_change || here.records_level_change
        },
        linked_report(segments, v, i).successor matches Some(next) ==> i + 1 < segments.len()
            && linked_report(segments, v, i + 1).name == next,
{
    let r = linked_report(segments, v, i);
    let c = chain_report(segments, v, i);
    let level = if i > 0 {
        level_findings(linked_report(segments, v, i - 1), r)
    } else {
        Seq::empty()
    };
    let follows = successor_findings(
        r,
        if i + 1 < segments.len() {
            Some(linked_report(segments, v, i + 1).name)
        } else {
            None
        },
    );
    assert(c.findings == r.findings + level + follows);
    assert forall|k: int| 0 <= k < r.findings.len() implies !breaks(#[trigger] r.findings[k]) by {
        assert(r.findings[k] == c.findings[k]);
    }
    let predecessor = if i > 0 {
        let before = linked_report(segments, v, i - 1);
        Some((before.name, before.head))
    } else {
        None
    };
    assert(r == verified(segments[i], v, predecessor));
    law_verified_segment(segments[i], v, predecessor);
    if level.len() > 0 {
        assert(breaks(level[0]));
        assert(c.findings[r.findings.len() as int] == level[0]);
    }
    if follows.len() > 0 {
        assert(breaks(follows[0]));
        assert(c.findings[(r.findings.len() + level.len()) as int] == follows[0]);
    }
}

proof fn lemma_named_by_next(segments: Seq<Seq<char>>, v: VocabularyView, i: int)
    requires
        0 <= i,
        i + 1 < segments.len(),
        report_ok(chain_report(segments, v, i)),
        report_ok(chain_report(segments, v, i + 1)),
    ensures
        header_read(segments[i + 1])->Ok_0.0.prev == PrevView::Seal(
            chain_after(header_read(segments[i])->Ok_0.0, committed(segments[i]).1),
        ),
{
    law_verified_chain(segments, v, i + 1);
    let r = linked_report(segments, v, i);
    let c = chain_report(segments, v, i);
    assert forall|k: int| 0 <= k < r.findings.len() implies !breaks(#[trigger] r.findings[k]) by {
        assert(r.findings[k] == c.findings[k]);
    }
    let predecessor = if i > 0 {
        let before = linked_report(segments, v, i - 1);
        Some((before.name, before.head))
    } else {
        None
    };
    assert(r == verified(segments[i], v, predecessor));
    lemma_verified_head(segments[i], v, predecessor);
}

/// A replacement is caught: where two adjacent segments of a chain verify, and the first is
/// replaced by one that has sealed anything else, then not both verify, though the
/// replacement be perfect in itself, but for a collision of the hash function.
pub proof fn law_replacement_is_caught(
    segments: Seq<Seq<char>>,
    v: VocabularyView,
    i: int,
    forged: Seq<char>,
)
    requires
        0 <= i,
        i + 1 < segments.len(),
        report_ok(chain_report(segments, v, i)),
        report_ok(chain_report(segments, v, i + 1)),
        committed(forged) != committed(segments[i]),
    ensures
        !report_ok(chain_report(segments.update(i, forged), v, i)) || !report_ok(
            chain_report(segments.update(i, forged), v, i + 1),
        ) || collision(),
{
    let other = segments.update(i, forged);
    lemma_named_by_next(segments, v, i);
    if report_ok(chain_report(other, v, i)) && report_ok(chain_report(other, v, i + 1)) {
        lemma_named_by_next(other, v, i);
        let (h, k) = (header_read(segments[i])->Ok_0.0, header_read(forged)->Ok_0.0);
        law_chain_commits(h, committed(segments[i]).1, k, committed(forged).1);
    }
}

// =====================================================================================
// Where the entries begin
// =====================================================================================

proof fn lemma_header_bytes(d: DraftView, ls: Seq<Seq<char>>)
    requires
        with_lines(d, ls) is Ok,
    ensures
        with_lines(d, ls)->Ok_0.1 == bytes_of(ls.take(body_start(ls))),
        0 <= body_start(ls) <= ls.len(),
    decreases ls.len(),
{
    let n = body_start(ls);
    if ls.len() == 0 {
        assert(ls.take(n) =~= Seq::empty());
        assert(bytes_of(ls.take(n)) == 0);
    } else if trim(chomp(ls[0])).len() == 0 {
        let top = ls.take(1);
        assert(top[0] == ls[0]);
        assert(top.drop_first() =~= Seq::empty());
        assert(bytes_of(top.drop_first()) == 0);
    } else {
        let next = crate::header::with_line(d, chomp(ls[0]))->Ok_0;
        lemma_header_bytes(next, ls.drop_first());
        let top = ls.take(n);
        assert(top[0] == ls[0]);
        assert(top.drop_first() =~= ls.drop_first().take(n - 1));
    }
}

/// A header says where the entries begin: after the bytes of the lines that verification
/// skips.
pub proof fn law_entries_begin(text: Seq<char>)
    requires
        header_read(text) is Ok,
    ensures
        header_read(text)->Ok_0.1 == bytes_of(lines(text).take(body_start(lines(text)))),
{
    lemma_header_bytes(empty_draft(), lines(text));
}

} // verus!
