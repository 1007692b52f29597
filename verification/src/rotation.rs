//! Rotation: verify, seal and validate, as one operation.
//!
//! The open segment gets a `log:Rotation` entry that names its successor, and a final seal
//! ([`LogHandle::rotate_out`]). The successor opens chained to that seal
//! ([`LogHandle::succeed`]). Then the chain is verified, and what is wrong with it lands in
//! the successor as `log:ChainBroken` entries ([`LogHandle::validate`]).

use std::sync::Arc;
use vstd::prelude::*;

use crate::chain::SealSigner;
use crate::config::{instance_of, unprefixed, INSTANCE_NS};
use crate::entry::{pairs, Entry, EntryView};
use crate::finding::{breaks, finding_text, findings_view, Finding, FindingView, ReportView};
use crate::handle::{has_room, sure, HandleView, LogHandle};
use crate::header::{Prev, PrevView};
use crate::line_law::joined_lines;
use crate::lineage::emitted;
use crate::lineage_law::law_descends_reflexive;
use crate::request::{lemma_writes_push, only_refused, writes};
use crate::segments::chain_reports;
use crate::table::lookup;
use crate::time::{Timestamp, WIDE_FROM};
use crate::verify::{
    end_findings, key_for, linked_report, segment_texts, verified, verify_chain, LOG_SUCCESSOR,
};
use crate::vocabulary::{Vocabulary, VocabularyView, CHAIN_BROKEN_CLASS, ROTATION_CLASS};
use crate::writer::{
    attempt_stamp, ending, instance_name_of, numbered, opening_header, rotation_marker,
    segment_name, starting, written, Closed, LineSink, Opening, Reservation, WriteError,
    WriteErrorView, Writer, WriterOptions, WriterView,
};
use crate::writer_law::{
    law_ended_segment_verifies, law_sound_segment_verifies, reading, sound, successor_in, tidy,
};

verus! {

// =====================================================================================
// What breaks a chain
// =====================================================================================

/// The entries that say what is wrong with a segment.
pub open spec fn broken_entries(
    name: Seq<char>,
    findings: Seq<FindingView>,
    now: nat,
) -> Seq<EntryView>
    decreases findings.len(),
{
    if findings.len() == 0 {
        Seq::empty()
    } else {
        let before = broken_entries(name, findings.drop_last(), now);
        let f = findings.last();
        if breaks(f) {
            before.push(
                EntryView {
                    time: now,
                    class: CHAIN_BROKEN_CLASS@,
                    subject: name,
                    fields: seq![("finding"@, finding_text(f))],
                },
            )
        } else {
            before
        }
    }
}

/// The entries that say what is wrong with a chain, segment by segment.
pub open spec fn chain_broken(
    chain: Seq<(Seq<char>, Seq<char>)>,
    reports: Seq<ReportView>,
    now: nat,
) -> Seq<EntryView>
    decreases chain.len(),
{
    if chain.len() == 0 {
        Seq::empty()
    } else {
        chain_broken(chain.drop_last(), reports, now) + broken_entries(
            chain.last().0,
            reports[chain.len() - 1].findings,
            now,
        )
    }
}

/// The entries that say what verification finds wrong with a chain.
#[verifier::opaque]
pub open spec fn to_land(
    chain: Seq<(Seq<char>, Seq<char>)>,
    v: VocabularyView,
    now: nat,
) -> Seq<EntryView> {
    chain_broken(chain, chain_reports(chain, v), now)
}

/// Entries, with their texts as characters.
pub open spec fn entries_view(v: Seq<Entry>) -> Seq<EntryView> {
    v.map_values(|e: Entry| e@)
}

fn add_broken(out: &mut Vec<Entry>, name: &str, findings: &Vec<Finding>, now: Timestamp)
    ensures
        entries_view(final(out)@) == entries_view(old(out)@) + broken_entries(
            name@,
            findings_view(findings@),
            now.0 as nat,
        ),
{
    let ghost start = entries_view(out@);
    let ghost all = findings_view(findings@);
    let mut i: usize = 0;
    proof {
        assert(all.take(0) =~= Seq::empty());
        assert(start + Seq::<EntryView>::empty() =~= start);
    }
    while i < findings.len()
        invariant
            i <= findings.len(),
            all == findings_view(findings@),
            entries_view(out@) == start + broken_entries(
                name@,
                all.take(i as int),
                now.0 as nat,
            ),
        decreases findings.len() - i,
    {
        proof {
            assert(all.take(i + 1).drop_last() =~= all.take(i as int));
            assert(all.take(i + 1).last() == findings@[i as int]@);
        }
        if findings[i].is_breaking() {
            let ghost before = out@;
            let entry = Entry::new(now, CHAIN_BROKEN_CLASS, name).with(
                "finding",
                &findings[i].message(),
            );
            assert(entry@.fields =~= seq![("finding"@, finding_text(findings@[i as int]@))]);
            out.push(entry);
            assert(entries_view(out@) =~= entries_view(before).push(entry@));
            assert(entries_view(out@) =~= start + broken_entries(
                name@,
                all.take(i + 1),
                now.0 as nat,
            ));
        }
        i = i + 1;
    }
    assert(all.take(i as int) =~= all);
}

/// The `log:ChainBroken` entries that a rotation lands in the successor: one for each thing
/// that breaks the chain `segments`, given as `(IRI, bytes)`, oldest first, and none where
/// it verifies.
///
/// Entries, not an error: an error would be caught by whatever was rotating and the fact
/// would leave no trace. A rotation that refused to complete because a predecessor was
/// tampered with would stop the log, which is exactly what a tamperer wants.
pub fn chain_broken_entries(
    segments: &Vec<(String, String)>,
    vocab: &Vocabulary,
    now: Timestamp,
) -> (out: Vec<Entry>)
    ensures
        entries_view(out@) == to_land(pairs(segments@), vocab@, now.0 as nat),
{
    let report = verify_chain(segments, vocab);
    let ghost chain = pairs(segments@);
    let ghost reports = chain_reports(chain, vocab@);
    let mut out: Vec<Entry> = Vec::new();
    let mut i: usize = 0;
    proof {
        assert(segment_texts(segments@) =~= chain.map_values(|p: (Seq<char>, Seq<char>)| p.1));
        assert(report@ =~= reports);
        assert(chain.take(0) =~= Seq::empty());
        assert(entries_view(out@) =~= Seq::empty());
    }
    while i < segments.len()
        invariant
            i <= segments.len(),
            chain == pairs(segments@),
            report@ == reports,
            reports.len() == segments.len(),
            entries_view(out@) == chain_broken(chain.take(i as int), reports, now.0 as nat),
        decreases segments.len() - i,
    {
        proof {
            assert(chain.take(i + 1).drop_last() =~= chain.take(i as int));
            assert(chain.take(i + 1).last() == chain[i as int]);
            assert(reports[i as int] == report.segments@[i as int]@);
        }
        add_broken(&mut out, &segments[i].0, &report.segments[i].findings, now);
        i = i + 1;
    }
    proof {
        assert(chain.take(i as int) =~= chain);
        reveal(to_land);
    }
    out
}

// =====================================================================================
// The successor
// =====================================================================================

/// How the successor of an ended segment opens: under the same instance, chained to the
/// final seal, at the stamp that was reserved for it.
pub open spec fn succession(
    before: HandleView,
    v: VocabularyView,
    now: nat,
    instance: Seq<char>,
    head: Seq<char>,
    stamp: Seq<char>,
    path: Option<Seq<char>>,
    process: Option<u32>,
) -> Opening {
    Opening {
        config: before.config,
        vocabulary: v,
        now,
        path,
        name: Some(unprefixed(instance, INSTANCE_NS@)),
        seals: before.config.seals,
        rotation: before.config.rotation,
        prev: Some(PrevView::Seal(head)),
        stamp: Some(stamp),
        process,
    }
}

impl<S: LineSink, G: SealSigner> LogHandle<S, G> {
    /// Open the segment that follows `closed`, on the file that was reserved for it, and
    /// take it over.
    ///
    /// Without the link to the seal that `closed` ended with, a rotation would be the seam
    /// at which a whole segment can be replaced. The signer passes across: it is still the
    /// same signer.
    pub fn succeed(
        &mut self,
        closed: Closed<G>,
        vocabulary: Arc<Vocabulary>,
        now: Timestamp,
        reserved: &Reservation,
        path: Option<String>,
        sink: S,
        process: Option<u32>,
    ) -> (r: Result<(), WriteError>)
        ensures
            ({
                let o = succession(
                    old(self)@,
                    (*vocabulary)@,
                    now.0 as nat,
                    closed.instance@,
                    closed.head@,
                    reserved.stamp@,
                    crate::text::maybe(path),
                    process,
                );
                match r {
                    Ok(_) => final(self)@.writer matches Some(w) && starting(
                        o,
                        closed.signer,
                        sink.accepted(),
                        sink.reliable(),
                        Ok(w),
                    ) && final(self)@ == (HandleView { writer: Some(w), ..old(self)@ })
                        && final(self).signer() == closed.signer,
                    Err(e) => starting(
                        o,
                        closed.signer,
                        sink.accepted(),
                        sink.reliable(),
                        Err(e@),
                    ) && final(self)@ == old(self)@ && final(self).signer() == old(self).signer(),
                }
            }),
            sink.reliable() ==> (match r {
                Ok(_) => final(self).reliable(),
                Err(e) => !(e is Io),
            }),
    {
        let name = instance_name_of(&closed.instance);
        let options = WriterOptions {
            seals: self.config().seals,
            rotation: self.config().rotation,
            prev: Some(Prev::Seal(closed.head)),
            signer: closed.signer,
        };
        match Writer::open_on(
            self.config(),
            vocabulary,
            now,
            options,
            sink,
            path,
            Some(name),
            Some(reserved.stamp.clone()),
            process,
        ) {
            Ok(w) => {
                self.attach(w);
                Ok(())
            },
            Err(e) => Err(e),
        }
    }

    /// Verify the chain `segments`, given as `(IRI, bytes)`, oldest first, and land what
    /// breaks it in the open segment. Returns how many entries it landed, or tried to: a
    /// failure to record one does not keep the next from being recorded.
    ///
    /// It stops only where the open segment can number no more entries.
    pub fn validate(
        &mut self,
        segments: &Vec<(String, String)>,
        vocab: &Vocabulary,
        now: Timestamp,
    ) -> (n: usize)
        ensures
            ({
                let all = to_land(pairs(segments@), vocab@, now.0 as nat);
                &&& n <= all.len()
                &&& n < all.len() ==> !has_room(final(self)@.writer)
                &&& exists|
                    states: Seq<Option<WriterView>>,
                    rs: Seq<Result<Option<nat>, WriteErrorView>>,
                | #[trigger]
                    writes(old(self).signer(), all.take(n as int), states, rs)
                        && states.first() == old(self)@.writer && states.last()
                        == final(self)@.writer && (old(self).reliable() ==> only_refused(rs))
            }),
            final(self)@ == (HandleView { writer: final(self)@.writer, ..old(self)@ }),
            final(self).signer() == old(self).signer(),
            old(self).reliable() ==> final(self).reliable(),
    {
        let todo = chain_broken_entries(segments, vocab, now);
        self.land(todo)
    }

    /// Write `entries` one after the other, as far as they can be numbered.
    fn land(&mut self, entries: Vec<Entry>) -> (n: usize)
        ensures
            n <= entries.len(),
            n < entries.len() ==> !has_room(final(self)@.writer),
            exists|
                states: Seq<Option<WriterView>>,
                rs: Seq<Result<Option<nat>, WriteErrorView>>,
            | #[trigger]
                writes(old(self).signer(), entries_view(entries@).take(n as int), states, rs)
                    && states.first() == old(self)@.writer && states.last()
                    == final(self)@.writer && (old(self).reliable() ==> only_refused(rs)),
            final(self)@ == (HandleView { writer: final(self)@.writer, ..old(self)@ }),
            final(self).signer() == old(self).signer(),
            old(self).reliable() ==> final(self).reliable(),
    {
        let count = entries.len();
        let ghost start = self@;
        let ghost by = self.signer();
        let ghost total = entries@;
        let ghost all = entries_view(total);
        let ghost mut states: Seq<Option<WriterView>> = seq![start.writer];
        let ghost mut rs: Seq<Result<Option<nat>, WriteErrorView>> = Seq::empty();
        let mut rest = entries;
        let mut n: usize = 0;
        assert(all.take(0) =~= Seq::empty());
        let mut room = self.has_room_left();
        while rest.len() > 0 && room
            invariant
                n + rest.len() == count,
                count == total.len(),
                all == entries_view(total),
                rest@ == total.skip(n as int),
                room == has_room(self@.writer),
                writes(by, all.take(n as int), states, rs),
                states.first() == start.writer,
                states.last() == self@.writer,
                self@ == (HandleView { writer: self@.writer, ..start }),
                self.signer() == by,
                sure(start.writer) ==> self.reliable() && only_refused(rs),
            decreases rest.len(),
        {
            let entry = rest.remove(0);
            proof {
                assert(entry == total[n as int]);
                assert(all[n as int] == entry@);
                assert(rest@ =~= total.skip(n + 1));
            }
            let o = self.write(entry);
            proof {
                lemma_writes_push(by, all, states, rs, n as int, self@.writer, written(o));
                rs = rs.push(written(o));
                states = states.push(self@.writer);
            }
            n = n + 1;
            room = self.has_room_left();
        }
        n
    }
}

/// The segment that opens is the one that the rotation named: the IRI of a reservation
/// made for an instance is the name of the segment that succeeds under it.
pub proof fn law_successor_is_the_one_named(
    before: HandleView,
    v: VocabularyView,
    now: nat,
    instance: Seq<char>,
    head: Seq<char>,
    attempt: nat,
    path: Option<Seq<char>>,
    process: Option<u32>,
)
    requires
        instance == instance_of(unprefixed(instance, INSTANCE_NS@)),
    ensures
        ({
            let stamp = attempt_stamp(now, attempt);
            let h = opening_header(
                succession(before, v, now, instance, head, stamp, path, process),
            );
            &&& h.name == segment_name(instance_of(unprefixed(instance, INSTANCE_NS@)), stamp)
            &&& h.instance == instance
            &&& h.prev == PrevView::Seal(head)
        }),
{
}

/// An honest rotation lands nothing: where a segment in order was rotated out in favour of
/// `next`, and `next` opened in order on the chain head that was left, at the same level or
/// with the change of level on record, verification of the two finds nothing that breaks.
pub proof fn law_honest_rotation_lands_nothing<G: SealSigner>(
    signer: Option<G>,
    w: WriterView,
    now: nat,
    after: WriterView,
    next: WriterView,
    at: nat,
)
    requires
        sound(w),
        w.seq < u64::MAX,
        now < WIDE_FROM,
        tidy(signer),
        emitted(w.vocabulary, ROTATION_CLASS@, w.rank),
        key_for(w.vocabulary.keys, LOG_SUCCESSOR@) == Some("next"@),
        ending(
            signer,
            w,
            rotation_marker(w.header.name, now, Some(next.header.name)),
            now,
            after,
            Ok(()),
        ),
        sound(next),
        next.vocabulary == w.vocabulary,
        next.header.prev == PrevView::Seal(after.sealed_head),
        next.header.level == w.header.level || reading(w).records_level_change,
        reading(next).successor is None,
    ensures
        to_land(
            seq![
                (w.header.name, joined_lines(after.lines)),
                (next.header.name, joined_lines(next.lines)),
            ],
            w.vocabulary,
            at,
        ) == Seq::<EntryView>::empty(),
{
    lemma_rotated(signer, w, now, after, next.header.name);
    lemma_followed(next, w.header.name, after.sealed_head);
    lemma_pair_is_unbroken(
        (w.header.name, joined_lines(after.lines)),
        (next.header.name, joined_lines(next.lines)),
        w.vocabulary,
        at,
    );
}

/// [`verified`], kept folded.
#[verifier::opaque]
spec fn report_on(
    text: Seq<char>,
    v: VocabularyView,
    predecessor: Option<(Seq<char>, Seq<char>)>,
) -> ReportView {
    verified(text, v, predecessor)
}

/// Two reports that fit together.
spec fn fitting(a: ReportView, b: ReportView) -> bool {
    &&& a.findings.len() == 0
    &&& a.successor == Some(b.name)
    &&& a.level == b.level || a.records_level_change
    &&& b.successor is None
    &&& forall|i: int| 0 <= i < b.findings.len() ==> !breaks(#[trigger] b.findings[i])
}

/// What verification shows of a segment that was rotated out.
proof fn lemma_rotated<G: SealSigner>(
    signer: Option<G>,
    w: WriterView,
    now: nat,
    after: WriterView,
    next: Seq<char>,
)
    requires
        sound(w),
        w.seq < u64::MAX,
        now < WIDE_FROM,
        tidy(signer),
        emitted(w.vocabulary, ROTATION_CLASS@, w.rank),
        key_for(w.vocabulary.keys, LOG_SUCCESSOR@) == Some("next"@),
        ending(signer, w, rotation_marker(w.header.name, now, Some(next)), now, after, Ok(())),
    ensures
        ({
            let a = report_on(joined_lines(after.lines), w.vocabulary, None);
            &&& a.findings.len() == 0
            &&& a.name == w.header.name
            &&& a.head == after.sealed_head
            &&& a.level == w.header.level
            &&& a.successor == Some(next)
            &&& reading(w).records_level_change ==> a.records_level_change
        }),
{
    reveal(report_on);
    let marker = rotation_marker(w.header.name, now, Some(next));
    law_ended_segment_verifies(signer, w, marker, now, after, None);
    law_sound_segment_verifies(after, None);
    lemma_names_successor(w, now, next);
}

/// What verification shows of a segment checked against the one it links to.
proof fn lemma_followed(next: WriterView, name: Seq<char>, head: Seq<char>)
    requires
        sound(next),
        next.header.prev == PrevView::Seal(head),
    ensures
        ({
            let b = report_on(joined_lines(next.lines), next.vocabulary, Some((name, head)));
            &&& b.name == next.header.name
            &&& b.level == next.header.level
            &&& b.successor == reading(next).successor
            &&& forall|i: int| 0 <= i < b.findings.len() ==> !breaks(#[trigger] b.findings[i])
        }),
{
    reveal(report_on);
    law_sound_segment_verifies(next, Some((name, head)));
    let ends = end_findings(reading(next), next.vocabulary);
    assert(ends + Seq::<FindingView>::empty() =~= ends);
}

/// Two segments that verify, the second against the first, make a chain that nothing
/// breaks, where the first names the second and the levels agree.
proof fn lemma_pair_is_unbroken(
    first: (Seq<char>, Seq<char>),
    second: (Seq<char>, Seq<char>),
    v: VocabularyView,
    at: nat,
)
    requires
        fitting(
            report_on(first.1, v, None),
            report_on(
                second.1,
                v,
                Some((report_on(first.1, v, None).name, report_on(first.1, v, None).head)),
            ),
        ),
    ensures
        to_land(seq![first, second], v, at) == Seq::<EntryView>::empty(),
{
    reveal(to_land);
    let chain = seq![first, second];
    let reports = chain_reports(chain, v);
    lemma_pair_reports(first, second, v);
    lemma_none_break(first.0, reports[0].findings, at);
    lemma_none_break(second.0, reports[1].findings, at);
    lemma_pair_broken(first, second, reports, at);
}

/// The entries of a chain of two are those of the one and then of the other.
proof fn lemma_pair_broken(
    first: (Seq<char>, Seq<char>),
    second: (Seq<char>, Seq<char>),
    reports: Seq<ReportView>,
    at: nat,
)
    ensures
        chain_broken(seq![first, second], reports, at) == broken_entries(
            first.0,
            reports[0].findings,
            at,
        ) + broken_entries(second.0, reports[1].findings, at),
{
    let chain = seq![first, second];
    let front = chain.drop_last();
    assert(front =~= seq![first]);
    assert(front.drop_last() =~= Seq::empty());
    assert(chain_broken(front.drop_last(), reports, at) == Seq::<EntryView>::empty());
    assert(chain_broken(front, reports, at) =~= broken_entries(first.0, reports[0].findings, at));
}

/// The reports on two segments that fit together find nothing that breaks.
proof fn lemma_pair_reports(
    first: (Seq<char>, Seq<char>),
    second: (Seq<char>, Seq<char>),
    v: VocabularyView,
)
    requires
        fitting(
            report_on(first.1, v, None),
            report_on(
                second.1,
                v,
                Some((report_on(first.1, v, None).name, report_on(first.1, v, None).head)),
            ),
        ),
    ensures
        ({
            let reports = chain_reports(seq![first, second], v);
            &&& reports.len() == 2
            &&& reports[0].findings.len() == 0
            &&& forall|i: int|
                0 <= i < reports[1].findings.len() ==> !breaks(#[trigger] reports[1].findings[i])
        }),
{
    let chain = seq![first, second];
    let found = chain.map_values(|s: (Seq<char>, Seq<char>)| s.1);
    let a = report_on(first.1, v, None);
    let b = report_on(second.1, v, Some((a.name, a.head)));
    assert(found[0] == first.1 && found[1] == second.1);
    assert(linked_report(found, v, 0) == a && linked_report(found, v, 1) == b) by {
        reveal(report_on);
    }
    let reports = chain_reports(chain, v);
    assert(reports[0].findings =~= Seq::empty());
    assert(reports[1].findings =~= b.findings);
}

/// A rotation marker is read back as naming its successor.
proof fn lemma_names_successor(w: WriterView, now: nat, next: Seq<char>)
    requires
        key_for(w.vocabulary.keys, LOG_SUCCESSOR@) == Some("next"@),
    ensures
        successor_in(w, rotation_marker(w.header.name, now, Some(next))) == Some(next),
{
    let full = numbered(rotation_marker(w.header.name, now, Some(next)), w.seq + 1);
    law_descends_reflexive(w.vocabulary, ROTATION_CLASS@);
    reveal_strlit("seq");
    reveal_strlit("next");
    assert("seq"@.len() == 3 && "next"@.len() == 4);
    assert(full.fields[0].0 == "seq"@);
    assert(full.fields[1] == ("next"@, next));
    assert(full.fields.drop_first()[0] == full.fields[1]);
    reveal_with_fuel(lookup, 3);
}

proof fn lemma_none_break(name: Seq<char>, findings: Seq<FindingView>, now: nat)
    requires
        forall|i: int| 0 <= i < findings.len() ==> !breaks(#[trigger] findings[i]),
    ensures
        broken_entries(name, findings, now) == Seq::<EntryView>::empty(),
    decreases findings.len(),
{
    if findings.len() > 0 {
        let front = findings.drop_last();
        assert forall|i: int| 0 <= i < front.len() implies !breaks(#[trigger] front[i]) by {
            assert(front[i] == findings[i]);
        }
        lemma_none_break(name, front, now);
    }
}

} // verus!
