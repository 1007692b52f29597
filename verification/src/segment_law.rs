//! What a segment being written holds, line by line, and when it is sealed and ended.

use vstd::prelude::*;
use vstd::string::*;

use crate::chain::{owes_seal, rotation_bound, RotationPolicy, SealPolicy, SealSigner};
use crate::config::{instance_of, unprefixed};
use crate::entry::{entry_text, EntryView};
use crate::error::RenderErrorView;
use crate::finding::{breaks, finding_text, FindingView};
use crate::handle::HandleView;
use crate::header::{header_text, PrevView};
use crate::line::{seal_text, SealView};
use crate::lineage::{emitted, level_of};
use crate::number::{decimal, lemma_decimal, lemma_read_decimal, read_unsigned};
use crate::rotation::{broken_entries, succession};
use crate::table::{lemma_lookup_first, lookup};
use crate::text::starts_with;
use crate::time::{lemma_time_len, time_text, WIDE_FROM};
use crate::vocabulary::{VocabularyView, PROCESS_START_CLASS};
use crate::writer::{
    attempt_stamp, due_for_seal, ending, file_name, flushed_out, header_lines, next_line, numbered,
    opened, opening_header, renamed_from, rotation_marker, sealing, segment_prefixes, slug_text,
    stamp_text, start_entry, starting, stop_marker, with_entry, writing, Opening, WriteErrorView,
    WriterView,
};
use crate::writer_law::lemma_segment_prefixes;

verus! {

// =====================================================================================
// One entry
// =====================================================================================

/// A written entry is the entry that was asked for, with its number before its own fields.
pub proof fn law_number_leads(e: EntryView, n: nat)
    requires
        n <= u64::MAX,
    ensures
        numbered(e, n).time == e.time,
        numbered(e, n).class == e.class,
        numbered(e, n).subject == e.subject,
        numbered(e, n).fields.len() == e.fields.len() + 1,
        numbered(e, n).fields.skip(1) == e.fields,
        lookup(numbered(e, n).fields, "seq"@) is Some,
        read_unsigned(lookup(numbered(e, n).fields, "seq"@)->0, u64::MAX as nat) == Some(n),
{
    lemma_lookup_first(numbered(e, n).fields, 0);
    lemma_read_decimal(n, u64::MAX as nat);
    assert(numbered(e, n).fields.skip(1) =~= e.fields);
}

/// An entry that lands is the next line of its segment: what was there before stays, and
/// after it there is at most the seal that it brought about.
pub proof fn law_entry_is_the_next_line<G: SealSigner>(
    signer: Option<G>,
    w: WriterView,
    e: EntryView,
    after: WriterView,
    n: nat,
)
    requires
        writing(signer, w, e, after, Ok(Some(n))),
    ensures
        n == w.seq + 1,
        after.seq == n,
        after.lines.len() > w.lines.len(),
        after.lines.take(w.lines.len() as int) == w.lines,
        entry_text(numbered(e, n), w.header.prefixes) == Ok::<Seq<char>, RenderErrorView>(
            after.lines[w.lines.len() as int],
        ),
        after.lines.len() <= w.lines.len() + 2,
        after.lines.len() == w.lines.len() + 2 <==> after.sealed_through != w.sealed_through
            || due(w, e),
        after.header == w.header,
        after.rotation == w.rotation,
        after.seals == w.seals,
        after.opened_at == w.opened_at,
{
    let line = next_line(w, e)->Ok_0;
    let entered = with_entry(w, line);
    if due_for_seal(entered, e.time) {
        let s = choose|s: Option<SealView>| #[trigger]
            sealing(signer, entered, e.time, after, Ok(s));
        assert(after.lines.take(w.lines.len() as int) =~= w.lines);
    } else {
        assert(after.lines.take(w.lines.len() as int) =~= w.lines);
    }
}

/// Whether the entry after which a segment is as `w` with one more brings a seal about: so
/// many entries are unsealed, or so much time has passed since the last seal.
pub open spec fn due(w: WriterView, e: EntryView) -> bool {
    &&& w.seq + 1 > w.sealed_through
    &&& {
        ||| w.seq + 1 - w.sealed_through >= w.seals.every_entries
        ||| e.time >= w.last_seal_at && e.time - w.last_seal_at >= w.seals.every_millis
        ||| w.seals.every_millis == 0
    }
}

/// A seal follows the entry that makes it due, and no other: so many entries after the last
/// seal, or so long after it, whichever is first. It covers exactly what was not sealed yet.
pub proof fn law_seal_follows_when_due<G: SealSigner>(
    signer: Option<G>,
    w: WriterView,
    e: EntryView,
    after: WriterView,
    n: nat,
)
    requires
        writing(signer, w, e, after, Ok(Some(n))),
    ensures
        due(w, e) ==> {
            &&& after.sealed_through == n
            &&& after.sealed_head == after.chain
            &&& after.last_seal_at == e.time
            &&& exists|signature: Option<Seq<char>>|
                after.lines.last() == #[trigger] seal_text(
                    SealView {
                        first: w.sealed_through + 1,
                        last: n,
                        hash: after.chain,
                        signature,
                    },
                )
        },
        !due(w, e) ==> {
            &&& after.sealed_through == w.sealed_through
            &&& after.sealed_head == w.sealed_head
            &&& after.last_seal_at == w.last_seal_at
        },
{
    let line = next_line(w, e)->Ok_0;
    let entered = with_entry(w, line);
    if due_for_seal(entered, e.time) {
        let s = choose|s: Option<SealView>| #[trigger]
            sealing(signer, entered, e.time, after, Ok(s));
        let t = s->0;
        assert(after.lines.last() == seal_text(
            SealView {
                first: w.sealed_through + 1,
                last: n,
                hash: after.chain,
                signature: t.signature,
            },
        ));
    }
}

/// What the level leaves out is not written and takes no number; what it does not leave out
/// is: its class is placed no higher on the dial than the segment, or not placed at all.
pub proof fn law_level_decides<G: SealSigner>(
    signer: Option<G>,
    w: WriterView,
    e: EntryView,
    after: WriterView,
    r: Result<Option<nat>, WriteErrorView>,
)
    requires
        writing(signer, w, e, after, r),
    ensures
        ({
            let level = lookup(w.vocabulary.levels, level_of(w.vocabulary, e.class));
            &&& level matches Some(rank) ==> rank > w.rank ==> after == w && r == Ok::<
                Option<nat>,
                WriteErrorView,
            >(None)
            &&& level matches Some(rank) ==> rank <= w.rank ==> r != Ok::<
                Option<nat>,
                WriteErrorView,
            >(None)
            &&& level is None ==> r != Ok::<Option<nat>, WriteErrorView>(None)
        }),
{
}

/// A seal on demand covers exactly what is not sealed yet, and there is none where
/// everything is.
pub proof fn law_seal_covers_what_is_unsealed<G: SealSigner>(
    signer: Option<G>,
    w: WriterView,
    now: nat,
    after: WriterView,
    r: Result<Option<SealView>, WriteErrorView>,
)
    requires
        sealing(signer, w, now, after, r),
    ensures
        w.seq <= w.sealed_through ==> after == w && r == Ok::<Option<SealView>, WriteErrorView>(
            None,
        ),
        w.seq > w.sealed_through ==> (r matches Ok(s) ==> {
            &&& s is Some
            &&& s->0.first == w.sealed_through + 1
            &&& s->0.last == w.seq
            &&& s->0.hash == w.chain
            &&& after.lines == w.lines.push(seal_text(s->0))
            &&& after.sealed_through == w.seq
            &&& after.sealed_head == w.chain
            &&& after.seq == w.seq
            &&& after.chain == w.chain
            &&& after.last_seal_at == now
        }),
{
}

/// A segment is due for rotation where it holds as many entries as it may, or is as old as
/// it may be; one without bounds never is.
pub proof fn law_rotation_is_due(p: RotationPolicy, entries: nat, age: nat)
    ensures
        p.max_entries matches Some(n) ==> entries >= n ==> rotation_bound(p, entries, age),
        p.max_age_millis matches Some(n) ==> age >= n ==> rotation_bound(p, entries, age),
        rotation_bound(p, entries, age) ==> (p.max_entries is Some && entries
            >= p.max_entries->0) || (p.max_age_millis is Some && age >= p.max_age_millis->0),
{
}

/// A seal is owed only where there is something to seal, and then as soon as either bound
/// is met.
pub proof fn law_seal_is_owed(p: SealPolicy, seq: nat, sealed: nat, now: nat, last: nat)
    ensures
        seq <= sealed ==> !owes_seal(p, seq, sealed, now, last),
        seq > sealed && seq - sealed >= p.every_entries ==> owes_seal(p, seq, sealed, now, last),
        seq > sealed && now >= last && now - last >= p.every_millis ==> owes_seal(
            p,
            seq,
            sealed,
            now,
            last,
        ),
        owes_seal(p, seq, sealed, now, last) && p.every_millis > 0 ==> seq - sealed
            >= p.every_entries || now - last >= p.every_millis,
{
}

// =====================================================================================
// Opening
// =====================================================================================

/// A segment opens under what it was configured with: its level, the instance that was
/// claimed or else the one that was configured, its start, and what it follows; and its name
/// says whose it is and since when.
pub proof fn law_header_is_what_was_configured(o: Opening)
    ensures
        ({
            let h = opening_header(o);
            &&& h.version == 1
            &&& h.level == o.config.level
            &&& h.started == o.now
            &&& o.name is None ==> h.instance == o.config.instance
            &&& o.name matches Some(name) ==> h.instance == instance_of(name)
            &&& o.prev matches Some(p) ==> h.prev == p
            &&& o.prev is None ==> h.prev is Genesis
            &&& o.stamp matches Some(s) ==> h.name == "urn:log:"@ + unprefixed(
                h.instance,
                "urn:ikigai:instance:"@,
            ) + ":"@ + s
            &&& o.stamp is None ==> h.name == "urn:log:"@ + unprefixed(
                h.instance,
                "urn:ikigai:instance:"@,
            ) + ":"@ + stamp_text(o.now)
            &&& lookup(h.prefixes, "log"@) == Some("https://ikigai-rs.dev/ns/log#"@)
            &&& lookup(h.prefixes, "prov"@) == Some("http://www.w3.org/ns/prov#"@)
            &&& h.prefixes.len() == 2
        }),
{
    reveal_strlit(":");
    assert(":"@ =~= seq![':']);
    lemma_segment_prefixes();
    lemma_lookup_first(segment_prefixes(), 0);
    lemma_lookup_first(segment_prefixes(), 1);
}

/// The stamp of a segment is the start of its time, to the second, with hyphens for colons.
pub proof fn law_stamp_tells_the_second(t: nat)
    requires
        t < WIDE_FROM,
    ensures
        stamp_text(t).len() == 20,
        forall|i: int|
            0 <= i < 19 ==> #[trigger] stamp_text(t)[i] == (if time_text(t)[i] == ':' {
                '-'
            } else {
                time_text(t)[i]
            }),
        stamp_text(t)[19] == 'Z',
{
    lemma_time_len(t);
}

/// Where a name is taken, the next one tried says how many there were: the same stamp with
/// the number of the attempt after it.
pub proof fn law_attempt_is_numbered(t: nat, attempt: nat)
    requires
        attempt <= u64::MAX,
    ensures
        starts_with(attempt_stamp(t, attempt), stamp_text(t)),
        attempt == 0 ==> attempt_stamp(t, attempt) == stamp_text(t),
        attempt > 0 ==> ({
            let rest = attempt_stamp(t, attempt).skip(stamp_text(t).len() as int);
            rest.len() > 1 && rest[0] == '-' && read_unsigned(rest.skip(1), u64::MAX as nat)
                == Some(attempt)
        }),
{
    let s = attempt_stamp(t, attempt);
    assert(s.take(stamp_text(t).len() as int) =~= stamp_text(t));
    if attempt > 0 {
        let rest = s.skip(stamp_text(t).len() as int);
        lemma_decimal(attempt);
        lemma_read_decimal(attempt, u64::MAX as nat);
        assert(rest.skip(1) =~= decimal(attempt));
    }
}

/// A segment's file is named by its instance and its stamp, and nothing that may not stand
/// in a file name stands in it.
pub proof fn law_file_is_named_for_its_segment(name: Seq<char>, stamp: Seq<char>)
    ensures
        slug_text(name).len() == name.len(),
        file_name(name, stamp) == slug_text(name) + "-"@ + stamp + ".log"@,
        forall|i: int|
            #![trigger slug_text(name)[i]]
            0 <= i < name.len() ==> {
                let c = name[i];
                let plain = 'a' <= c <= 'z' || 'A' <= c <= 'Z' || '0' <= c <= '9' || c == '-' || c
                    == '_' || c == '.';
                slug_text(name)[i] == (if plain {
                    c
                } else {
                    '-'
                })
            },
{
    reveal_strlit("-");
    assert("-"@ =~= seq!['-']);
}

/// The entry that opens a segment says who runs, under which process, and under which name
/// it was asked to run where that is another one.
pub proof fn law_start_says_who_runs(
    instance: Seq<char>,
    now: nat,
    process: Option<u32>,
    configured: Option<Seq<char>>,
)
    ensures
        ({
            let e = start_entry(instance, now, process, configured);
            &&& e.time == now
            &&& e.class == "https://ikigai-rs.dev/ns/log#ProcessStart"@
            &&& e.subject == instance
            &&& process matches Some(p) ==> lookup(e.fields, "pid"@) is Some && read_unsigned(
                lookup(e.fields, "pid"@)->0,
                u64::MAX as nat,
            ) == Some(p as nat)
            &&& process is None ==> lookup(e.fields, "pid"@) is None
            &&& lookup(e.fields, "configured"@) == configured
        }),
{
    let e = start_entry(instance, now, process, configured);
    reveal_strlit("pid");
    reveal_strlit("configured");
    assert("pid"@[0] == 'p' && "configured"@[0] == 'c');
    if let Some(p) = process {
        lemma_lookup_first(e.fields, 0);
        lemma_read_decimal(p as nat, u64::MAX as nat);
        if configured is Some {
            lemma_lookup_first(e.fields, 1);
        } else {
            assert(e.fields.drop_first() =~= Seq::empty());
            assert(lookup(e.fields.drop_first(), "configured"@) is None);
        }
    } else if configured is Some {
        lemma_lookup_first(e.fields, 0);
        assert(e.fields.drop_first() =~= Seq::empty());
        assert(lookup(e.fields.drop_first(), "pid"@) is None);
    }
}

/// A segment opens with its header, and its first entry says who runs; it opens only at a
/// level that the vocabulary ranks, and runs at that rank. Where it runs under another name
/// than the configured one, the first entry says that too.
pub proof fn law_segment_opens_with_its_header<G: SealSigner>(
    o: Opening,
    signer: Option<G>,
    taken: Seq<Seq<char>>,
    reliable: bool,
    after: WriterView,
)
    requires
        starting(o, signer, taken, reliable, Ok(after)),
    ensures
        lookup(o.vocabulary.levels, o.config.level) is Some,
        after.rank == lookup(o.vocabulary.levels, o.config.level)->0,
        after.header == opening_header(o),
        after.vocabulary == o.vocabulary,
        after.seals == o.seals,
        after.rotation == o.rotation,
        after.path == o.path,
        after.opened_at == o.now,
        header_text(opening_header(o)) is Ok,
        ({
            let h = opening_header(o);
            let top = taken + header_lines(header_text(h)->Ok_0);
            let start = start_entry(
                h.instance,
                o.now,
                o.process,
                if h.instance != o.config.instance {
                    Some(o.config.instance)
                } else {
                    None
                },
            );
            &&& after.lines.len() >= top.len()
            &&& after.lines.take(top.len() as int) == top
            &&& emitted(o.vocabulary, PROCESS_START_CLASS@, after.rank) ==> after.seq == 1
                && after.lines.len() > top.len() && entry_text(numbered(start, 1), h.prefixes)
                == Ok::<Seq<char>, RenderErrorView>(after.lines[top.len() as int])
        }),
{
    let rank = lookup(o.vocabulary.levels, o.config.level)->0;
    let h = opening_header(o);
    let text = header_text(h)->Ok_0;
    let top = taken + header_lines(text);
    let w = opened(o, rank as int, top, reliable);
    let start = start_entry(h.instance, o.now, o.process, renamed_from(o));
    let n = choose|n: Option<nat>| #[trigger] writing(signer, w, start, after, Ok(n));
    assert(after.lines.take(top.len() as int) =~= top) by {
        if let Some(k) = n {
            law_entry_is_the_next_line(signer, w, start, after, k);
        }
    }
    if let Some(k) = n {
        law_entry_is_the_next_line(signer, w, start, after, k);
    }
}

/// A level that the vocabulary does not rank is refused, and the levels it knows are named.
pub proof fn law_unknown_level_is_refused<G: SealSigner>(
    o: Opening,
    signer: Option<G>,
    taken: Seq<Seq<char>>,
    reliable: bool,
    r: Result<WriterView, WriteErrorView>,
)
    requires
        starting(o, signer, taken, reliable, r),
        lookup(o.vocabulary.levels, o.config.level) is None,
    ensures
        r matches Err(WriteErrorView::UnknownLevel { level, known }) && level == o.config.level
            && known.len() == o.vocabulary.levels.len() && forall|i: int|
            0 <= i < known.len() ==> #[trigger] known[i] == o.vocabulary.levels[i].0,
{
}

// =====================================================================================
// Ending
// =====================================================================================

/// A process that stops says so of its instance; a segment that is rotated says so of
/// itself, and names the one that follows it.
pub proof fn law_markers(subject: Seq<char>, now: nat, successor: Option<Seq<char>>)
    ensures
        stop_marker(subject, now).time == now,
        stop_marker(subject, now).class == "https://ikigai-rs.dev/ns/log#ProcessStop"@,
        stop_marker(subject, now).subject == subject,
        stop_marker(subject, now).fields.len() == 0,
        rotation_marker(subject, now, successor).time == now,
        rotation_marker(subject, now, successor).class == "https://ikigai-rs.dev/ns/log#Rotation"@,
        rotation_marker(subject, now, successor).subject == subject,
        lookup(rotation_marker(subject, now, successor).fields, "next"@) == successor,
        rotation_marker(subject, now, successor).fields.len() <= 1,
{
    if successor is Some {
        lemma_lookup_first(rotation_marker(subject, now, successor).fields, 0);
    }
}

/// A segment that was ended holds its marker as the last entry, and a seal over everything
/// after it.
pub proof fn law_ended_segment_is_marked_and_sealed<G: SealSigner>(
    signer: Option<G>,
    w: WriterView,
    marker: EntryView,
    now: nat,
    after: WriterView,
)
    requires
        ending(signer, w, marker, now, after, Ok(())),
        emitted(w.vocabulary, marker.class, w.rank),
        w.sealed_through <= w.seq,
    ensures
        after.seq == w.seq + 1,
        after.sealed_through == after.seq,
        after.sealed_head == after.chain,
        after.header == w.header,
        after.lines.len() > w.lines.len(),
        after.lines.take(w.lines.len() as int) == w.lines,
        entry_text(numbered(marker, after.seq), w.header.prefixes) == Ok::<
            Seq<char>,
            RenderErrorView,
        >(after.lines[w.lines.len() as int]),
        exists|s: SealView|
            after.lines.last() == #[trigger] seal_text(s) && s.last == after.seq && s.hash
                == after.chain,
{
    let (marked, n, done, s) = choose|
        marked: WriterView,
        n: Option<nat>,
        done: WriterView,
        s: Option<SealView>,
    |
        #[trigger] writing(signer, w, marker, marked, Ok(n)) && #[trigger] sealing(
            signer,
            marked,
            now,
            done,
            Ok(s),
        ) && after == flushed_out(done);
    law_entry_is_the_next_line(signer, w, marker, marked, n->0);
    law_seal_follows_when_due(signer, w, marker, marked, n->0);
    if marked.seq <= marked.sealed_through {
        let signature = choose|signature: Option<Seq<char>>|
            marked.lines.last() == #[trigger] seal_text(
                SealView {
                    first: w.sealed_through + 1,
                    last: n->0,
                    hash: marked.chain,
                    signature,
                },
            );
        assert(after.lines.last() == seal_text(
            SealView {
                first: w.sealed_through + 1,
                last: n->0,
                hash: marked.chain,
                signature,
            },
        ));
    } else {
        assert(after.lines.last() == seal_text(s->0));
        assert(after.lines.take(w.lines.len() as int) =~= w.lines);
    }
}

/// The successor of a segment goes on under the same instance and the same configuration,
/// at the stamp that was reserved for it, chained to the seal that its predecessor ended on.
pub proof fn law_successor_goes_on(
    before: HandleView,
    v: VocabularyView,
    now: nat,
    instance: Seq<char>,
    head: Seq<char>,
    stamp: Seq<char>,
    path: Option<Seq<char>>,
    process: Option<u32>,
)
    ensures
        ({
            let o = succession(before, v, now, instance, head, stamp, path, process);
            &&& o.config == before.config
            &&& o.seals == before.config.seals
            &&& o.rotation == before.config.rotation
            &&& o.vocabulary == v
            &&& o.now == now
            &&& o.path == path
            &&& o.process == process
            &&& o.prev == Some(PrevView::Seal(head))
            &&& o.stamp == Some(stamp)
            &&& o.name == Some(unprefixed(instance, "urn:ikigai:instance:"@))
        }),
{
}

/// What is wrong with a segment lands as entries about it: one for each finding that breaks
/// the record, with what is said of it, and none for any other.
pub proof fn law_every_break_lands(
    name: Seq<char>,
    findings: Seq<FindingView>,
    now: nat,
    f: FindingView,
)
    ensures
        findings.contains(f) && breaks(f) ==> exists|i: int|
            0 <= i < broken_entries(name, findings, now).len() && {
                let e = #[trigger] broken_entries(name, findings, now)[i];
                e.class == "https://ikigai-rs.dev/ns/log#ChainBroken"@ && e.subject == name
                    && e.time == now && lookup(e.fields, "finding"@) == Some(finding_text(f))
            },
        forall|i: int|
            0 <= i < broken_entries(name, findings, now).len() ==> {
                let e = #[trigger] broken_entries(name, findings, now)[i];
                e.class == "https://ikigai-rs.dev/ns/log#ChainBroken"@ && e.subject == name
                    && e.time == now && exists|k: int|
                    0 <= k < findings.len() && breaks(#[trigger] findings[k]) && lookup(
                        e.fields,
                        "finding"@,
                    ) == Some(finding_text(findings[k]))
            },
    decreases findings.len(),
{
    let all = broken_entries(name, findings, now);
    if findings.len() > 0 {
        let front = findings.drop_last();
        let before = broken_entries(name, front, now);
        let last = findings.last();
        law_every_break_lands(name, front, now, f);
        if breaks(last) {
            lemma_lookup_first(all[before.len() as int].fields, 0);
        }
        assert forall|i: int| 0 <= i < all.len() implies ({
            let e = #[trigger] all[i];
            e.class == "https://ikigai-rs.dev/ns/log#ChainBroken"@ && e.subject == name && e.time
                == now && exists|k: int|
                0 <= k < findings.len() && breaks(#[trigger] findings[k]) && lookup(
                    e.fields,
                    "finding"@,
                ) == Some(finding_text(findings[k]))
        }) by {
            if i < before.len() {
                assert(all[i] == before[i]);
                let k = choose|k: int|
                    0 <= k < front.len() && breaks(#[trigger] front[k]) && lookup(
                        before[i].fields,
                        "finding"@,
                    ) == Some(finding_text(front[k]));
                assert(findings[k] == front[k]);
            } else {
                assert(findings[findings.len() - 1] == last);
            }
        }
        if findings.contains(f) && breaks(f) {
            let k = choose|k: int| 0 <= k < findings.len() && findings[k] == f;
            if k < front.len() {
                assert(front[k] == f);
                let i = choose|i: int|
                    0 <= i < before.len() && {
                        let e = #[trigger] before[i];
                        e.class == "https://ikigai-rs.dev/ns/log#ChainBroken"@ && e.subject == name
                            && e.time == now && lookup(e.fields, "finding"@) == Some(
                            finding_text(f),
                        )
                    };
                assert(all[i] == before[i]);
            } else {
                assert(all[before.len() as int].class
                    == "https://ikigai-rs.dev/ns/log#ChainBroken"@);
            }
        }
    }
}

} // verus!
