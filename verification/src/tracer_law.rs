//! What an entry says of the event it was made from.

use vstd::prelude::*;
use vstd::string::*;

use crate::chain::SealSigner;
use crate::error::RenderErrorView;
use crate::lineage::emitted;
use crate::number::{lemma_read_decimal, read_unsigned};
use crate::table::{lemma_lookup_first, lemma_lookup_past, lookup};
use crate::tracer::{
    dropped_entry, event_class, event_entry, lost, marking, recording, DropReason, Drops,
    EventView,
};
use crate::vocabulary::{
    CACHE_HIT_CLASS, CAPABILITY_DENIED_CLASS, DROPPED_CLASS, RESOLUTION_CLASS,
};
use crate::writer::{next_line, WriterView};

verus! {

/// The keys that an entry of an event may have are all different.
proof fn lemma_event_keys()
    ensures
        "worker"@ != "span"@,
        "worker"@ != "parent"@,
        "worker"@ != "dur"@,
        "worker"@ != "cap"@,
        "span"@ != "parent"@,
        "span"@ != "dur"@,
        "span"@ != "cap"@,
        "parent"@ != "dur"@,
        "parent"@ != "cap"@,
        "dur"@ != "cap"@,
{
    reveal_strlit("worker");
    reveal_strlit("span");
    reveal_strlit("parent");
    reveal_strlit("dur");
    reveal_strlit("cap");
    assert("worker"@[0] == 'w' && "parent"@[0] == 'p');
    assert("dur"@[0] == 'd' && "cap"@[0] == 'c');
}

/// How many fields of an entry come before the scopes of its event.
spec fn leading(e: EventView) -> int {
    2 + (if e.parent is Some {
        1int
    } else {
        0
    }) + (if e.started is Some && e.ended is Some {
        1int
    } else {
        0
    })
}

/// How many scopes an event ran under.
spec fn scopes(e: EventView) -> int {
    match e.capability {
        Some(s) => s.len() as int,
        None => 0,
    }
}

/// The duration is the time between the two ends: added to the start it is the end. An end
/// before the start is no time at all, and where an end is missing no duration is claimed.
pub proof fn law_duration_spans_the_event(e: EventView, class: Seq<char>, now: nat)
    requires
        e.ended matches Some(end) ==> end <= u64::MAX,
    ensures
        e.started is Some && e.ended is Some ==> ({
            let text = lookup(event_entry(e, class, now).fields, "dur"@);
            &&& text is Some
            &&& read_unsigned(text->0, u64::MAX as nat) is Some
            &&& e.started->0 <= e.ended->0 ==> e.started->0 + read_unsigned(
                text->0,
                u64::MAX as nat,
            )->0 == e.ended->0
            &&& e.ended->0 < e.started->0 ==> read_unsigned(text->0, u64::MAX as nat)->0 == 0
        }),
        e.started is None || e.ended is None ==> lookup(
            event_entry(e, class, now).fields,
            "dur"@,
        ) == lookup(e.notes, "dur"@),
{
    lemma_event_keys();
    let f = event_entry(e, class, now).fields;
    let n = leading(e);
    if e.started is Some && e.ended is Some {
        let d: nat = if e.started->0 <= e.ended->0 {
            (e.ended->0 - e.started->0) as nat
        } else {
            0
        };
        lemma_read_decimal(d, u64::MAX as nat);
        lemma_lookup_first(f, n - 1);
    } else {
        let all = n + scopes(e);
        assert(f.skip(all) =~= e.notes);
        assert forall|j: int| 0 <= j < all implies (#[trigger] f[j]).0 != "dur"@ by {
            if j >= n {
                assert(f[j].0 == "cap"@);
            }
        }
        lemma_lookup_past(f, "dur"@, all);
    }
}

/// An event's own columns: when it started, or the stamp given where it did not, and what it
/// was asked for.
pub proof fn law_event_columns(e: EventView, class: Seq<char>, now: nat)
    ensures
        e.started matches Some(t) ==> event_entry(e, class, now).time == t,
        e.started is None ==> event_entry(e, class, now).time == now,
        event_entry(e, class, now).class == class,
        event_entry(e, class, now).subject == e.target,
{
}

/// The worker, the span and the parent's span of an event can be read off its entry, and a
/// parent that there is not is not invented.
pub proof fn law_event_can_be_placed(e: EventView, class: Seq<char>, now: nat)
    requires
        e.span <= u64::MAX,
        e.parent matches Some(p) ==> p <= u64::MAX,
    ensures
        ({
            let f = event_entry(e, class, now).fields;
            &&& lookup(f, "worker"@) == Some(e.thread)
            &&& lookup(f, "span"@) is Some
            &&& read_unsigned(lookup(f, "span"@)->0, u64::MAX as nat) == Some(e.span)
            &&& e.parent matches Some(p) ==> lookup(f, "parent"@) is Some && read_unsigned(
                lookup(f, "parent"@)->0,
                u64::MAX as nat,
            ) == Some(p)
            &&& e.parent is None ==> lookup(f, "parent"@) == lookup(e.notes, "parent"@)
        }),
{
    lemma_event_keys();
    let f = event_entry(e, class, now).fields;
    lemma_lookup_first(f, 0);
    lemma_lookup_first(f, 1);
    lemma_read_decimal(e.span, u64::MAX as nat);
    if let Some(p) = e.parent {
        lemma_lookup_first(f, 2);
        lemma_read_decimal(p, u64::MAX as nat);
    } else {
        let all = leading(e) + scopes(e);
        assert(f.skip(all) =~= e.notes);
        assert forall|j: int| 0 <= j < all implies (#[trigger] f[j]).0 != "parent"@ by {
            if j >= leading(e) {
                assert(f[j].0 == "cap"@);
            }
        }
        lemma_lookup_past(f, "parent"@, all);
    }
}

/// Nothing that is known of an event is lost, and nothing is added: the fields are the
/// worker, the span, the parent and the duration where there are any, one for each scope,
/// and then every note, in order.
pub proof fn law_event_keeps_everything(e: EventView, class: Seq<char>, now: nat)
    ensures
        ({
            let f = event_entry(e, class, now).fields;
            let before = f.len() - e.notes.len();
            let first = before - scopes_of(e).len();
            &&& before == 2 + (if e.parent is Some {
                1int
            } else {
                0
            }) + (if e.started is Some && e.ended is Some {
                1int
            } else {
                0
            }) + scopes_of(e).len()
            &&& f.skip(before) == e.notes
            &&& forall|i: int|
                0 <= i < scopes_of(e).len() ==> f[first + i] == ("cap"@, #[trigger] scopes_of(e)[i])
        }),
{
    let f = event_entry(e, class, now).fields;
    let all = leading(e) + scopes(e);
    assert(f.skip(all) =~= e.notes);
}

/// The scopes an event ran under, none where it ran under full authority.
pub open spec fn scopes_of(e: EventView) -> Seq<Seq<char>> {
    match e.capability {
        Some(s) => s,
        None => Seq::empty(),
    }
}

/// A note of a refusal makes an entry a refusal, whatever else the event says; without one
/// a cache hit is a cache hit, and everything else is a resolution.
pub proof fn law_event_class(e: EventView)
    ensures
        (exists|i: int| 0 <= i < e.notes.len() && (#[trigger] e.notes[i]).0 == "denied"@)
            ==> event_class(e) == CAPABILITY_DENIED_CLASS@,
        (forall|i: int| 0 <= i < e.notes.len() ==> (#[trigger] e.notes[i]).0 != "denied"@)
            ==> event_class(e) == (if e.cache_hit {
            CACHE_HIT_CLASS@
        } else {
            RESOLUTION_CLASS@
        }),
{
}

/// A marker says how many were lost, and why: the number can be read off it, and no two
/// reasons have the same token.
pub proof fn law_marker_counts_the_losses(
    segment: Seq<char>,
    count: nat,
    reason: DropReason,
    other: DropReason,
    now: nat,
)
    requires
        count <= u64::MAX,
    ensures
        ({
            let e = dropped_entry(segment, count, reason, now);
            &&& e.class == DROPPED_CLASS@
            &&& e.subject == segment
            &&& e.time == now
            &&& lookup(e.fields, "count"@) is Some
            &&& read_unsigned(lookup(e.fields, "count"@)->0, u64::MAX as nat) == Some(count)
            &&& lookup(e.fields, "reason"@) == lookup(
                dropped_entry(segment, count, other, now).fields,
                "reason"@,
            ) ==> reason == other
            &&& reason == DropReason::WriteFailed ==> lookup(e.fields, "reason"@) == Some(
                "write-failed"@,
            )
            &&& reason == DropReason::Unwritable ==> lookup(e.fields, "reason"@) == Some(
                "unwritable"@,
            )
            &&& reason == DropReason::Reentrant ==> lookup(e.fields, "reason"@) == Some(
                "reentrant"@,
            )
            &&& reason == DropReason::Panicked ==> lookup(e.fields, "reason"@) == Some("panicked"@)
        }),
{
    reveal_strlit("count");
    reveal_strlit("reason");
    reveal_strlit("write-failed");
    reveal_strlit("unwritable");
    reveal_strlit("reentrant");
    reveal_strlit("panicked");
    assert("write-failed"@.len() == 12 && "unwritable"@.len() == 10);
    assert("reentrant"@.len() == 9 && "panicked"@.len() == 8);
    assert("count"@[0] == 'c' && "reason"@[0] == 'r');
    let e = dropped_entry(segment, count, reason, now);
    lemma_read_decimal(count, u64::MAX as nat);
    lemma_lookup_first(e.fields, 0);
    lemma_lookup_first(e.fields, 1);
    lemma_lookup_first(dropped_entry(segment, count, other, now).fields, 1);
}

/// Marking the losses of one reason writes one line, the marker's, and clears that count
/// alone; where nothing was lost it writes nothing. A marker that could not be written
/// leaves the count as it was.
pub proof fn law_marking_clears_what_it_marks<G: SealSigner>(
    signer: Option<G>,
    segment: Seq<char>,
    w: WriterView,
    d: Drops,
    reason: DropReason,
    now: nat,
    after: Option<WriterView>,
    left: Drops,
    marked: bool,
)
    requires
        marking(signer, segment, Some(w), d, reason, now, after, left, marked),
        emitted(w.vocabulary, DROPPED_CLASS@, w.rank),
    ensures
        !marked ==> left == d,
        lost(d, reason) == 0 ==> !marked && after == Some(w),
        marked ==> {
            &&& lost(left, reason) == 0
            &&& forall|other: DropReason|
                other != reason ==> #[trigger] lost(left, other) == lost(d, other)
            &&& after is Some
            &&& after->0.seq == w.seq + 1
            &&& after->0.lines.len() > w.lines.len()
            &&& next_line(w, dropped_entry(segment, lost(d, reason) as nat, reason, now)) == Ok::<
                Seq<char>,
                RenderErrorView,
            >(after->0.lines[w.lines.len() as int])
        },
{
}

/// Recording one event loses at most that event, and says so: either its entry was written,
/// or the level left it out, or no segment is open, or one more is counted.
pub proof fn law_recording_accounts_for_the_event<G: SealSigner>(
    signer: Option<G>,
    w: WriterView,
    d: Drops,
    event: EventView,
    now: nat,
    after: Option<WriterView>,
    left: Drops,
)
    requires
        recording(signer, Some(w), d, event, now, after, left),
        d.write_failed < u64::MAX,
        d.unwritable < u64::MAX,
    ensures
        after is Some,
        left.reentrant == d.reentrant,
        left.panicked == d.panicked,
        !emitted(w.vocabulary, event_class(event), w.rank) ==> left == d && after == Some(w),
        emitted(w.vocabulary, event_class(event), w.rank) ==> {
            ||| left == d && after->0.seq == w.seq + 1 && after->0.lines.len() > w.lines.len()
                && next_line(w, event_entry(event, event_class(event), now)) == Ok::<
                Seq<char>,
                RenderErrorView,
            >(after->0.lines[w.lines.len() as int])
            ||| left == (Drops { unwritable: (d.unwritable + 1) as u64, ..d }) && after == Some(w)
                && next_line(w, event_entry(event, event_class(event), now)) is Err
            ||| left == (Drops { write_failed: (d.write_failed + 1) as u64, ..d }) && !w.reliable
        },
        w.reliable && emitted(w.vocabulary, event_class(event), w.rank) && next_line(
            w,
            event_entry(event, event_class(event), now),
        ) is Ok ==> left == d && after->0.seq == w.seq + 1,
{
}

} // verus!
