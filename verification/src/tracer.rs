//! The kernel writes the log: what it traces becomes entries.
//!
//! Every resolution lands as a `log:Resolution`, and nobody is composing prose: the target
//! is an IRI because a request holds one, the duration is a duration because two instants
//! were subtracted.
//!
//! A cache hit selects a class and never a boolean column, because a class is what the
//! level dial can exclude. Two facts never share a column: `denied=` is the scope the
//! caller lacked, `cap=` is the authority it held.
//!
//! ## What is lost is counted
//!
//! Recording cannot fail the resolution it observes. So a failed write does not propagate:
//! it is counted, and the count lands as a `log:Dropped count=N reason=…` entry.

use vstd::prelude::*;
use vstd::string::*;

use crate::chain::SealSigner;
use crate::entry::{entry_text, lemma_bad_key, pairs, Entry, EntryView};
use crate::handle::{handle_writing, has_room, has_room_for, HandleView, LogHandle};
use crate::lineage::emitted;
use crate::number::{decimal, decimal_of};
use crate::text::{same_text, texts};
use crate::time::Timestamp;
use crate::token::{iri_like, key_like};
use crate::vocabulary::{
    CACHE_HIT_CLASS, CAPABILITY_DENIED_CLASS, DROPPED_CLASS, RESOLUTION_CLASS,
};
use crate::writer::{numbered, written, LineSink, WriteError, WriteErrorView, WriterView};
use crate::writer_law::law_reliable_sink_refuses_nothing;

verus! {

// =====================================================================================
// Events
// =====================================================================================

/// `ikigai_core::DENIED_NOTE`, the key of the note under which a refusal is reported:
/// `denied`.
#[verifier::external_body]
fn denied_note() -> (r: &'static str)
    ensures
        r@ == "denied"@,
{
    ikigai_core::DENIED_NOTE
}

/// One invocation that was traced.
#[derive(Debug)]
pub struct Event {
    /// The IRI that was asked for.
    pub target: String,
    /// The worker it ran on.
    pub thread: String,
    /// When it started, in milliseconds, where there was a clock and it ran.
    pub started: Option<u64>,
    /// When it ended.
    pub ended: Option<u64>,
    /// Whether a cache served it.
    pub cache_hit: bool,
    /// Its span.
    pub span: u64,
    /// The span of the invocation that issued it.
    pub parent: Option<u64>,
    /// The authority it ran under; `None` is full authority.
    pub capability: Option<Vec<String>>,
    /// What was noted of it.
    pub notes: Vec<(String, String)>,
}

/// An [`Event`], with its texts as characters.
#[verifier::ext_equal]
pub struct EventView {
    pub target: Seq<char>,
    pub thread: Seq<char>,
    pub started: Option<nat>,
    pub ended: Option<nat>,
    pub cache_hit: bool,
    pub span: nat,
    pub parent: Option<nat>,
    pub capability: Option<Seq<Seq<char>>>,
    pub notes: Seq<(Seq<char>, Seq<char>)>,
}

/// A number that may be missing, as a natural one.
pub open spec fn widened(n: Option<u64>) -> Option<nat> {
    match n {
        Some(n) => Some(n as nat),
        None => None,
    }
}

impl View for Event {
    type V = EventView;

    open spec fn view(&self) -> EventView {
        EventView {
            target: self.target@,
            thread: self.thread@,
            started: widened(self.started),
            ended: widened(self.ended),
            cache_hit: self.cache_hit,
            span: self.span as nat,
            parent: widened(self.parent),
            capability: match self.capability {
                Some(scopes) => Some(texts(scopes@)),
                None => None,
            },
            notes: pairs(self.notes@),
        }
    }
}

/// Whether an event reports a refusal.
pub open spec fn is_refusal(e: EventView) -> bool {
    exists|i: int| 0 <= i < e.notes.len() && (#[trigger] e.notes[i]).0 == "denied"@
}

/// The class of the entry that an event becomes. A refusal is a refusal whatever else the
/// event says.
pub open spec fn event_class(e: EventView) -> Seq<char> {
    if is_refusal(e) {
        CAPABILITY_DENIED_CLASS@
    } else if e.cache_hit {
        CACHE_HIT_CLASS@
    } else {
        RESOLUTION_CLASS@
    }
}

/// The class of the entry that an event becomes.
pub fn class_for(event: &Event) -> (r: &'static str)
    ensures
        r@ == event_class(event@),
{
    let ghost notes = event@.notes;
    let mut i: usize = 0;
    while i < event.notes.len()
        invariant
            i <= event.notes.len(),
            notes == event@.notes,
            notes == pairs(event.notes@),
            forall|k: int| 0 <= k < i ==> (#[trigger] notes[k]).0 != "denied"@,
        decreases event.notes.len() - i,
    {
        if same_text(&event.notes[i].0, denied_note()) {
            assert(notes[i as int].0 == "denied"@);
            return CAPABILITY_DENIED_CLASS;
        }
        i = i + 1;
    }
    if event.cache_hit {
        CACHE_HIT_CLASS
    } else {
        RESOLUTION_CLASS
    }
}

/// A number as a field, where there is one.
pub open spec fn number_field(key: Seq<char>, n: Option<nat>) -> Seq<(Seq<char>, Seq<char>)> {
    match n {
        Some(n) => seq![(key, decimal(n))],
        None => Seq::empty(),
    }
}

/// How long an event took, where both ends are known. A refusal ran nothing, and `dur=0`
/// would claim it ran and finished instantly.
pub open spec fn duration(e: EventView) -> Option<nat> {
    match (e.started, e.ended) {
        (Some(start), Some(end)) => Some(
            if end > start {
                (end - start) as nat
            } else {
                0
            },
        ),
        _ => None,
    }
}

/// The scopes that an event ran under, a field for each. None is full authority, which is
/// another fact than an empty set of scopes.
pub open spec fn scope_fields(scopes: Option<Seq<Seq<char>>>) -> Seq<(Seq<char>, Seq<char>)> {
    match scopes {
        Some(s) => s.map_values(|scope: Seq<char>| ("cap"@, scope)),
        None => Seq::empty(),
    }
}

/// The entry that an event becomes, stamped `now` where it has no start of its own.
pub open spec fn event_entry(e: EventView, class: Seq<char>, now: nat) -> EntryView {
    EntryView {
        time: match e.started {
            Some(t) => t,
            None => now,
        },
        class,
        subject: e.target,
        fields: seq![("worker"@, e.thread), ("span"@, decimal(e.span))] + number_field(
            "parent"@,
            e.parent,
        ) + number_field("dur"@, duration(e)) + scope_fields(e.capability) + e.notes,
    }
}

fn with_scopes(entry: Entry, scopes: &Vec<String>) -> (r: Entry)
    ensures
        r@ == (EntryView {
            fields: entry@.fields + scope_fields(Some(texts(scopes@))),
            ..entry@
        }),
{
    let ghost start = entry@;
    let ghost all = scope_fields(Some(texts(scopes@)));
    let mut entry = entry;
    let mut i: usize = 0;
    assert(start.fields + all.take(0) =~= start.fields);
    while i < scopes.len()
        invariant
            i <= scopes.len(),
            all == scope_fields(Some(texts(scopes@))),
            entry@ == (EntryView { fields: start.fields + all.take(i as int), ..start }),
        decreases scopes.len() - i,
    {
        proof {
            assert(texts(scopes@)[i as int] == scopes@[i as int]@);
            assert((start.fields + all.take(i as int)).push(all[i as int]) =~= start.fields
                + all.take(i + 1));
        }
        entry = entry.with("cap", &scopes[i]);
        i = i + 1;
    }
    assert(all.take(i as int) =~= all);
    entry
}

fn with_notes(entry: Entry, notes: &Vec<(String, String)>) -> (r: Entry)
    ensures
        r@ == (EntryView { fields: entry@.fields + pairs(notes@), ..entry@ }),
{
    let ghost start = entry@;
    let ghost all = pairs(notes@);
    let mut entry = entry;
    let mut i: usize = 0;
    assert(start.fields + all.take(0) =~= start.fields);
    while i < notes.len()
        invariant
            i <= notes.len(),
            all == pairs(notes@),
            entry@ == (EntryView { fields: start.fields + all.take(i as int), ..start }),
        decreases notes.len() - i,
    {
        proof {
            assert((start.fields + all.take(i as int)).push(all[i as int]) =~= start.fields
                + all.take(i + 1));
        }
        entry = entry.with(&notes[i].0, &notes[i].1);
        i = i + 1;
    }
    assert(all.take(i as int) =~= all);
    entry
}

fn with_number(entry: Entry, key: &str, n: Option<u64>) -> (r: Entry)
    ensures
        r@ == (EntryView {
            fields: entry@.fields + number_field(
                key@,
                match n {
                    Some(n) => Some(n as nat),
                    None => None,
                },
            ),
            ..entry@
        }),
{
    match n {
        Some(n) => {
            let r = entry.with(key, &decimal_of(n));
            assert(r@.fields =~= entry@.fields + number_field(key@, Some(n as nat)));
            r
        },
        None => {
            assert(entry@.fields + number_field(key@, None) =~= entry@.fields);
            entry
        },
    }
}

/// One event as the entry it becomes: the whole mapping, in one place.
///
/// `now` is the stamp of what has none of its own: a refusal, or what ran without a clock.
pub fn entry_for(event: &Event, class: &str, now: Timestamp) -> (r: Entry)
    ensures
        r@ == event_entry(event@, class@, now.0 as nat),
{
    let started = match event.started {
        Some(t) => Timestamp::from_millis(t),
        None => now,
    };
    let entry = Entry::new(started, class, &event.target).with("worker", &event.thread).with(
        "span",
        &decimal_of(event.span),
    );
    assert(entry@.fields =~= seq![
        ("worker"@, event@.thread),
        ("span"@, decimal(event@.span)),
    ]);
    let entry = with_number(entry, "parent", event.parent);
    let took = match (event.started, event.ended) {
        (Some(start), Some(end)) => Some(end.saturating_sub(start)),
        _ => None,
    };
    let entry = with_number(entry, "dur", took);
    let entry = match &event.capability {
        Some(scopes) => with_scopes(entry, scopes),
        None => {
            assert(entry@.fields + scope_fields(None) =~= entry@.fields);
            entry
        },
    };
    with_notes(entry, &event.notes)
}

// =====================================================================================
// Losses
// =====================================================================================

/// The ways a fact can be lost. Fixed tokens, not composed prose: the marker of a loss is
/// to be queried rather than read.
#[derive(Clone, Copy, Debug, PartialEq, Eq, Structural)]
pub enum DropReason {
    /// The sink refused it.
    WriteFailed,
    /// It could not be rendered as a line at all.
    Unwritable,
    /// Recording was entered from inside recording.
    Reentrant,
    /// Something unwound.
    Panicked,
}

/// The `reason=` token of each way.
pub const DROP_REASONS: [&'static str; 4] = [
    "write-failed",
    "unwritable",
    "reentrant",
    "panicked",
];

/// The token of a reason.
pub open spec fn reason_token(r: DropReason) -> Seq<char> {
    match r {
        DropReason::WriteFailed => "write-failed"@,
        DropReason::Unwritable => "unwritable"@,
        DropReason::Reentrant => "reentrant"@,
        DropReason::Panicked => "panicked"@,
    }
}

impl DropReason {
    /// The token of this reason.
    pub fn as_str(self) -> (r: &'static str)
        ensures
            r@ == reason_token(self),
    {
        match self {
            DropReason::WriteFailed => "write-failed",
            DropReason::Unwritable => "unwritable",
            DropReason::Reentrant => "reentrant",
            DropReason::Panicked => "panicked",
        }
    }
}

/// How many facts have been lost and not yet marked, by reason.
#[derive(Clone, Copy, Debug, PartialEq, Eq, Structural)]
pub struct Drops {
    pub write_failed: u64,
    pub unwritable: u64,
    pub reentrant: u64,
    pub panicked: u64,
}

impl Default for Drops {
    fn default() -> (r: Drops)
        ensures
            r == (Drops { write_failed: 0, unwritable: 0, reentrant: 0, panicked: 0 }),
    {
        Drops { write_failed: 0, unwritable: 0, reentrant: 0, panicked: 0 }
    }
}

/// How many facts were lost for a reason.
pub open spec fn lost(d: Drops, r: DropReason) -> u64 {
    match r {
        DropReason::WriteFailed => d.write_failed,
        DropReason::Unwritable => d.unwritable,
        DropReason::Reentrant => d.reentrant,
        DropReason::Panicked => d.panicked,
    }
}

/// The counts with that of one reason replaced.
pub open spec fn with_lost(d: Drops, r: DropReason, n: u64) -> Drops {
    match r {
        DropReason::WriteFailed => Drops { write_failed: n, ..d },
        DropReason::Unwritable => Drops { unwritable: n, ..d },
        DropReason::Reentrant => Drops { reentrant: n, ..d },
        DropReason::Panicked => Drops { panicked: n, ..d },
    }
}

/// The counts with one more loss. A count starts over past the largest number.
pub open spec fn one_more(d: Drops, r: DropReason) -> Drops {
    let n = lost(d, r);
    with_lost(
        d,
        r,
        if n == u64::MAX {
            0
        } else {
            (n + 1) as u64
        },
    )
}

impl Drops {
    /// How many facts were lost for `reason`.
    pub fn count(&self, reason: DropReason) -> (r: u64)
        ensures
            r == lost(*self, reason),
    {
        match reason {
            DropReason::WriteFailed => self.write_failed,
            DropReason::Unwritable => self.unwritable,
            DropReason::Reentrant => self.reentrant,
            DropReason::Panicked => self.panicked,
        }
    }

    /// Replace the count of `reason`.
    pub fn set(&mut self, reason: DropReason, n: u64)
        ensures
            *final(self) == with_lost(*old(self), reason, n),
    {
        match reason {
            DropReason::WriteFailed => {
                self.write_failed = n;
            },
            DropReason::Unwritable => {
                self.unwritable = n;
            },
            DropReason::Reentrant => {
                self.reentrant = n;
            },
            DropReason::Panicked => {
                self.panicked = n;
            },
        }
    }

    /// Count one more loss.
    pub fn drop_one(&mut self, reason: DropReason)
        ensures
            *final(self) == one_more(*old(self), reason),
    {
        let n = self.count(reason);
        self.set(
            reason,
            if n == u64::MAX {
                0
            } else {
                n + 1
            },
        );
    }

    /// Whether anything is lost and not yet marked.
    pub fn any_pending(&self) -> (r: bool)
        ensures
            r == exists|reason: DropReason| #[trigger] lost(*self, reason) != 0,
    {
        let r = self.write_failed != 0 || self.unwritable != 0 || self.reentrant != 0
            || self.panicked != 0;
        proof {
            let d = *self;
            assert(lost(d, DropReason::WriteFailed) == d.write_failed);
            assert(lost(d, DropReason::Unwritable) == d.unwritable);
            assert(lost(d, DropReason::Reentrant) == d.reentrant);
            assert(lost(d, DropReason::Panicked) == d.panicked);
            if !r {
                assert forall|reason: DropReason| #[trigger] lost(d, reason) == 0 by {}
            }
        }
        r
    }
}

/// The entry that says so many facts were lost.
pub open spec fn dropped_entry(
    segment: Seq<char>,
    count: nat,
    reason: DropReason,
    now: nat,
) -> EntryView {
    EntryView {
        time: now,
        class: DROPPED_CLASS@,
        subject: segment,
        fields: seq![("count"@, decimal(count)), ("reason"@, reason_token(reason))],
    }
}

/// What marking the losses of one reason does: nothing where there are none; otherwise the
/// entry is written and the count is cleared, or kept where the log refused it. A loss with
/// no marker is the one thing that must not happen.
pub open spec fn marking<G: SealSigner>(
    signer: Option<G>,
    segment: Seq<char>,
    w: Option<WriterView>,
    d: Drops,
    reason: DropReason,
    now: nat,
    after: Option<WriterView>,
    left: Drops,
    marked: bool,
) -> bool {
    if lost(d, reason) == 0 {
        after == w && left == d && !marked
    } else {
        exists|r: Result<Option<nat>, WriteErrorView>| #[trigger]
            handle_writing(
                signer,
                w,
                dropped_entry(segment, lost(d, reason) as nat, reason, now),
                after,
                r,
            ) && match r {
                Ok(_) => marked && left == with_lost(d, reason, 0),
                Err(_) => !marked && left == d,
            }
    }
}

fn mark<S: LineSink, G: SealSigner>(
    handle: &mut LogHandle<S, G>,
    drops: &mut Drops,
    segment: &str,
    reason: DropReason,
    now: Timestamp,
) -> (r: bool)
    requires
        has_room(old(handle)@.writer),
    ensures
        marking(
            old(handle).signer(),
            segment@,
            old(handle)@.writer,
            *old(drops),
            reason,
            now.0 as nat,
            final(handle)@.writer,
            *final(drops),
            r,
        ),
        final(handle)@ == (HandleView { writer: final(handle)@.writer, ..old(handle)@ }),
        final(handle).signer() == old(handle).signer(),
        old(handle).reliable() ==> final(handle).reliable(),
        forall|n: nat| has_room_for(old(handle)@.writer, n + 1) ==> #[trigger] has_room_for(
            final(handle)@.writer,
            n,
        ),
{
    let count = drops.count(reason);
    if count == 0 {
        return false;
    }
    let ghost w = handle@.writer;
    let ghost d = *drops;
    let entry = Entry::new(now, DROPPED_CLASS, segment).with("count", &decimal_of(count)).with(
        "reason",
        reason.as_str(),
    );
    assert(entry@ =~= dropped_entry(segment@, count as nat, reason, now.0 as nat));
    let ghost e = dropped_entry(segment@, count as nat, reason, now.0 as nat);
    let r = handle.write(entry);
    assert(handle_writing(old(handle).signer(), w, e, handle@.writer, written(r)));
    match r {
        Ok(_) => {
            drops.set(reason, 0);
            true
        },
        Err(_) => false,
    }
}

/// What marking every loss does, reason by reason.
pub open spec fn flushing<G: SealSigner>(
    signer: Option<G>,
    w: Option<WriterView>,
    d: Drops,
    now: nat,
    after: Option<WriterView>,
    left: Drops,
    n: nat,
) -> bool {
    match w {
        None => after is None && left == d && n == 0,
        Some(open) => exists|
            w1: Option<WriterView>,
            w2: Option<WriterView>,
            w3: Option<WriterView>,
            d1: Drops,
            d2: Drops,
            d3: Drops,
            m0: bool,
            m1: bool,
            m2: bool,
            m3: bool,
        | {
            &&& #[trigger] marking(
                signer,
                open.header.name,
                w,
                d,
                DropReason::WriteFailed,
                now,
                w1,
                d1,
                m0,
            )
            &&& #[trigger] marking(
                signer,
                open.header.name,
                w1,
                d1,
                DropReason::Unwritable,
                now,
                w2,
                d2,
                m1,
            )
            &&& #[trigger] marking(
                signer,
                open.header.name,
                w2,
                d2,
                DropReason::Reentrant,
                now,
                w3,
                d3,
                m2,
            )
            &&& #[trigger] marking(
                signer,
                open.header.name,
                w3,
                d3,
                DropReason::Panicked,
                now,
                after,
                left,
                m3,
            )
            &&& n == one_if(m0) + one_if(m1) + one_if(m2) + one_if(m3)
        },
    }
}

/// One, or none.
pub open spec fn one_if(b: bool) -> nat {
    if b {
        1
    } else {
        0
    }
}

/// Land the pending markers now, without waiting for the next entry: what a host calls
/// before closing, so an orderly shutdown does not carry an unreported loss out of the
/// process. Returns how many markers were written.
///
/// Where nothing is open nothing can be marked, and the counts stay.
pub fn flush_drops<S: LineSink, G: SealSigner>(
    handle: &mut LogHandle<S, G>,
    drops: &mut Drops,
    now: Timestamp,
) -> (n: usize)
    requires
        has_room_for(old(handle)@.writer, 4),
    ensures
        flushing(
            old(handle).signer(),
            old(handle)@.writer,
            *old(drops),
            now.0 as nat,
            final(handle)@.writer,
            *final(drops),
            n as nat,
        ),
        final(handle)@ == (HandleView { writer: final(handle)@.writer, ..old(handle)@ }),
        final(handle).signer() == old(handle).signer(),
        old(handle).reliable() ==> final(handle).reliable(),
        forall|k: nat| has_room_for(old(handle)@.writer, k + 4) ==> #[trigger] has_room_for(
            final(handle)@.writer,
            k,
        ),
{
    let segment = match handle.open_segment() {
        Some((segment, _)) => segment,
        None => {
            return 0;
        },
    };
    let ghost w0 = handle@.writer;
    assert(has_room_for(w0, 3 + 1));
    let m0 = mark(handle, drops, &segment, DropReason::WriteFailed, now);
    let ghost w1 = handle@.writer;
    assert(has_room_for(w1, 2 + 1));
    let m1 = mark(handle, drops, &segment, DropReason::Unwritable, now);
    let ghost w2 = handle@.writer;
    assert(has_room_for(w2, 1 + 1));
    let m2 = mark(handle, drops, &segment, DropReason::Reentrant, now);
    let ghost w3 = handle@.writer;
    assert(has_room_for(w3, 0 + 1));
    let m3 = mark(handle, drops, &segment, DropReason::Panicked, now);
    proof {
        let last = handle@.writer;
        assert forall|k: nat| has_room_for(w0, k + 4) implies #[trigger] has_room_for(last, k) by {
            assert(has_room_for(w1, (k + 2) + 1));
            assert(has_room_for(w2, (k + 1) + 1));
            assert(has_room_for(w3, k + 1));
        }
    }
    let mut n: usize = 0;
    if m0 {
        n = n + 1;
    }
    if m1 {
        n = n + 1;
    }
    if m2 {
        n = n + 1;
    }
    if m3 {
        n = n + 1;
    }
    n
}

// =====================================================================================
// Recording
// =====================================================================================

/// What recording one event does once the losses are marked: nothing where the level
/// leaves its class out, otherwise its entry is written, and a failure is counted for what
/// it is.
pub open spec fn recording<G: SealSigner>(
    signer: Option<G>,
    w: Option<WriterView>,
    d: Drops,
    event: EventView,
    now: nat,
    after: Option<WriterView>,
    left: Drops,
) -> bool {
    let class = event_class(event);
    match w {
        None => after is None && left == d,
        Some(open) => if !emitted(open.vocabulary, class, open.rank) {
            after == w && left == d
        } else {
            exists|r: Result<Option<nat>, WriteErrorView>| #[trigger]
                handle_writing(signer, w, event_entry(event, class, now), after, r) && left == (
                match r {
                    Ok(_) => d,
                    Err(WriteErrorView::Render(_)) => one_more(d, DropReason::Unwritable),
                    Err(_) => one_more(d, DropReason::WriteFailed),
                })
        },
    }
}

/// Record one event: mark what was lost before, then write its entry.
///
/// The filter comes before the entry is built: an excluded class costs one integer
/// comparison here.
pub fn record<S: LineSink, G: SealSigner>(
    handle: &mut LogHandle<S, G>,
    drops: &mut Drops,
    event: &Event,
    now: Timestamp,
)
    requires
        has_room_for(old(handle)@.writer, 5),
    ensures
        exists|w: Option<WriterView>, d: Drops, n: nat| #[trigger]
            flushing(
                old(handle).signer(),
                old(handle)@.writer,
                *old(drops),
                now.0 as nat,
                w,
                d,
                n,
            ) && recording(
                old(handle).signer(),
                w,
                d,
                event@,
                now.0 as nat,
                final(handle)@.writer,
                *final(drops),
            ),
        final(handle)@ == (HandleView { writer: final(handle)@.writer, ..old(handle)@ }),
        final(handle).signer() == old(handle).signer(),
        old(handle).reliable() ==> final(handle).reliable(),
{
    assert(has_room_for(handle@.writer, 1 + 4));
    let n = flush_drops(handle, drops, now);
    let ghost w = handle@.writer;
    let ghost d = *drops;
    assert(flushing(
        old(handle).signer(),
        old(handle)@.writer,
        *old(drops),
        now.0 as nat,
        w,
        d,
        n as nat,
    ));
    assert(has_room_for(w, 1));
    let class = class_for(event);
    if !handle.emits(class) {
        return;
    }
    let entry = entry_for(event, class, now);
    let ghost e = entry@;
    let r = handle.write(entry);
    assert(handle_writing(old(handle).signer(), w, e, handle@.writer, written(r)));
    match r {
        Ok(_) => {},
        Err(WriteError::Render(_)) => {
            drops.drop_one(DropReason::Unwritable);
        },
        Err(_) => {
            drops.drop_one(DropReason::WriteFailed);
        },
    }
}

// =====================================================================================
// What is marked
// =====================================================================================

/// The entry of a loss can always be a line, where the segment's name can.
proof fn lemma_loss_renders(
    segment: Seq<char>,
    count: nat,
    reason: DropReason,
    now: nat,
    seq: nat,
    prefixes: Seq<(Seq<char>, Seq<char>)>,
)
    requires
        iri_like(segment),
    ensures
        entry_text(numbered(dropped_entry(segment, count, reason, now), seq), prefixes) is Ok,
{
    let f = numbered(dropped_entry(segment, count, reason, now), seq).fields;
    reveal_strlit("https://ikigai-rs.dev/ns/log#Dropped");
    reveal_strlit("seq");
    reveal_strlit("count");
    reveal_strlit("reason");
    assert(DROPPED_CLASS@[5] == ':');
    assert(iri_like(DROPPED_CLASS@));
    assert(f.len() == 3);
    assert(f[0].0 == "seq"@ && f[1].0 == "count"@ && f[2].0 == "reason"@);
    assert forall|i: int| 0 <= i < f.len() implies key_like(#[trigger] f[i].0) by {}
    lemma_bad_key(f);
}

/// On a sink that does not fail, a loss that is marked is marked for good.
proof fn lemma_marking_clears<G: SealSigner>(
    signer: Option<G>,
    segment: Seq<char>,
    w: Option<WriterView>,
    d: Drops,
    reason: DropReason,
    now: nat,
    after: Option<WriterView>,
    left: Drops,
    marked: bool,
)
    requires
        marking(signer, segment, w, d, reason, now, after, left, marked),
        w matches Some(s) && s.reliable,
        iri_like(segment),
    ensures
        left == with_lost(d, reason, 0),
        marked == (lost(d, reason) > 0),
        after matches Some(s) && s.reliable,
{
    if lost(d, reason) > 0 {
        let e = dropped_entry(segment, lost(d, reason) as nat, reason, now);
        let s = w->Some_0;
        let r = choose|r: Result<Option<nat>, WriteErrorView>| #[trigger]
            handle_writing(signer, w, e, after, r) && match r {
                Ok(_) => marked && left == with_lost(d, reason, 0),
                Err(_) => !marked && left == d,
            };
        lemma_loss_renders(
            segment,
            lost(d, reason) as nat,
            reason,
            now,
            s.seq + 1,
            s.header.prefixes,
        );
        law_reliable_sink_refuses_nothing(signer, s, e, after->Some_0, r);
    }
}

/// A loss with no marker does not happen: where a segment is open and its sink does not
/// fail, every loss is marked, one entry for each reason there is, and none is left.
pub proof fn law_every_loss_is_marked<G: SealSigner>(
    signer: Option<G>,
    w: Option<WriterView>,
    d: Drops,
    now: nat,
    after: Option<WriterView>,
    left: Drops,
    n: nat,
)
    requires
        flushing(signer, w, d, now, after, left, n),
        w matches Some(s) && s.reliable && iri_like(s.header.name),
    ensures
        lost(left, DropReason::WriteFailed) == 0,
        lost(left, DropReason::Unwritable) == 0,
        lost(left, DropReason::Reentrant) == 0,
        lost(left, DropReason::Panicked) == 0,
        n == one_if(lost(d, DropReason::WriteFailed) > 0) + one_if(
            lost(d, DropReason::Unwritable) > 0,
        ) + one_if(lost(d, DropReason::Reentrant) > 0) + one_if(
            lost(d, DropReason::Panicked) > 0,
        ),
{
    let name = w->Some_0.header.name;
    let (w1, w2, w3, d1, d2, d3, m0, m1, m2, m3) = choose|
        w1: Option<WriterView>,
        w2: Option<WriterView>,
        w3: Option<WriterView>,
        d1: Drops,
        d2: Drops,
        d3: Drops,
        m0: bool,
        m1: bool,
        m2: bool,
        m3: bool,
    | {
        &&& #[trigger] marking(signer, name, w, d, DropReason::WriteFailed, now, w1, d1, m0)
        &&& #[trigger] marking(signer, name, w1, d1, DropReason::Unwritable, now, w2, d2, m1)
        &&& #[trigger] marking(signer, name, w2, d2, DropReason::Reentrant, now, w3, d3, m2)
        &&& #[trigger] marking(signer, name, w3, d3, DropReason::Panicked, now, after, left, m3)
        &&& n == one_if(m0) + one_if(m1) + one_if(m2) + one_if(m3)
    };
    lemma_marking_clears(signer, name, w, d, DropReason::WriteFailed, now, w1, d1, m0);
    lemma_marking_clears(signer, name, w1, d1, DropReason::Unwritable, now, w2, d2, m1);
    lemma_marking_clears(signer, name, w2, d2, DropReason::Reentrant, now, w3, d3, m2);
    lemma_marking_clears(signer, name, w3, d3, DropReason::Panicked, now, after, left, m3);
}

} // verus!
