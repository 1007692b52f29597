//! This process's log: its effective configuration, and its segment if one is open.
//!
//! **Constructing a handle opens nothing.** A segment exists only once a host opens one:
//! a library cannot judge whether it is inside a daemon or a one-shot command, and a
//! one-shot that opened a segment would put a process that did nothing into the journal
//! beside the servers.

use std::sync::Arc;
use vstd::prelude::*;
use vstd::string::*;

use crate::chain::{rotation_bound, RotationPolicy, SealPolicy, SealSigner};
use crate::entry::{Entry, EntryView};
use crate::graph::entry_iri;
use crate::layer::{ConfigView, LogConfig};
use crate::lineage::emitted;
use crate::number::decimal_of;
use crate::segments::given;
use crate::text::maybe;
use crate::time::Timestamp;
use crate::vocabulary::{Vocabulary, CAPABILITY_DENIED_CLASS};
use crate::writer::{
    ended, number, rotation_marker, starting, stop_marker, writing, written, Closed, LineSink,
    Opening, WriteError, WriteErrorView, Writer, WriterView,
};

verus! {

/// The effective configuration, as a resource.
pub const CONFIG_IRI: &'static str = "urn:log:config";

/// This process's log: its effective configuration, and its segment if one is open.
///
/// Shared by the endpoints and by whatever host code writes entries directly, so there is
/// exactly one segment per process and exactly one answer to "what level are we at".
#[verifier::reject_recursive_types(S)]
#[verifier::reject_recursive_types(G)]
pub struct LogHandle<S: LineSink, G: SealSigner> {
    home: Option<String>,
    app: Option<String>,
    config: LogConfig,
    writer: Option<Writer<S, G>>,
}

/// A [`LogHandle`], with its texts as characters.
#[verifier::ext_equal]
pub struct HandleView {
    pub home: Option<Seq<char>>,
    pub app: Option<Seq<char>>,
    pub config: ConfigView,
    pub writer: Option<WriterView>,
}

/// What is known of a segment that may be open.
pub open spec fn segment_state<S: LineSink, G: SealSigner>(w: Option<Writer<S, G>>) -> Option<
    WriterView,
> {
    match w {
        Some(w) => Some(w@),
        None => None,
    }
}

impl<S: LineSink, G: SealSigner> View for LogHandle<S, G> {
    type V = HandleView;

    closed spec fn view(&self) -> HandleView {
        HandleView {
            home: maybe(self.home),
            app: maybe(self.app),
            config: self.config@,
            writer: segment_state(self.writer),
        }
    }
}

/// Whether what is written to a segment that may be open can only be refused for what it
/// is: the sink never fails.
pub open spec fn sure(w: Option<WriterView>) -> bool {
    w matches Some(w) ==> w.reliable
}

/// Whether one more entry can be numbered.
pub open spec fn has_room(w: Option<WriterView>) -> bool {
    w matches Some(w) ==> w.seq < u64::MAX
}

/// Whether `n` more entries can be numbered.
pub open spec fn has_room_for(w: Option<WriterView>, n: nat) -> bool {
    w matches Some(w) ==> w.seq + n <= u64::MAX
}

/// What writing an entry to a segment that may be open leaves behind: nothing is written
/// where none is.
pub open spec fn handle_writing<G: SealSigner>(
    signer: Option<G>,
    w: Option<WriterView>,
    e: EntryView,
    after: Option<WriterView>,
    r: Result<Option<nat>, WriteErrorView>,
) -> bool {
    match w {
        None => after is None && r == Ok::<Option<nat>, WriteErrorView>(None),
        Some(w) => after matches Some(a) && writing(signer, w, e, a, r),
    }
}

/// The entry that says somebody was refused `capability` while attempting `action`.
pub open spec fn denial_entry(
    subject: Seq<char>,
    now: nat,
    capability: Seq<char>,
    action: Seq<char>,
) -> EntryView {
    EntryView {
        time: now,
        class: CAPABILITY_DENIED_CLASS@,
        subject,
        fields: seq![("cap"@, capability), ("reason"@, action)],
    }
}

/// What a denial is recorded as being about: the open segment, or the configuration.
pub open spec fn denial_subject(w: Option<WriterView>) -> Seq<char> {
    match w {
        Some(w) => w.header.name,
        None => CONFIG_IRI@,
    }
}

impl<S: LineSink, G: SealSigner> LogHandle<S, G> {
    /// What signs the open segment's seals.
    pub closed spec fn signer(&self) -> Option<G> {
        match self.writer {
            Some(w) => w.signer(),
            None => None,
        }
    }

    /// Whether the open segment's sink, where one is open, never refuses a line.
    pub open spec fn reliable(&self) -> bool {
        sure(self@.writer)
    }

    /// A closed handle over `config`, layered from `home` for `app`.
    pub fn new(home: Option<String>, app: Option<String>, config: LogConfig) -> (r: Self)
        ensures
            r@ == (HandleView {
                home: maybe(home),
                app: maybe(app),
                config: config@,
                writer: None,
            }),
    {
        LogHandle { home, app, config, writer: None }
    }

    /// The config home this handle layers within.
    pub fn home(&self) -> (r: Option<&str>)
        ensures
            given(r) == self@.home,
    {
        match &self.home {
            Some(s) => Some(s.as_str()),
            None => None,
        }
    }

    /// The application whose override layer applies.
    pub fn app(&self) -> (r: Option<&str>)
        ensures
            given(r) == self@.app,
    {
        match &self.app {
            Some(s) => Some(s.as_str()),
            None => None,
        }
    }

    /// Open this process's segment onto a sink the caller supplies. Where one is open
    /// already, it stays.
    pub fn open_with_sink(
        &mut self,
        vocabulary: Arc<Vocabulary>,
        now: Timestamp,
        sink: S,
        process: Option<u32>,
    ) -> (r: Result<(), WriteError>)
        ensures
            old(self)@.writer is Some ==> r is Ok && final(self)@ == old(self)@
                && final(self).signer() == old(self).signer(),
            old(self)@.writer is None ==> {
                let o = Opening {
                    config: old(self)@.config,
                    vocabulary: (*vocabulary)@,
                    now: now.0 as nat,
                    path: None,
                    name: None,
                    seals: old(self)@.config.seals,
                    rotation: old(self)@.config.rotation,
                    prev: None,
                    stamp: None,
                    process,
                };
                match r {
                    Ok(_) => final(self)@.writer matches Some(w) && starting(
                        o,
                        None::<G>,
                        sink.accepted(),
                        sink.reliable(),
                        Ok(w),
                    ) && final(self)@ == (HandleView { writer: Some(w), ..old(self)@ }),
                    Err(e) => starting(
                        o,
                        None::<G>,
                        sink.accepted(),
                        sink.reliable(),
                        Err(e@),
                    ) && final(self)@ == old(self)@,
                }
            },
            old(self).reliable() && sink.reliable() ==> final(self).reliable() && (r matches Err(e)
                ==> !(e is Io)),
    {
        if self.writer.is_some() {
            return Ok(());
        }
        match Writer::open_with_sink(&self.config, vocabulary, now, sink, process) {
            Ok(w) => {
                self.writer = Some(w);
                Ok(())
            },
            Err(e) => Err(e),
        }
    }

    /// Take over a segment that was opened on a file.
    pub fn attach(&mut self, writer: Writer<S, G>)
        ensures
            final(self)@ == (HandleView { writer: Some(writer@), ..old(self)@ }),
            final(self).signer() == writer.signer(),
    {
        self.writer = Some(writer);
    }

    /// Write `log:ProcessStop` and close the segment. A no-op when nothing is open.
    pub fn close(&mut self, now: Timestamp) -> (r: Result<Option<Closed<G>>, WriteError>)
        requires
            has_room(old(self)@.writer),
        ensures
            final(self)@ == (HandleView { writer: None, ..old(self)@ }),
            old(self).reliable() ==> (r matches Err(e) ==> e is Render),
            match old(self)@.writer {
                None => r matches Ok(None),
                Some(w) => {
                    let marker = stop_marker(w.header.instance, now.0 as nat);
                    match r {
                        Ok(None) => false,
                        Ok(Some(c)) => ended(
                            old(self).signer(),
                            w,
                            marker,
                            now.0 as nat,
                            Ok::<Closed<G>, WriteError>(c),
                        ),
                        Err(e) => ended(
                            old(self).signer(),
                            w,
                            marker,
                            now.0 as nat,
                            Err::<Closed<G>, WriteError>(e),
                        ),
                    }
                },
            },
    {
        match self.writer.take() {
            Some(w) => match w.close(now) {
                Ok(c) => Ok(Some(c)),
                Err(e) => Err(e),
            },
            None => Ok(None),
        }
    }

    /// Write `log:Rotation`, naming the successor, seal, and hand the segment over. A no-op
    /// when nothing is open.
    pub fn rotate_out(&mut self, now: Timestamp, successor: Option<&str>) -> (r: Result<
        Option<Closed<G>>,
        WriteError,
    >)
        requires
            has_room(old(self)@.writer),
        ensures
            final(self)@ == (HandleView { writer: None, ..old(self)@ }),
            old(self).reliable() ==> (r matches Err(e) ==> e is Render),
            match old(self)@.writer {
                None => r matches Ok(None),
                Some(w) => {
                    let marker = rotation_marker(w.header.name, now.0 as nat, given(successor));
                    match r {
                        Ok(None) => false,
                        Ok(Some(c)) => ended(
                            old(self).signer(),
                            w,
                            marker,
                            now.0 as nat,
                            Ok::<Closed<G>, WriteError>(c),
                        ),
                        Err(e) => ended(
                            old(self).signer(),
                            w,
                            marker,
                            now.0 as nat,
                            Err::<Closed<G>, WriteError>(e),
                        ),
                    }
                },
            },
    {
        match self.writer.take() {
            Some(w) => match w.rotate_out(now, successor) {
                Ok(c) => Ok(Some(c)),
                Err(e) => Err(e),
            },
            None => Ok(None),
        }
    }

    /// Whether a segment is being written right now.
    pub fn is_open(&self) -> (r: bool)
        ensures
            r == (self@.writer is Some),
    {
        self.writer.is_some()
    }

    /// Append one entry. `Ok(None)` when nothing is open or the level dial excluded the
    /// class; the two are told apart by [`is_open`](Self::is_open).
    pub fn write(&mut self, entry: Entry) -> (r: Result<Option<u64>, WriteError>)
        requires
            has_room(old(self)@.writer),
        ensures
            handle_writing(
                old(self).signer(),
                old(self)@.writer,
                entry@,
                final(self)@.writer,
                written(r),
            ),
            final(self)@ == (HandleView { writer: final(self)@.writer, ..old(self)@ }),
            final(self).signer() == old(self).signer(),
            old(self).reliable() ==> final(self).reliable() && (r matches Err(e) ==> e is Render),
    {
        match self.writer.take() {
            Some(w) => {
                let mut w = w;
                let r = w.write(entry);
                self.writer = Some(w);
                r
            },
            None => Ok(None),
        }
    }

    /// The effective configuration.
    pub fn config(&self) -> (r: &LogConfig)
        ensures
            r@ == self@.config,
    {
        &self.config
    }

    /// Replace the effective configuration. Takes effect for the next segment: the open one
    /// keeps the level its header states, for its whole life.
    pub fn set_config(&mut self, config: LogConfig)
        ensures
            final(self)@ == (HandleView { config: config@, ..old(self)@ }),
            final(self).signer() == old(self).signer(),
    {
        self.config = config;
    }

    /// Replace the cadences. Like a level, they take effect for the next segment.
    pub fn set_policies(&mut self, seals: SealPolicy, rotation: RotationPolicy)
        ensures
            final(self)@ == (HandleView {
                config: ConfigView { seals, rotation, ..old(self)@.config },
                ..old(self)@
            }),
            final(self).signer() == old(self).signer(),
    {
        self.config.seals = seals;
        self.config.rotation = rotation;
    }

    /// `(segment IRI, effective instance IRI)` when a segment is open.
    pub fn open_segment(&self) -> (r: Option<(String, String)>)
        ensures
            match r {
                Some((segment, instance)) => self@.writer matches Some(w) && segment@
                    == w.header.name && instance@ == w.header.instance,
                None => self@.writer is None,
            },
    {
        match &self.writer {
            Some(w) => Some((w.segment().to_owned(), w.instance().to_owned())),
            None => None,
        }
    }

    /// Whether an entry of this class would be written now.
    pub fn emits(&self, class_iri: &str) -> (r: bool)
        ensures
            r == match self@.writer {
                Some(w) => emitted(w.vocabulary, class_iri@, w.rank),
                None => false,
            },
    {
        match &self.writer {
            Some(w) => w.emits(class_iri),
            None => false,
        }
    }

    /// Whether the open segment has met its rotation policy. A log has no tick of its own,
    /// so the write is the only moment there is to ask.
    pub fn rotation_due(&self, now: Timestamp) -> (r: bool)
        ensures
            r == match self@.writer {
                Some(w) => rotation_bound(
                    w.rotation,
                    w.seq,
                    if now.0 > w.opened_at {
                        (now.0 - w.opened_at) as nat
                    } else {
                        0
                    },
                ),
                None => false,
            },
    {
        match &self.writer {
            Some(w) => w.rotation_due(now),
            None => false,
        }
    }

    /// Whether the open segment can number one more entry.
    pub fn has_room_left(&self) -> (r: bool)
        ensures
            r == has_room(self@.writer),
    {
        match &self.writer {
            Some(w) => w.sequence() < u64::MAX,
            None => true,
        }
    }

    /// Whether the open segment can number `n` more entries.
    pub fn has_room_left_for(&self, n: u64) -> (r: bool)
        ensures
            r == has_room_for(self@.writer, n as nat),
    {
        match &self.writer {
            Some(w) => w.sequence() <= u64::MAX - n,
            None => true,
        }
    }

    /// The IRI of a written entry: `{segment}:{seq}`.
    pub fn entry_iri(&self, seq: u64) -> (r: Option<String>)
        ensures
            match r {
                Some(iri) => self@.writer matches Some(w) && iri@ == entry_iri(
                    w.header.name,
                    seq as nat,
                ),
                None => self@.writer is None,
            },
    {
        match &self.writer {
            Some(w) => {
                let mut iri = w.segment().to_owned();
                iri.push(':');
                iri.append(&decimal_of(seq));
                assert(iri@ =~= entry_iri(w@.header.name, seq as nat));
                Some(iri)
            },
            None => None,
        }
    }

    /// Land a `log:CapabilityDenied` entry: somebody was refused `capability` while
    /// attempting `action`.
    ///
    /// Public because a refusal comes before the endpoint runs, so the action that was
    /// denied cannot record its own denial. Best-effort by nature: a log with no open
    /// segment cannot record that something was refused, and the refusal still has to reach
    /// the caller.
    pub fn record_denial(&mut self, now: Timestamp, capability: &str, action: &str) -> (r: Option<
        u64,
    >)
        requires
            has_room(old(self)@.writer),
        ensures
            exists|o: Result<Option<nat>, WriteErrorView>| #[trigger]
                handle_writing(
                    old(self).signer(),
                    old(self)@.writer,
                    denial_entry(
                        denial_subject(old(self)@.writer),
                        now.0 as nat,
                        capability@,
                        action@,
                    ),
                    final(self)@.writer,
                    o,
                ) && number(r) == (match o {
                    Ok(n) => n,
                    Err(_) => None,
                }) && (old(self).reliable() ==> (o matches Err(e) ==> e is Render)),
            final(self)@ == (HandleView { writer: final(self)@.writer, ..old(self)@ }),
            final(self).signer() == old(self).signer(),
            old(self).reliable() ==> final(self).reliable(),
    {
        let subject = match &self.writer {
            Some(w) => w.segment().to_owned(),
            None => CONFIG_IRI.to_owned(),
        };
        let ghost about = subject@;
        let entry = Entry::new(now, CAPABILITY_DENIED_CLASS, &subject).with("cap", capability).with(
            "reason",
            action,
        );
        assert(entry@ =~= denial_entry(about, now.0 as nat, capability@, action@));
        assert(about == denial_subject(old(self)@.writer));
        let ghost denied = denial_entry(about, now.0 as nat, capability@, action@);
        match self.write(entry) {
            Ok(n) => {
                assert(handle_writing(
                    old(self).signer(),
                    old(self)@.writer,
                    denied,
                    self@.writer,
                    Ok(number(n)),
                ));
                n
            },
            Err(e) => {
                assert(handle_writing(
                    old(self).signer(),
                    old(self)@.writer,
                    denied,
                    self@.writer,
                    Err(e@),
                ));
                None
            },
        }
    }
}

} // verus!
