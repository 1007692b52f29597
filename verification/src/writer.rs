//! The writer: one segment per process, opened once, filtered by level, and
//! flushed per entry.
//!
//! ## One segment per process
//!
//! Not per machine. The instance name is the attribution key, so two processes
//! on one host are two logs and "what happened on this machine" is a union.
//!
//! ## The chain, from the writer's side
//!
//! Every entry advances an in-memory hash chain rooted at the segment's
//! canonical header. Periodically a `#seal` line commits the head, so tampering
//! localizes to "between seal K and seal K+1".
//!
//! **Both endings seal.** [`Writer::close`] writes `log:ProcessStop` and
//! [`Writer::rotate_out`] writes `log:Rotation`, and each then writes a final
//! `#seal` over whatever tail was uncommitted. So a segment that ends in an
//! orderly way has nothing outside a checkpoint.
//!
//! **No buffering.** Every entry is flushed as it is written. A log that loses
//! its tail to a crash cannot testify about the crash.

use std::sync::Arc;
use vstd::prelude::*;
use vstd::string::*;

use crate::chain::{
    chain_start, chain_step, is_signed, owes_seal, rotation_bound, seal_due, seal_over, seal_with,
    signed, Chain, RotationPolicy, SealPolicy, SealSigner,
};
use crate::config::{instance_iri, instance_of, unprefixed, without_prefix, INSTANCE_NS};
use crate::entry::{entry_text, Entry, EntryView};
use crate::error::{render_error_text, RenderError, RenderErrorView};
use crate::header::{header_text, Header, HeaderView, Prev, PrevView, FORMAT_VERSION};
use crate::layer::{ConfigView, LogConfig};
use crate::line::{seal_text, Seal, SealView};
use crate::lineage::emitted;
use crate::number::{decimal, decimal_of, lemma_decimal};
use crate::table::{lookup, stored, Prefixes, Table};
use crate::text::{
    chars_of, copy_maybe, joined, lines, lines_of, maybe, same_text, text_lines, texts, unended_of,
};
use crate::time::{time_text, Timestamp};
use crate::vocabulary::{
    Vocabulary, VocabularyView, LOG_NS, PROCESS_START_CLASS, PROCESS_STOP_CLASS, PROV_NS,
    ROTATION_CLASS,
};

verus! {

// =====================================================================================
// Errors
// =====================================================================================

/// Why a segment could not be opened, or an entry could not be written.
#[derive(Debug)]
pub enum WriteError {
    /// The configured level is not one the vocabulary defines.
    ///
    /// Loud, at open, and never per entry: the rank is resolved once, and a
    /// level nothing can place on the dial would otherwise silently take in or
    /// leave out everything.
    UnknownLevel {
        /// The level IRI that was configured.
        level: String,
        /// The levels this vocabulary does define.
        known: Vec<String>,
    },
    /// A file destination with no directory configured and no data home to fall
    /// back on.
    NoDirectory,
    /// A segment file already exists at the path this segment would take.
    SegmentExists(String),
    /// The instance name is held by a live process and could not be
    /// disambiguated either.
    InstanceInUse {
        /// The name that was asked for.
        name: String,
        /// The name that was tried instead.
        tried: String,
    },
    /// A filesystem or stream failure.
    Io {
        /// What was being written, when it is a file.
        path: Option<String>,
        /// The OS error.
        message: String,
    },
    /// A value that cannot be written as a line without corrupting it.
    Render(RenderError),
}

/// A [`WriteError`], with its texts as characters.
#[verifier::ext_equal]
pub enum WriteErrorView {
    UnknownLevel { level: Seq<char>, known: Seq<Seq<char>> },
    NoDirectory,
    SegmentExists(Seq<char>),
    InstanceInUse { name: Seq<char>, tried: Seq<char> },
    Io { path: Option<Seq<char>>, message: Seq<char> },
    Render(RenderErrorView),
}

impl View for WriteError {
    type V = WriteErrorView;

    open spec fn view(&self) -> WriteErrorView {
        match self {
            WriteError::UnknownLevel { level, known } => WriteErrorView::UnknownLevel {
                level: level@,
                known: texts(known@),
            },
            WriteError::NoDirectory => WriteErrorView::NoDirectory,
            WriteError::SegmentExists(path) => WriteErrorView::SegmentExists(path@),
            WriteError::InstanceInUse { name, tried } => WriteErrorView::InstanceInUse {
                name: name@,
                tried: tried@,
            },
            WriteError::Io { path, message } => WriteErrorView::Io {
                path: maybe(*path),
                message: message@,
            },
            WriteError::Render(e) => WriteErrorView::Render(e@),
        }
    }
}

/// Texts with a comma and a blank between each and the next.
pub open spec fn listed(v: Seq<Seq<char>>) -> Seq<char>
    decreases v.len(),
{
    if v.len() == 0 {
        Seq::empty()
    } else if v.len() == 1 {
        v[0]
    } else {
        listed(v.drop_last()) + ", "@ + v.last()
    }
}

pub fn list(v: &Vec<String>) -> (out: String)
    ensures
        out@ == listed(texts(v@)),
{
    let ghost t = texts(v@);
    let mut out = String::new();
    let mut i: usize = 0;
    assert(t.take(0) =~= Seq::empty());
    while i < v.len()
        invariant
            i <= v.len(),
            t == texts(v@),
            out@ == listed(t.take(i as int)),
        decreases v.len() - i,
    {
        let ghost before = out@;
        if i > 0 {
            out.append(", ");
        }
        out.append(&v[i]);
        proof {
            assert(t.take(i + 1).drop_last() =~= t.take(i as int));
            assert(t.take(i + 1).last() == t[i as int]);
            if i == 0 {
                assert(out@ =~= t[0]);
            }
        }
        i = i + 1;
    }
    assert(t.take(i as int) =~= t);
    out
}

/// What is said of an error.
pub open spec fn write_error_text(e: WriteErrorView) -> Seq<char> {
    match e {
        WriteErrorView::UnknownLevel { level, known } => "level "@ + level
            + " is not defined by this vocabulary — it knows: "@ + listed(known),
        WriteErrorView::NoDirectory =>
            "no log directory: set `directory` in log.toml, or give the process a HOME so the data home can be found"@,
        WriteErrorView::SegmentExists(path) => path + ": a segment is already there"@,
        WriteErrorView::InstanceInUse { name, tried } => "instance "@ + name
            + " is held by another process and "@ + tried + " is too"@,
        WriteErrorView::Io { path, message } => match path {
            Some(path) => path + ": "@ + message,
            None => message,
        },
        WriteErrorView::Render(e) => render_error_text(e),
    }
}

impl WriteError {
    /// What is wrong, in words.
    pub fn message(&self) -> (r: String)
        ensures
            r@ == write_error_text(self@),
    {
        match self {
            WriteError::UnknownLevel { level, known } => {
                let mut r = joined("level ", level);
                r.append(" is not defined by this vocabulary — it knows: ");
                r.append(&list(known));
                r
            },
            WriteError::NoDirectory =>
                "no log directory: set `directory` in log.toml, or give the process a HOME so the data home can be found".to_owned(),
            WriteError::SegmentExists(path) => joined(path, ": a segment is already there"),
            WriteError::InstanceInUse { name, tried } => {
                let mut r = joined("instance ", name);
                r.append(" is held by another process and ");
                r.append(tried);
                r.append(" is too");
                r
            },
            WriteError::Io { path, message } => match path {
                Some(path) => {
                    let mut r = joined(path, ": ");
                    r.append(message);
                    r
                },
                None => message.clone(),
            },
            WriteError::Render(e) => e.message(),
        }
    }
}

impl From<RenderError> for WriteError {
    fn from(e: RenderError) -> (r: WriteError) {
        WriteError::Render(e)
    }
}

impl vstd::std_specs::convert::FromSpecImpl<RenderError> for WriteError {
    open spec fn obeys_from_spec() -> bool {
        true
    }

    open spec fn from_spec(e: RenderError) -> WriteError {
        WriteError::Render(e)
    }
}

// =====================================================================================
// Sinks
// =====================================================================================

/// Where rendered lines go.
///
/// The seam exists so the crate stays clear of any one platform: a file, a
/// diagnostic stream or a browser's `console.log` is one implementation each, and
/// all of them write exactly the same lines.
pub trait LineSink: Send {
    /// The lines this sink has taken, in order. A sink that is to be reasoned about says
    /// here what they are.
    open spec fn accepted(&self) -> Seq<Seq<char>> {
        Seq::empty()
    }

    /// How many of these lines have been flushed.
    open spec fn flushed(&self) -> nat {
        0
    }

    /// Whether this sink never refuses a line: nothing is promised unless it says so. A
    /// sink is one or the other for its whole life.
    open spec fn reliable(&self) -> bool {
        false
    }

    /// Write one rendered line. The line never contains a newline; appending
    /// the terminator is the sink's job, because a `console.log` does not want
    /// one and a file does.
    fn write_line(&mut self, line: &str) -> (r: Result<(), String>)
        ensures
            match r {
                Ok(_) => final(self).accepted() == old(self).accepted().push(line@),
                Err(_) => final(self).accepted() == old(self).accepted(),
            },
            final(self).flushed() == old(self).flushed(),
            final(self).reliable() == old(self).reliable(),
            old(self).reliable() ==> r is Ok,
    ;

    /// Flush. Called after **every** entry.
    fn flush(&mut self) -> (r: Result<(), String>)
        ensures
            final(self).accepted() == old(self).accepted(),
            match r {
                Ok(_) => final(self).flushed() == final(self).accepted().len(),
                Err(_) => final(self).flushed() == old(self).flushed(),
            },
            final(self).reliable() == old(self).reliable(),
            old(self).reliable() ==> r is Ok,
    ;
}

/// A sink that keeps its lines in memory.
#[derive(Debug)]
pub struct BufferSink {
    /// The lines, in order.
    pub lines: Vec<String>,
    /// How many of them had been written when it was last flushed.
    pub flushed: usize,
}

impl BufferSink {
    /// A sink that has taken nothing yet.
    pub fn new() -> (r: BufferSink)
        ensures
            r.accepted() == Seq::<Seq<char>>::empty(),
            r.flushed() == 0,
    {
        let r = BufferSink { lines: Vec::new(), flushed: 0 };
        assert(texts(r.lines@) =~= Seq::empty());
        r
    }
}

impl LineSink for BufferSink {
    open spec fn accepted(&self) -> Seq<Seq<char>> {
        texts(self.lines@)
    }

    open spec fn flushed(&self) -> nat {
        self.flushed as nat
    }

    open spec fn reliable(&self) -> bool {
        true
    }

    fn write_line(&mut self, line: &str) -> (r: Result<(), String>) {
        let ghost before = self.lines@;
        self.lines.push(line.to_owned());
        assert(texts(self.lines@) =~= texts(before).push(line@));
        Ok(())
    }

    fn flush(&mut self) -> (r: Result<(), String>) {
        self.flushed = self.lines.len();
        Ok(())
    }
}

// =====================================================================================
// Names
// =====================================================================================

/// `s` with every colon turned into a hyphen.
pub open spec fn hyphenated(s: Seq<char>) -> Seq<char> {
    s.map_values(
        |c: char|
            if c == ':' {
                '-'
            } else {
                c
            },
    )
}

/// A timestamp as a token that is safe in an IRI and in a file name: seconds
/// precision, colons replaced.
pub open spec fn stamp_text(millis: nat) -> Seq<char> {
    hyphenated(time_text(millis).take(19)) + seq!['Z']
}

/// A timestamp as a token that is safe in an IRI and in a file name: seconds
/// precision, colons replaced.
pub fn stamp(now: Timestamp) -> (r: String)
    ensures
        r@ == stamp_text(now.0 as nat),
{
    let rendered = chars_of(&now.render());
    proof {
        crate::time::lemma_time_len(now.0 as nat);
    }
    let mut r = String::new();
    let mut i: usize = 0;
    while i < 19
        invariant
            i <= 19,
            rendered@.len() >= 19,
            r@ == hyphenated(rendered@.take(i as int)),
        decreases 19 - i,
    {
        let ghost before = r@;
        if rendered[i] == ':' {
            r.push('-');
        } else {
            r.push(rendered[i]);
        }
        i = i + 1;
        assert(r@ =~= hyphenated(rendered@.take(i as int)));
    }
    r.push('Z');
    assert(r@ =~= stamp_text(now.0 as nat));
    r
}

/// The segment IRI: `urn:log:{instance}:{YYYY-MM-DDTHH-MM-SSZ}`.
pub open spec fn segment_name(instance: Seq<char>, stamp: Seq<char>) -> Seq<char> {
    "urn:log:"@ + unprefixed(instance, INSTANCE_NS@) + seq![':'] + stamp
}

/// The segment IRI: `urn:log:{instance}:{YYYY-MM-DDTHH-MM-SSZ}`.
///
/// The instant is part of the name because the name is the named graph, and a
/// union over a machine's segments has to keep two runs of one instance apart.
/// The stamp is passed in rather than derived so that a rotation which had to
/// disambiguate a file name uses the same token in both places.
pub fn segment_iri(instance: &str, stamp: &str) -> (r: String)
    ensures
        r@ == segment_name(instance@, stamp@),
{
    let mut r = joined("urn:log:", &without_prefix(instance, INSTANCE_NS));
    r.push(':');
    r.append(stamp);
    assert(r@ =~= segment_name(instance@, stamp@));
    r
}

/// Whether `c` may stand in a file name as it is.
pub open spec fn slug_char(c: char) -> bool {
    crate::text::is_letter(c) || crate::text::is_digit(c) || c == '-' || c == '_' || c == '.'
}

/// An instance name as a file-name component: whatever may not stand in one is a
/// hyphen.
pub open spec fn slug_text(name: Seq<char>) -> Seq<char> {
    name.map_values(
        |c: char|
            if slug_char(c) {
                c
            } else {
                '-'
            },
    )
}

/// An instance name as a file-name component.
pub fn slug(name: &str) -> (r: String)
    ensures
        r@ == slug_text(name@),
{
    let c = chars_of(name);
    let mut r = String::new();
    let mut i: usize = 0;
    assert(slug_text(c@.take(0)) =~= Seq::empty());
    while i < c.len()
        invariant
            i <= c.len(),
            r@ == slug_text(c@.take(i as int)),
        decreases c.len() - i,
    {
        let k = c[i];
        if ('a' <= k && k <= 'z') || ('A' <= k && k <= 'Z') || ('0' <= k && k <= '9') || k == '-'
            || k == '_' || k == '.' {
            r.push(k);
        } else {
            r.push('-');
        }
        i = i + 1;
        assert(r@ =~= slug_text(c@.take(i as int)));
    }
    assert(c@.take(i as int) =~= c@);
    r
}

/// The bare instance name behind an instance IRI: what a file is named after.
pub fn instance_name_of(instance: &str) -> (r: String)
    ensures
        r@ == unprefixed(instance@, INSTANCE_NS@),
{
    without_prefix(instance, INSTANCE_NS)
}

// =====================================================================================
// The state of a segment being written
// =====================================================================================

/// What a segment is opened with, beyond its configuration.
///
/// Separate from [`LogConfig`] because none of it is configuration: a signer is a
/// live object holding a key seam, and `prev` is a fact about the chain rather than
/// a setting.
#[derive(Debug)]
pub struct WriterOptions<G> {
    /// When a checkpoint lands.
    pub seals: SealPolicy,
    /// When the segment rolls over.
    pub rotation: RotationPolicy,
    /// What this segment chains from. `None` is `genesis` on a sink that the caller
    /// supplies: there is no directory to look for a predecessor in.
    pub prev: Option<Prev>,
    /// What signs a seal, if anything does.
    pub signer: Option<G>,
}

impl<G> Default for WriterOptions<G> {
    fn default() -> (r: WriterOptions<G>)
        ensures
            r == (WriterOptions {
                seals: SealPolicy { every_entries: 1_000, every_millis: 60_000 },
                rotation: RotationPolicy {
                    max_entries: Some(100_000),
                    max_age_millis: Some(86_400_000),
                },
                prev: None,
                signer: None::<G>,
            }),
    {
        WriterOptions {
            seals: SealPolicy::default(),
            rotation: RotationPolicy::default(),
            prev: None,
            signer: None,
        }
    }
}

/// What is known of a segment being written: its header, the lines its sink has taken and
/// how many of them are flushed, whether that sink never refuses one, how far the segment
/// is written and sealed, and the policies it runs under.
#[verifier::ext_equal]
pub struct WriterView {
    pub header: HeaderView,
    pub rank: int,
    pub vocabulary: VocabularyView,
    pub lines: Seq<Seq<char>>,
    pub flushed: nat,
    pub reliable: bool,
    pub seq: nat,
    pub chain: Seq<char>,
    pub sealed_through: nat,
    pub sealed_head: Seq<char>,
    pub last_seal_at: nat,
    pub opened_at: nat,
    pub seals: SealPolicy,
    pub rotation: RotationPolicy,
    pub path: Option<Seq<char>>,
    pub configured_instance: Option<Seq<char>>,
}

/// An entry as it is written: with its sequence number first.
pub open spec fn numbered(e: EntryView, seq: nat) -> EntryView {
    EntryView { fields: seq![("seq"@, decimal(seq))] + e.fields, ..e }
}

/// The line that the next entry would be written as.
pub open spec fn next_line(w: WriterView, e: EntryView) -> Result<Seq<char>, RenderErrorView> {
    entry_text(numbered(e, w.seq + 1), w.header.prefixes)
}

/// A segment with every line flushed that its sink has taken.
pub open spec fn flushed_out(w: WriterView) -> WriterView {
    WriterView { flushed: w.lines.len(), ..w }
}

/// A segment whose sink has taken one more line, which is neither flushed nor accounted
/// for.
pub open spec fn handed(w: WriterView, line: Seq<char>) -> WriterView {
    WriterView { lines: w.lines.push(line), ..w }
}

/// A segment with one more entry, written as `line` and flushed.
pub open spec fn with_entry(w: WriterView, line: Seq<char>) -> WriterView {
    WriterView {
        lines: w.lines.push(line),
        flushed: w.lines.len() + 1,
        seq: w.seq + 1,
        chain: chain_step(w.chain, line),
        ..w
    }
}

/// The seal that commits what has been written since the last one.
pub open spec fn next_seal(w: WriterView, signature: Option<Seq<char>>) -> SealView {
    seal_over(w.sealed_through, w.seq, w.chain, signature)
}

/// A segment with everything in it sealed at the instant `now`.
pub open spec fn with_seal(w: WriterView, now: nat, signature: Option<Seq<char>>) -> WriterView {
    WriterView {
        lines: w.lines.push(seal_text(next_seal(w, signature))),
        flushed: w.lines.len() + 1,
        sealed_through: w.seq,
        sealed_head: w.chain,
        last_seal_at: now,
        ..w
    }
}

/// Whether `signature` is what the signer gives for the chain hash `hash`.
pub open spec fn signs<G: SealSigner>(
    signer: Option<G>,
    hash: Seq<char>,
    signature: Option<Seq<char>>,
) -> bool {
    exists|head: &str| head@ == hash && #[trigger] is_signed(signer, head, signature)
}

/// Whether `e` reports a failure of the sink behind `w`, which is one that can fail.
pub open spec fn sink_failed(w: WriterView, e: WriteErrorView) -> bool {
    !w.reliable && (e matches WriteErrorView::Io { path, .. } && path == w.path)
}

/// Whether a segment owes a seal at the instant `now`.
pub open spec fn due_for_seal(w: WriterView, now: nat) -> bool {
    owes_seal(w.seals, w.seq, w.sealed_through, now, w.last_seal_at)
}

/// What an attempt to seal leaves behind. There is nothing to do where everything is
/// sealed; otherwise the seal line lands, is flushed and is accounted for, or the sink
/// failed and nothing but its lines can have changed.
pub open spec fn sealing<G: SealSigner>(
    signer: Option<G>,
    w: WriterView,
    now: nat,
    after: WriterView,
    r: Result<Option<SealView>, WriteErrorView>,
) -> bool {
    if w.seq <= w.sealed_through {
        r == Ok::<Option<SealView>, WriteErrorView>(None) && after == w
    } else {
        match r {
            Ok(None) => false,
            Ok(Some(s)) => s == next_seal(w, s.signature) && signs(signer, w.chain, s.signature)
                && after == with_seal(w, now, s.signature),
            Err(e) => sink_failed(w, e) && (after == w || exists|signature: Option<Seq<char>>|
                #[trigger]
                signs(signer, w.chain, signature) && after == handed(
                    w,
                    seal_text(next_seal(w, signature)),
                )),
        }
    }
}

/// What writing an entry leaves behind.
///
/// A class that the level leaves out writes nothing and takes no number. An entry that
/// cannot be a line is refused. Otherwise the line lands under the next number, is flushed
/// and is folded into the chain, and a seal follows where one is due. Or the sink failed:
/// at the entry, and nothing but its lines can have changed; or at the seal that was due,
/// when the entry had been written and flushed.
pub open spec fn writing<G: SealSigner>(
    signer: Option<G>,
    w: WriterView,
    e: EntryView,
    after: WriterView,
    r: Result<Option<nat>, WriteErrorView>,
) -> bool {
    if !emitted(w.vocabulary, e.class, w.rank) {
        r == Ok::<Option<nat>, WriteErrorView>(None) && after == w
    } else {
        match next_line(w, e) {
            Err(x) => r == Err::<Option<nat>, WriteErrorView>(WriteErrorView::Render(x)) && after
                == w,
            Ok(line) => {
                let entered = with_entry(w, line);
                match r {
                    Ok(n) => n == Some(w.seq + 1) && if due_for_seal(entered, e.time) {
                        exists|s: Option<SealView>| #[trigger]
                            sealing(signer, entered, e.time, after, Ok(s))
                    } else {
                        after == entered
                    },
                    Err(x) => sink_failed(w, x) && (after == w || after == handed(w, line) || (
                    due_for_seal(entered, e.time) && sealing(
                        signer,
                        entered,
                        e.time,
                        after,
                        Err(x),
                    ))),
                }
            },
        }
    }
}

/// What ending a segment leaves behind: the marker is written, then everything is sealed,
/// then everything is flushed.
pub open spec fn ending<G: SealSigner>(
    signer: Option<G>,
    w: WriterView,
    marker: EntryView,
    now: nat,
    after: WriterView,
    r: Result<(), WriteErrorView>,
) -> bool {
    match r {
        Ok(_) => exists|marked: WriterView, n: Option<nat>, done: WriterView, s: Option<SealView>|
            #[trigger] writing(signer, w, marker, marked, Ok(n)) && #[trigger] sealing(
                signer,
                marked,
                now,
                done,
                Ok(s),
            ) && after == flushed_out(done),
        Err(e) => {
            ||| writing(signer, w, marker, after, Err(e))
            ||| exists|marked: WriterView, n: Option<nat>| #[trigger]
                writing(signer, w, marker, marked, Ok(n)) && sealing(
                    signer,
                    marked,
                    now,
                    after,
                    Err(e),
                )
            ||| exists|marked: WriterView, n: Option<nat>, s: Option<SealView>| #[trigger]
                writing(signer, w, marker, marked, Ok(n)) && #[trigger] sealing(
                    signer,
                    marked,
                    now,
                    after,
                    Ok(s),
                ) && sink_failed(w, e)
        },
    }
}

// =====================================================================================
// Opening
// =====================================================================================

/// The prefixes every segment binds.
pub open spec fn segment_prefixes() -> Seq<(Seq<char>, Seq<char>)> {
    stored(stored(Seq::empty(), "log"@, LOG_NS@), "prov"@, PROV_NS@)
}

/// Everything that decides how a segment opens, but for its sink and its signer.
#[verifier::ext_equal]
pub struct Opening {
    pub config: ConfigView,
    pub vocabulary: VocabularyView,
    pub now: nat,
    pub path: Option<Seq<char>>,
    pub name: Option<Seq<char>>,
    pub seals: SealPolicy,
    pub rotation: RotationPolicy,
    pub prev: Option<PrevView>,
    pub stamp: Option<Seq<char>>,
    pub process: Option<u32>,
}

/// The instance a segment is attributed to: the name that was claimed for it, or else the
/// one that was configured.
pub open spec fn effective_instance(config: ConfigView, name: Option<Seq<char>>) -> Seq<char> {
    match name {
        Some(name) => instance_of(name),
        None => config.instance,
    }
}

/// The header of a segment.
pub open spec fn opening_header(o: Opening) -> HeaderView {
    let instance = effective_instance(o.config, o.name);
    HeaderView {
        version: FORMAT_VERSION as nat,
        prefixes: segment_prefixes(),
        name: segment_name(
            instance,
            match o.stamp {
                Some(s) => s,
                None => stamp_text(o.now),
            },
        ),
        instance,
        level: o.config.level,
        started: o.now,
        prev: match o.prev {
            Some(p) => p,
            None => PrevView::Genesis,
        },
    }
}

/// The instance that was asked for, where the segment runs under another one.
pub open spec fn renamed_from(o: Opening) -> Option<Seq<char>> {
    if effective_instance(o.config, o.name) != o.config.instance {
        Some(o.config.instance)
    } else {
        None
    }
}

/// The lines a header is written as: those of its text, and an empty one.
pub open spec fn header_lines(text: Seq<char>) -> Seq<Seq<char>> {
    text_lines(text).push(Seq::empty())
}

/// A segment whose header has landed, as the last of `lines`, and that holds nothing yet,
/// on a sink that is `reliable` or not.
pub open spec fn opened(
    o: Opening,
    rank: int,
    lines: Seq<Seq<char>>,
    reliable: bool,
) -> WriterView {
    let header = opening_header(o);
    WriterView {
        header,
        rank,
        vocabulary: o.vocabulary,
        lines,
        flushed: lines.len(),
        reliable,
        seq: 0,
        chain: chain_start(header),
        sealed_through: 0,
        sealed_head: chain_start(header),
        last_seal_at: o.now,
        opened_at: o.now,
        seals: o.seals,
        rotation: o.rotation,
        path: o.path,
        configured_instance: renamed_from(o),
    }
}

/// The entry that opens a segment: who runs, under which process, and under which name
/// it was asked to run where that is another one.
pub open spec fn start_entry(
    instance: Seq<char>,
    now: nat,
    process: Option<u32>,
    configured: Option<Seq<char>>,
) -> EntryView {
    let pid = match process {
        Some(p) => seq![("pid"@, decimal(p as nat))],
        None => Seq::empty(),
    };
    let asked = match configured {
        Some(c) => seq![("configured"@, c)],
        None => Seq::empty(),
    };
    EntryView { time: now, class: PROCESS_START_CLASS@, subject: instance, fields: pid + asked }
}

/// What opening a segment gives, on a sink that has taken the lines `taken` and is
/// `reliable` or not.
///
/// The level has to be one that the vocabulary ranks, and the header has to render. Then
/// the header lands, and the entry that opens the segment is written as any other is.
pub open spec fn starting<G: SealSigner>(
    o: Opening,
    signer: Option<G>,
    taken: Seq<Seq<char>>,
    reliable: bool,
    r: Result<WriterView, WriteErrorView>,
) -> bool {
    match lookup(o.vocabulary.levels, o.config.level) {
        None => r == Err::<WriterView, WriteErrorView>(
            WriteErrorView::UnknownLevel {
                level: o.config.level,
                known: level_names(o.vocabulary),
            },
        ),
        Some(rank) => match header_text(opening_header(o)) {
            Err(x) => r == Err::<WriterView, WriteErrorView>(WriteErrorView::Render(x)),
            Ok(text) => {
                let w = opened(o, rank as int, taken + header_lines(text), reliable);
                let start = start_entry(w.header.instance, o.now, o.process, renamed_from(o));
                match r {
                    Ok(after) => exists|n: Option<nat>| #[trigger]
                        writing(signer, w, start, after, Ok(n)),
                    Err(x) => sink_failed(w, x) || exists|after: WriterView| #[trigger]
                        writing(signer, w, start, after, Err(x)),
                }
            },
        },
    }
}

/// The levels of a vocabulary, by IRI.
pub open spec fn level_names(v: VocabularyView) -> Seq<Seq<char>> {
    v.levels.map_values(|l: (Seq<char>, i64)| l.0)
}

fn names_of_levels(v: &Vocabulary) -> (r: Vec<String>)
    ensures
        texts(r@) == level_names(v@),
{
    let levels = v.levels();
    let mut r: Vec<String> = Vec::new();
    let mut i: usize = 0;
    while i < levels.len()
        invariant
            i <= levels.len(),
            r.len() == i,
            levels.len() == v@.levels.len(),
            forall|k: int| 0 <= k < levels.len() ==> (#[trigger] levels[k]).0@ == v@.levels[k].0,
            forall|k: int| 0 <= k < i ==> (#[trigger] r[k])@ == v@.levels[k].0,
        decreases levels.len() - i,
    {
        r.push(levels[i].0.to_owned());
        i = i + 1;
    }
    assert(texts(r@) =~= level_names(v@));
    r
}

/// An open segment: its header, its level, and its append point.
///
/// Constructing one is what starts logging.
#[verifier::reject_recursive_types(S)]
#[verifier::reject_recursive_types(G)]
pub struct Writer<S: LineSink, G: SealSigner> {
    header: Header,
    /// The segment level's rank, resolved once, at open.
    rank: i64,
    vocabulary: Arc<Vocabulary>,
    sink: S,
    seq: u64,
    /// The running hash over the header and every entry written so far. In memory
    /// only: a hash per line would wreck `grep`.
    chain: Chain,
    /// The last sequence a `#seal` line has committed. Everything above it is the
    /// unsealed tail.
    sealed_through: u64,
    /// The chain head as of that seal, or the header's until the first one lands. This,
    /// not the running head, is what a successor's `@prev` names: an unsealed entry
    /// is committed to no checkpoint.
    sealed_head: String,
    /// When the last seal landed, or the segment's start until one does.
    last_seal_at: Timestamp,
    /// When the segment was opened, for the rotation age trigger.
    opened_at: Timestamp,
    seals: SealPolicy,
    rotation: RotationPolicy,
    /// What signs a seal, when a host wired one. `None` still chains and seals.
    signer: Option<G>,
    path: Option<String>,
    /// The instance name the config asked for, when it differs from the one in the
    /// header.
    configured_instance: Option<String>,
}

impl<S: LineSink, G: SealSigner> View for Writer<S, G> {
    type V = WriterView;

    closed spec fn view(&self) -> WriterView {
        WriterView {
            header: self.header@,
            rank: self.rank as int,
            vocabulary: (*self.vocabulary)@,
            lines: self.sink.accepted(),
            flushed: self.sink.flushed(),
            reliable: self.sink.reliable(),
            seq: self.seq as nat,
            chain: self.chain@,
            sealed_through: self.sealed_through as nat,
            sealed_head: self.sealed_head@,
            last_seal_at: self.last_seal_at.0 as nat,
            opened_at: self.opened_at.0 as nat,
            seals: self.seals,
            rotation: self.rotation,
            path: maybe(self.path),
            configured_instance: maybe(self.configured_instance),
        }
    }
}

/// What happened, with its texts as characters.
pub open spec fn outcome<T: View>(r: Result<T, WriteError>) -> Result<T::V, WriteErrorView> {
    match r {
        Ok(v) => Ok(v@),
        Err(e) => Err(e@),
    }
}

/// A number that may be missing, as a natural one.
pub open spec fn number(n: Option<u64>) -> Option<nat> {
    match n {
        Some(n) => Some(n as nat),
        None => None,
    }
}

/// What writing reported, in the terms of [`writing`].
pub open spec fn written(r: Result<Option<u64>, WriteError>) -> Result<
    Option<nat>,
    WriteErrorView,
> {
    match r {
        Ok(n) => Ok(number(n)),
        Err(e) => Err(e@),
    }
}

/// What sealing reported, in the terms of [`sealing`].
pub open spec fn sealed(r: Result<Option<Seal>, WriteError>) -> Result<
    Option<SealView>,
    WriteErrorView,
> {
    match r {
        Ok(Some(s)) => Ok(Some(s@)),
        Ok(None) => Ok(None),
        Err(e) => Err(e@),
    }
}

/// What a caller states that a segment chains from.
pub open spec fn stated_prev(p: Option<Prev>) -> Option<PrevView> {
    match p {
        Some(p) => Some(p@),
        None => None,
    }
}

fn opening_entry(
    instance: &str,
    now: Timestamp,
    process: Option<u32>,
    configured: &Option<String>,
) -> (r: Entry)
    ensures
        r@ == start_entry(instance@, now.0 as nat, process, maybe(*configured)),
{
    let mut start = Entry::new(now, PROCESS_START_CLASS, instance);
    match process {
        Some(p) => {
            start = start.with("pid", &decimal_of(p as u64));
        },
        None => {},
    }
    match configured {
        // Two facts, both true: what was asked for and what was written under.
        Some(c) => {
            start = start.with("configured", c);
        },
        None => {},
    }
    assert(start@.fields =~= start_entry(
        instance@,
        now.0 as nat,
        process,
        maybe(*configured),
    ).fields);
    start
}

/// What a writer on the file `path` reports of what its sink reported: its failure, with
/// the file it came from.
pub fn sink_outcome(path: &Option<String>, r: Result<(), String>) -> (o: Result<(), WriteError>)
    ensures
        match r {
            Ok(_) => o is Ok,
            Err(m) => o matches Err(e) && e@ == (WriteErrorView::Io {
                path: maybe(*path),
                message: m@,
            }),
        },
{
    match r {
        Ok(_) => Ok(()),
        Err(message) => Err(WriteError::Io { path: copy_maybe(path), message }),
    }
}

/// Write the lines of a rendered header, and the empty line that sets it off.
fn put_header<S: LineSink>(sink: &mut S, text: &str) -> (r: Result<(), String>)
    ensures
        r is Ok ==> final(sink).accepted() == old(sink).accepted() + header_lines(text@)
            && final(sink).flushed() == final(sink).accepted().len(),
        final(sink).reliable() == old(sink).reliable(),
        old(sink).reliable() ==> r is Ok,
{
    let each = lines_of(&chars_of(text));
    let ghost taken = sink.accepted();
    let ghost all = text_lines(text@);
    let ghost sure = sink.reliable();
    let mut i: usize = 0;
    assert(taken + all.take(0) =~= taken);
    while i < each.len()
        invariant
            i <= each.len(),
            texts(each@) == lines(text@),
            all == text_lines(text@),
            sink.accepted() == taken + all.take(i as int),
            sure == sink.reliable(),
            sure == old(sink).reliable(),
        decreases each.len() - i,
    {
        let line = unended_of(&each[i]);
        proof {
            assert(texts(each@)[i as int] == each@[i as int]@);
            assert(line@ == all[i as int]);
            assert(all.take(i + 1) =~= all.take(i as int).push(all[i as int]));
            assert((taken + all.take(i as int)).push(line@) =~= taken + all.take(i + 1));
        }
        match sink.write_line(&line) {
            Ok(_) => {},
            Err(message) => {
                return Err(message);
            },
        }
        i = i + 1;
    }
    proof {
        assert(texts(each@).len() == each.len());
        assert(all.take(i as int) =~= all);
        reveal_strlit("");
        assert(""@ =~= Seq::<char>::empty());
        assert((taken + all).push(""@) =~= taken + header_lines(text@));
    }
    match sink.write_line("") {
        Ok(_) => {},
        Err(message) => {
            return Err(message);
        },
    }
    sink.flush()
}

impl<S: LineSink, G: SealSigner> Writer<S, G> {
    /// What signs this segment's seals.
    pub closed spec fn signer(&self) -> Option<G> {
        self.signer
    }

    /// Whether the sink never refuses a line.
    pub open spec fn reliable(&self) -> bool {
        self@.reliable
    }

    /// Open a segment writing through a sink the caller supplies, under the policies of
    /// the configuration, unsigned and chained from nothing.
    ///
    /// No directory, no lock: the caller has chosen where the lines go, so nothing here
    /// can arbitrate names for it.
    pub fn open_with_sink(
        config: &LogConfig,
        vocabulary: Arc<Vocabulary>,
        now: Timestamp,
        sink: S,
        process: Option<u32>,
    ) -> (r: Result<Writer<S, G>, WriteError>)
        ensures
            starting(
                Opening {
                    config: config@,
                    vocabulary: (*vocabulary)@,
                    now: now.0 as nat,
                    path: None,
                    name: None,
                    seals: config@.seals,
                    rotation: config@.rotation,
                    prev: None,
                    stamp: None,
                    process,
                },
                None::<G>,
                sink.accepted(),
                sink.reliable(),
                outcome(r),
            ),
            r matches Ok(w) ==> w.signer() is None && (sink.reliable() ==> w.reliable()),
            sink.reliable() ==> (r matches Err(e) ==> !(e is Io)),
    {
        let options = WriterOptions {
            seals: config.seals,
            rotation: config.rotation,
            prev: None,
            signer: None,
        };
        Writer::open_on(config, vocabulary, now, options, sink, None, None, None, process)
    }

    /// [`open_with_sink`](Self::open_with_sink), with the options stated.
    pub fn open_with_sink_and(
        config: &LogConfig,
        vocabulary: Arc<Vocabulary>,
        now: Timestamp,
        sink: S,
        options: WriterOptions<G>,
        process: Option<u32>,
    ) -> (r: Result<Writer<S, G>, WriteError>)
        ensures
            starting(
                Opening {
                    config: config@,
                    vocabulary: (*vocabulary)@,
                    now: now.0 as nat,
                    path: None,
                    name: None,
                    seals: options.seals,
                    rotation: options.rotation,
                    prev: stated_prev(options.prev),
                    stamp: None,
                    process,
                },
                options.signer,
                sink.accepted(),
                sink.reliable(),
                outcome(r),
            ),
            r matches Ok(w) ==> w.signer() == options.signer && (sink.reliable()
                ==> w.reliable()),
            sink.reliable() ==> (r matches Err(e) ==> !(e is Io)),
    {
        Writer::open_on(config, vocabulary, now, options, sink, None, None, None, process)
    }

    /// Open a segment on a sink that stands for a file already reserved: `name` is the
    /// instance name that was claimed for it, `stamp` the token in its file name, and
    /// `process` the process that writes it.
    ///
    /// The IRI and the file name carry the same stamp, which is why a
    /// collision-disambiguated one is passed in rather than recomputed: two spellings of
    /// it would make a segment unresolvable by its own name.
    pub fn open_on(
        config: &LogConfig,
        vocabulary: Arc<Vocabulary>,
        now: Timestamp,
        options: WriterOptions<G>,
        sink: S,
        path: Option<String>,
        name: Option<String>,
        stamp_override: Option<String>,
        process: Option<u32>,
    ) -> (r: Result<Writer<S, G>, WriteError>)
        ensures
            starting(
                Opening {
                    config: config@,
                    vocabulary: (*vocabulary)@,
                    now: now.0 as nat,
                    path: maybe(path),
                    name: maybe(name),
                    seals: options.seals,
                    rotation: options.rotation,
                    prev: stated_prev(options.prev),
                    stamp: maybe(stamp_override),
                    process,
                },
                options.signer,
                sink.accepted(),
                sink.reliable(),
                outcome(r),
            ),
            r matches Ok(w) ==> w.signer() == options.signer && (sink.reliable()
                ==> w.reliable()),
            sink.reliable() ==> (r matches Err(e) ==> !(e is Io)),
    {
        let ghost o = Opening {
            config: config@,
            vocabulary: (*vocabulary)@,
            now: now.0 as nat,
            path: maybe(path),
            name: maybe(name),
            seals: options.seals,
            rotation: options.rotation,
            prev: stated_prev(options.prev),
            stamp: maybe(stamp_override),
            process,
        };
        let ghost taken = sink.accepted();
        let ghost sure = sink.reliable();
        let rank = match vocabulary.rank(&config.level) {
            Some(rank) => rank,
            None => {
                return Err(
                    WriteError::UnknownLevel {
                        level: config.level.clone(),
                        known: names_of_levels(&vocabulary),
                    },
                );
            },
        };
        let instance = match &name {
            Some(name) => instance_iri(name),
            None => config.instance.clone(),
        };
        let configured_instance = if same_text(&instance, &config.instance) {
            None
        } else {
            Some(config.instance.clone())
        };
        let mut prefixes: Prefixes = Table::new();
        prefixes.insert("log".to_owned(), LOG_NS.to_owned());
        prefixes.insert("prov".to_owned(), PROV_NS.to_owned());
        let stamp_text = match stamp_override {
            Some(s) => s,
            None => stamp(now),
        };
        let header = Header {
            version: FORMAT_VERSION,
            prefixes,
            name: segment_iri(&instance, &stamp_text),
            instance,
            level: config.level.clone(),
            started: now,
            prev: match options.prev {
                Some(p) => p,
                None => Prev::Genesis,
            },
        };
        assert(header@ == opening_header(o));
        let rendered = match header.render() {
            Ok(text) => text,
            Err(x) => {
                return Err(WriteError::Render(x));
            },
        };
        let mut to = sink;
        match sink_outcome(&path, put_header(&mut to, &rendered)) {
            Ok(_) => {},
            Err(x) => {
                return Err(x);
            },
        }
        let chain = Chain::open(&header);
        let sealed_head = chain.head().to_owned();
        let start = opening_entry(&header.instance, now, process, &configured_instance);
        let mut writer = Writer {
            header,
            rank,
            vocabulary,
            sink: to,
            seq: 0,
            chain,
            sealed_through: 0,
            sealed_head,
            last_seal_at: now,
            opened_at: now,
            seals: options.seals,
            rotation: options.rotation,
            signer: options.signer,
            path,
            configured_instance,
        };
        let ghost w = writer@;
        assert(w == opened(o, rank as int, taken + header_lines(rendered@), sure));
        // Liveness, and the run boundary a span join is scoped between.
        match writer.write(start) {
            Ok(n) => {
                assert(writing(writer.signer(), w, start@, writer@, Ok(number(n))));
                Ok(writer)
            },
            Err(x) => Err(x),
        }
    }

    /// Hand one line to the sink, and flush it.
    fn append(&mut self, line: &str) -> (r: Result<(), WriteError>)
        ensures
            final(self).signer() == old(self).signer(),
            match r {
                Ok(_) => final(self)@ == flushed_out(handed(old(self)@, line@)),
                Err(e) => sink_failed(old(self)@, e@) && (final(self)@ == old(self)@
                    || final(self)@ == handed(old(self)@, line@)),
            },
    {
        match sink_outcome(&self.path, self.sink.write_line(line)) {
            Ok(_) => {},
            Err(x) => {
                return Err(x);
            },
        }
        let flushed = self.sink.flush();
        sink_outcome(&self.path, flushed)
    }

    /// Append one entry, if this segment's level includes its class.
    ///
    /// Returns the sequence number written, or `None` when the level dial excluded it.
    /// `seq=` goes on the line explicitly and first: a line that has been grepped out
    /// of its file has lost its position, and a seal range names sequences.
    pub fn write(&mut self, entry: Entry) -> (r: Result<Option<u64>, WriteError>)
        requires
            old(self)@.seq < u64::MAX,
        ensures
            writing(old(self).signer(), old(self)@, entry@, final(self)@, written(r)),
            final(self).signer() == old(self).signer(),
            old(self).reliable() ==> final(self).reliable() && (r matches Err(e) ==> e is Render),
    {
        let ghost w = self@;
        let ghost e = entry@;
        if !self.vocabulary.emits(&entry.class, self.rank) {
            return Ok(None);
        }
        let seq = self.seq + 1;
        let time = entry.time;
        let mut stated = entry.fields;
        let mut fields: Vec<(String, String)> = Vec::new();
        fields.push(("seq".to_owned(), decimal_of(seq)));
        let ghost before = stated@;
        fields.append(&mut stated);
        let full = Entry { time, class: entry.class, subject: entry.subject, fields };
        proof {
            assert(full@.fields =~= numbered(e, w.seq + 1).fields);
            assert(full@ == numbered(e, w.seq + 1));
        }
        let line = match full.render(&self.header.prefixes) {
            Ok(line) => line,
            Err(x) => {
                return Err(WriteError::Render(x));
            },
        };
        match self.append(&line) {
            Ok(_) => {},
            Err(x) => {
                return Err(x);
            },
        }
        self.seq = seq;
        // The chain folds in the line as written, the same bytes a verifier will read
        // back.
        self.chain.advance(&line);
        let ghost entered = with_entry(w, line@);
        assert(self@ == entered);
        if seal_due(&self.seals, self.seq, self.sealed_through, time, self.last_seal_at) {
            let s = self.seal(time);
            proof {
                assert(sealing(self.signer(), entered, e.time, self@, sealed(s)));
            }
            match s {
                Ok(_) => {},
                Err(x) => {
                    return Err(x);
                },
            }
        }
        Ok(Some(seq))
    }

    /// Commit everything written since the last checkpoint as a `#seal` line.
    ///
    /// A no-op when there is nothing new: a seal over an empty range would state a hash
    /// already stated and make the range arithmetic wrong.
    pub fn seal(&mut self, now: Timestamp) -> (r: Result<Option<Seal>, WriteError>)
        ensures
            sealing(old(self).signer(), old(self)@, now.0 as nat, final(self)@, sealed(r)),
            final(self).signer() == old(self).signer(),
            old(self).reliable() ==> final(self).reliable() && r is Ok,
    {
        if self.seq <= self.sealed_through {
            return Ok(None);
        }
        let ghost w = self@;
        let signature = signed(&self.signer, self.chain.head());
        let ghost token = maybe(signature);
        assert(signs(self.signer, w.chain, token));
        let seal = seal_with(self.sealed_through, self.seq, self.chain.head(), signature);
        match self.append(&seal.render()) {
            Ok(_) => {},
            Err(x) => {
                return Err(x);
            },
        }
        self.sealed_through = self.seq;
        self.sealed_head = self.chain.head().to_owned();
        self.last_seal_at = now;
        Ok(Some(seal))
    }

    /// The chain head: the last sealed hash, or the header's while nothing is sealed.
    ///
    /// This is what a successor's `@prev` names, and it is deliberately the sealed head
    /// rather than the running one: an unsealed entry is committed to no checkpoint, so
    /// chaining from it would claim a guarantee the file does not carry.
    pub fn head(&self) -> (r: &str)
        ensures
            r@ == self@.sealed_head,
    {
        &self.sealed_head
    }

    /// Whether this segment has met its rotation policy.
    pub fn rotation_due(&self, now: Timestamp) -> (r: bool)
        ensures
            r == rotation_bound(
                self@.rotation,
                self@.seq,
                if now.0 > self@.opened_at {
                    (now.0 - self@.opened_at) as nat
                } else {
                    0
                },
            ),
    {
        self.rotation.due(self.seq, now.as_millis().saturating_sub(self.opened_at.as_millis()))
    }

    /// Whether an entry of this class would be written at this segment's level. One
    /// integer comparison over the vocabulary graph.
    pub fn emits(&self, class_iri: &str) -> (r: bool)
        ensures
            r == emitted(self@.vocabulary, class_iri@, self@.rank),
    {
        self.vocabulary.emits(class_iri, self.rank)
    }

    /// This segment's header.
    pub fn header(&self) -> (r: &Header)
        ensures
            r@ == self@.header,
    {
        &self.header
    }

    /// This segment's IRI: the named graph its entries land in.
    pub fn segment(&self) -> (r: &str)
        ensures
            r@ == self@.header.name,
    {
        &self.header.name
    }

    /// The instance this segment is attributed to, after any disambiguation.
    pub fn instance(&self) -> (r: &str)
        ensures
            r@ == self@.header.instance,
    {
        &self.header.instance
    }

    /// The instance the config asked for, when it is not the one above.
    pub fn configured_instance(&self) -> (r: Option<&str>)
        ensures
            match r {
                Some(c) => self@.configured_instance == Some(c@),
                None => self@.configured_instance is None,
            },
    {
        match &self.configured_instance {
            Some(c) => Some(c.as_str()),
            None => None,
        }
    }

    /// The segment file, for a file destination.
    pub fn path(&self) -> (r: Option<&str>)
        ensures
            match r {
                Some(p) => self@.path == Some(p@),
                None => self@.path is None,
            },
    {
        match &self.path {
            Some(p) => Some(p.as_str()),
            None => None,
        }
    }

    /// The level this segment runs at, as an absolute IRI. One per segment, for its
    /// whole life: a level change takes effect at a segment boundary.
    pub fn level(&self) -> (r: &str)
        ensures
            r@ == self@.header.level,
    {
        &self.header.level
    }

    /// The vocabulary this segment's dial is read from.
    pub fn vocabulary(&self) -> (r: &Arc<Vocabulary>)
        ensures
            (**r)@ == self@.vocabulary,
    {
        &self.vocabulary
    }

    /// How many entries have been written.
    pub fn sequence(&self) -> (r: u64)
        ensures
            r == self@.seq,
    {
        self.seq
    }

    /// The shared ending: land the marker, then seal whatever tail it left.
    ///
    /// The marker is written before the seal so that the seal covers it: a rotation or a
    /// stop that sat outside every checkpoint would be the one entry an attacker could
    /// remove for free, and it is the entry that says the record ends here on purpose.
    fn end_with(&mut self, marker: Entry, now: Timestamp) -> (r: Result<(), WriteError>)
        requires
            old(self)@.seq < u64::MAX,
        ensures
            ending(
                old(self).signer(),
                old(self)@,
                marker@,
                now.0 as nat,
                final(self)@,
                match r {
                    Ok(_) => Ok(()),
                    Err(e) => Err(e@),
                },
            ),
            final(self).signer() == old(self).signer(),
            old(self).reliable() ==> (r matches Err(e) ==> e is Render),
    {
        let ghost w = self@;
        let ghost by = self.signer();
        let ghost m = marker@;
        let n = match self.write(marker) {
            Ok(n) => n,
            Err(x) => {
                return Err(x);
            },
        };
        let ghost marked = self@;
        assert(writing(by, w, m, marked, Ok(number(n))));
        let s = self.seal(now);
        let ghost sealed_state = self@;
        assert(sealing(by, marked, now.0 as nat, self@, sealed(s)));
        match s {
            Ok(_) => {},
            Err(x) => {
                return Err(x);
            },
        }
        assert(self.sink.accepted() == self@.lines);
        let last = self.sink.flush();
        assert(last is Ok ==> self@ == flushed_out(sealed_state));
        assert(last is Err ==> self@ == sealed_state);
        assert(sealed_state.path == w.path);
        sink_outcome(&self.path, last)
    }

    /// What is left of a segment that has ended.
    fn into_closed(self) -> (r: Closed<G>)
        ensures
            r.describes(self@),
            r.signer == self.signer(),
    {
        Closed {
            segment: self.header.name,
            head: self.sealed_head,
            path: self.path,
            signer: self.signer,
            instance: self.header.instance,
        }
    }

    /// Write `log:ProcessStop` and close.
    ///
    /// Nothing writes one when a writer is dropped. A stop marker means an orderly stop,
    /// and that distinction is the whole value of the entry: a segment that ends without
    /// one ended because the process died.
    pub fn close(self, now: Timestamp) -> (r: Result<Closed<G>, WriteError>)
        requires
            self@.seq < u64::MAX,
        ensures
            ended(
                self.signer(),
                self@,
                stop_marker(self@.header.instance, now.0 as nat),
                now.0 as nat,
                r,
            ),
            self.reliable() ==> (r matches Err(e) ==> e is Render),
    {
        let mut w = self;
        let stop = Entry::new(now, PROCESS_STOP_CLASS, &w.header.instance);
        match w.end_with(stop, now) {
            Ok(_) => Ok(w.into_closed()),
            Err(x) => Err(x),
        }
    }

    /// Write `log:Rotation`, seal, and hand the segment over.
    ///
    /// `successor` is written as `next=` so the log can be walked forward without
    /// sorting a directory.
    pub fn rotate_out(self, now: Timestamp, successor: Option<&str>) -> (r: Result<
        Closed<G>,
        WriteError,
    >)
        requires
            self@.seq < u64::MAX,
        ensures
            ended(
                self.signer(),
                self@,
                rotation_marker(
                    self@.header.name,
                    now.0 as nat,
                    match successor {
                        Some(s) => Some(s@),
                        None => None,
                    },
                ),
                now.0 as nat,
                r,
            ),
            self.reliable() ==> (r matches Err(e) ==> e is Render),
    {
        let mut w = self;
        let mut rotation = Entry::new(now, ROTATION_CLASS, &w.header.name);
        match successor {
            Some(successor) => {
                rotation = rotation.with("next", successor);
            },
            None => {},
        }
        assert(rotation@ =~= rotation_marker(
            w@.header.name,
            now.0 as nat,
            match successor {
                Some(s) => Some(s@),
                None => None,
            },
        ));
        match w.end_with(rotation, now) {
            Ok(_) => Ok(w.into_closed()),
            Err(x) => Err(x),
        }
    }
}

/// A segment that has been ended: sealed, and with its chain head settled.
///
/// Handed back rather than dropped, because rotation is a handoff: the chain head
/// becomes the successor's `@prev`, and the signer is still the same signer.
#[derive(Debug)]
pub struct Closed<G> {
    /// The segment that was ended.
    pub segment: String,
    /// Its chain head: what the successor's `@prev` must name.
    pub head: String,
    /// Its file, for a file destination.
    pub path: Option<String>,
    /// The signer it was using, so the successor keeps it.
    pub signer: Option<G>,
    /// The instance name it actually wrote under.
    pub instance: String,
}

impl<G> Closed<G> {
    /// Whether this is what is left of `w`.
    pub open spec fn describes(&self, w: WriterView) -> bool {
        &&& self.segment@ == w.header.name
        &&& self.head@ == w.sealed_head
        &&& maybe(self.path) == w.path
        &&& self.instance@ == w.header.instance
    }
}

/// The entry that ends a process's run in an orderly way.
pub open spec fn stop_marker(instance: Seq<char>, now: nat) -> EntryView {
    EntryView {
        time: now,
        class: PROCESS_STOP_CLASS@,
        subject: instance,
        fields: Seq::empty(),
    }
}

/// The entry that ends a segment in favour of its successor.
pub open spec fn rotation_marker(
    segment: Seq<char>,
    now: nat,
    successor: Option<Seq<char>>,
) -> EntryView {
    EntryView {
        time: now,
        class: ROTATION_CLASS@,
        subject: segment,
        fields: match successor {
            Some(s) => seq![("next"@, s)],
            None => Seq::empty(),
        },
    }
}

/// What ending the segment `w` gives back: what is left of it once it is marked and
/// sealed, or the failure that stopped that.
pub open spec fn ended<G: SealSigner>(
    signer: Option<G>,
    w: WriterView,
    marker: EntryView,
    now: nat,
    r: Result<Closed<G>, WriteError>,
) -> bool {
    match r {
        Ok(c) => c.signer == signer && exists|after: WriterView| #[trigger]
            ending(signer, w, marker, now, after, Ok(())) && c.describes(after),
        Err(e) => exists|after: WriterView| #[trigger]
            ending(signer, w, marker, now, after, Err(e@)),
    }
}

// =====================================================================================
// Files
// =====================================================================================

/// How many stamps to try before giving up. A second holding this many segments is a
/// rotation loop, not a busy log, and it should stop rather than fill a disk quietly.
pub const MAX_STAMP_ATTEMPTS: usize = 100;

/// The identity that a segment file settles.
#[derive(Debug, PartialEq, Eq)]
pub struct Reservation {
    /// The file's name within the log directory.
    pub file: String,
    /// The stamp in that name.
    pub stamp: String,
    /// The segment IRI this file will carry, which is what lets a rotation name its
    /// successor in the entry that precedes it.
    pub iri: String,
}

/// The stamp of the `attempt`th try to name a segment opened at `millis`.
pub open spec fn attempt_stamp(millis: nat, attempt: nat) -> Seq<char> {
    if attempt == 0 {
        stamp_text(millis)
    } else {
        stamp_text(millis) + seq!['-'] + decimal(attempt)
    }
}

/// The file name of a segment.
pub open spec fn file_name(name: Seq<char>, stamp: Seq<char>) -> Seq<char> {
    slug_text(name) + seq!['-'] + stamp + ".log"@
}

/// The file name of a segment.
pub fn segment_file(name: &str, stamp: &str) -> (r: String)
    ensures
        r@ == file_name(name@, stamp@),
{
    let mut r = slug(name);
    r.push('-');
    r.append(stamp);
    r.append(".log");
    assert(r@ =~= file_name(name@, stamp@));
    r
}

/// The name of the file whose lock stands for an instance name.
pub fn lock_file(name: &str) -> (r: String)
    ensures
        r@ == slug_text(name@) + ".lock"@,
{
    let mut r = slug(name);
    r.append(".lock");
    r
}

/// The identity to try next for a segment of the instance `name` opened at `now`, after
/// `attempt` of them turned out to be taken. Nothing is left to try after so many.
///
/// Rotation is second-precision away from a collision: a size trigger on a busy log can
/// roll twice within one second, and refusing to rotate is the worst possible response to
/// "this segment is too big". The suffix keeps the IRI's shape, so the file name is still
/// derived from the IRI.
pub fn reservation(name: &str, now: Timestamp, attempt: usize) -> (r: Option<Reservation>)
    ensures
        match r {
            Some(r) => {
                let stamp = attempt_stamp(now.0 as nat, attempt as nat);
                attempt < MAX_STAMP_ATTEMPTS && r.stamp@ == stamp && r.file@ == file_name(
                    name@,
                    stamp,
                ) && r.iri@ == segment_name(instance_of(name@), stamp)
            },
            None => attempt >= MAX_STAMP_ATTEMPTS,
        },
{
    if attempt >= MAX_STAMP_ATTEMPTS {
        return None;
    }
    let mut stamp = stamp(now);
    if attempt > 0 {
        stamp.push('-');
        stamp.append(&decimal_of(attempt as u64));
    }
    assert(stamp@ =~= attempt_stamp(now.0 as nat, attempt as nat));
    let file = segment_file(name, &stamp);
    let iri = segment_iri(&instance_iri(name), &stamp);
    Some(Reservation { file, stamp, iri })
}

/// No two attempts to name a segment try the same stamp.
pub proof fn law_attempts_differ(millis: nat, a: nat, b: nat)
    requires
        a != b,
    ensures
        attempt_stamp(millis, a) != attempt_stamp(millis, b),
{
    let base = stamp_text(millis);
    lemma_decimal(a);
    lemma_decimal(b);
    if a == 0 {
        assert(attempt_stamp(millis, b).len() > base.len());
    } else if b == 0 {
        assert(attempt_stamp(millis, a).len() > base.len());
    } else if attempt_stamp(millis, a) == attempt_stamp(millis, b) {
        let n = base.len() as int + 1;
        assert(attempt_stamp(millis, a).skip(n) =~= decimal(a));
        assert(attempt_stamp(millis, b).skip(n) =~= decimal(b));
    }
}

} // verus!
