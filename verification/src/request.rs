//! What is asked of the log through its endpoints, and what is answered.
//!
//! Everything here decides over the arguments of a request, as texts, and over the handle.
//! Who may ask is somebody else's to judge.

use vstd::prelude::*;
use vstd::slice::slice_subrange;
use vstd::string::*;

use crate::chain::SealSigner;
use crate::config::{
    debug_of, debug_text, destination_token, level_iri, level_read, Destination,
};
use crate::entry::{
    entry_text, lemma_bad_key, pairs, parse_fields, tail_read, Entry, EntryView,
};
use crate::error::parse_error_text;
use crate::graph::{entry_iri, TURTLE_MEDIA_TYPE};
use crate::handle::{
    handle_writing, has_room_for, sure, HandleView, LogHandle, CONFIG_IRI,
};
use crate::layer::{
    applied, as_patch, config_turtle, empty_patch, patch_text, ConfigView, LogConfig, Patch,
    PatchView,
};
use crate::lineage::emitted;
use crate::lineage_law::law_descends_reflexive;
use crate::number::decimal_of;
use crate::segments::{
    given, stated, stated_argument, ArgumentError, ArgumentErrorView,
};
use crate::text::{
    begins_with, chars_of, joined, maybe, same_text, starts_with, text_of, texts, trim, trimmed,
};
use crate::time::Timestamp;
use crate::token::{iri_like, is_iri, key_like};
use crate::verify::brackets;
use crate::vocabulary::{
    VocabularyView, CONFIG_CHANGE_CLASS, LEVEL_CHANGE_CLASS, LEVEL_CHANGE_REJECTED_CLASS, LOG_NS,
    MESSAGE_CLASS,
};
use crate::writer::{
    listed, number, numbered, written, LineSink, WriteError, WriteErrorView, WriterView,
};
use crate::writer_law::{
    law_numbers_are_dense, law_reliable_sink_refuses_nothing, law_segment_keeps_its_level,
};

verus! {

/// Appending an entry.
pub const CAP_WRITE: &'static str = "urn:cap:log:write";

/// Reading the log's own state.
pub const CAP_READ: &'static str = "urn:cap:log:read";

/// Changing the log's configuration.
pub const CAP_CONFIG: &'static str = "urn:cap:log:config";

/// The append point.
pub const WRITE_IRI: &'static str = "urn:log:write";

// =====================================================================================
// Appending
// =====================================================================================

/// The class that a token names: a `log:` CURIE expanded, an absolute IRI as it is.
pub open spec fn expanded(token: Seq<char>) -> Option<Seq<char>> {
    let t = trim(token);
    if starts_with(t, "log:"@) {
        if t.len() > 4 {
            Some(LOG_NS@ + t.skip(4))
        } else {
            None
        }
    } else if iri_like(t) {
        Some(t)
    } else {
        None
    }
}

/// Expand a `log:` CURIE, pass an absolute IRI through.
pub fn expand(token: &str) -> (r: Option<String>)
    ensures
        maybe(r) == expanded(token@),
{
    let c = chars_of(token);
    let t = trimmed(&c);
    proof {
        reveal_strlit("log:");
    }
    if begins_with(t, &chars_of("log:")) {
        if t.len() > 4 {
            let local = slice_subrange(t, 4, t.len());
            assert(local@ =~= t@.skip(4));
            return Some(joined(LOG_NS, &text_of(local)));
        }
        return None;
    }
    let token = text_of(t);
    if is_iri(&token) {
        Some(token)
    } else {
        None
    }
}

/// What a request to append an entry states.
#[derive(Debug)]
pub struct WriteArguments<'a> {
    /// The entry class, as a `log:` CURIE or an absolute IRI.
    pub class: Option<&'a str>,
    /// What the entry is about, as an absolute IRI.
    pub subject: Option<&'a str>,
    /// Prose.
    pub msg: Option<&'a str>,
    /// Piped content, which stands in for the prose.
    pub content: Option<&'a str>,
    /// The typed columns, in a line's own tail syntax.
    pub fields: Option<&'a str>,
}

/// The class that is asked for. A bare message is a `log:Message`.
pub open spec fn asked_class(arg: Option<Seq<char>>) -> Result<Seq<char>, ArgumentErrorView> {
    match stated(arg) {
        None => Ok(MESSAGE_CLASS@),
        Some(token) => match expanded(token) {
            Some(class) => Ok(class),
            None => Err(
                ArgumentErrorView {
                    name: "class"@,
                    detail: "expected a log: CURIE or an absolute IRI, got "@ + debug_text(token),
                },
            ),
        },
    }
}

/// The subject that is asked for. An entry with no stated subject is about the process
/// that wrote it.
pub open spec fn asked_subject(arg: Option<Seq<char>>, instance: Seq<char>) -> Result<
    Seq<char>,
    ArgumentErrorView,
> {
    match stated(arg) {
        None => Ok(instance),
        Some(iri) => if iri_like(iri) {
            Ok(iri)
        } else {
            Err(
                ArgumentErrorView {
                    name: "subject"@,
                    detail: "expected an absolute IRI, got "@ + debug_text(iri),
                },
            )
        },
    }
}

/// The fields that are asked for: a line's tail, read by the code that reads it back out
/// of a file.
pub open spec fn asked_fields(arg: Option<Seq<char>>) -> Result<
    Seq<(Seq<char>, Seq<char>)>,
    ArgumentErrorView,
> {
    match stated(arg) {
        None => Ok(Seq::empty()),
        Some(tail) => match tail_read(tail) {
            Ok(fields) => Ok(fields),
            Err(e) => Err(ArgumentErrorView { name: "fields"@, detail: parse_error_text(e) }),
        },
    }
}

/// The prose that is asked for: the message, or else what was piped.
pub open spec fn asked_prose(msg: Option<Seq<char>>, content: Option<Seq<char>>) -> Seq<
    (Seq<char>, Seq<char>),
> {
    match (stated(msg), stated(content)) {
        (Some(prose), _) => seq![("msg"@, prose)],
        (None, Some(prose)) => seq![("msg"@, prose)],
        (None, None) => Seq::empty(),
    }
}

/// The entry that is asked for, or the first argument that cannot be used.
pub open spec fn asked_entry(a: WriteArguments<'_>, now: nat, instance: Seq<char>) -> Result<
    EntryView,
    ArgumentErrorView,
> {
    match asked_class(given(a.class)) {
        Err(e) => Err(e),
        Ok(class) => match asked_subject(given(a.subject), instance) {
            Err(e) => Err(e),
            Ok(subject) => match asked_fields(given(a.fields)) {
                Err(e) => Err(e),
                Ok(fields) => Ok(
                    EntryView {
                        time: now,
                        class,
                        subject,
                        fields: asked_prose(given(a.msg), given(a.content)) + fields,
                    },
                ),
            },
        },
    }
}

fn class_argument(arg: Option<&str>) -> (r: Result<String, ArgumentError>)
    ensures
        match r {
            Ok(class) => asked_class(given(arg)) == Ok::<_, ArgumentErrorView>(class@),
            Err(e) => asked_class(given(arg)) == Err::<Seq<char>, _>(e@),
        },
{
    match stated_argument(arg) {
        None => Ok(MESSAGE_CLASS.to_owned()),
        Some(token) => match expand(&token) {
            Some(class) => Ok(class),
            None => Err(
                ArgumentError {
                    name: "class".to_owned(),
                    detail: joined(
                        "expected a log: CURIE or an absolute IRI, got ",
                        &debug_of(&token),
                    ),
                },
            ),
        },
    }
}

fn subject_argument(arg: Option<&str>, instance: &str) -> (r: Result<String, ArgumentError>)
    ensures
        match r {
            Ok(s) => asked_subject(given(arg), instance@) == Ok::<_, ArgumentErrorView>(s@),
            Err(e) => asked_subject(given(arg), instance@) == Err::<Seq<char>, _>(e@),
        },
{
    match stated_argument(arg) {
        None => Ok(instance.to_owned()),
        Some(iri) => if is_iri(&iri) {
            Ok(iri)
        } else {
            Err(
                ArgumentError {
                    name: "subject".to_owned(),
                    detail: joined("expected an absolute IRI, got ", &debug_of(&iri)),
                },
            )
        },
    }
}

fn fields_argument(arg: Option<&str>) -> (r: Result<Vec<(String, String)>, ArgumentError>)
    ensures
        match r {
            Ok(fields) => asked_fields(given(arg)) == Ok::<_, ArgumentErrorView>(pairs(fields@)),
            Err(e) => asked_fields(given(arg)) == Err::<Seq<(Seq<char>, Seq<char>)>, _>(e@),
        },
{
    match stated_argument(arg) {
        None => {
            let none: Vec<(String, String)> = Vec::new();
            assert(pairs(none@) =~= Seq::empty());
            Ok(none)
        },
        Some(tail) => match parse_fields(&tail) {
            Ok(fields) => Ok(fields),
            Err(e) => Err(ArgumentError { name: "fields".to_owned(), detail: e.message() }),
        },
    }
}

/// The entry that a request asks for, stamped `now`, about `instance` where it states no
/// subject.
pub fn requested_entry(a: &WriteArguments, now: Timestamp, instance: &str) -> (r: Result<
    Entry,
    ArgumentError,
>)
    ensures
        match r {
            Ok(e) => asked_entry(*a, now.0 as nat, instance@) == Ok::<_, ArgumentErrorView>(e@),
            Err(e) => asked_entry(*a, now.0 as nat, instance@) == Err::<EntryView, _>(e@),
        },
{
    let class = match class_argument(a.class) {
        Ok(class) => class,
        Err(e) => {
            return Err(e);
        },
    };
    let subject = match subject_argument(a.subject, instance) {
        Ok(subject) => subject,
        Err(e) => {
            return Err(e);
        },
    };
    let mut tail = match fields_argument(a.fields) {
        Ok(fields) => fields,
        Err(e) => {
            return Err(e);
        },
    };
    let ghost stated_fields = pairs(tail@);
    let prose = match stated_argument(a.msg) {
        Some(prose) => Some(prose),
        None => stated_argument(a.content),
    };
    let mut fields: Vec<(String, String)> = Vec::new();
    match prose {
        Some(prose) => {
            fields.push(("msg".to_owned(), prose));
        },
        None => {},
    }
    assert(pairs(fields@) =~= asked_prose(given(a.msg), given(a.content)));
    let ghost before = fields@;
    let ghost more = tail@;
    fields.append(&mut tail);
    assert(pairs(fields@) =~= pairs(before) + pairs(more));
    Ok(Entry { time: now, class, subject, fields })
}

/// Why a request could not be met.
#[derive(Debug)]
pub enum RequestError {
    /// An argument that cannot be used.
    Argument(ArgumentError),
    /// The entry could not be written.
    Write(WriteError),
}

/// The instance that an entry is about where a request states no subject.
pub open spec fn own_instance(h: HandleView) -> Seq<char> {
    match h.writer {
        Some(w) => w.header.instance,
        None => h.config.instance,
    }
}

/// What is answered where no segment is open. Not a hole: a closed log makes no claims.
pub open spec fn closed_reply(class: Seq<char>) -> Seq<char> {
    "closed: no segment is open, so "@ + class + " was not written"@
}

/// What is answered where the level leaves a class out.
pub open spec fn filtered_reply(class: Seq<char>, level: Seq<char>) -> Seq<char> {
    "filtered: "@ + class + " is below this segment's level ("@ + level + ")"@
}

/// What is answered where a segment is open: the IRI of the entry that landed, or that the
/// level left it out.
pub open spec fn answered<G: SealSigner>(
    signer: Option<G>,
    w: WriterView,
    e: EntryView,
    after: Option<WriterView>,
    level: Seq<char>,
    text: Seq<char>,
) -> bool {
    exists|n: Option<nat>| #[trigger]
        handle_writing(signer, Some(w), e, after, Ok(n)) && text == (match n {
            Some(seq) => entry_iri(w.header.name, seq),
            None => filtered_reply(e.class, level),
        })
}

/// Append the entry that a request asks for to the open segment, and answer with its IRI.
///
/// A host that believes it is logging and is not should find out from the first write and
/// not from an empty directory next week, so a closed log says so.
pub fn append<S: LineSink, G: SealSigner>(
    handle: &mut LogHandle<S, G>,
    now: Timestamp,
    a: &WriteArguments,
) -> (r: Result<String, RequestError>)
    requires
        crate::handle::has_room(old(handle)@.writer),
    ensures
        final(handle)@ == (HandleView { writer: final(handle)@.writer, ..old(handle)@ }),
        final(handle).signer() == old(handle).signer(),
        old(handle).reliable() ==> final(handle).reliable() && (r matches Err(
            RequestError::Write(e),
        ) ==> e is Render),
        match asked_entry(*a, now.0 as nat, own_instance(old(handle)@)) {
            Err(e) => final(handle)@ == old(handle)@ && (r matches Err(RequestError::Argument(x))
                && x@ == e),
            Ok(e) => match old(handle)@.writer {
                None => final(handle)@ == old(handle)@ && (r matches Ok(text) && text@
                    == closed_reply(e.class)),
                Some(w) => match r {
                    Err(RequestError::Argument(_)) => false,
                    Err(RequestError::Write(x)) => handle_writing(
                        old(handle).signer(),
                        Some(w),
                        e,
                        final(handle)@.writer,
                        Err(x@),
                    ),
                    Ok(text) => answered(
                        old(handle).signer(),
                        w,
                        e,
                        final(handle)@.writer,
                        old(handle)@.config.level,
                        text@,
                    ),
                },
            },
        },
{
    let instance = match handle.open_segment() {
        Some((_, instance)) => instance,
        None => handle.config().instance.clone(),
    };
    let entry = match requested_entry(a, now, &instance) {
        Ok(entry) => entry,
        Err(e) => {
            return Err(RequestError::Argument(e));
        },
    };
    let class = entry.class.clone();
    if !handle.is_open() {
        let mut text = joined("closed: no segment is open, so ", &class);
        text.append(" was not written");
        return Ok(text);
    }
    let ghost w = old(handle)@.writer->Some_0;
    let ghost e = entry@;
    match handle.write(entry) {
        Err(x) => Err(RequestError::Write(x)),
        Ok(n) => {
            proof {
                assert(handle_writing(
                    old(handle).signer(),
                    Some(w),
                    e,
                    handle@.writer,
                    Ok(number(n)),
                ));
            }
            let text = match n {
                Some(seq) => {
                    assert(handle@.writer->Some_0.header == w.header);
                    match handle.entry_iri(seq) {
                        Some(iri) => iri,
                        None => decimal_of(seq),
                    }
                },
                None => {
                    let mut text = joined("filtered: ", &class);
                    text.append(" is below this segment's level (");
                    text.append(&handle.config().level);
                    text.append(")");
                    text
                },
            };
            assert(answered(
                old(handle).signer(),
                w,
                e,
                handle@.writer,
                old(handle)@.config.level,
                text@,
            ));
            Ok(text)
        },
    }
}

// =====================================================================================
// Reading the configuration
// =====================================================================================

/// How the configuration is served.
#[derive(Clone, Copy, Debug, PartialEq, Eq, Structural)]
pub enum ConfigFace {
    /// As a config file.
    Toml,
    /// As a graph.
    Graph,
}

/// The face that an `as` argument asks for.
pub open spec fn config_face_of(arg: Option<Seq<char>>) -> Result<ConfigFace, ArgumentErrorView> {
    match stated(arg) {
        None => Ok(ConfigFace::Toml),
        Some(s) => if s == TURTLE_MEDIA_TYPE@ {
            Ok(ConfigFace::Graph)
        } else if starts_with(s, "text/plain"@) {
            Ok(ConfigFace::Toml)
        } else {
            Err(
                ArgumentErrorView {
                    name: "as"@,
                    detail: "expected one of text/plain;charset=utf-8|text/turtle, got "@
                        + debug_text(s),
                },
            )
        },
    }
}

/// The face that an `as` argument asks for.
pub fn config_face(arg: Option<&str>) -> (r: Result<ConfigFace, ArgumentError>)
    ensures
        match r {
            Ok(f) => config_face_of(given(arg)) == Ok::<_, ArgumentErrorView>(f),
            Err(e) => config_face_of(given(arg)) == Err::<ConfigFace, _>(e@),
        },
{
    match stated_argument(arg) {
        None => Ok(ConfigFace::Toml),
        Some(s) => if same_text(&s, TURTLE_MEDIA_TYPE) {
            Ok(ConfigFace::Graph)
        } else if begins_with(&chars_of(&s), &chars_of("text/plain")) {
            Ok(ConfigFace::Toml)
        } else {
            Err(
                ArgumentError {
                    name: "as".to_owned(),
                    detail: joined(
                        "expected one of text/plain;charset=utf-8|text/turtle, got ",
                        &debug_of(&s),
                    ),
                },
            )
        },
    }
}

/// The layers that contributed, as comments.
pub open spec fn layer_comments(layers: Seq<Seq<char>>) -> Seq<char>
    decreases layers.len(),
{
    if layers.len() == 0 {
        Seq::empty()
    } else {
        layer_comments(layers.drop_last()) + "# layer = "@ + layers.last() + seq!['\n']
    }
}

/// The state of the log as comments, which a parser ignores and a person reads:
/// `destination = "file"` in a process whose host never opened a writer means nothing is
/// being logged, and that is not in the config.
pub open spec fn state_comments(w: Option<WriterView>) -> Seq<char> {
    match w {
        Some(w) => "\n# open = true\n# segment = "@ + w.header.name + "\n# instance = "@
            + w.header.instance + "\n"@,
        None => "\n# open = false\n"@,
    }
}

/// What the configuration is served as.
pub open spec fn config_body(h: HandleView, face: ConfigFace) -> Seq<char> {
    match face {
        ConfigFace::Graph => config_turtle(
            h.config,
            CONFIG_IRI@,
            match h.writer {
                Some(w) => Some((w.header.name, w.header.instance)),
                None => None,
            },
        ),
        ConfigFace::Toml => patch_text(as_patch(h.config)) + state_comments(h.writer)
            + layer_comments(h.config.layers),
    }
}

/// The effective configuration, and whether a segment is open.
///
/// The keys come first, so the face reads as a config file, then the live state.
pub fn serve_config<S: LineSink, G: SealSigner>(
    handle: &LogHandle<S, G>,
    face: ConfigFace,
) -> (r: String)
    ensures
        r@ == config_body(handle@, face),
{
    let open = handle.open_segment();
    let config = handle.config();
    match face {
        ConfigFace::Graph => match &open {
            Some((segment, instance)) => config.to_turtle(
                CONFIG_IRI,
                Some((segment.as_str(), instance.as_str())),
            ),
            None => config.to_turtle(CONFIG_IRI, None),
        },
        ConfigFace::Toml => {
            let mut body = config.to_toml();
            match &open {
                Some((segment, instance)) => {
                    let ghost start = body@;
                    body.append("\n# open = true\n# segment = ");
                    body.append(segment);
                    body.append("\n# instance = ");
                    body.append(instance);
                    body.append("\n");
                    assert(body@ =~= start + state_comments(handle@.writer));
                },
                None => {
                    body.append("\n# open = false\n");
                },
            }
            let ghost start = body@;
            let ghost all = texts(config.layers@);
            let mut i: usize = 0;
            proof {
                assert(all.take(0) =~= Seq::empty());
                assert(start + layer_comments(all.take(0)) =~= start);
            }
            while i < config.layers.len()
                invariant
                    i <= config.layers.len(),
                    all == texts(config.layers@),
                    body@ == start + layer_comments(all.take(i as int)),
                decreases config.layers.len() - i,
            {
                let ghost before = body@;
                proof {
                    assert(all.take(i + 1).drop_last() =~= all.take(i as int));
                    assert(all.take(i + 1).last() == config.layers@[i as int]@);
                }
                body.append("# layer = ");
                body.append(&config.layers[i]);
                body.append("\n");
                proof {
                    reveal_strlit("\n");
                    assert("\n"@ =~= seq!['\n']);
                    assert(body@ =~= start + layer_comments(all.take(i + 1)));
                }
                i = i + 1;
            }
            assert(all.take(i as int) =~= all);
            body
        },
    }
}

// =====================================================================================
// Changing the configuration
// =====================================================================================

/// Why a change of the configuration is refused.
#[derive(Debug, PartialEq, Eq)]
pub enum ChangeError {
    /// The level is none. The rejection itself is worth recording.
    Level(String),
    /// An argument that cannot be used.
    Argument(ArgumentError),
    /// Nothing is asked for.
    Missing,
}

/// A [`ChangeError`], with its texts as characters.
#[verifier::ext_equal]
pub enum ChangeErrorView {
    Level(Seq<char>),
    Argument(ArgumentErrorView),
    Missing,
}

impl View for ChangeError {
    type V = ChangeErrorView;

    open spec fn view(&self) -> ChangeErrorView {
        match self {
            ChangeError::Level(s) => ChangeErrorView::Level(s@),
            ChangeError::Argument(e) => ChangeErrorView::Argument(e@),
            ChangeError::Missing => ChangeErrorView::Missing,
        }
    }
}

/// The destination that an argument names.
pub open spec fn asked_destination(arg: Option<Seq<char>>) -> Result<
    Option<Destination>,
    ArgumentErrorView,
> {
    match stated(arg) {
        None => Ok(None),
        Some(s) => if s == destination_token(Destination::Off) {
            Ok(Some(Destination::Off))
        } else if s == destination_token(Destination::Console) {
            Ok(Some(Destination::Console))
        } else if s == destination_token(Destination::File) {
            Ok(Some(Destination::File))
        } else {
            Err(
                ArgumentErrorView {
                    name: "destination"@,
                    detail: "expected off|console|file, got "@ + debug_text(s),
                },
            )
        },
    }
}

/// The change that is asked for, or why it is refused.
pub open spec fn asked_change(
    level: Option<Seq<char>>,
    destination: Option<Seq<char>>,
    directory: Option<Seq<char>>,
    instance: Option<Seq<char>>,
) -> Result<PatchView, ChangeErrorView> {
    if stated(level) matches Some(s) && level_read(s) is None {
        Err(ChangeErrorView::Level(stated(level)->Some_0))
    } else {
        match asked_destination(destination) {
            Err(e) => Err(ChangeErrorView::Argument(e)),
            Ok(destination) => {
                let change = PatchView {
                    level: stated(level),
                    destination,
                    directory: stated(directory),
                    instance: stated(instance),
                    ..empty_patch()
                };
                if change == empty_patch() {
                    Err(ChangeErrorView::Missing)
                } else {
                    Ok(change)
                }
            },
        }
    }
}

fn destination_argument(arg: Option<&str>) -> (r: Result<Option<Destination>, ArgumentError>)
    ensures
        match r {
            Ok(d) => asked_destination(given(arg)) == Ok::<_, ArgumentErrorView>(d),
            Err(e) => asked_destination(given(arg)) == Err::<Option<Destination>, _>(e@),
        },
{
    proof {
        reveal_strlit("off");
        reveal_strlit("console");
        reveal_strlit("file");
        assert("off"@.len() == 3 && "console"@.len() == 7 && "file"@.len() == 4);
    }
    match stated_argument(arg) {
        None => Ok(None),
        Some(s) => match Destination::parse(&s) {
            Some(d) => Ok(Some(d)),
            None => {
                assert(s@ != destination_token(Destination::Off));
                assert(s@ != destination_token(Destination::Console));
                assert(s@ != destination_token(Destination::File));
                Err(
                    ArgumentError {
                        name: "destination".to_owned(),
                        detail: joined("expected off|console|file, got ", &debug_of(&s)),
                    },
                )
            },
        },
    }
}

/// The change that a request asks for.
pub fn requested_change(
    level: Option<&str>,
    destination: Option<&str>,
    directory: Option<&str>,
    instance: Option<&str>,
) -> (r: Result<Patch, ChangeError>)
    ensures
        match r {
            Ok(p) => asked_change(
                given(level),
                given(destination),
                given(directory),
                given(instance),
            ) == Ok::<_, ChangeErrorView>(p@),
            Err(e) => asked_change(
                given(level),
                given(destination),
                given(directory),
                given(instance),
            ) == Err::<PatchView, _>(e@),
        },
{
    let level = stated_argument(level);
    match &level {
        Some(s) => {
            if level_iri(s).is_none() {
                return Err(ChangeError::Level(s.clone()));
            }
        },
        None => {},
    }
    let destination = match destination_argument(destination) {
        Ok(d) => d,
        Err(e) => {
            return Err(ChangeError::Argument(e));
        },
    };
    let mut change = Patch::default();
    change.level = level;
    change.destination = destination;
    change.directory = stated_argument(directory);
    change.instance = stated_argument(instance);
    if change.is_empty() {
        Err(ChangeError::Missing)
    } else {
        Ok(change)
    }
}

/// The entry that says a level was refused. Under any mode that locks the configuration
/// this is the evidence that a change did not take.
pub open spec fn rejection(level: Seq<char>, now: nat) -> EntryView {
    EntryView {
        time: now,
        class: LEVEL_CHANGE_REJECTED_CLASS@,
        subject: CONFIG_IRI@,
        fields: seq![
            ("to"@, level),
            ("reason"@, "not a level name, a log: CURIE, or an absolute IRI"@),
        ],
    }
}

/// The entry that says a level was refused.
pub fn rejection_entry(level: &str, now: Timestamp) -> (r: Entry)
    ensures
        r@ == rejection(level@, now.0 as nat),
{
    let r = Entry::new(now, LEVEL_CHANGE_REJECTED_CLASS, CONFIG_IRI).with("to", level).with(
        "reason",
        "not a level name, a log: CURIE, or an absolute IRI",
    );
    assert(r@ =~= rejection(level@, now.0 as nat));
    r
}

/// What is answered where a level was refused.
pub fn rejection_error(level: &str) -> (r: ArgumentError)
    ensures
        r@ == (ArgumentErrorView {
            name: "level"@,
            detail: debug_text(level@)
                + " is not a level name, a log: CURIE, or an absolute IRI"@,
        }),
{
    ArgumentError {
        name: "level".to_owned(),
        detail: joined(
            &debug_of(level),
            " is not a level name, a log: CURIE, or an absolute IRI",
        ),
    }
}

/// The entry that says a key of the configuration was changed.
pub open spec fn change_entry(
    class: Seq<char>,
    key: Seq<char>,
    from: Seq<char>,
    to: Seq<char>,
    file: Seq<char>,
    now: nat,
) -> EntryView {
    EntryView {
        time: now,
        class,
        subject: CONFIG_IRI@,
        fields: seq![
            ("key"@, key),
            ("from"@, from),
            ("to"@, to),
            ("effective"@, "next-segment"@),
            ("file"@, file),
        ],
    }
}

/// A directory as it is named in an entry.
pub open spec fn shown_directory(d: Option<Seq<char>>) -> Seq<char> {
    match d {
        Some(d) => d,
        None => "(data home)"@,
    }
}

/// The key under which an entry is recorded, and the entry, where the two values differ.
pub open spec fn change_if(
    differs: bool,
    class: Seq<char>,
    key: Seq<char>,
    from: Seq<char>,
    to: Seq<char>,
    file: Seq<char>,
    now: nat,
) -> Seq<(Seq<char>, EntryView)> {
    if differs {
        seq![(key, change_entry(class, key, from, to, file, now))]
    } else {
        Seq::empty()
    }
}

/// The entries that a change of the configuration lands, by key. One for each key that
/// actually changed: a write that restates a value is not a change, and inventing an entry
/// for it would dilute the ones that are.
pub open spec fn changes(
    before: ConfigView,
    after: ConfigView,
    file: Seq<char>,
    now: nat,
) -> Seq<(Seq<char>, EntryView)> {
    change_if(
        after.level != before.level,
        LEVEL_CHANGE_CLASS@,
        "level"@,
        before.level,
        after.level,
        file,
        now,
    ) + change_if(
        after.destination != before.destination,
        CONFIG_CHANGE_CLASS@,
        "destination"@,
        destination_token(before.destination),
        destination_token(after.destination),
        file,
        now,
    ) + change_if(
        after.directory != before.directory,
        CONFIG_CHANGE_CLASS@,
        "directory"@,
        shown_directory(before.directory),
        shown_directory(after.directory),
        file,
        now,
    ) + change_if(
        after.instance != before.instance,
        CONFIG_CHANGE_CLASS@,
        "instance"@,
        before.instance,
        after.instance,
        file,
        now,
    )
}

/// A key of the configuration that was changed.
#[derive(Debug)]
pub struct Change {
    /// The key.
    pub key: String,
    /// The entry that says so.
    pub entry: Entry,
}

/// Changes, with their texts as characters.
pub open spec fn changes_view(v: Seq<Change>) -> Seq<(Seq<char>, EntryView)> {
    v.map_values(|c: Change| (c.key@, c.entry@))
}

fn add_change(
    out: &mut Vec<Change>,
    class: &str,
    key: &str,
    from: &str,
    to: &str,
    file: &str,
    now: Timestamp,
)
    ensures
        changes_view(final(out)@) == changes_view(old(out)@) + change_if(
            true,
            class@,
            key@,
            from@,
            to@,
            file@,
            now.0 as nat,
        ),
        final(out).len() == old(out).len() + 1,
{
    let ghost before = out@;
    let entry = Entry::new(now, class, CONFIG_IRI).with("key", key).with("from", from).with(
        "to",
        to,
    ).with("effective", "next-segment").with("file", file);
    assert(entry@ =~= change_entry(class@, key@, from@, to@, file@, now.0 as nat));
    out.push(Change { key: key.to_owned(), entry });
    assert(changes_view(out@) =~= changes_view(before) + seq![(key@, entry@)]);
}

fn same_directory(a: &Option<String>, b: &Option<String>) -> (r: bool)
    ensures
        r == (maybe(*a) == maybe(*b)),
{
    match (a, b) {
        (Some(a), Some(b)) => same_text(a, b),
        (None, None) => true,
        _ => false,
    }
}

fn show_directory(d: &Option<String>) -> (r: String)
    ensures
        r@ == shown_directory(maybe(*d)),
{
    match d {
        Some(d) => d.clone(),
        None => "(data home)".to_owned(),
    }
}

/// The entries that a change of the configuration lands.
pub fn change_entries(before: &LogConfig, after: &LogConfig, file: &str, now: Timestamp) -> (out:
    Vec<Change>)
    ensures
        changes_view(out@) == changes(before@, after@, file@, now.0 as nat),
        out.len() <= 4,
{
    let mut out: Vec<Change> = Vec::new();
    let ghost none = Seq::<(Seq<char>, EntryView)>::empty();
    assert(changes_view(out@) =~= none);
    if !same_text(&after.level, &before.level) {
        add_change(
            &mut out,
            LEVEL_CHANGE_CLASS,
            "level",
            &before.level,
            &after.level,
            file,
            now,
        );
    }
    let ghost first = changes_view(out@);
    if after.destination != before.destination {
        add_change(
            &mut out,
            CONFIG_CHANGE_CLASS,
            "destination",
            before.destination.as_str(),
            after.destination.as_str(),
            file,
            now,
        );
    }
    let ghost second = changes_view(out@);
    if !same_directory(&after.directory, &before.directory) {
        add_change(
            &mut out,
            CONFIG_CHANGE_CLASS,
            "directory",
            &show_directory(&before.directory),
            &show_directory(&after.directory),
            file,
            now,
        );
    }
    let ghost third = changes_view(out@);
    if !same_text(&after.instance, &before.instance) {
        add_change(
            &mut out,
            CONFIG_CHANGE_CLASS,
            "instance",
            &before.instance,
            &after.instance,
            file,
            now,
        );
    }
    assert(changes_view(out@) =~= changes(before@, after@, file@, now.0 as nat));
    out
}

/// Whether writing `es` one after the other goes through the states `states` with the
/// outcomes `rs`.
pub open spec fn writes<G: SealSigner>(
    signer: Option<G>,
    es: Seq<EntryView>,
    states: Seq<Option<WriterView>>,
    rs: Seq<Result<Option<nat>, WriteErrorView>>,
) -> bool {
    &&& states.len() == es.len() + 1
    &&& rs.len() == es.len()
    &&& forall|i: int|
        0 <= i < es.len() ==> handle_writing(
            signer,
            states[i],
            #[trigger] es[i],
            states[i + 1],
            rs[i],
        )
}

/// Whether nothing went wrong but that an entry could not be a line.
pub open spec fn only_refused(rs: Seq<Result<Option<nat>, WriteErrorView>>) -> bool {
    forall|i: int| 0 <= i < rs.len() ==> (#[trigger] rs[i] matches Err(e) ==> e is Render)
}

/// The keys whose entries the log did not refuse.
pub open spec fn landed(
    keys: Seq<Seq<char>>,
    rs: Seq<Result<Option<nat>, WriteErrorView>>,
) -> Seq<Seq<char>>
    decreases keys.len(),
{
    if keys.len() == 0 {
        Seq::empty()
    } else {
        let before = landed(keys.drop_last(), rs);
        if rs[keys.len() - 1] is Ok {
            before.push(keys.last())
        } else {
            before
        }
    }
}

/// Entries of changes.
pub open spec fn change_views(v: Seq<(Seq<char>, EntryView)>) -> Seq<EntryView> {
    v.map_values(|c: (Seq<char>, EntryView)| c.1)
}

/// Keys of changes.
pub open spec fn change_keys(v: Seq<(Seq<char>, EntryView)>) -> Seq<Seq<char>> {
    v.map_values(|c: (Seq<char>, EntryView)| c.0)
}

/// One entry takes at most one number.
pub proof fn lemma_one_number<G: SealSigner>(
    signer: Option<G>,
    w: Option<WriterView>,
    e: EntryView,
    after: Option<WriterView>,
    r: Result<Option<nat>, WriteErrorView>,
)
    requires
        handle_writing(signer, w, e, after, r),
    ensures
        w is Some <==> after is Some,
        w is Some ==> after->Some_0.seq <= w->Some_0.seq + 1,
{
}

/// What a change of the configuration does to the log: the new configuration takes effect,
/// for the next segment, and the entries that say so are written one after the other.
pub open spec fn changed<G: SealSigner>(
    signer: Option<G>,
    before: HandleView,
    p: PatchView,
    file: Seq<char>,
    now: nat,
    after: HandleView,
    keys: Seq<Seq<char>>,
) -> bool {
    let config = applied(before.config, p);
    let all = changes(before.config, config, file, now);
    exists|
        states: Seq<Option<WriterView>>,
        rs: Seq<Result<Option<nat>, WriteErrorView>>,
    | #[trigger]
        writes(signer, change_views(all), states, rs) && states.first() == before.writer && after
            == (HandleView { config, writer: states.last(), ..before }) && keys == landed(
            change_keys(all),
            rs,
        ) && (sure(before.writer) ==> only_refused(rs))
}

/// Apply a change to the handle and record it. Returns the keys that were recorded.
///
/// Every config write lands an always-land entry, not only a level change: lowering the
/// level makes a hole, but repointing the destination silences the log entirely.
pub fn apply_change<S: LineSink, G: SealSigner>(
    handle: &mut LogHandle<S, G>,
    change: &Patch,
    file: &str,
    now: Timestamp,
) -> (r: Vec<String>)
    requires
        has_room_for(old(handle)@.writer, 4),
    ensures
        changed(
            old(handle).signer(),
            old(handle)@,
            change@,
            file@,
            now.0 as nat,
            final(handle)@,
            texts(r@),
        ),
        final(handle).signer() == old(handle).signer(),
        old(handle).reliable() ==> final(handle).reliable(),
{
    let ghost start = handle@;
    let ghost by = handle.signer();
    let before = handle.config().duplicate();
    let mut after = handle.config().duplicate();
    after.apply(change);
    let todo = change_entries(&before, &after, file, now);
    handle.set_config(after);
    let ghost config = applied(start.config, change@);
    let ghost all = changes(start.config, config, file@, now.0 as nat);
    let ghost es = change_views(all);
    let ghost keys = change_keys(all);
    let ghost mut states: Seq<Option<WriterView>> = seq![start.writer];
    let ghost mut rs: Seq<Result<Option<nat>, WriteErrorView>> = Seq::empty();
    let mut r: Vec<String> = Vec::new();
    let mut rest = todo;
    let ghost total = rest@;
    let mut i: usize = 0;
    proof {
        assert(es.take(0) =~= Seq::empty());
        assert(keys.take(0) =~= Seq::empty());
        assert(texts(r@) =~= Seq::empty());
    }
    while rest.len() > 0
        invariant
            i + rest.len() == total.len(),
            total.len() <= 4,
            total.len() == all.len(),
            changes_view(total) == all,
            es == change_views(all),
            keys == change_keys(all),
            rest@ == total.skip(i as int),
            writes(by, es.take(i as int), states, rs),
            states.first() == start.writer,
            states.last() == handle@.writer,
            handle@ == (HandleView { config, writer: handle@.writer, ..start }),
            handle.signer() == by,
            has_room_for(handle@.writer, (4 - i) as nat),
            sure(start.writer) ==> handle.reliable() && only_refused(rs),
            texts(r@) == landed(keys.take(i as int), rs),
        decreases rest.len(),
    {
        let c = rest.remove(0);
        proof {
            assert(c == total[i as int]);
            assert(all[i as int] == (c.key@, c.entry@));
            assert(rest@ =~= total.skip(i + 1));
        }
        let ghost w = handle@.writer;
        let o = handle.write(c.entry);
        proof {
            let out = written(o);
            lemma_one_number(by, w, c.entry@, handle@.writer, out);
            lemma_writes_push(by, es, states, rs, i as int, handle@.writer, out);
            lemma_landed_push(keys, rs, i as int, out);
            rs = rs.push(out);
            states = states.push(handle@.writer);
        }
        if o.is_ok() {
            let ghost before_keys = r@;
            r.push(c.key);
            assert(texts(r@) =~= texts(before_keys).push(c.key@));
        }
        i = i + 1;
    }
    proof {
        assert(es.take(i as int) =~= es);
        assert(keys.take(i as int) =~= keys);
    }
    r
}

/// Writing one entry more.
pub proof fn lemma_writes_push<G: SealSigner>(
    signer: Option<G>,
    es: Seq<EntryView>,
    states: Seq<Option<WriterView>>,
    rs: Seq<Result<Option<nat>, WriteErrorView>>,
    i: int,
    after: Option<WriterView>,
    out: Result<Option<nat>, WriteErrorView>,
)
    requires
        0 <= i < es.len(),
        writes(signer, es.take(i), states, rs),
        handle_writing(signer, states.last(), es[i], after, out),
    ensures
        writes(signer, es.take(i + 1), states.push(after), rs.push(out)),
        states.push(after).first() == states.first(),
{
    let e2 = es.take(i + 1);
    let s2 = states.push(after);
    let r2 = rs.push(out);
    assert forall|k: int| 0 <= k < e2.len() implies handle_writing(
        signer,
        s2[k],
        #[trigger] e2[k],
        s2[k + 1],
        r2[k],
    ) by {
        if k < i {
            assert(es.take(i)[k] == e2[k]);
        }
    }
}

proof fn lemma_landed_push(
    keys: Seq<Seq<char>>,
    rs: Seq<Result<Option<nat>, WriteErrorView>>,
    i: int,
    out: Result<Option<nat>, WriteErrorView>,
)
    requires
        0 <= i < keys.len(),
        rs.len() == i,
    ensures
        landed(keys.take(i + 1), rs.push(out)) == (if out is Ok {
            landed(keys.take(i), rs).push(keys[i])
        } else {
            landed(keys.take(i), rs)
        }),
{
    assert(keys.take(i + 1).drop_last() =~= keys.take(i));
    lemma_landed_prefix(keys.take(i), rs, out);
}

proof fn lemma_landed_prefix(
    keys: Seq<Seq<char>>,
    rs: Seq<Result<Option<nat>, WriteErrorView>>,
    out: Result<Option<nat>, WriteErrorView>,
)
    requires
        keys.len() <= rs.len(),
    ensures
        landed(keys, rs.push(out)) == landed(keys, rs),
    decreases keys.len(),
{
    if keys.len() > 0 {
        lemma_landed_prefix(keys.drop_last(), rs, out);
    }
}

/// What is answered to a change. It says what an operator gets wrong: that the change is
/// recorded now and takes effect with the next segment.
pub open spec fn change_reply_text(file: Seq<char>, keys: Seq<Seq<char>>, open: bool) -> Seq<char> {
    "wrote "@ + file
        + "\neffective at next process start (a segment's level is fixed for its life)\n"@ + (
    if keys.len() > 0 {
        "recorded: "@ + listed(keys) + "\n"@
    } else if !open {
        "no segment is open, so nothing was recorded in the log\n"@
    } else {
        Seq::empty()
    })
}

/// What is answered to a change.
pub fn change_reply(file: &str, keys: &Vec<String>, open: bool) -> (r: String)
    ensures
        r@ == change_reply_text(file@, texts(keys@), open),
{
    let mut r = joined("wrote ", file);
    r.append("\neffective at next process start (a segment's level is fixed for its life)\n");
    if keys.len() > 0 {
        let ghost start = r@;
        r.append("recorded: ");
        r.append(&crate::writer::list(keys));
        r.append("\n");
        assert(r@ =~= start + ("recorded: "@ + listed(texts(keys@)) + "\n"@));
    } else if !open {
        r.append("no segment is open, so nothing was recorded in the log\n");
    }
    assert(r@ =~= change_reply_text(file@, texts(keys@), open));
    r
}

// =====================================================================================
// Laws
// =====================================================================================

/// A change that restates what is in effect records nothing.
pub proof fn law_restating_is_no_change(c: ConfigView, file: Seq<char>, now: nat)
    ensures
        changes(c, c, file, now) == Seq::<(Seq<char>, EntryView)>::empty(),
{
    assert(changes(c, c, file, now) =~= Seq::<(Seq<char>, EntryView)>::empty());
}

/// A change of the level always records an entry that brackets it, whatever the
/// vocabulary: verification takes it for the explanation of what is then left out.
pub proof fn law_level_change_is_bracketed(
    before: ConfigView,
    after: ConfigView,
    file: Seq<char>,
    now: nat,
    v: VocabularyView,
)
    requires
        after.level != before.level,
    ensures
        changes(before, after, file, now).len() > 0,
        brackets(changes(before, after, file, now)[0].1, v),
{
    let e = change_entry(
        LEVEL_CHANGE_CLASS@,
        "level"@,
        before.level,
        after.level,
        file,
        now,
    );
    assert(changes(before, after, file, now)[0].1 == e);
    law_descends_reflexive(v, LEVEL_CHANGE_CLASS@);
}

/// The entry of a change can always be a line.
proof fn lemma_change_renders(
    class: Seq<char>,
    key: Seq<char>,
    from: Seq<char>,
    to: Seq<char>,
    file: Seq<char>,
    now: nat,
    seq: nat,
    prefixes: Seq<(Seq<char>, Seq<char>)>,
)
    requires
        iri_like(class),
    ensures
        entry_text(numbered(change_entry(class, key, from, to, file, now), seq), prefixes) is Ok,
{
    let e = numbered(change_entry(class, key, from, to, file, now), seq);
    reveal_strlit("urn:log:config");
    reveal_strlit("seq");
    reveal_strlit("key");
    reveal_strlit("from");
    reveal_strlit("to");
    reveal_strlit("effective");
    reveal_strlit("file");
    assert(CONFIG_IRI@[3] == ':');
    assert(iri_like(CONFIG_IRI@));
    let f = e.fields;
    assert(f.len() == 6);
    assert(f[0].0 == "seq"@ && f[1].0 == "key"@ && f[2].0 == "from"@);
    assert(f[3].0 == "to"@ && f[4].0 == "effective"@ && f[5].0 == "file"@);
    assert forall|i: int| 0 <= i < f.len() implies key_like(#[trigger] f[i].0) by {}
    lemma_bad_key(f);
}

/// The classes of the entries that changes land.
proof fn lemma_change_classes()
    ensures
        iri_like(LEVEL_CHANGE_CLASS@),
        iri_like(CONFIG_CHANGE_CLASS@),
{
    reveal_strlit("https://ikigai-rs.dev/ns/log#LevelChange");
    reveal_strlit("https://ikigai-rs.dev/ns/log#ConfigChange");
    assert(LEVEL_CHANGE_CLASS@[5] == ':' && CONFIG_CHANGE_CLASS@[5] == ':');
}

/// Whether `e` is the entry of a change, whatever was changed.
spec fn is_change(e: EntryView) -> bool {
    &&& e.class == LEVEL_CHANGE_CLASS@ || e.class == CONFIG_CHANGE_CLASS@
    &&& e == change_entry(
        e.class,
        e.fields[0].1,
        e.fields[1].1,
        e.fields[2].1,
        e.fields[4].1,
        e.time,
    )
}

proof fn lemma_change_if(
    differs: bool,
    class: Seq<char>,
    key: Seq<char>,
    from: Seq<char>,
    to: Seq<char>,
    file: Seq<char>,
    now: nat,
)
    requires
        class == LEVEL_CHANGE_CLASS@ || class == CONFIG_CHANGE_CLASS@,
    ensures
        ({
            let c = change_if(differs, class, key, from, to, file, now);
            forall|i: int| 0 <= i < c.len() ==> is_change((#[trigger] c[i]).1)
        }),
{
    let e = change_entry(class, key, from, to, file, now);
    assert(e.fields[0].1 == key && e.fields[1].1 == from && e.fields[2].1 == to);
    assert(e.fields[4].1 == file);
    assert(is_change(e));
}

proof fn lemma_changes_are_changes(
    before: ConfigView,
    after: ConfigView,
    file: Seq<char>,
    now: nat,
    i: int,
)
    requires
        0 <= i < changes(before, after, file, now).len(),
    ensures
        is_change(changes(before, after, file, now)[i].1),
{
    let level = after.level != before.level;
    let destination = after.destination != before.destination;
    let directory = after.directory != before.directory;
    let instance = after.instance != before.instance;
    let (a, b) = (before.level, after.level);
    lemma_change_if(level, LEVEL_CHANGE_CLASS@, "level"@, a, b, file, now);
    let (a, b) = (destination_token(before.destination), destination_token(after.destination));
    lemma_change_if(destination, CONFIG_CHANGE_CLASS@, "destination"@, a, b, file, now);
    let (a, b) = (shown_directory(before.directory), shown_directory(after.directory));
    lemma_change_if(directory, CONFIG_CHANGE_CLASS@, "directory"@, a, b, file, now);
    let (a, b) = (before.instance, after.instance);
    lemma_change_if(instance, CONFIG_CHANGE_CLASS@, "instance"@, a, b, file, now);
}

/// Writing goes through states of one segment, each entry under the next number.
proof fn lemma_changes_land<G: SealSigner>(
    signer: Option<G>,
    es: Seq<EntryView>,
    states: Seq<Option<WriterView>>,
    rs: Seq<Result<Option<nat>, WriteErrorView>>,
    w: WriterView,
    k: int,
)
    requires
        writes(signer, es, states, rs),
        states.first() == Some(w),
        0 <= k <= es.len(),
        w.reliable,
        emitted(w.vocabulary, LEVEL_CHANGE_CLASS@, w.rank),
        emitted(w.vocabulary, CONFIG_CHANGE_CLASS@, w.rank),
        forall|i: int| 0 <= i < es.len() ==> is_change(#[trigger] es[i]),
    ensures
        states[k] matches Some(s) && s.reliable && s.seq == w.seq + k && s.vocabulary
            == w.vocabulary && s.rank == w.rank,
        forall|i: int| 0 <= i < k ==> #[trigger] rs[i] == Ok::<Option<nat>, WriteErrorView>(
            Some((w.seq + 1 + i) as nat),
        ),
    decreases k,
{
    if k > 0 {
        lemma_changes_land(signer, es, states, rs, w, k - 1);
        let s = states[k - 1]->Some_0;
        let e = es[k - 1];
        assert(is_change(e));
        assert(handle_writing(signer, states[k - 1], e, states[k], rs[k - 1]));
        lemma_change_classes();
        lemma_change_renders(
            e.class,
            e.fields[0].1,
            e.fields[1].1,
            e.fields[2].1,
            e.fields[4].1,
            e.time,
            s.seq + 1,
            s.header.prefixes,
        );
        law_reliable_sink_refuses_nothing(signer, s, e, states[k]->Some_0, rs[k - 1]);
        law_segment_keeps_its_level(signer, s, e, states[k]->Some_0, rs[k - 1]);
        law_numbers_are_dense(signer, s, e, states[k]->Some_0, rs[k - 1]);
    }
}

/// One entry lands for each key that a change changes, under a number each, and all the
/// keys are reported: where a segment is open, its sink does not fail, and its level leaves
/// the entries of changes in, as it always does.
pub proof fn law_every_change_lands<G: SealSigner>(
    signer: Option<G>,
    before: HandleView,
    p: PatchView,
    file: Seq<char>,
    now: nat,
    after: HandleView,
    keys: Seq<Seq<char>>,
)
    requires
        changed(signer, before, p, file, now, after, keys),
        before.writer matches Some(w) && w.reliable && emitted(
            w.vocabulary,
            LEVEL_CHANGE_CLASS@,
            w.rank,
        ) && emitted(w.vocabulary, CONFIG_CHANGE_CLASS@, w.rank),
    ensures
        ({
            let all = changes(before.config, applied(before.config, p), file, now);
            &&& keys == change_keys(all)
            &&& after.config == applied(before.config, p)
            &&& after.writer matches Some(a) && a.seq == before.writer->Some_0.seq + all.len()
        }),
{
    let config = applied(before.config, p);
    let all = changes(before.config, config, file, now);
    let es = change_views(all);
    let w = before.writer->Some_0;
    let (states, rs) = choose|
        states: Seq<Option<WriterView>>,
        rs: Seq<Result<Option<nat>, WriteErrorView>>,
    | #[trigger]
        writes(signer, es, states, rs) && states.first() == before.writer && after == (HandleView {
            config,
            writer: states.last(),
            ..before
        }) && keys == landed(change_keys(all), rs) && (sure(before.writer) ==> only_refused(rs));
    assert forall|i: int| 0 <= i < es.len() implies is_change(#[trigger] es[i]) by {
        lemma_changes_are_changes(before.config, config, file, now, i);
    }
    lemma_changes_land(signer, es, states, rs, w, es.len() as int);
    lemma_all_landed(change_keys(all), rs);
}

proof fn lemma_all_landed(keys: Seq<Seq<char>>, rs: Seq<Result<Option<nat>, WriteErrorView>>)
    requires
        keys.len() <= rs.len(),
        forall|i: int| 0 <= i < keys.len() ==> #[trigger] rs[i] is Ok,
    ensures
        landed(keys, rs) == keys,
    decreases keys.len(),
{
    if keys.len() > 0 {
        lemma_all_landed(keys.drop_last(), rs);
        assert(rs[keys.len() - 1] is Ok);
        assert(keys.drop_last().push(keys.last()) =~= keys);
    } else {
        assert(landed(keys, rs) =~= keys);
    }
}

} // verus!
