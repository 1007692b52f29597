use std::sync::{Arc, Mutex};

use ikigai_log::request::{
    append, apply_change, change_entries, change_reply, config_face, expand, rejection_entry,
    rejection_error, requested_change, serve_config, ChangeError, ConfigFace, RequestError,
    WriteArguments,
};
use ikigai_log::segments::{
    candidate_file, face, probe, serve, sorted_by_name, stated_argument, window, Face, ServeError,
};
use ikigai_log::{
    Destination, Entry, Header, Line, LineSink, LogConfig, LogHandle, Options, Patch, SealSigner,
    Timestamp, Vocabulary, CAP_WRITE, CONFIG_CHANGE_CLASS, CONFIG_IRI, LEVEL_CHANGE_CLASS,
    LOG_MEDIA_TYPE, LOG_NS, MESSAGE_CLASS, TURTLE_MEDIA_TYPE,
};

fn log(term: &str) -> String {
    format!("{LOG_NS}{term}")
}

/// Lines captured from a writer, without a filesystem.
#[derive(Clone, Default)]
struct Captured(Arc<Mutex<Vec<String>>>);

impl LineSink for Captured {
    fn write_line(&mut self, line: &str) -> Result<(), String> {
        self.0.lock().expect("captured").push(line.to_string());
        Ok(())
    }

    fn flush(&mut self) -> Result<(), String> {
        Ok(())
    }
}

impl Captured {
    fn text(&self) -> String {
        let lines = self.0.lock().expect("captured");
        let mut out = lines.join("\n");
        out.push('\n');
        out
    }
}

struct NoSigner;

impl SealSigner for NoSigner {
    fn algorithm(&self) -> &str {
        "Ed25519"
    }

    fn sign(&self, _tagged_hash: &str) -> Option<String> {
        None
    }
}

type Handle = LogHandle<Captured, NoSigner>;

fn at(millis: u64) -> Timestamp {
    Timestamp::from_millis(millis)
}

fn builtin() -> Vocabulary {
    Vocabulary::builtin().expect("the embedded vocabulary parses")
}

fn config_at(level: &str) -> LogConfig {
    LogConfig::default()
        .with_instance("bug:test")
        .with_level(level)
        .expect("a real level")
}

/// A handle with a segment open onto a capture buffer.
fn open_handle(app: Option<&str>, level: &str) -> (Handle, Captured) {
    let mut handle = LogHandle::new(
        Some("/cfg".to_string()),
        app.map(str::to_string),
        config_at(level),
    );
    let captured = Captured::default();
    handle
        .open_with_sink(
            Vocabulary::shared_builtin().expect("the embedded vocabulary parses"),
            at(1_700_000_000_000),
            captured.clone(),
            Some(4711),
        )
        .expect("the segment opens");
    (handle, captured)
}

fn nothing_stated() -> WriteArguments<'static> {
    WriteArguments {
        class: None,
        subject: None,
        msg: None,
        content: None,
        fields: None,
    }
}

fn entries(text: &str) -> Vec<Entry> {
    let (header, offset) = Header::parse(text).expect("header");
    text[offset..]
        .lines()
        .filter_map(|line| match Line::parse(line, &header.prefixes) {
            Ok(Line::Entry(entry)) => Some(entry),
            _ => None,
        })
        .collect()
}

const NOW: u64 = 1_700_000_000_000;

// =====================================================================================
// Appending
// =====================================================================================

#[test]
fn a_closed_log_says_so() {
    let mut handle: Handle = LogHandle::new(None, None, LogConfig::default());
    assert!(!handle.is_open(), "constructing a handle opens nothing");
    let reply = append(
        &mut handle,
        at(NOW),
        &WriteArguments {
            msg: Some("nothing to see"),
            ..nothing_stated()
        },
    )
    .expect("a closed log is not an error");
    assert!(reply.starts_with("closed:"), "{reply}");
    assert_eq!(handle.open_segment(), None);
    assert_eq!(handle.entry_iri(1), None);
    assert!(!handle.emits(MESSAGE_CLASS));
    assert!(!handle.rotation_due(at(NOW)));
    assert!(handle
        .write(Entry::new(at(NOW), MESSAGE_CLASS, "urn:x:y"))
        .expect("not an error")
        .is_none());
    assert!(handle.close(at(NOW)).expect("a no-op").is_none());
    assert!(handle
        .rotate_out(at(NOW), None)
        .expect("a no-op")
        .is_none());
}

#[test]
fn the_convenience_write_normalizes_to_log_message() {
    let (mut handle, captured) = open_handle(None, "info");

    // Piped content, no class, no subject: the whole convenience path.
    let reply = append(
        &mut handle,
        at(NOW),
        &WriteArguments {
            content: Some("sync started\nand continued"),
            ..nothing_stated()
        },
    )
    .expect("the write lands");
    assert!(
        reply.starts_with("urn:log:bug:test:"),
        "the entry's IRI comes back, so it pipes: {reply}"
    );

    let written = captured.text();
    assert!(written.contains("log:Message"), "{written}");
    assert!(
        written.contains(r#"msg="sync started\nand continued""#),
        "prose survives a newline escaped, on one line: {written}"
    );
    assert!(
        written.contains("urn:ikigai:instance:bug:test"),
        "an entry with no stated subject is about the process that wrote it"
    );
    assert_eq!(
        written
            .lines()
            .filter(|l| l.contains("log:Message"))
            .count(),
        1,
        "one entry is one line"
    );
    assert!(
        !written.contains("level="),
        "severity is carried by subclass, never by a level= column"
    );
}

#[test]
fn the_typed_write_takes_its_fields_in_the_lines_own_tail_syntax() {
    let (mut handle, captured) = open_handle(None, "debug");
    append(
        &mut handle,
        at(NOW),
        &WriteArguments {
            class: Some("log:Resolution"),
            subject: Some("urn:calendar:today"),
            fields: Some(r#"span=7 dur=12 cap=urn:cap:fs cap=urn:cap:net msg="two words""#),
            ..nothing_stated()
        },
    )
    .expect("the write lands");

    let entry = entries(&captured.text())
        .into_iter()
        .find(|entry| entry.class == log("Resolution"))
        .expect("the resolution");
    assert_eq!(entry.get("span"), Some("7"));
    assert_eq!(entry.get("dur"), Some("12"));
    assert_eq!(
        entry.all("cap"),
        vec!["urn:cap:fs", "urn:cap:net"],
        "a repeated key is a list: one resolution under two capability scopes"
    );
    assert_eq!(
        entry.get("msg"),
        Some("two words"),
        "the same scanner as the file, so quoting behaves identically"
    );
}

#[test]
fn a_class_below_the_level_is_filtered_and_said_so() {
    let (mut handle, captured) = open_handle(None, "info");
    let before = captured.text();
    let reply = append(
        &mut handle,
        at(NOW),
        &WriteArguments {
            class: Some("log:Resolution"),
            ..nothing_stated()
        },
    )
    .expect("not an error");
    assert_eq!(
        reply,
        format!(
            "filtered: {} is below this segment's level ({})",
            log("Resolution"),
            log("info")
        )
    );
    assert_eq!(captured.text(), before);
}

#[test]
fn an_unusable_argument_is_named() {
    let (mut handle, _) = open_handle(None, "info");
    for (arguments, name, detail) in [
        (
            WriteArguments {
                class: Some("no class"),
                ..nothing_stated()
            },
            "class",
            "got \"no class\"",
        ),
        (
            WriteArguments {
                subject: Some("no \"iri\""),
                ..nothing_stated()
            },
            "subject",
            "got \"no \\\"iri\\\"\"",
        ),
        (
            WriteArguments {
                fields: Some("stray"),
                ..nothing_stated()
            },
            "fields",
            "stray",
        ),
    ] {
        match append(&mut handle, at(NOW), &arguments) {
            Err(RequestError::Argument(e)) => {
                assert_eq!(e.name, name);
                assert!(e.detail.contains(detail), "{}", e.detail);
            }
            other => panic!("expected {name} to be refused, got {other:?}"),
        }
    }
    assert_eq!(expand("log:Message"), Some(log("Message")));
    assert_eq!(expand(" urn:x:y "), Some("urn:x:y".to_string()));
    assert_eq!(expand("log:"), None);
    assert_eq!(expand("plain"), None);
}

#[test]
fn a_refusal_lands_at_every_level() {
    let (mut handle, captured) = open_handle(None, "error");
    let (segment, _) = handle.open_segment().expect("a segment is open");
    let seq = handle
        .record_denial(at(1_700_000_000_500), CAP_WRITE, "appending a log entry")
        .expect("a refused authority is a security fact, so it lands at every level");
    assert_eq!(handle.entry_iri(seq), Some(format!("{segment}:2")));
    let written = captured.text();
    assert!(written.contains("log:CapabilityDenied"), "{written}");
    assert!(written.contains(&format!("cap={CAP_WRITE}")), "{written}");
    assert!(
        written.contains("reason=\"appending a log entry\""),
        "{written}"
    );
    assert_eq!(
        entries(&written).last().expect("the denial").subject,
        segment
    );
}

// =====================================================================================
// The configuration
// =====================================================================================

#[test]
fn the_served_config_says_whether_a_segment_is_open() {
    let (handle, _captured) = open_handle(None, "debug");
    let body = serve_config(&handle, ConfigFace::Toml);
    assert!(body.contains("level = \"debug\""), "{body}");
    assert!(body.contains("# open = true"), "{body}");
    assert!(body.contains("# segment = urn:log:bug:test:"), "{body}");
    let table: toml::Table = body
        .parse()
        .expect("the plain face is a config file: the live state is comments");
    assert_eq!(table["instance"].as_str(), Some("bug:test"));

    let graph = serve_config(&handle, ConfigFace::Graph);
    assert!(graph.contains("a log:Config"), "{graph}");
    assert!(
        graph.contains("log:currentSegment <urn:log:bug:test:"),
        "{graph}"
    );
    assert!(!graph.contains("[]"), "no blank nodes: {graph}");

    let closed: Handle = LogHandle::new(None, None, LogConfig::default());
    assert!(serve_config(&closed, ConfigFace::Toml).contains("# open = false"));
    assert_eq!(closed.home(), None);
    assert_eq!(closed.app(), None);
}

#[test]
fn a_config_face_is_chosen_by_its_media_type() {
    assert_eq!(config_face(None), Ok(ConfigFace::Toml));
    assert_eq!(config_face(Some("  ")), Ok(ConfigFace::Toml));
    assert_eq!(config_face(Some("text/turtle")), Ok(ConfigFace::Graph));
    assert_eq!(
        config_face(Some("text/plain;charset=utf-8")),
        Ok(ConfigFace::Toml)
    );
    let error = config_face(Some("text/html")).expect_err("no such face");
    assert_eq!(error.name, "as");
    assert!(error.detail.contains("\"text/html\""), "{}", error.detail);
}

#[test]
fn a_config_change_lands_its_always_land_entries_at_every_level() {
    // `error` is the bottom of the dial: if the bracket lands here it lands everywhere.
    let (mut handle, captured) = open_handle(Some("serve"), "error");
    assert_eq!(handle.home(), Some("/cfg"));
    assert_eq!(handle.app(), Some("serve"));
    let change = requested_change(Some("debug"), Some("file"), None, None).expect("a change");
    let keys = apply_change(&mut handle, &change, "/cfg/serve.log.toml", at(NOW));
    assert_eq!(keys, vec!["level", "destination"]);
    let reply = change_reply("/cfg/serve.log.toml", &keys, handle.is_open());
    assert!(
        reply.contains("serve.log.toml"),
        "the file it touched: {reply}"
    );
    assert!(
        reply.contains("effective at next process start"),
        "a segment's level is fixed for its life: {reply}"
    );
    assert!(reply.contains("recorded: level, destination"), "{reply}");

    // In memory, for the next segment.
    assert_eq!(handle.config().level, log("debug"));
    assert_eq!(handle.config().destination, Destination::File);

    let log_text = captured.text();
    let (header, _) = Header::parse(&log_text).expect("header");
    assert_eq!(
        header.level,
        log("error"),
        "the open segment keeps its level"
    );
    let entries = entries(&log_text);
    let level_change = entries
        .iter()
        .find(|e| e.class == LEVEL_CHANGE_CLASS)
        .expect("a level change brackets the hole it creates");
    assert_eq!(level_change.get("from"), Some(log("error")).as_deref());
    assert_eq!(level_change.get("to"), Some(log("debug")).as_deref());
    assert_eq!(level_change.get("effective"), Some("next-segment"));
    assert_eq!(level_change.subject, CONFIG_IRI);
    let config_change = entries
        .iter()
        .find(|e| e.class == CONFIG_CHANGE_CLASS)
        .expect("a destination change matters more than a level change");
    assert_eq!(config_change.get("key"), Some("destination"));

    // Saying the same thing once more is no change.
    let again = apply_change(&mut handle, &change, "/cfg/serve.log.toml", at(NOW));
    assert!(again.is_empty());
}

#[test]
fn each_key_that_changed_has_its_entry() {
    let before = LogConfig::default();
    let after = LogConfig::default()
        .with_instance("serve")
        .with_directory("/logs");
    let changes = change_entries(&before, &after, "/cfg/log.toml", at(7));
    assert_eq!(changes.len(), 2);
    assert_eq!(changes[0].key, "directory");
    assert_eq!(changes[0].entry.get("from"), Some("(data home)"));
    assert_eq!(changes[0].entry.get("to"), Some("/logs"));
    assert_eq!(changes[0].entry.get("file"), Some("/cfg/log.toml"));
    assert_eq!(changes[1].key, "instance");
    assert_eq!(changes[1].entry.class, CONFIG_CHANGE_CLASS);
    assert_eq!(changes[1].entry.time, at(7));
    assert!(change_entries(&before, &before, "/cfg/log.toml", at(7)).is_empty());
    assert!(change_reply("/f", &Vec::new(), false).contains("no segment is open"));
}

#[test]
fn a_level_the_config_cannot_take_is_rejected_and_the_rejection_lands() {
    let (mut handle, captured) = open_handle(None, "error");
    match requested_change(Some("not a level"), None, None, None) {
        Err(ChangeError::Level(level)) => {
            handle
                .write(rejection_entry(&level, at(NOW)))
                .expect("it writes")
                .expect("a rejection lands at every level");
            let error = rejection_error(&level);
            assert_eq!(error.name, "level");
            assert!(error.detail.starts_with("\"not a level\""), "{}", error.detail);
        }
        other => panic!("expected the level to be refused, got {other:?}"),
    }
    assert!(
        captured.text().contains("log:LevelChangeRejected"),
        "the evidence that the change did not take: {}",
        captured.text()
    );
}

#[test]
fn a_change_is_asked_for_key_by_key() {
    assert_eq!(
        requested_change(Some(" warn "), None, Some("/logs"), Some("serve")),
        Ok(Patch {
            level: Some("warn".to_string()),
            directory: Some("/logs".to_string()),
            instance: Some("serve".to_string()),
            ..Patch::default()
        })
    );
    assert_eq!(
        requested_change(None, Some(""), None, None),
        Err(ChangeError::Missing)
    );
    match requested_change(None, Some("flie"), None, None) {
        Err(ChangeError::Argument(e)) => {
            assert_eq!(e.name, "destination");
            assert!(e.detail.contains("off|console|file"), "{}", e.detail);
        }
        other => panic!("expected the destination to be refused, got {other:?}"),
    }
}

// =====================================================================================
// Serving segments
// =====================================================================================

#[test]
fn a_segment_is_a_graph_by_default_and_the_file_face_is_opt_in() {
    let (mut handle, captured) = open_handle(None, "info");
    let (segment, _) = handle.open_segment().expect("a segment is open");
    handle
        .write(Entry::new(
            at(1_700_000_001_000),
            MESSAGE_CLASS,
            "urn:agent:calendar",
        ))
        .expect("a message at info");
    let text = captured.text();

    assert_eq!(face(None), Ok(Face::Graph));
    assert_eq!(face(Some(TURTLE_MEDIA_TYPE)), Ok(Face::Graph));
    assert_eq!(face(Some(LOG_MEDIA_TYPE)), Ok(Face::Lines));
    assert_eq!(face(Some("text/html")).expect_err("no such face").name, "as");

    let graph = serve(&text, &builtin(), Face::Graph, &Options::all()).expect("it is served");
    assert!(graph.contains(&format!("<{segment}:2>")), "{graph}");
    let raw = serve(&text, &builtin(), Face::Lines, &Options::all()).expect("it is served");
    assert_eq!(raw, text);
    assert!(raw.starts_with("# ikigai-log v1"));

    // A window over the raw face would hand back something that is not a segment.
    let windowed = window(None, None, Some("2"), None).expect("a window");
    assert!(matches!(
        serve(&text, &builtin(), Face::Lines, &windowed),
        Err(ServeError::Argument(_))
    ));

    // On the graph face it narrows.
    let narrowed = serve(&text, &builtin(), Face::Graph, &windowed).expect("it is served");
    assert!(!narrowed.contains(&format!("<{segment}:1>")), "{narrowed}");
    assert!(narrowed.contains(&format!("<{segment}:2>")), "{narrowed}");
}

#[test]
fn a_window_is_asked_for_bound_by_bound() {
    assert_eq!(
        window(
            Some("1970-01-01T00:00:01.000Z"),
            Some("1970-01-01T00:00:02.000Z"),
            Some("3"),
            Some("4")
        ),
        Ok(Options {
            since: Some(at(1_000)),
            until: Some(at(2_000)),
            from_seq: Some(3),
            to_seq: Some(4),
        })
    );
    assert_eq!(window(None, Some(" "), None, None), Ok(Options::all()));
    for (asked, name) in [
        (window(Some("yesterday"), None, None, None), "since"),
        (window(None, Some("tomorrow"), None, None), "until"),
        (window(None, None, Some("two"), None), "from_seq"),
        (window(None, None, None, Some("-1")), "to_seq"),
    ] {
        assert_eq!(asked.expect_err("an unusable bound").name, name);
    }
    assert_eq!(stated_argument(Some("  a ")), Some("a".to_string()));
    assert_eq!(stated_argument(Some("   ")), None);
    assert_eq!(stated_argument(None), None);
}

#[test]
fn a_segment_is_looked_for_under_the_name_its_iri_gives() {
    assert_eq!(
        candidate_file("bug:serve:2023-11-14T22-13-20Z"),
        Some("bug-serve-2023-11-14T22-13-20Z.log".to_string())
    );
    assert_eq!(candidate_file("write"), None);
}

#[test]
fn a_header_is_read_from_the_top_of_a_file() {
    let (_, captured) = open_handle(None, "info");
    let header = probe(&captured.text()).expect("a segment");
    assert_eq!(header.instance, "urn:ikigai:instance:bug:test");
    assert!(probe("not a segment").is_none());
    let found = vec![
        ("urn:b".to_string(), "2".to_string()),
        ("urn:a".to_string(), "1".to_string()),
        ("urn:a".to_string(), "0".to_string()),
    ];
    assert_eq!(
        sorted_by_name(&found),
        vec![
            ("urn:a".to_string(), "1".to_string()),
            ("urn:a".to_string(), "0".to_string()),
            ("urn:b".to_string(), "2".to_string()),
        ]
    );
}
