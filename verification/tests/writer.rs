use std::sync::{Arc, Mutex};

use ikigai_log::writer::{
    instance_name_of, lock_file, reservation, segment_file, segment_iri, sink_outcome, slug,
    stamp, MAX_STAMP_ATTEMPTS,
};
use ikigai_log::{
    BufferSink, Entry, Header, Line, LineSink, LogConfig, Prev, RenderError, RotationPolicy,
    SealPolicy, SealSigner, Timestamp, Vocabulary, WriteError, Writer, WriterOptions, LOG_NS,
    MESSAGE_CLASS, PROCESS_START_CLASS,
};

fn log(term: &str) -> String {
    format!("{LOG_NS}{term}")
}

/// Lines captured from a writer, without a filesystem.
#[derive(Clone, Default)]
struct Captured(Arc<Mutex<Vec<String>>>);

impl LineSink for Captured {
    fn write_line(&mut self, line: &str) -> Result<(), String> {
        self.0.lock().expect("captured").push(line.to_string());
        Ok(())
    }

    fn flush(&mut self) -> Result<(), String> {
        Ok(())
    }
}

impl Captured {
    fn text(&self) -> String {
        let lines = self.0.lock().expect("captured");
        let mut out = lines.join("\n");
        out.push('\n');
        out
    }
}

/// A sink that takes so many lines and then fails.
struct Failing(usize);

impl LineSink for Failing {
    fn write_line(&mut self, _line: &str) -> Result<(), String> {
        if self.0 == 0 {
            return Err("disk full".to_string());
        }
        self.0 -= 1;
        Ok(())
    }

    fn flush(&mut self) -> Result<(), String> {
        Ok(())
    }
}

struct NoSigner;

impl SealSigner for NoSigner {
    fn algorithm(&self) -> &str {
        "Ed25519"
    }

    fn sign(&self, _tagged_hash: &str) -> Option<String> {
        None
    }
}

fn at(millis: u64) -> Timestamp {
    Timestamp::from_millis(millis)
}

fn shared() -> Arc<Vocabulary> {
    Vocabulary::shared_builtin().expect("the embedded vocabulary parses")
}

fn config_at(level: &str) -> LogConfig {
    LogConfig::default()
        .with_instance("bug:test")
        .with_level(level)
        .expect("a level this vocabulary defines")
}

type TestWriter = Writer<Captured, NoSigner>;

/// Open a writer onto a capture buffer at `level`, and hand back both.
fn writer_at(level: &str) -> (TestWriter, Captured) {
    let captured = Captured::default();
    let writer = Writer::open_with_sink(
        &config_at(level),
        shared(),
        at(1_700_000_000_000),
        captured.clone(),
        Some(4711),
    )
    .expect("the segment opens");
    (writer, captured)
}

#[test]
fn a_written_segment_reparses_and_yields_back_what_went_in() {
    let (mut writer, captured) = writer_at("debug");
    writer
        .write(
            Entry::new(
                at(1_700_000_001_000),
                &log("Resolution"),
                "urn:calendar:today",
            )
            .with("worker", "ikigai-sched-2")
            .with("dur", "12"),
        )
        .expect("the entry writes")
        .expect("and is not filtered");
    writer
        .write(
            Entry::new(at(1_700_000_002_000), MESSAGE_CLASS, "urn:agent:calendar")
                .with("msg", "sync started"),
        )
        .expect("the entry writes")
        .expect("and is not filtered");

    let text = captured.text();
    let (header, offset) = Header::parse(&text).expect("the header this writer wrote parses");
    assert_eq!(header.level, log("debug"));
    assert_eq!(header.instance, "urn:ikigai:instance:bug:test");
    assert_eq!(
        header.prev,
        Prev::Genesis,
        "genesis is written, so a missing @prev is unambiguously an error"
    );
    assert_eq!(header.started, at(1_700_000_000_000));

    let entries: Vec<Entry> = text[offset..]
        .lines()
        .map(|line| Line::parse(line, &header.prefixes).expect("every line parses"))
        .filter_map(|line| match line {
            Line::Entry(entry) => Some(entry),
            _ => None,
        })
        .collect();

    // The liveness marker the writer laid down first, then the two entries.
    assert_eq!(entries.len(), 3, "{entries:#?}");
    assert_eq!(entries[0].class, PROCESS_START_CLASS);
    assert_eq!(entries[0].get("seq"), Some("1"));
    assert_eq!(entries[1].class, log("Resolution"));
    assert_eq!(entries[1].subject, "urn:calendar:today");
    assert_eq!(entries[1].get("seq"), Some("2"), "seq is written explicitly");
    assert_eq!(entries[1].get("worker"), Some("ikigai-sched-2"));
    assert_eq!(entries[1].get("dur"), Some("12"));
    assert_eq!(entries[2].get("msg"), Some("sync started"));
}

#[test]
fn the_level_dial_excludes_resolutions_at_info_and_never_the_always_land_set() {
    let (mut info, captured) = writer_at("info");
    assert!(!info.emits(&log("Resolution")), "no resolutions at info");
    assert!(!info.emits(&log("CacheHit")), "and certainly no cache hits");
    assert!(info.emits(MESSAGE_CLASS));
    let filtered = info
        .write(Entry::new(at(1), &log("Resolution"), "urn:calendar:today"))
        .expect("a filtered entry is not an error");
    assert_eq!(filtered, None);
    assert!(
        !captured.text().contains("Resolution"),
        "and nothing reached the file"
    );

    // At the bottom of the dial, every always-land class still lands.
    let (mut error, captured) = writer_at("error");
    for class in [
        "ProcessStart",
        "ProcessStop",
        "ConfigChange",
        "LevelChange",
        "LevelChangeRejected",
        "Rotation",
        "Seal",
        "ChainBroken",
        "Tombstone",
        "Dropped",
        "CapabilityDenied",
        "KeyChange",
    ] {
        assert!(
            error.emits(&log(class)),
            "log:{class} lands at every level or the chain blesses a hole"
        );
        error
            .write(Entry::new(at(2), &log(class), "urn:log:test"))
            .expect("it writes")
            .unwrap_or_else(|| panic!("log:{class} must not be filtered"));
    }
    assert!(!error.emits(MESSAGE_CLASS), "but ordinary prose does not");
    let text = captured.text();
    for class in ["ProcessStart", "Dropped", "CapabilityDenied"] {
        assert!(text.contains(&format!("log:{class}")), "{text}");
    }
}

#[test]
fn a_level_the_vocabulary_does_not_define_fails_at_open() {
    let mut config = config_at("info");
    // Shape-valid, so the config layer accepts it, and meaningless, so the writer must
    // not.
    config.level = log("verbose");
    let opened: Result<TestWriter, WriteError> =
        Writer::open_with_sink(&config, shared(), at(0), Captured::default(), None);
    match opened
        .err()
        .expect("a level nothing can place on the dial is a hard stop")
    {
        WriteError::UnknownLevel { level, known } => {
            assert_eq!(level, log("verbose"));
            assert!(known.contains(&log("info")), "{known:?}");
        }
        other => panic!("expected UnknownLevel, got {}", other.message()),
    }
}

#[test]
fn prose_with_a_newline_survives_escaped_on_one_line() {
    let (mut writer, captured) = writer_at("info");
    writer
        .write(
            Entry::new(at(3), MESSAGE_CLASS, "urn:agent:calendar")
                .with("msg", "first\nsecond\ttabbed"),
        )
        .expect("it writes")
        .expect("and is not filtered");
    let text = captured.text();
    assert!(text.contains(r#"msg="first\nsecond\ttabbed""#), "{text}");

    let (header, offset) = Header::parse(&text).expect("header");
    let entries: Vec<Entry> = text[offset..]
        .lines()
        .filter_map(|line| match Line::parse(line, &header.prefixes) {
            Ok(Line::Entry(entry)) => Some(entry),
            _ => None,
        })
        .collect();
    assert_eq!(
        entries.last().expect("the message").get("msg"),
        Some("first\nsecond\ttabbed"),
        "one entry is one line on the way out and the way back"
    );
}

#[test]
fn an_orderly_close_writes_a_stop_marker_and_a_drop_does_not() {
    let (writer, captured) = writer_at("error");
    writer.close(at(9)).expect("the close writes");
    assert!(
        captured.text().contains("log:ProcessStop"),
        "{}",
        captured.text()
    );

    let (writer, captured) = writer_at("error");
    drop(writer);
    assert!(
        !captured.text().contains("log:ProcessStop"),
        "a segment that ends without one ended because the process died"
    );
}

#[test]
fn a_segment_opens_with_its_header_and_its_liveness() {
    let (writer, captured) = writer_at("info");
    assert_eq!(
        captured.text(),
        "# ikigai-log v1\n\
         @prefix log:  <https://ikigai-rs.dev/ns/log#> .\n\
         @prefix prov: <http://www.w3.org/ns/prov#> .\n\
         @name     urn:log:bug:test:2023-11-14T22-13-20Z\n\
         @instance urn:ikigai:instance:bug:test\n\
         @level    log:info\n\
         @started  2023-11-14T22:13:20.000Z\n\
         @prev     genesis\n\
         \n\
         \n\
         2023-11-14T22:13:20.000Z log:ProcessStart urn:ikigai:instance:bug:test seq=1 pid=4711\n"
    );
    assert_eq!(writer.segment(), "urn:log:bug:test:2023-11-14T22-13-20Z");
    assert_eq!(writer.instance(), "urn:ikigai:instance:bug:test");
    assert_eq!(writer.configured_instance(), None);
    assert_eq!(writer.level(), log("info"));
    assert_eq!(writer.sequence(), 1);
    assert_eq!(writer.path(), None);
    assert_eq!(writer.header().started, at(1_700_000_000_000));
    assert!(writer.vocabulary().key("seq").is_some());
}

#[test]
fn a_name_that_was_made_unique_is_on_record() {
    let captured = Captured::default();
    let reserved = reservation("serve-4711", at(1_700_000_060_000), 0).expect("a first try");
    let writer: TestWriter = Writer::open_on(
        &LogConfig::default().with_instance("serve"),
        shared(),
        at(1_700_000_060_000),
        WriterOptions::default(),
        captured.clone(),
        Some(format!("/logs/{}", reserved.file)),
        Some("serve-4711".to_string()),
        Some(reserved.stamp),
        Some(4711),
    )
    .expect("the segment opens");
    assert_eq!(writer.instance(), "urn:ikigai:instance:serve-4711");
    assert_eq!(
        writer.configured_instance(),
        Some("urn:ikigai:instance:serve"),
        "what was asked for is in the record, not lost"
    );
    assert_eq!(writer.segment(), reserved.iri);
    assert_eq!(
        writer.path(),
        Some("/logs/serve-4711-2023-11-14T22-14-20Z.log")
    );
    assert!(captured
        .text()
        .contains("configured=urn:ikigai:instance:serve"));
}

#[test]
fn a_sink_that_fails_leaves_the_writer_as_it_was() {
    let mut writer: Writer<Failing, NoSigner> = Writer::open_with_sink(
        &config_at("info"),
        shared(),
        at(0),
        Failing(11),
        None,
    )
    .expect("the header and the first entry fit");
    assert_eq!(writer.sequence(), 1);
    match writer.write(Entry::new(at(1), MESSAGE_CLASS, "urn:x:y")) {
        Err(WriteError::Io { path, message }) => {
            assert_eq!(path, None);
            assert_eq!(message, "disk full");
        }
        other => panic!("expected a failure of the sink, got {other:?}"),
    }
    assert_eq!(writer.sequence(), 1, "the number was not taken");

    let closed: Result<Writer<Failing, NoSigner>, WriteError> =
        Writer::open_with_sink(&config_at("info"), shared(), at(0), Failing(3), None);
    assert!(matches!(closed.err(), Some(WriteError::Io { .. })));
}

#[test]
fn an_entry_that_cannot_be_a_line_is_refused_and_takes_no_number() {
    let (mut writer, captured) = writer_at("info");
    let before = captured.text();
    match writer.write(Entry::new(at(1), MESSAGE_CLASS, "no iri")) {
        Err(WriteError::Render(RenderError::NotAnIri(text))) => assert_eq!(text, "no iri"),
        other => panic!("expected a refusal, got {other:?}"),
    }
    assert_eq!(writer.sequence(), 1);
    assert_eq!(captured.text(), before);
}

#[test]
fn every_write_error_says_what_went_wrong() {
    for (error, part) in [
        (
            WriteError::UnknownLevel {
                level: "urn:l".to_string(),
                known: vec!["urn:a".to_string(), "urn:b".to_string()],
            },
            "urn:a, urn:b",
        ),
        (WriteError::NoDirectory, "directory"),
        (WriteError::SegmentExists("/a.log".to_string()), "/a.log"),
        (
            WriteError::InstanceInUse {
                name: "serve".to_string(),
                tried: "serve-1".to_string(),
            },
            "serve-1",
        ),
        (
            WriteError::Io {
                path: Some("/a.log".to_string()),
                message: "disk full".to_string(),
            },
            "disk full",
        ),
        (
            WriteError::Io {
                path: None,
                message: "broken pipe".to_string(),
            },
            "broken pipe",
        ),
        (
            WriteError::Render(RenderError::Key("a b".to_string())),
            "a b",
        ),
    ] {
        assert!(error.message().contains(part), "{}", error.message());
    }
    let converted = WriteError::from(RenderError::Key("a b".to_string()));
    assert!(matches!(converted, WriteError::Render(RenderError::Key(_))));
}

#[test]
fn names_and_stamps_agree_between_iri_and_file() {
    assert_eq!(stamp(at(1_700_000_000_000)), "2023-11-14T22-13-20Z");
    assert_eq!(
        segment_iri("urn:ikigai:instance:bug:serve", "S"),
        "urn:log:bug:serve:S"
    );
    assert_eq!(segment_iri("urn:other", "S"), "urn:log:urn:other:S");
    assert_eq!(slug("bug:serve/a b_c.d-e"), "bug-serve-a-b_c.d-e");
    assert_eq!(instance_name_of("urn:ikigai:instance:bug:serve"), "bug:serve");
    assert_eq!(
        segment_file("bug:serve", "2023-11-14T22-13-20Z"),
        "bug-serve-2023-11-14T22-13-20Z.log"
    );
    assert_eq!(lock_file("bug:serve"), "bug-serve.lock");

    let first = reservation("bug:serve", at(1_700_000_000_000), 0).expect("a first try");
    assert_eq!(first.iri, "urn:log:bug:serve:2023-11-14T22-13-20Z");
    assert_eq!(first.file, "bug-serve-2023-11-14T22-13-20Z.log");
    let third = reservation("bug:serve", at(1_700_000_000_000), 2).expect("a third try");
    assert_eq!(third.iri, "urn:log:bug:serve:2023-11-14T22-13-20Z-2");
    assert_eq!(third.stamp, "2023-11-14T22-13-20Z-2");
    assert_ne!(first.file, third.file);
    assert!(reservation("bug:serve", at(0), MAX_STAMP_ATTEMPTS - 1).is_some());
    assert!(reservation("bug:serve", at(0), MAX_STAMP_ATTEMPTS).is_none());
}

#[test]
fn a_buffer_takes_the_lines_in_order() {
    let mut sink = BufferSink::new();
    sink.write_line("one").expect("taken");
    sink.write_line("two").expect("taken");
    assert_eq!(sink.flushed, 0);
    sink.flush().expect("flushed");
    assert_eq!(sink.lines, vec!["one", "two"]);
    assert_eq!(sink.flushed, 2);
}

#[test]
fn a_segment_states_the_link_it_was_given() {
    let captured = Captured::default();
    let writer: TestWriter = Writer::open_with_sink_and(
        &config_at("info"),
        shared(),
        at(0),
        captured.clone(),
        WriterOptions {
            seals: SealPolicy::manual(),
            rotation: RotationPolicy::manual(),
            prev: Some(Prev::Seal("sha256:9f3a".to_string())),
            signer: Some(NoSigner),
        },
        None,
    )
    .expect("the segment opens");
    assert!(captured.text().contains("@prev     sha256:9f3a\n"));
    assert_eq!(writer.header().prev, Prev::Seal("sha256:9f3a".to_string()));
}

#[test]
fn a_failure_of_the_sink_is_reported_with_its_file() {
    assert!(sink_outcome(&None, Ok(())).is_ok());
    match sink_outcome(&Some("/var/log/a.log".to_string()), Err("disk full".to_string())) {
        Err(WriteError::Io { path, message }) => {
            assert_eq!(path.as_deref(), Some("/var/log/a.log"));
            assert_eq!(message, "disk full");
        }
        other => panic!("expected a failure of the sink, got {other:?}"),
    }
}

/// A sink that keeps count of what is flushed, and fails to flush when told to.
#[derive(Clone, Default)]
struct Counting(Arc<Mutex<(usize, usize, bool)>>);

impl LineSink for Counting {
    fn write_line(&mut self, _line: &str) -> Result<(), String> {
        self.0.lock().expect("counting").0 += 1;
        Ok(())
    }

    fn flush(&mut self) -> Result<(), String> {
        let mut state = self.0.lock().expect("counting");
        if state.2 {
            return Err("cannot flush".to_string());
        }
        state.1 = state.0;
        Ok(())
    }
}

#[test]
fn every_entry_is_flushed_as_it_is_written() {
    let sink = Counting::default();
    let mut writer: Writer<Counting, NoSigner> = Writer::open_with_sink(
        &config_at("info"),
        shared(),
        at(1_700_000_000_000),
        sink.clone(),
        None,
    )
    .expect("the segment opens");
    let flushed = |sink: &Counting| {
        let state = sink.0.lock().expect("counting");
        state.0 == state.1
    };
    assert!(flushed(&sink), "the header and the liveness");
    for n in 1..4 {
        writer
            .write(Entry::new(
                at(1_700_000_000_000 + n),
                MESSAGE_CLASS,
                "urn:a:b",
            ))
            .expect("it writes");
        assert!(flushed(&sink));
    }
    writer.seal(at(1_700_000_000_009)).expect("it seals");
    assert!(flushed(&sink));
    writer.close(at(1_700_000_000_010)).expect("it closes");
    assert!(flushed(&sink));
}

#[test]
fn a_flush_that_fails_leaves_the_writer_as_it_was() {
    let sink = Counting::default();
    // A seal is due after every entry, so what fails first is told from what fails next.
    let mut writer: Writer<Counting, NoSigner> = Writer::open_with_sink_and(
        &config_at("info"),
        shared(),
        at(1_700_000_000_000),
        sink.clone(),
        WriterOptions {
            seals: SealPolicy {
                every_entries: 1,
                every_millis: u64::MAX,
            },
            rotation: RotationPolicy::manual(),
            prev: None,
            signer: None,
        },
        None,
    )
    .expect("the segment opens");
    let head = writer.head().to_string();
    assert_eq!(writer.sequence(), 1);
    sink.0.lock().expect("counting").2 = true;
    let refused = writer.write(Entry::new(at(1_700_000_000_001), MESSAGE_CLASS, "urn:a:b"));
    assert!(matches!(refused, Err(WriteError::Io { path: None, .. })));
    assert_eq!(writer.sequence(), 1, "no number was taken");
    assert_eq!(writer.head(), head);
    sink.0.lock().expect("counting").2 = false;
    let written = writer.write(Entry::new(at(1_700_000_000_002), MESSAGE_CLASS, "urn:a:b"));
    assert_eq!(written.expect("it writes"), Some(2));
    assert_ne!(writer.head(), head, "and it was sealed");
}

#[test]
fn a_due_seal_that_fails_comes_after_the_entry() {
    // Room for the header, its liveness and seal, and for one entry more.
    let options = || WriterOptions {
        seals: SealPolicy {
            every_entries: 1,
            every_millis: u64::MAX,
        },
        rotation: RotationPolicy::manual(),
        prev: None,
        signer: None,
    };
    let captured = Captured::default();
    let opened: Writer<Captured, NoSigner> = Writer::open_with_sink_and(
        &config_at("info"),
        shared(),
        at(1_700_000_000_000),
        captured.clone(),
        options(),
        None,
    )
    .expect("the segment opens");
    drop(opened);
    let taken = captured.0.lock().expect("captured").len();
    let mut writer: Writer<Failing, NoSigner> = Writer::open_with_sink_and(
        &config_at("info"),
        shared(),
        at(1_700_000_000_000),
        Failing(taken + 1),
        options(),
        None,
    )
    .expect("the segment opens");
    let head = writer.head().to_string();
    let refused = writer.write(Entry::new(at(1_700_000_000_001), MESSAGE_CLASS, "urn:a:b"));
    assert!(matches!(refused, Err(WriteError::Io { .. })));
    assert_eq!(writer.sequence(), 2, "the entry had been written");
    assert_eq!(writer.head(), head, "and is not sealed");
}
