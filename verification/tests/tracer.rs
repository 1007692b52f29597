use std::sync::{Arc, Mutex};

use ikigai_log::tracer::{
    class_for, entry_for, flush_drops, record, DropReason, Drops, Event, DROP_REASONS,
};
use ikigai_log::{
    LineSink, LogConfig, LogHandle, SealSigner, Timestamp, Vocabulary, CAPABILITY_DENIED_CLASS,
    LOG_NS,
};

fn log(term: &str) -> String {
    format!("{LOG_NS}{term}")
}

/// Lines captured from a writer, which can be told to refuse.
#[derive(Clone, Default)]
struct Captured(Arc<Mutex<(bool, Vec<String>)>>);

impl LineSink for Captured {
    fn write_line(&mut self, line: &str) -> Result<(), String> {
        let mut state = self.0.lock().expect("captured");
        if state.0 {
            return Err("refused".to_string());
        }
        state.1.push(line.to_string());
        Ok(())
    }

    fn flush(&mut self) -> Result<(), String> {
        Ok(())
    }
}

impl Captured {
    fn text(&self) -> String {
        self.0.lock().expect("captured").1.join("\n")
    }

    fn refuse(&self, refuse: bool) {
        self.0.lock().expect("captured").0 = refuse;
    }
}

struct NoSigner;

impl SealSigner for NoSigner {
    fn algorithm(&self) -> &str {
        "Ed25519"
    }

    fn sign(&self, _tagged_hash: &str) -> Option<String> {
        None
    }
}

fn at(millis: u64) -> Timestamp {
    Timestamp::from_millis(millis)
}

fn open_handle(level: &str) -> (LogHandle<Captured, NoSigner>, Captured) {
    let mut handle = LogHandle::new(
        None,
        None,
        LogConfig::default()
            .with_instance("bug:test")
            .with_level(level)
            .expect("a real level"),
    );
    let captured = Captured::default();
    handle
        .open_with_sink(
            Vocabulary::shared_builtin().expect("the embedded vocabulary parses"),
            at(0),
            captured.clone(),
            None,
        )
        .expect("the segment opens");
    (handle, captured)
}

fn resolution() -> Event {
    Event {
        target: "urn:calendar:today".to_string(),
        thread: "ikigai-sched-2".to_string(),
        started: Some(1_000),
        ended: Some(1_012),
        cache_hit: false,
        span: 7,
        parent: Some(3),
        capability: Some(vec!["urn:cap:fs:read".to_string(), "urn:cap:net".to_string()]),
        notes: Vec::new(),
    }
}

#[test]
fn an_event_is_a_resolution_a_hit_or_a_refusal() {
    assert_eq!(class_for(&resolution()), log("Resolution"));
    assert_eq!(
        class_for(&Event {
            cache_hit: true,
            ..resolution()
        }),
        log("CacheHit")
    );
    // The note by which the kernel reports a refusal.
    assert_eq!(
        class_for(&Event {
            cache_hit: true,
            notes: vec![(
                ikigai_core::DENIED_NOTE.to_string(),
                "urn:cap:secret:read".to_string()
            )],
            ..resolution()
        }),
        CAPABILITY_DENIED_CLASS
    );
}

#[test]
fn an_event_becomes_an_entry_column_by_column() {
    let entry = entry_for(&resolution(), &log("Resolution"), at(9_999));
    assert_eq!(entry.time, at(1_000));
    assert_eq!(entry.class, log("Resolution"));
    assert_eq!(entry.subject, "urn:calendar:today");
    let expected: Vec<(String, String)> = [
        ("worker", "ikigai-sched-2"),
        ("span", "7"),
        ("parent", "3"),
        ("dur", "12"),
        ("cap", "urn:cap:fs:read"),
        ("cap", "urn:cap:net"),
    ]
    .iter()
    .map(|(k, v)| (k.to_string(), v.to_string()))
    .collect();
    assert_eq!(entry.fields, expected);

    let refused = entry_for(
        &Event {
            started: None,
            ended: None,
            parent: None,
            capability: None,
            notes: vec![("denied".to_string(), "urn:cap:secret:read".to_string())],
            ..resolution()
        },
        CAPABILITY_DENIED_CLASS,
        at(9_999),
    );
    assert_eq!(refused.time, at(9_999), "what has no start is stamped now");
    assert_eq!(refused.get("dur"), None, "a refusal ran nothing");
    assert_eq!(refused.get("parent"), None);
    assert_eq!(refused.get("cap"), None);
    assert_eq!(refused.get("denied"), Some("urn:cap:secret:read"));
}

#[test]
fn what_the_dial_includes_is_recorded() {
    let (mut handle, captured) = open_handle("debug");
    let mut drops = Drops::default();
    record(&mut handle, &mut drops, &resolution(), at(9_999));
    record(
        &mut handle,
        &mut drops,
        &Event {
            cache_hit: true,
            ..resolution()
        },
        at(9_999),
    );
    let text = captured.text();
    assert!(
        text.contains(
            "1970-01-01T00:00:01.000Z log:Resolution urn:calendar:today seq=2 \
             worker=ikigai-sched-2 span=7 parent=3 dur=12"
        ),
        "{text}"
    );
    assert!(!text.contains("CacheHit"), "{text}");
    assert!(!drops.any_pending());
}

#[test]
fn a_loss_is_counted_and_then_marked() {
    let (mut handle, captured) = open_handle("debug");
    let mut drops = Drops::default();
    captured.refuse(true);
    record(&mut handle, &mut drops, &resolution(), at(1));
    record(&mut handle, &mut drops, &resolution(), at(2));
    assert_eq!(drops.count(DropReason::WriteFailed), 2);
    assert!(drops.any_pending());
    assert_eq!(flush_drops(&mut handle, &mut drops, at(3)), 0);
    assert_eq!(
        drops.count(DropReason::WriteFailed),
        2,
        "a loss that could not be marked stays counted"
    );

    captured.refuse(false);
    assert_eq!(flush_drops(&mut handle, &mut drops, at(4)), 1);
    assert!(!drops.any_pending());
    let text = captured.text();
    assert!(text.contains("log:Dropped"), "{text}");
    assert!(text.contains("count=2 reason=write-failed"), "{text}");

    // What cannot be a line at all is lost for another reason.
    record(
        &mut handle,
        &mut drops,
        &Event {
            target: "no iri".to_string(),
            ..resolution()
        },
        at(5),
    );
    assert_eq!(drops.count(DropReason::Unwritable), 1);
}

#[test]
fn every_reason_has_its_token() {
    let reasons = [
        DropReason::WriteFailed,
        DropReason::Unwritable,
        DropReason::Reentrant,
        DropReason::Panicked,
    ];
    let mut drops = Drops::default();
    for (i, reason) in reasons.iter().enumerate() {
        assert_eq!(reason.as_str(), DROP_REASONS[i]);
        drops.drop_one(*reason);
        assert_eq!(drops.count(*reason), 1);
        drops.set(*reason, u64::MAX);
        drops.drop_one(*reason);
        assert_eq!(drops.count(*reason), 0, "a count starts over");
    }
    assert!(!drops.any_pending());
}
