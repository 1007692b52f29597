use std::sync::{Arc, Mutex};

use ikigai_log::chain::{seal_due, seal_with, signature_token, signed};
use ikigai_log::rotation::chain_broken_entries;
use ikigai_log::segments::{
    is_finished, listing, newest_for_instance, predecessor_of, verify_alone, verify_chains, Found,
    ReadSegment,
};
use ikigai_log::writer::{instance_name_of, reservation, Reservation, MAX_STAMP_ATTEMPTS};
use ikigai_log::{
    head_of, split_signature, tagged, to_turtle, verify_chain, verify_segment, Chain, Destination,
    Entry, Finding, Header, Line, LineSink, LogConfig, LogHandle, Options, Prefixes, Prev,
    RotationPolicy, Seal, SealPolicy, SealSigner, Table, Timestamp, Vocabulary, Writer,
    WriterOptions, CONFIG_IRI, HASH_ALGORITHM, LEVEL_CHANGE_CLASS, LOG_NS, MESSAGE_CLASS,
};
use oxrdf::{NamedNodeRef, NamedOrBlankNode, Term as OxTerm, Triple};
use oxrdfio::{RdfFormat, RdfParser};

fn log(term: &str) -> String {
    format!("{LOG_NS}{term}")
}

fn prefixes() -> Prefixes {
    let mut table: Prefixes = Table::new();
    table.insert("log".to_string(), LOG_NS.to_string());
    table.insert("prov".to_string(), "http://www.w3.org/ns/prov#".to_string());
    table
}

/// Lines captured from a writer, without a filesystem.
#[derive(Clone, Default)]
struct Captured(Arc<Mutex<Vec<String>>>);

impl LineSink for Captured {
    fn write_line(&mut self, line: &str) -> Result<(), String> {
        self.0.lock().expect("captured").push(line.to_string());
        Ok(())
    }

    fn flush(&mut self) -> Result<(), String> {
        Ok(())
    }
}

impl Captured {
    fn text(&self) -> String {
        let lines = self.0.lock().expect("captured");
        let mut out = lines.join("\n");
        out.push('\n');
        out
    }

    fn replace(&self, text: &str) {
        *self.0.lock().expect("captured") = text.lines().map(str::to_string).collect();
    }
}

/// A signer that is not cryptography: it is the seam.
struct TestSigner;

impl SealSigner for TestSigner {
    fn algorithm(&self) -> &str {
        "Ed25519"
    }

    fn sign(&self, tagged_hash: &str) -> Option<String> {
        // Deterministic and dependent on the input, so a seal signed over the wrong hash
        // would show up as the wrong token rather than as no token.
        Some(format!("SIG{}", &tagged_hash[tagged_hash.len() - 8..]))
    }
}

type TestWriter = Writer<Captured, TestSigner>;

fn at(millis: u64) -> Timestamp {
    Timestamp::from_millis(millis)
}

fn builtin() -> Vocabulary {
    Vocabulary::builtin().expect("the embedded vocabulary parses")
}

fn shared() -> Arc<Vocabulary> {
    Vocabulary::shared_builtin().expect("the embedded vocabulary parses")
}

fn config_at(level: &str) -> LogConfig {
    LogConfig::default()
        .with_instance("bug:test")
        .with_level(level)
        .expect("a level this vocabulary defines")
}

fn writer_at(level: &str) -> (TestWriter, Captured) {
    let captured = Captured::default();
    let writer = Writer::open_with_sink(
        &config_at(level),
        shared(),
        at(1_700_000_000_000),
        captured.clone(),
        Some(4711),
    )
    .expect("the segment opens");
    (writer, captured)
}

fn message(now: u64, text: &str) -> Entry {
    Entry::new(at(now), MESSAGE_CLASS, "urn:agent:test").with("msg", text)
}

/// The segment files of a log directory, kept in memory, by file name.
#[derive(Default)]
struct Disk(Vec<(String, Captured)>);

impl Disk {
    fn reserve(&mut self, name: &str, now: Timestamp) -> (Reservation, Captured) {
        for attempt in 0..MAX_STAMP_ATTEMPTS {
            let reserved = reservation(name, now, attempt).expect("an attempt");
            if self.0.iter().all(|(file, _)| *file != reserved.file) {
                let sink = Captured::default();
                self.0.push((reserved.file.clone(), sink.clone()));
                return (reserved, sink);
            }
        }
        panic!("every stamp is taken");
    }

    fn found(&self) -> Vec<Found> {
        self.0
            .iter()
            .filter_map(|(file, lines)| {
                let (header, _) = Header::parse(&lines.text()).ok()?;
                Some(Found {
                    name: header.name,
                    instance: header.instance,
                    path: file.clone(),
                })
            })
            .collect()
    }

    fn lines(&self, segment: &str) -> Captured {
        self.0
            .iter()
            .find(|(_, lines)| {
                Header::parse(&lines.text()).is_ok_and(|(h, _)| h.name == segment)
            })
            .map(|(_, lines)| lines.clone())
            .unwrap_or_else(|| panic!("a file for <{segment}>"))
    }

    /// Every segment, as `(IRI, bytes)`, oldest first.
    fn segments(&self) -> Vec<(String, String)> {
        let mut all: Vec<(String, String)> = self
            .0
            .iter()
            .map(|(_, lines)| {
                let text = lines.text();
                let (header, _) = Header::parse(&text).expect("a segment");
                (header.name, text)
            })
            .collect();
        all.sort();
        all
    }

    fn remove(&mut self, segment: &str) {
        self.0.retain(|(_, lines)| {
            !Header::parse(&lines.text()).is_ok_and(|(h, _)| h.name == segment)
        });
    }
}

/// A process that logs to files.
struct Process {
    disk: Disk,
    handle: LogHandle<Captured, TestSigner>,
}

impl Process {
    fn open(disk: Disk, instance: &str, level: &str, now: u64) -> Process {
        let config = LogConfig::default()
            .with_instance(instance)
            .with_level(level)
            .expect("a real level")
            .with_destination(Destination::File)
            .with_directory("/logs");
        let mut process = Process {
            disk,
            handle: LogHandle::new(Some("/cfg".to_string()), None, config),
        };
        process.start(now);
        process
    }

    fn start(&mut self, now: u64) {
        let config = self.handle.config().duplicate();
        let name = config.instance_name();
        let found = self.disk.found();
        let prev = match newest_for_instance(&found, &config.instance) {
            Some(i) => Prev::Seal(
                head_of(&self.disk.lines(&found[i].name).text()).expect("a chain head"),
            ),
            None => Prev::Genesis,
        };
        let (reserved, sink) = self.disk.reserve(&name, at(now));
        let writer = Writer::open_on(
            &config,
            shared(),
            at(now),
            WriterOptions {
                seals: config.seals,
                rotation: config.rotation,
                prev: Some(prev),
                signer: None,
            },
            sink,
            Some(reserved.file),
            Some(name),
            Some(reserved.stamp),
            Some(4711),
        )
        .expect("the segment opens");
        self.handle.attach(writer);
    }

    fn segment(&self) -> String {
        self.handle.open_segment().expect("a segment is open").0
    }

    fn write(&mut self, entry: Entry) -> Option<u64> {
        let now = entry.time;
        let seq = self.handle.write(entry).expect("it writes");
        if self.handle.rotation_due(now) {
            self.rotate(now.as_millis());
        }
        seq
    }

    fn rotate(&mut self, now: u64) -> String {
        let (segment, instance) = self.handle.open_segment().expect("a segment is open");
        let found = self.disk.found();
        let mut chain: Vec<(String, String)> = Vec::new();
        if let Some(i) = predecessor_of(&found, &instance, &segment) {
            let name = found[i].name.clone();
            let text = self.disk.lines(&name).text();
            chain.push((name, text));
        }
        let (reserved, sink) = self.disk.reserve(&instance_name_of(&instance), at(now));
        let closed = self
            .handle
            .rotate_out(at(now), Some(&reserved.iri))
            .expect("the rotation completes")
            .expect("a segment was open");
        self.handle
            .succeed(
                closed,
                shared(),
                at(now),
                &reserved,
                Some(reserved.file.clone()),
                sink,
                Some(4711),
            )
            .expect("the successor opens");
        chain.push((segment.clone(), self.disk.lines(&segment).text()));
        chain.push((reserved.iri.clone(), self.disk.lines(&reserved.iri).text()));
        self.handle.validate(&chain, &builtin(), at(now));
        reserved.iri
    }

    fn close(&mut self, now: u64) {
        self.handle
            .close(at(now))
            .expect("an orderly close")
            .expect("a segment was open");
    }
}

/// Re-parse a serialization as RDF and hand back its triples.
fn reparse(turtle: &str) -> Vec<Triple> {
    RdfParser::from_format(RdfFormat::Turtle)
        .for_slice(turtle.as_bytes())
        .map(|quad| quad.expect("the emitted Turtle re-parses").into())
        .collect()
}

fn graph_of(text: &str) -> Vec<Triple> {
    reparse(&to_turtle(text, &builtin(), &Options::all()).expect("it becomes a graph"))
}

fn string(value: &str) -> OxTerm {
    OxTerm::Literal(oxrdf::Literal::new_simple_literal(value))
}

fn node(iri: &str) -> OxTerm {
    OxTerm::NamedNode(NamedNodeRef::new(iri).expect("an IRI").into_owned())
}

fn states(triples: &[Triple], subject: &str, predicate: &str, object: OxTerm) -> bool {
    let subject =
        NamedOrBlankNode::NamedNode(NamedNodeRef::new(subject).expect("an IRI").into_owned());
    triples
        .iter()
        .any(|t| t.subject == subject && t.predicate.as_str() == predicate && t.object == object)
}

// =====================================================================================
// The chain and the seals
// =====================================================================================

#[test]
fn a_hash_is_tagged_with_its_algorithm() {
    assert_eq!(
        tagged(b""),
        "sha256:e3b0c44298fc1c149afbf4c8996fb92427ae41e4649b934ca495991b7852b855"
    );
    assert_eq!(
        tagged(b"abc"),
        "sha256:ba7816bf8f01cfea414140de5dae2223b00361a396177a9cb410ff61f20015ad"
    );
    assert!(tagged(b"abc").starts_with(&format!("{HASH_ALGORITHM}:")));
}

#[test]
fn the_chain_folds_in_one_line_after_the_other() {
    let mut chain = Chain::from_head("sha256:00".to_string());
    chain.advance("a line");
    assert_eq!(chain.head(), tagged(b"sha256:00\na line"));

    let mut other = Chain::from_head("sha256:00".to_string());
    other.advance("another line");
    assert_ne!(other.head(), chain.head());
}

#[test]
fn a_segment_chains_and_seals_and_the_seal_is_the_chain_head() {
    let (mut writer, captured) = writer_at("info");
    writer.write(message(1, "one")).expect("writes");
    writer.write(message(2, "two")).expect("writes");
    let seal = writer
        .seal(at(3))
        .expect("the seal lands")
        .expect("there was something to seal");
    assert_eq!((seal.first, seal.last), (1, 3), "ProcessStart is seq 1");

    let text = captured.text();
    let (header, offset) = Header::parse(&text).expect("a segment");
    let mut recomputed = Chain::open(&header);
    for raw in text[offset..].lines() {
        if let Ok(Line::Entry(_)) = Line::parse(raw, &header.prefixes) {
            recomputed.advance(raw);
        }
    }
    assert_eq!(
        seal.hash,
        recomputed.head(),
        "a reader recomputes exactly what the writer committed"
    );
    assert!(
        seal.hash.starts_with("sha256:"),
        "tagged at the boundary: {}",
        seal.hash
    );
    assert_eq!(
        seal.signature, None,
        "no signer was installed, and that is a supported posture"
    );
    assert!(
        !text
            .lines()
            .filter(|l| !l.starts_with("#seal"))
            .any(|l| l.contains("sha256:")),
        "not a hash per line\n{text}"
    );
    assert_eq!(writer.seal(at(4)).expect("nothing new"), None);
}

#[test]
fn the_seal_cadence_fires_on_entries_and_on_time_and_both_are_needed() {
    let captured = Captured::default();
    let mut writer: TestWriter = Writer::open_with_sink_and(
        &config_at("info"),
        shared(),
        at(0),
        captured.clone(),
        WriterOptions {
            seals: SealPolicy {
                every_entries: 3,
                every_millis: 10_000,
            },
            rotation: RotationPolicy::manual(),
            prev: None,
            signer: None,
        },
        None,
    )
    .expect("the segment opens");

    // Three entries including the ProcessStart: the count bound fires.
    writer.write(message(1, "a")).expect("writes");
    writer.write(message(2, "b")).expect("writes");
    let seals: Vec<Seal> = captured
        .text()
        .lines()
        .filter_map(|l| Seal::parse(l).ok())
        .collect();
    assert_eq!(seals.len(), 1, "3 entries reached the count bound");
    assert_eq!((seals[0].first, seals[0].last), (1, 3));

    // One more entry, far too few for the count bound, but past the time bound.
    writer.write(message(20_000, "c")).expect("writes");
    let seals: Vec<Seal> = captured
        .text()
        .lines()
        .filter_map(|l| Seal::parse(l).ok())
        .collect();
    assert_eq!(
        seals.len(),
        2,
        "the time bound sealed a tail the count bound would have left open for \
         as long as the log stayed quiet"
    );
    assert_eq!((seals[1].first, seals[1].last), (4, 4));
}

#[test]
fn the_cadences_have_their_bounds() {
    let policy = SealPolicy {
        every_entries: 3,
        every_millis: 10_000,
    };
    assert!(!policy.due(2, 9_999));
    assert!(policy.due(3, 0));
    assert!(policy.due(1, 10_000));
    assert!(!SealPolicy::manual().due(1_000_000, 1_000_000));
    assert_eq!(SealPolicy::default().every_entries, 1_000);
    assert_eq!(SealPolicy::default().every_millis, 60_000);

    let rotation = RotationPolicy {
        max_entries: Some(3),
        max_age_millis: Some(1_000),
    };
    assert!(!rotation.due(2, 999));
    assert!(rotation.due(3, 0));
    assert!(rotation.due(1, 1_000));
    assert!(!RotationPolicy::manual().due(u64::MAX, u64::MAX));

    assert!(seal_due(&policy, 4, 1, at(0), at(0)));
    assert!(!seal_due(&policy, 3, 1, at(0), at(0)));
    assert!(
        !seal_due(&policy, 3, 3, at(50_000), at(0)),
        "nothing to seal"
    );
    assert!(
        !seal_due(&policy, 3, 1, at(0), at(50_000)),
        "a clock that went back is no time passed"
    );
}

#[test]
fn a_signer_signs_the_tagged_hash_and_the_token_splits_into_the_graph() {
    let captured = Captured::default();
    let mut writer: TestWriter = Writer::open_with_sink_and(
        &config_at("info"),
        shared(),
        at(0),
        captured.clone(),
        WriterOptions {
            seals: SealPolicy::manual(),
            rotation: RotationPolicy::manual(),
            prev: None,
            signer: Some(TestSigner),
        },
        None,
    )
    .expect("the segment opens");
    writer.write(message(1, "signed")).expect("writes");
    let seal = writer
        .seal(at(2))
        .expect("seals")
        .expect("something to seal");

    let token = seal.signature.clone().expect("the signer was reached");
    let (algorithm, value) = split_signature(&token).expect("the token is tagged");
    assert_eq!(algorithm, "Ed25519");
    assert_eq!(
        value,
        format!("SIG{}", &seal.hash[seal.hash.len() - 8..]),
        "what was signed is the tagged chain hash"
    );

    // And the graph splits it.
    let triples = graph_of(&captured.text());
    let (segment, _) = Header::parse(&captured.text())
        .map(|(h, _)| (h.name, ()))
        .expect("a segment");
    let seal_node = format!("{segment}:seal:1-2");
    assert!(
        states(
            &triples,
            &seal_node,
            "https://ikigai-rs.dev/ns/sign#algorithm",
            string("Ed25519")
        ),
        "sig:algorithm, split out of the line's packed column"
    );
    assert!(
        states(
            &triples,
            &seal_node,
            "https://ikigai-rs.dev/ns/sign#value",
            string(&value)
        ),
        "sig:value is the signature alone, as it is in a signature-graph"
    );
    assert!(
        states(
            &triples,
            &seal_node,
            "https://ikigai-rs.dev/ns/sign#contentHash",
            string(&seal.hash)
        ),
        "sig:contentHash is tagged at both ends, so the two producers join"
    );
}

#[test]
fn a_signature_token_is_its_algorithm_and_its_value() {
    assert_eq!(signature_token("ES256", "MEUC"), "ES256:MEUC");
    assert_eq!(
        split_signature("ES256:ME:UC"),
        Some(("ES256".to_string(), "ME:UC".to_string()))
    );
    assert_eq!(split_signature("untagged"), None);
    assert_eq!(
        signed(&Some(TestSigner), "sha256:0123456789abcdef"),
        Some("Ed25519:SIG89abcdef".to_string())
    );
    assert_eq!(signed(&None::<TestSigner>, "sha256:00"), None);
    assert_eq!(
        seal_with(3, 7, "sha256:00", Some("Ed25519:S".to_string())),
        Seal {
            first: 4,
            last: 7,
            hash: "sha256:00".to_string(),
            signature: Some("Ed25519:S".to_string()),
        }
    );
}

// =====================================================================================
// Verification
// =====================================================================================

#[test]
fn a_tampered_entry_inside_a_sealed_range_fails_and_the_failure_names_the_range() {
    let mut process = Process::open(Disk::default(), "bug:tamper", "info", 1_700_000_000_000);
    let segment = process.segment();
    process.write(message(1_700_000_001_000, "before"));
    process.write(message(1_700_000_002_000, "middle"));
    process.write(message(1_700_000_003_000, "after"));
    process.close(1_700_000_004_000);

    let honest = process.disk.lines(&segment).text();
    assert!(
        verify_segment(&honest, &builtin(), None).ok(),
        "the untampered segment verifies"
    );

    // The attacker rewrites one message and leaves everything else alone.
    let tampered = honest.replace(r#"msg=middle"#, r#"msg=innocent"#);
    assert_ne!(tampered, honest, "the tamper actually applied");

    let report = verify_segment(&tampered, &builtin(), None);
    assert!(!report.ok(), "a tampered entry does not verify");
    let named = report
        .findings
        .iter()
        .find_map(|f| match f {
            Finding::SealMismatch { first, last, .. } => Some((*first, *last)),
            _ => None,
        })
        .expect("the failure is a seal mismatch");
    assert_eq!(
        named,
        (1, 5),
        "and it names the range: ProcessStart, three messages, ProcessStop"
    );
    assert!(
        report
            .render_findings()
            .contains("between sequence 1 and 5"),
        "the range is in the words, not only in the struct: {}",
        report.render_findings()
    );
}

#[test]
fn a_forged_replacement_segment_fails_because_at_prev_does_not_match() {
    let mut process = Process::open(Disk::default(), "bug:forge", "info", 1_700_000_000_000);
    let first = process.segment();
    process.write(message(1_700_000_001_000, "damning"));
    process.write(message(1_700_000_002_000, "ordinary"));
    process.rotate(1_700_000_060_000);
    process.write(message(1_700_000_061_000, "later"));
    process.close(1_700_000_062_000);

    let on_disk = process.disk.segments();
    assert_eq!(on_disk.len(), 2, "one rotation makes two segments");
    assert!(
        verify_chain(&on_disk, &builtin()).ok(),
        "the honest chain verifies:\n{}",
        verify_chain(&on_disk, &builtin()).render()
    );

    // The forgery: the damning entry is gone, and everything a per-file check could look
    // at has been made consistent again.
    let honest = process.disk.lines(&first).text();
    let forged = forge_without(&honest, "damning");
    process.disk.lines(&first).replace(&forged);

    assert!(
        verify_segment(&forged, &builtin(), None).ok(),
        "the forgery is internally perfect:\n{}",
        verify_segment(&forged, &builtin(), None).render_findings()
    );
    assert!(
        !forged.contains("damning"),
        "and the entry is genuinely gone"
    );

    let report = verify_chain(&process.disk.segments(), &builtin());
    assert!(
        !report.ok(),
        "the chain spans the rotation, so the forgery is caught:\n{}",
        report.render()
    );
    let successor = report
        .segments
        .iter()
        .find(|s| s.name != first)
        .expect("the successor is in the report");
    assert!(
        successor
            .findings
            .iter()
            .any(|f| matches!(f, Finding::PrevMismatch { .. })),
        "and it is caught at the seam: {:?}",
        successor.findings
    );
}

/// Rebuild a segment without the entries matching `drop`, as a competent forger would:
/// sequences renumbered densely, every seal recomputed over the surviving chain, header
/// untouched.
fn forge_without(text: &str, drop: &str) -> String {
    let (header, offset) = Header::parse(text).expect("a segment");
    let mut out = header.render().expect("the header renders");
    let mut chain = Chain::open(&header);
    let mut seq = 0u64;
    let mut sealed = 0u64;
    for raw in text[offset..].lines() {
        match Line::parse(raw, &header.prefixes) {
            Ok(Line::Entry(entry)) => {
                if raw.contains(drop) {
                    continue;
                }
                seq += 1;
                let mut fields = vec![("seq".to_string(), seq.to_string())];
                fields.extend(
                    entry
                        .fields
                        .iter()
                        .filter(|(k, _)| k != "seq")
                        .cloned()
                        .collect::<Vec<_>>(),
                );
                let line = Entry {
                    time: entry.time,
                    class: entry.class,
                    subject: entry.subject,
                    fields,
                }
                .render(&header.prefixes)
                .expect("renders");
                chain.advance(&line);
                out.push_str(&line);
                out.push('\n');
            }
            Ok(Line::Seal(_)) if seq > sealed => {
                out.push_str(
                    &Seal {
                        first: sealed + 1,
                        last: seq,
                        hash: chain.head().to_string(),
                        signature: None,
                    }
                    .render(),
                );
                out.push('\n');
                sealed = seq;
            }
            _ => {}
        }
    }
    out
}

#[test]
fn a_rotation_that_cannot_verify_its_predecessor_lands_chain_broken_and_does_not_panic() {
    let mut process = Process::open(Disk::default(), "bug:broken", "info", 1_700_000_000_000);
    let first = process.segment();
    process.write(message(1_700_000_001_000, "one"));
    process.rotate(1_700_000_060_000);

    // Tamper the now-sealed first segment while the process runs on.
    let text = process.disk.lines(&first).text();
    process
        .disk
        .lines(&first)
        .replace(&text.replace("msg=one", "msg=two"));

    process.write(message(1_700_000_061_000, "second"));
    let third = process.rotate(1_700_000_120_000);

    let opened = process.disk.lines(&third).text();
    assert!(
        opened.contains("log:ChainBroken"),
        "the rotation recorded what it found, in the log:\n{opened}"
    );
    assert!(
        opened.contains(&first),
        "and it names the segment that failed, not merely that something did"
    );
    assert!(
        opened.contains("finding="),
        "with what was wrong, in the words verify uses:\n{opened}"
    );

    // Not fatal, and that is deliberate.
    assert!(process.handle.is_open(), "the log kept logging");
    process.close(1_700_000_121_000);
}

#[test]
fn an_honest_rotation_lands_nothing() {
    let mut process = Process::open(Disk::default(), "bug:honest", "info", 1_700_000_000_000);
    process.write(message(1_700_000_001_000, "one"));
    let second = process.rotate(1_700_000_060_000);
    assert!(!process.disk.lines(&second).text().contains("ChainBroken"));
    let chain = process.disk.segments();
    assert!(chain_broken_entries(&chain, &builtin(), at(0)).is_empty());

    let cut = vec![(chain[0].0.clone(), chain[0].1.clone())];
    let broken = chain_broken_entries(&cut, &builtin(), at(7));
    assert_eq!(broken.len(), 1, "the successor it names is missing");
    assert_eq!(broken[0].subject, chain[0].0);
    assert_eq!(broken[0].time, at(7));
    assert_eq!(broken[0].class, log("ChainBroken"));
}

#[test]
fn the_chain_survives_a_restart_and_a_different_instance_starts_its_own() {
    let mut first = Process::open(Disk::default(), "bug:restart", "info", 1_700_000_000_000);
    let first_segment = first.segment();
    first.write(message(1_700_000_001_000, "run one"));
    first.close(1_700_000_002_000);
    let head = head_of(&first.disk.lines(&first_segment).text()).expect("a chain head");

    let mut second = Process::open(first.disk, "bug:restart", "info", 1_700_000_060_000);
    let second_segment = second.segment();
    second.close(1_700_000_061_000);
    let (header, _) =
        Header::parse(&second.disk.lines(&second_segment).text()).expect("a segment");
    assert_eq!(
        header.prev,
        Prev::Seal(head),
        "a new process continues the chain"
    );

    // A different instance is a different chain, and starts at genesis.
    let mut other = Process::open(second.disk, "bug:other", "info", 1_700_000_120_000);
    let other_segment = other.segment();
    other.close(1_700_000_121_000);
    let (header, _) = Header::parse(&other.disk.lines(&other_segment).text()).expect("a segment");
    assert_eq!(header.prev, Prev::Genesis);
}

#[test]
fn a_bracketed_gap_verifies_and_an_unexplained_one_does_not() {
    for bracketed in [true, false] {
        let mut process = Process::open(Disk::default(), "bug:level", "debug", 1_700_000_000_000);
        process.write(message(1_700_000_001_000, "at debug"));
        if bracketed {
            process
                .write(
                    Entry::new(at(1_700_000_002_000), LEVEL_CHANGE_CLASS, CONFIG_IRI)
                        .with("key", "level")
                        .with("from", "https://ikigai-rs.dev/ns/log#debug")
                        .with("to", "https://ikigai-rs.dev/ns/log#info")
                        .with("effective", "next-segment"),
                )
                .expect("an always-land entry lands at every level");
        }
        let lowered = process
            .handle
            .config()
            .duplicate()
            .with_level("info")
            .expect("a level the vocabulary defines");
        process.handle.set_config(lowered);
        process.rotate(1_700_000_060_000);
        process.close(1_700_000_061_000);

        let report = verify_chain(&process.disk.segments(), &builtin());
        let unbracketed = report.segments.iter().any(|s| {
            s.findings
                .iter()
                .any(|f| matches!(f, Finding::UnbracketedLevelChange { .. }))
        });
        if bracketed {
            assert!(
                report.ok() && !unbracketed,
                "a level change that left a marker is explained absence:\n{}",
                report.render()
            );
        } else {
            assert!(
                unbracketed && !report.ok(),
                "the level dropped from debug to info and nothing recorded it:\n{}",
                report.render()
            );
        }
    }
}

#[test]
fn a_removed_entry_is_caught_by_the_sequence_even_where_a_level_would_not_explain_it() {
    let (mut writer, captured) = writer_at("info");
    writer.write(message(1, "kept")).expect("writes");
    writer
        .write(Entry::new(at(2), &log("Resolution"), "urn:x"))
        .expect("filtered at info");
    writer.write(message(3, "also kept")).expect("writes");
    let text = captured.text();
    assert!(
        text.contains("seq=2") && text.contains("seq=3") && !text.contains("Resolution"),
        "the filtered entry consumed no sequence number:\n{text}"
    );

    let gutted = text
        .lines()
        .filter(|l| !l.contains("msg=kept"))
        .collect::<Vec<_>>()
        .join("\n");
    let report = verify_segment(&format!("{gutted}\n"), &builtin(), None);
    assert!(
        report
            .findings
            .iter()
            .any(|f| matches!(f, Finding::SequenceGap { after: 1, next: 3 })),
        "{:?}",
        report.findings
    );
}

#[test]
fn a_crashed_tail_is_noted_and_not_called_broken() {
    let (mut writer, captured) = writer_at("info");
    writer
        .write(message(1, "and then nothing"))
        .expect("writes");
    let report = verify_segment(&captured.text(), &builtin(), None);
    assert!(
        report.ok(),
        "a crash is not tampering:\n{}",
        report.render_findings()
    );
    assert!(
        report
            .findings
            .iter()
            .any(|f| matches!(f, Finding::UnmarkedEnd { .. })),
        "but it is reported: {:?}",
        report.findings
    );
    assert!(report
        .findings
        .iter()
        .any(|f| matches!(f, Finding::UnsealedTail { from: 1, to: 2 })));
}

#[test]
fn a_rotated_segment_is_finished_and_a_live_or_crashed_one_is_not() {
    let mut process = Process::open(Disk::default(), "bug:rot", "info", 1_700_000_000_000);
    let first = process.segment();
    process.write(message(1_700_000_001_000, "before"));
    let second = process.rotate(1_700_000_060_000);
    assert_ne!(first, second, "a rotation opens a new segment");

    let vocab = builtin();
    let text = process.disk.lines(&first).text();
    assert!(
        is_finished(&first, Some(&second), &text, &vocab),
        "a rotated segment is as immutable as a stopped one"
    );
    assert!(!is_finished(
        &second,
        Some(&second),
        &process.disk.lines(&second).text(),
        &vocab
    ));
    assert!(
        !is_finished(&first, Some(&first), &text, &vocab),
        "what this process is writing is never finished"
    );

    // And the rotation marker is the last entry, followed by its final seal alone.
    let last_entry = text
        .lines()
        .rfind(|l| Line::parse(l, &prefixes()).is_ok_and(|l| matches!(l, Line::Entry(_))))
        .expect("entries");
    assert!(last_entry.contains("log:Rotation"), "{text}");
    assert!(
        text.lines().last().is_some_and(|l| l.starts_with("#seal")),
        "and the seal covers it:\n{text}"
    );
    process.close(1_700_000_120_000);
    assert!(is_finished(
        &second,
        None,
        &process.disk.lines(&second).text(),
        &vocab
    ));

    let crashed: String = process
        .disk
        .lines(&second)
        .text()
        .lines()
        .filter(|l| !l.contains("ProcessStop"))
        .map(|l| format!("{l}\n"))
        .collect();
    assert!(!is_finished(&second, None, &crashed, &vocab));
}

#[test]
fn the_rotation_marker_names_its_successor() {
    let mut process = Process::open(Disk::default(), "bug:next", "info", 1_700_000_000_000);
    let first = process.segment();
    let second = process.rotate(1_700_000_060_000);
    let text = process.disk.lines(&first).text();
    assert!(
        text.contains(&format!("next={second}")),
        "the successor's IRI is derivable at the moment of rotation:\n{text}"
    );
    process.close(1_700_000_061_000);

    // And it becomes an edge, not a string: log:successor's range is log:Segment.
    let triples = graph_of(&text);
    assert!(
        states(
            &triples,
            &format!("{first}:2"),
            "https://ikigai-rs.dev/ns/log#successor",
            node(&second)
        ),
        "log:successor is an IRI"
    );
}

#[test]
fn a_rotation_policy_rolls_the_segment_over_without_being_asked() {
    let config = LogConfig::default()
        .with_instance("bug:auto")
        .with_level("info")
        .expect("a real level")
        .with_destination(Destination::File)
        .with_directory("/logs");
    let mut process = Process {
        disk: Disk::default(),
        handle: LogHandle::new(Some("/cfg".to_string()), None, config),
    };
    process.handle.set_policies(
        SealPolicy::default(),
        RotationPolicy {
            max_entries: Some(3),
            max_age_millis: None,
        },
    );
    process.start(1_700_000_000_000);

    // ProcessStart is seq 1; two more reaches the bound and rolls over.
    process.write(message(1_700_000_001_000, "a"));
    process.write(message(1_700_000_002_000, "b"));
    assert_eq!(
        process.disk.segments().len(),
        2,
        "the segment rolled over on its own: the write is the only moment there \
         is to judge the policy at"
    );
    process.close(1_700_000_003_000);
    let report = verify_chain(&process.disk.segments(), &builtin());
    assert!(
        report.ok(),
        "and the chain is intact across it:\n{}",
        report.render()
    );
}

#[test]
fn deleting_the_newest_segment_is_caught_by_the_rotation_marker() {
    let mut process = Process::open(Disk::default(), "bug:trunc", "info", 1_700_000_000_000);
    let first = process.segment();
    let second = process.rotate(1_700_000_060_000);
    process.write(message(1_700_000_061_000, "recent"));
    process.close(1_700_000_062_000);
    assert!(
        verify_chain(&process.disk.segments(), &builtin()).ok(),
        "the intact chain verifies"
    );

    process.disk.remove(&second);
    let report = verify_chain(&process.disk.segments(), &builtin());
    assert!(!report.ok(), "{}", report.render());
    assert!(
        report.segments.iter().any(|s| s.findings.iter().any(|f| {
            matches!(f, Finding::MissingSuccessor { after, successor }
                if after == &first && successor == &second)
        })),
        "and it names both ends of the cut:\n{}",
        report.render()
    );
}

#[test]
fn two_rotations_within_a_second_are_two_segments() {
    let mut process = Process::open(Disk::default(), "bug:fast", "info", 1_700_000_000_000);
    let first = process.segment();
    let second = process.rotate(1_700_000_000_100);
    let third = process.rotate(1_700_000_000_200);
    assert_eq!(second, format!("{first}-1"));
    assert_eq!(third, format!("{first}-2"));
    process.close(1_700_000_000_300);
    assert!(verify_chain(&process.disk.segments(), &builtin()).ok());
}

#[test]
fn each_thing_that_can_be_wrong_is_found() {
    let mut process = Process::open(Disk::default(), "bug:all", "info", 1_700_000_000_000);
    let segment = process.segment();
    process.write(message(1_700_000_001_000, "one"));
    process.close(1_700_000_002_000);
    let honest = process.disk.lines(&segment).text();
    let vocab = builtin();
    let found = |text: &str, predecessor: Option<(&str, &str)>| {
        verify_segment(text, &vocab, predecessor).findings
    };

    assert_eq!(found(&honest, None), Vec::new());
    assert!(matches!(
        found("no segment", None)[..],
        [Finding::Malformed { line: 1, .. }]
    ));
    let scrawled = format!("{honest}not a line\n");
    let lines = scrawled.lines().count();
    assert!(found(&scrawled, None)
        .iter()
        .any(|f| matches!(f, Finding::Malformed { line, .. } if *line == lines)));
    let late = format!("{honest}@level log:trace\n");
    assert!(found(&late, None)
        .iter()
        .any(|f| matches!(f, Finding::Malformed { .. })));
    let jumped = honest.replace("#seal 1-3", "#seal 2-3");
    assert!(found(&jumped, None).contains(&Finding::SealRangeGap {
        after: 0,
        next_first: 2
    }));
    assert!(matches!(
        found(&honest, Some(("urn:log:p", "sha256:00")))[..],
        [Finding::UnexpectedGenesis { .. }]
    ));
    for finding in found(&jumped, None) {
        assert!(!finding.message().is_empty());
    }
}

// =====================================================================================
// The reports
// =====================================================================================

#[test]
fn every_segment_is_reported_on_one_line_and_the_total_on_the_last() {
    let mut process = Process::open(Disk::default(), "bug:vrfy", "info", 1_700_000_000_000);
    let segment = process.segment();
    process.write(message(1_700_000_001_000, "one"));
    process.close(1_700_000_002_000);

    let honest = process.disk.lines(&segment).text();
    let read = |text: &str| {
        vec![ReadSegment {
            instance: "urn:ikigai:instance:bug:vrfy".to_string(),
            name: segment.clone(),
            text: text.to_string(),
        }]
    };
    let body = verify_chains(&read(&honest), &builtin(), None, None).expect("a report");
    assert!(
        body.contains(&format!("segment {segment} OK")),
        "one greppable line per segment: {body}"
    );
    assert!(body.contains("verified 1 segment(s), 0 broken"), "{body}");

    // A segment verified alone is checked for everything but its link.
    let piped = verify_alone(&honest, &builtin());
    assert!(piped.contains("OK"), "{piped}");
    let tampered = honest.replace("msg=one", "msg=two");
    let piped = verify_alone(&tampered, &builtin());
    assert!(piped.contains("BROKEN"), "{piped}");
    let broken = verify_chains(&read(&tampered), &builtin(), None, None).expect("a report");
    assert!(broken.contains("verified 1 segment(s), 1 broken"), "{broken}");

    // What was asked for and is not there is no report.
    assert!(verify_chains(
        &read(&honest),
        &builtin(),
        Some("urn:ikigai:instance:other"),
        None
    )
    .is_none());
    assert!(
        verify_chains(&read(&honest), &builtin(), None, Some("urn:log:none")).is_none()
    );
    assert!(verify_chains(&read(&honest), &builtin(), None, Some(&segment)).is_some());
}

#[test]
fn segments_are_listed_by_the_name_they_state() {
    let found = vec![
        ("urn:log:b".to_string(), "/logs/2.log".to_string()),
        ("urn:log:a".to_string(), "/logs/renamed.log".to_string()),
    ];
    assert_eq!(listing(&found), "urn:log:a\nurn:log:b\n");
    assert_eq!(listing(&Vec::new()), "");
}

#[test]
fn the_newest_segment_of_an_instance_is_found_and_the_one_before_another() {
    let found: Vec<Found> = [("b", "x"), ("c", "y"), ("a", "x"), ("d", "x")]
        .iter()
        .map(|(name, instance)| Found {
            name: format!("urn:log:{name}"),
            instance: format!("urn:i:{instance}"),
            path: format!("/logs/{name}.log"),
        })
        .collect();
    assert_eq!(newest_for_instance(&found, "urn:i:x"), Some(3));
    assert_eq!(newest_for_instance(&found, "urn:i:y"), Some(1));
    assert_eq!(newest_for_instance(&found, "urn:i:z"), None);
    assert_eq!(predecessor_of(&found, "urn:i:x", "urn:log:d"), Some(0));
    assert_eq!(predecessor_of(&found, "urn:i:x", "urn:log:a"), None);
}
