use std::collections::HashSet;
use std::sync::{Arc, Mutex};

use ikigai_log::graph::{serialize, value_term};
use ikigai_log::segments::ServeError;
use ikigai_log::{
    to_triples, to_turtle, Entry, GraphError, LineSink, LogConfig, Options, SealSigner, Term,
    Timestamp, TransreptEndpoint, Triple as Fact, Vocabulary, Writer, LOG_NS, SIG_NS,
    TURTLE_MEDIA_TYPE,
};
use oxrdf::{NamedNodeRef, NamedOrBlankNode, Term as OxTerm, Triple};
use oxrdfio::{RdfFormat, RdfParser};

const PROV: &str = "http://www.w3.org/ns/prov#";
const RDF_TYPE: &str = "http://www.w3.org/1999/02/22-rdf-syntax-ns#type";

fn log(term: &str) -> String {
    format!("{LOG_NS}{term}")
}

/// Lines captured from a writer, without a filesystem.
#[derive(Clone, Default)]
struct Captured(Arc<Mutex<Vec<String>>>);

impl LineSink for Captured {
    fn write_line(&mut self, line: &str) -> Result<(), String> {
        self.0.lock().expect("captured").push(line.to_string());
        Ok(())
    }

    fn flush(&mut self) -> Result<(), String> {
        Ok(())
    }
}

impl Captured {
    fn text(&self) -> String {
        let lines = self.0.lock().expect("captured");
        let mut out = lines.join("\n");
        out.push('\n');
        out
    }
}

struct NoSigner;

impl SealSigner for NoSigner {
    fn algorithm(&self) -> &str {
        "Ed25519"
    }

    fn sign(&self, _tagged_hash: &str) -> Option<String> {
        None
    }
}

type TestWriter = Writer<Captured, NoSigner>;

fn at(millis: u64) -> Timestamp {
    Timestamp::from_millis(millis)
}

fn builtin() -> Vocabulary {
    Vocabulary::builtin().expect("the embedded vocabulary parses")
}

fn config_at(level: &str) -> LogConfig {
    LogConfig::default()
        .with_instance("bug:test")
        .with_level(level)
        .expect("a level this vocabulary defines")
}

fn writer_over(level: &str, vocabulary: Arc<Vocabulary>) -> (TestWriter, Captured) {
    let captured = Captured::default();
    let writer = Writer::open_with_sink(
        &config_at(level),
        vocabulary,
        at(1_700_000_000_000),
        captured.clone(),
        Some(4711),
    )
    .expect("the segment opens");
    (writer, captured)
}

/// A segment written by the writer, not by hand, so that the graph is made of the bytes
/// that the rest of the library produces.
fn written_segment(level: &str, write: impl FnOnce(&mut TestWriter)) -> (String, String) {
    let (mut writer, captured) = writer_over(
        level,
        Vocabulary::shared_builtin().expect("the embedded vocabulary parses"),
    );
    let name = writer.segment().to_string();
    write(&mut writer);
    (name, captured.text())
}

/// Re-parse a serialization as RDF and hand back its triples.
fn reparse(turtle: &str) -> Vec<Triple> {
    RdfParser::from_format(RdfFormat::Turtle)
        .for_slice(turtle.as_bytes())
        .map(|quad| quad.expect("the emitted Turtle re-parses").into())
        .collect()
}

fn graph_of(text: &str) -> Vec<Triple> {
    reparse(&to_turtle(text, &builtin(), &Options::all()).expect("it becomes a graph"))
}

/// Whether `triples` states `subject predicate object`.
fn states(triples: &[Triple], subject: &str, predicate: &str, object: OxTerm) -> bool {
    let subject =
        NamedOrBlankNode::NamedNode(NamedNodeRef::new(subject).expect("an IRI").into_owned());
    let predicate = NamedNodeRef::new(predicate).expect("an IRI").into_owned();
    triples
        .iter()
        .any(|t| t.subject == subject && t.predicate == predicate && t.object == object)
}

fn node(iri: &str) -> OxTerm {
    OxTerm::NamedNode(NamedNodeRef::new(iri).expect("an IRI").into_owned())
}

fn string(value: &str) -> OxTerm {
    OxTerm::Literal(oxrdf::Literal::new_simple_literal(value))
}

fn typed(value: &str, datatype: &str) -> OxTerm {
    OxTerm::Literal(oxrdf::Literal::new_typed_literal(
        value,
        NamedNodeRef::new(datatype).expect("an IRI").into_owned(),
    ))
}

fn objects<'a>(triples: &'a [Triple], subject: &str, predicate: &str) -> Vec<&'a OxTerm> {
    let subject =
        NamedOrBlankNode::NamedNode(NamedNodeRef::new(subject).expect("an IRI").into_owned());
    let predicate = NamedNodeRef::new(predicate).expect("an IRI").into_owned();
    triples
        .iter()
        .filter(|t| t.subject == subject && t.predicate == predicate)
        .map(|t| &t.object)
        .collect()
}

#[test]
fn a_written_segment_becomes_a_graph_that_reparses_as_rdf() {
    let (segment, text) = written_segment("debug", |writer| {
        writer
            .write(
                Entry::new(
                    at(1_700_000_001_000),
                    &log("Resolution"),
                    "urn:calendar:today",
                )
                .with("span", "7")
                .with("dur", "12")
                .with("worker", "ikigai-sched-2")
                .with("cap", "urn:cap:personal:calendar"),
            )
            .expect("a resolution at debug");
    });

    let turtle = to_turtle(&text, &builtin(), &Options::all()).expect("it becomes a graph");
    let triples = reparse(&turtle);

    // The header became a segment node.
    assert!(states(&triples, &segment, RDF_TYPE, node(&log("Segment"))));
    assert!(states(
        &triples,
        &segment,
        &log("level"),
        node(&log("debug"))
    ));
    assert!(states(
        &triples,
        &segment,
        &format!("{PROV}startedAtTime"),
        typed(
            "2023-11-14T22:13:20.000Z",
            "http://www.w3.org/2001/XMLSchema#dateTime"
        )
    ));
    // `genesis` is stated, not omitted: an absent @prev is unambiguously an error.
    assert!(states(
        &triples,
        &segment,
        &log("prevSeal"),
        string("genesis")
    ));

    let instance = "urn:ikigai:instance:bug:test";
    assert!(states(&triples, instance, RDF_TYPE, node(&log("Instance"))));
    assert!(
        states(
            &triples,
            instance,
            RDF_TYPE,
            node(&format!("{PROV}SoftwareAgent"))
        ),
        "the PROV type is stated rather than inferred"
    );

    // seq=1 is log:ProcessStart, seq=2 the resolution.
    let entry = format!("{segment}:2");
    assert!(states(&triples, &entry, RDF_TYPE, node(&log("Resolution"))));
    assert!(states(
        &triples,
        &entry,
        &format!("{PROV}wasAssociatedWith"),
        node(instance)
    ));
    assert!(
        states(
            &triples,
            &entry,
            &log("span"),
            typed("7", "http://www.w3.org/2001/XMLSchema#integer")
        ),
        "an xsd:integer range makes a typed literal, so a threshold query can compare"
    );
    assert!(states(
        &triples,
        &entry,
        &log("worker"),
        string("ikigai-sched-2")
    ));

    // The subject column emits twice: log:subject always, plus the class's declared
    // log:subjectPredicate.
    assert!(states(
        &triples,
        &entry,
        &log("subject"),
        node("urn:calendar:today")
    ));
    assert!(
        states(
            &triples,
            &entry,
            &log("resolved"),
            node("urn:calendar:today")
        ),
        "log:Resolution declares log:subjectPredicate log:resolved"
    );
}

#[test]
fn a_range_typed_key_lands_as_an_iri_and_not_as_a_string() {
    let (segment, text) = written_segment("info", |writer| {
        writer
            .write(
                Entry::new(at(1_700_000_001_000), &log("Message"), "urn:agent:calendar")
                    .with("cap", "urn:cap:personal:calendar")
                    .with("cap", "urn:cap:fs:read")
                    .with("msg", "sync started"),
            )
            .expect("a message at info");
    });
    let triples = graph_of(&text);
    let entry = format!("{segment}:2");

    // `cap` is rdfs:range rdfs:Resource. As a string it would join to nothing.
    let caps = objects(&triples, &entry, &log("capability"));
    assert_eq!(caps.len(), 2, "a key may repeat: two scopes, two triples");
    for cap in caps {
        assert!(
            matches!(cap, OxTerm::NamedNode(_)),
            "an rdfs:Resource range makes an IRI: {cap:?}"
        );
    }

    // `configured` is rdfs:range log:Instance: a class, not an XSD datatype, and it must
    // be an IRI for the same reason.
    let (_, start_text) = written_segment("info", |_| {});
    let started = graph_of(&start_text);
    assert!(
        started.iter().all(
            |t| t.predicate.as_str() != format!("{LOG_NS}configuredInstance")
                || matches!(t.object, OxTerm::NamedNode(_))
        ),
        "a class-ranged key is an IRI"
    );

    // And prose stays prose.
    assert!(states(
        &triples,
        &entry,
        &log("text"),
        string("sync started")
    ));
}

#[test]
fn an_undeclared_key_lands_losslessly_and_flagged() {
    let (segment, text) = written_segment("info", |writer| {
        writer
            .write(
                Entry::new(at(1_700_000_001_000), &log("Message"), "urn:agent:calendar")
                    .with("nonesuch", "42")
                    .with("nonesuch", "43"),
            )
            .expect("a message at info");
    });
    let triples = graph_of(&text);
    let entry = format!("{segment}:2");

    // Lossless: both values, on log:{key}, as plain literals.
    let values = objects(&triples, &entry, &log("nonesuch"));
    assert_eq!(values.len(), 2, "{values:?}");
    assert!(values.contains(&&string("42")) && values.contains(&&string("43")));

    // And flagged, once.
    let flags = objects(&triples, &entry, &log("undeclaredKey"));
    assert_eq!(flags, vec![&string("nonesuch")], "{flags:?}");
}

#[test]
fn log_segment_is_on_every_entry_so_a_flattened_triple_keeps_its_attribution() {
    let (segment, text) = written_segment("debug", |writer| {
        for n in 0..3 {
            writer
                .write(Entry::new(
                    at(1_700_000_001_000 + n),
                    &log("Message"),
                    "urn:agent:calendar",
                ))
                .expect("a message at debug");
        }
    });
    let triples = graph_of(&text);
    for seq in 1..=4 {
        assert!(
            states(
                &triples,
                &format!("{segment}:{seq}"),
                &log("segment"),
                node(&segment)
            ),
            "entry {seq} names its segment"
        );
    }
}

#[test]
fn nothing_transrepts_to_a_blank_node() {
    let (_, text) = written_segment("debug", |writer| {
        writer
            .write(
                Entry::new(
                    at(1_700_000_001_000),
                    &log("Resolution"),
                    "urn:calendar:today",
                )
                .with("span", "7")
                .with("parent", "1")
                .with("undeclared", "x"),
            )
            .expect("a resolution at debug");
    });
    let mut text = text;
    text.push_str("#seal 1-2 sha256:4c1e sig:MEUCIQD\n");

    let triples = graph_of(&text);
    assert!(!triples.is_empty());
    for triple in &triples {
        assert!(
            matches!(triple.subject, NamedOrBlankNode::NamedNode(_)),
            "a blank node in a log is a fact you cannot cite: {triple}"
        );
        assert!(
            !matches!(triple.object, OxTerm::BlankNode(_)),
            "a blank node in a log is a fact you cannot cite: {triple}"
        );
    }
}

#[test]
fn a_graph_states_each_fact_once_and_two_runs_are_byte_identical() {
    // log:ProcessStart declares `log:subjectPredicate prov:wasAssociatedWith`, which is
    // also the per-entry attribution.
    let (_, text) = written_segment("info", |writer| {
        writer
            .write(
                Entry::new(at(1_700_000_001_000), &log("Message"), "urn:agent:calendar")
                    .with("cap", "urn:cap:fs:read")
                    .with("cap", "urn:cap:fs:read"),
            )
            .unwrap();
    });
    let turtle = to_turtle(&text, &builtin(), &Options::all()).unwrap();
    let triples = reparse(&turtle);
    let mut seen = HashSet::new();
    for triple in &triples {
        assert!(seen.insert(triple.to_string()), "stated twice: {triple}");
    }
    assert_eq!(
        turtle,
        to_turtle(&text, &builtin(), &Options::all()).unwrap(),
        "the same segment serializes to the same bytes"
    );
}

#[test]
fn invoked_is_materialized_within_one_run_and_never_across_a_process_start() {
    let (segment, text) = written_segment("debug", |writer| {
        let resolution = |ms: u64, span: &str| {
            Entry::new(at(ms), &log("Resolution"), "urn:calendar:today").with("span", span)
        };
        writer
            .write(resolution(1_700_000_001_000, "9").with("parent", "7"))
            .unwrap();
        writer.write(resolution(1_700_000_002_000, "7")).unwrap();
        // A second run. Its child claims parent 7, which exists, but in the other run.
        writer
            .write(Entry::new(
                at(1_700_000_003_000),
                &log("ProcessStart"),
                "urn:ikigai:instance:bug:test",
            ))
            .unwrap();
        writer
            .write(resolution(1_700_000_004_000, "11").with("parent", "7"))
            .unwrap();
    });

    let triples = graph_of(&text);
    let invoked = objects(&triples, &format!("{segment}:3"), &log("invoked"));
    assert_eq!(
        invoked,
        vec![&node(&format!("{segment}:2"))],
        "parent to child, and the child's line came first: {invoked:?}"
    );

    // The cross-run child got no edge, and kept its literal.
    let across = triples
        .iter()
        .filter(|t| t.predicate.as_str() == format!("{LOG_NS}invoked"))
        .count();
    assert_eq!(across, 1, "no edge crosses a log:ProcessStart");
    assert!(states(
        &triples,
        &format!("{segment}:5"),
        &log("parentSpan"),
        typed("7", "http://www.w3.org/2001/XMLSchema#integer")
    ));
}

#[test]
fn a_seal_transrepts_as_what_it_says_and_asserts_nothing_about_its_validity() {
    let (segment, text) = written_segment("info", |_| {});
    let mut text = text;
    text.push_str("#seal 1-42 sha256:4c1e0d Ed25519:MEUCIQD\n");
    text.push_str("#seal 43-99 sha256:9ab7\n");

    let triples = graph_of(&text);
    let seal = format!("{segment}:seal:1-42");
    assert!(states(&triples, &seal, RDF_TYPE, node(&log("Seal"))));
    assert!(states(&triples, &seal, &log("segment"), node(&segment)));
    assert!(states(
        &triples,
        &seal,
        &log("firstSequence"),
        typed("1", "http://www.w3.org/2001/XMLSchema#integer")
    ));
    assert!(states(
        &triples,
        &seal,
        &log("lastSequence"),
        typed("42", "http://www.w3.org/2001/XMLSchema#integer")
    ));
    // The digest exactly as the line wrote it: tagged.
    assert!(states(
        &triples,
        &seal,
        &format!("{SIG_NS}contentHash"),
        string("sha256:4c1e0d")
    ));
    // The signature column is split: a line has columns and a graph does not.
    assert!(states(
        &triples,
        &seal,
        &format!("{SIG_NS}algorithm"),
        string("Ed25519")
    ));
    assert!(states(
        &triples,
        &seal,
        &format!("{SIG_NS}value"),
        string("MEUCIQD")
    ));

    // An unsigned seal still localizes tampering, so it is not an error and it carries
    // no sig:value to imply otherwise.
    let unsigned = format!("{segment}:seal:43-99");
    assert!(states(
        &triples,
        &unsigned,
        &format!("{SIG_NS}contentHash"),
        string("sha256:9ab7")
    ));
    assert!(objects(&triples, &unsigned, &format!("{SIG_NS}value")).is_empty());

    // Nothing anywhere claims a seal is valid, verified, or intact.
    let turtle = to_turtle(&text, &builtin(), &Options::all()).unwrap();
    for word in ["verif", "valid", "intact"] {
        assert!(
            !turtle.contains(word),
            "a graph that implied verification would be worse than one that \
             ignored seals: {turtle}"
        );
    }
}

#[test]
fn a_module_extends_the_mapping_without_touching_the_transreptor() {
    let extended = || {
        let mut vocab = builtin();
        vocab
            .extend(
                r#"
            @prefix log:  <https://ikigai-rs.dev/ns/log#> .
            @prefix rdf:  <http://www.w3.org/1999/02/22-rdf-syntax-ns#> .
            @prefix rdfs: <http://www.w3.org/2000/01/rdf-schema#> .
            @prefix xsd:  <http://www.w3.org/2001/XMLSchema#> .
            <urn:demo:Fetch> a rdfs:Class ;
                rdfs:subClassOf log:Entry ;
                log:minLevel log:info ;
                log:subjectPredicate <urn:demo:fetched> .
            <urn:demo:status> a rdf:Property ;
                log:keyName "status" ;
                rdfs:range xsd:integer .
            "#,
            )
            .expect("the extension parses");
        vocab
    };

    let (mut writer, captured) = writer_over("info", Arc::new(extended()));
    let segment = writer.segment().to_string();
    writer
        .write(
            Entry::new(at(1_700_000_001_000), "urn:demo:Fetch", "urn:page:home")
                .with("status", "200"),
        )
        .expect("the extension's class emits at info");

    let triples = reparse(&to_turtle(&captured.text(), &extended(), &Options::all()).unwrap());
    let entry = format!("{segment}:2");
    assert!(states(&triples, &entry, RDF_TYPE, node("urn:demo:Fetch")));
    assert!(
        states(&triples, &entry, "urn:demo:fetched", node("urn:page:home")),
        "the extension's log:subjectPredicate refines the subject column"
    );
    assert!(
        states(
            &triples,
            &entry,
            "urn:demo:status",
            typed("200", "http://www.w3.org/2001/XMLSchema#integer")
        ),
        "and its rdfs:range types the value"
    );
    assert!(
        objects(&triples, &entry, &log("undeclaredKey")).is_empty(),
        "a key the extended table claims is not undeclared"
    );
}

#[test]
fn the_window_narrows_the_entries_and_never_the_header() {
    let (segment, text) = written_segment("info", |writer| {
        for n in 1..=5 {
            writer
                .write(Entry::new(
                    at(1_700_000_000_000 + n * 1000),
                    &log("Message"),
                    "urn:agent:calendar",
                ))
                .unwrap();
        }
    });
    let window = Options {
        from_seq: Some(3),
        to_seq: Some(4),
        ..Options::default()
    };
    let triples = reparse(&to_turtle(&text, &builtin(), &window).unwrap());
    for seq in [3, 4] {
        assert!(states(
            &triples,
            &format!("{segment}:{seq}"),
            &log("segment"),
            node(&segment)
        ));
    }
    for seq in [1, 2, 5] {
        assert!(
            objects(&triples, &format!("{segment}:{seq}"), &log("segment")).is_empty(),
            "entry {seq} is outside the window"
        );
    }
    // The header always lands.
    assert!(states(&triples, &segment, RDF_TYPE, node(&log("Segment"))));
    assert!(states(
        &triples,
        &segment,
        &log("level"),
        node(&log("info"))
    ));

    let by_time = Options {
        since: Some(at(1_700_000_004_000)),
        ..Options::default()
    };
    let triples = reparse(&to_turtle(&text, &builtin(), &by_time).unwrap());
    assert!(objects(&triples, &format!("{segment}:4"), &log("segment")).is_empty());
    assert!(!objects(&triples, &format!("{segment}:5"), &log("segment")).is_empty());
}

#[test]
fn a_corrupt_line_names_its_position_rather_than_saying_invalid() {
    let (_, text) = written_segment("info", |_| {});
    let mut text = text;
    text.push_str("2026-13-45T99:99:99.999Z log:Message urn:agent:calendar\n");
    match to_triples(&text, &builtin(), &Options::all()) {
        // The corrupt line is the last one, and the error says so.
        Err(GraphError::Parse { line, .. }) => assert_eq!(line, text.lines().count(), "{text}"),
        other => panic!("a corrupt line is located, not shrugged at: {other:?}"),
    }
}

#[test]
fn piped_bytes_become_a_graph() {
    let (segment, text) = written_segment("info", |writer| {
        writer
            .write(Entry::new(
                at(1_700_000_001_000),
                &log("Message"),
                "urn:agent:calendar",
            ))
            .unwrap();
    });
    let endpoint =
        TransreptEndpoint::new(Vocabulary::shared_builtin().expect("the vocabulary parses"));
    let turtle = endpoint.transrept(None, &text).expect("it becomes a graph");
    assert!(states(
        &reparse(&turtle),
        &format!("{segment}:2"),
        RDF_TYPE,
        node(&log("Message"))
    ));
    assert_eq!(
        endpoint
            .transrept(Some(TURTLE_MEDIA_TYPE), &text)
            .expect("the only face there is"),
        turtle
    );
    assert!(matches!(
        endpoint.transrept(Some("text/html"), &text),
        Err(ServeError::Argument(_))
    ));
    assert!(matches!(
        endpoint.transrept(None, "no segment"),
        Err(ServeError::Graph(GraphError::Parse { .. }))
    ));
}

#[test]
fn a_value_is_what_its_range_makes_of_it() {
    assert_eq!(
        value_term("7", &Some("http://www.w3.org/2001/XMLSchema#integer".to_string())),
        Term::Typed(
            "7".to_string(),
            "http://www.w3.org/2001/XMLSchema#integer".to_string()
        )
    );
    assert_eq!(
        value_term("x", &Some("http://www.w3.org/2001/XMLSchema#string".to_string())),
        Term::Simple("x".to_string())
    );
    assert_eq!(
        value_term("urn:a", &Some(log("Segment"))),
        Term::Iri("urn:a".to_string())
    );
    assert_eq!(value_term("x", &None), Term::Simple("x".to_string()));
}

#[test]
fn a_value_that_should_be_an_iri_and_is_none_stays_a_literal() {
    let (segment, text) = written_segment("info", |writer| {
        writer
            .write(
                Entry::new(at(1_700_000_001_000), &log("Message"), "urn:agent:calendar")
                    .with("cap", "not an iri"),
            )
            .expect("a message at info");
    });
    let triples = graph_of(&text);
    assert_eq!(
        objects(&triples, &format!("{segment}:2"), &log("capability")),
        vec![&string("not an iri")]
    );
}

#[test]
fn an_iri_that_rdf_does_not_take_is_named() {
    let (_, text) = written_segment("info", |writer| {
        writer
            .write(Entry::new(
                at(1_700_000_001_000),
                &log("Message"),
                "urn:agent:{calendar}",
            ))
            .expect("a line can hold it");
    });
    match to_triples(&text, &builtin(), &Options::all()) {
        Err(GraphError::Iri(iri)) => assert_eq!(iri, "urn:agent:{calendar}"),
        other => panic!("expected the IRI to be named, got {other:?}"),
    }
    for error in [
        GraphError::Iri("urn:a b".to_string()),
        GraphError::Serialize("full".to_string()),
        GraphError::Parse {
            line: 3,
            error: ikigai_log::ParseError::Field("f".to_string()),
        },
    ] {
        assert!(!error.message().is_empty());
    }
}

#[test]
fn a_written_graph_shortens_its_names() {
    let graph = vec![
        Fact {
            subject: "urn:log:x".to_string(),
            predicate: RDF_TYPE.to_string(),
            object: Term::Iri(log("Segment")),
        },
        Fact {
            subject: "urn:log:x".to_string(),
            predicate: log("prevSeal"),
            object: Term::Simple("genesis".to_string()),
        },
    ];
    let turtle = serialize(&graph).expect("it is written");
    assert!(turtle.contains("@prefix log: <https://ikigai-rs.dev/ns/log#> ."));
    assert!(turtle.contains("<urn:log:x> a log:Segment"), "{turtle}");
    assert!(turtle.contains("log:prevSeal \"genesis\""), "{turtle}");
}

#[test]
fn a_window_admits_what_lies_between_its_bounds() {
    assert!(Options::all().is_all());
    let window = Options {
        since: Some(at(1_000)),
        until: Some(at(2_000)),
        from_seq: Some(2),
        to_seq: Some(3),
    };
    assert!(!window.is_all());
    assert!(window.admits(at(1_000), 2));
    assert!(window.admits(at(2_000), 3));
    assert!(!window.admits(at(999), 2));
    assert!(!window.admits(at(2_001), 2));
    assert!(!window.admits(at(1_500), 1));
    assert!(!window.admits(at(1_500), 4));
}

#[test]
fn what_is_repeated_is_stated_once() {
    let (segment, text) = written_segment("debug", |writer| {
        let resolution = |ms: u64| {
            Entry::new(at(ms), &log("Resolution"), "urn:calendar:today")
        };
        writer
            .write(
                resolution(1_700_000_001_000)
                    .with("span", "9")
                    .with("parent", "7")
                    .with("parent", "7"),
            )
            .unwrap();
        writer
            .write(resolution(1_700_000_002_000).with("span", "7"))
            .unwrap();
        writer.seal(at(1_700_000_003_000)).unwrap();
    });
    let seal = text
        .lines()
        .find(|line| line.starts_with("#seal"))
        .expect("it was sealed");
    let entry = text
        .lines()
        .find(|line| line.contains("span=7"))
        .expect("it was written");
    let twice = format!("{text}{seal}\n{entry}\n");
    let triples = graph_of(&twice);
    let mut seen = std::collections::HashSet::new();
    for triple in &triples {
        assert!(seen.insert(triple.to_string()), "stated twice: {triple}");
    }
    assert_eq!(
        objects(&triples, &format!("{segment}:3"), &log("invoked")),
        vec![&node(&format!("{segment}:2"))]
    );
    // And nothing but the repetition is gone.
    let once: std::collections::HashSet<String> =
        graph_of(&text).iter().map(|t| t.to_string()).collect();
    assert_eq!(seen, once);
}

#[test]
fn a_window_is_a_part_of_the_whole() {
    let (segment, text) = written_segment("debug", |writer| {
        for n in 1..=6u64 {
            let mut entry = Entry::new(
                at(1_700_000_000_000 + n * 1000),
                &log("Resolution"),
                "urn:calendar:today",
            )
            .with("span", &n.to_string());
            if n > 1 {
                entry = entry.with("parent", &(n - 1).to_string());
            }
            writer.write(entry).unwrap();
            if n == 3 {
                writer
                    .write(Entry::new(
                        at(1_700_000_003_500),
                        &log("ProcessStart"),
                        "urn:ikigai:instance:bug:test",
                    ))
                    .unwrap();
            }
        }
        writer.seal(at(1_700_000_009_000)).unwrap();
    });
    let whole: std::collections::HashSet<String> =
        graph_of(&text).iter().map(|t| t.to_string()).collect();
    for (since, until) in [(2_000, 5_000), (3_000, 4_000), (0, 3_400), (3_400, 9_000)] {
        let window = Options {
            since: Some(at(1_700_000_000_000 + since)),
            until: Some(at(1_700_000_000_000 + until)),
            ..Options::default()
        };
        let triples = reparse(&to_turtle(&text, &builtin(), &window).unwrap());
        for triple in &triples {
            assert!(whole.contains(&triple.to_string()), "not of the whole: {triple}");
        }
        for seq in 2..=8u64 {
            let ms = match seq {
                2..=4 => (seq - 1) * 1000,
                5 => 3_500,
                _ => (seq - 2) * 1000,
            };
            assert_eq!(
                objects(&triples, &format!("{segment}:{seq}"), &log("segment")).is_empty(),
                ms < since || ms > until,
                "entry {seq} between {since} and {until}"
            );
        }
        assert!(states(&triples, &segment, RDF_TYPE, node(&log("Segment"))));
        assert!(states(
            &triples,
            &format!("{segment}:seal:1-8"),
            RDF_TYPE,
            node(&log("Seal"))
        ));
    }
}

#[test]
fn a_process_start_is_always_a_boundary() {
    // Of the entries before the first marker in the window, none is of its run.
    let (segment, text) = written_segment("debug", |writer| {
        let resolution = |ms: u64, span: &str| {
            Entry::new(at(ms), &log("Resolution"), "urn:calendar:today").with("span", span)
        };
        writer.write(resolution(1_700_000_001_000, "7")).unwrap();
        writer
            .write(Entry::new(
                at(1_700_000_002_000),
                &log("ProcessStart"),
                "urn:ikigai:instance:bug:test",
            ))
            .unwrap();
        writer
            .write(resolution(1_700_000_003_000, "9").with("parent", "7"))
            .unwrap();
    });
    for since in [0, 1_700_000_000_500] {
        let window = Options {
            since: Some(at(since)),
            ..Options::default()
        };
        let triples = reparse(&to_turtle(&text, &builtin(), &window).unwrap());
        assert!(objects(&triples, &format!("{segment}:2"), &log("invoked")).is_empty());
    }
}

#[test]
fn a_bound_past_the_year_9999_admits_what_lies_before_it() {
    let (segment, text) = written_segment("info", |_| {});
    let late = at(253_402_300_800_000);
    let until = Options {
        until: Some(late),
        ..Options::default()
    };
    let triples = reparse(&to_turtle(&text, &builtin(), &until).unwrap());
    assert!(!objects(&triples, &format!("{segment}:1"), &log("segment")).is_empty());
    let since = Options {
        since: Some(late),
        ..Options::default()
    };
    let triples = reparse(&to_turtle(&text, &builtin(), &since).unwrap());
    assert!(objects(&triples, &format!("{segment}:1"), &log("segment")).is_empty());
}

/// A fact as the RDF library has it.
fn as_rdf(fact: &Fact) -> Triple {
    let iri = |s: &str| NamedNodeRef::new(s).expect("an IRI").into_owned();
    Triple::new(
        iri(&fact.subject),
        iri(&fact.predicate),
        match &fact.object {
            Term::Iri(i) => node(i),
            Term::Simple(s) => string(s),
            Term::Typed(s, d) => typed(s, d),
        },
    )
}

#[test]
fn a_written_graph_reads_back_as_it_is() {
    let mut graph = Vec::new();
    let mut fact = |subject: &str, predicate: &str, object: Term| {
        graph.push(Fact {
            subject: subject.to_string(),
            predicate: predicate.to_string(),
            object,
        })
    };
    for name in [
        "", "a", "a.b", "a.b.", "..", "-x", "9", ":", "a:b:", "%41b", "a/b(c)", "~!$&'*+,;=@?",
        "_", "\u{e9}\u{b7}x", "\u{10400}", "a-\u{300}",
    ] {
        let iri = log(name);
        fact(&iri, &iri, Term::Iri(iri.clone()));
        fact("urn:x:(a)", "urn:x:q", Term::Simple(name.to_string()));
        fact("urn:x:(a)", "urn:x:p", Term::Typed(name.to_string(), iri.clone()));
    }
    let mut fact = |object: Term| {
        graph.push(Fact {
            subject: "urn:x:values".to_string(),
            predicate: RDF_TYPE.to_string(),
            object,
        })
    };
    for value in [
        "", "\"", "\\", "\"\"\"", "it's", "# no comment", "[a] (b) . ;", "\u{0}\u{1}\u{8}\t\n\u{b}\u{c}\r",
        "\u{7f}\u{80}\u{2028}\u{feff}\u{fffe}\u{ffff}\u{10ffff}", "\\u0041", "<urn:a>", "a\r\nb",
    ] {
        fact(Term::Simple(value.to_string()));
        fact(Term::Typed(value.to_string(), "urn:x:datatype".to_string()));
    }
    for value in [
        "1", "+1", "-01", "", "-", "1.", ".5", "+.5", "-1.50", ".", "1e5", "1.e5", ".5E-3", ".e5",
        "1e", "e5", "+1.5e+07", "true", "false", "True", "1 ", "12abc",
    ] {
        for datatype in ["integer", "decimal", "double", "boolean", "dateTime", "string"] {
            let datatype = format!("http://www.w3.org/2001/XMLSchema#{datatype}");
            fact(Term::Typed(value.to_string(), datatype));
        }
    }
    let turtle = serialize(&graph).expect("writes");
    assert_eq!(reparse(&turtle), graph.iter().map(as_rdf).collect::<Vec<_>>());
    assert_eq!(serialize(&Vec::new()).expect("writes"), "");
}

#[test]
fn a_segment_and_its_turtle_are_one_graph() {
    let (_, text) = written_segment("debug", |writer| {
        writer
            .write(
                Entry::new(at(1_700_000_001_000), &log("Message"), "urn:a:(b)")
                    .with("msg", "a [bracketed] \"word\"\n")
                    .with("dur", "12")
                    .with("odd", "x"),
            )
            .expect("a message at debug");
    });
    let vocab = builtin();
    let graph = to_triples(&text, &vocab, &Options::all()).expect("a graph");
    let turtle = to_turtle(&text, &vocab, &Options::all()).expect("its Turtle");
    assert_eq!(reparse(&turtle), graph.iter().map(as_rdf).collect::<Vec<_>>());
    assert!(graph.iter().any(|f| f.subject.starts_with("urn:") && f.predicate == RDF_TYPE));
}
