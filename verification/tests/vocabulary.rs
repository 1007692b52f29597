use ikigai_log::rdf::{Document, Object, Statement};
use ikigai_log::{
    Vocabulary, CHAIN_BROKEN_CLASS, DEFAULT_MIN_LEVEL, ENTRY_CLASS, LOG_NS, ROTATION_CLASS,
    VOCABULARY_TTL,
};

fn log(term: &str) -> String {
    format!("{LOG_NS}{term}")
}

fn builtin() -> Vocabulary {
    Vocabulary::builtin().expect("the embedded vocabulary parses")
}

fn rank(vocab: &Vocabulary, level: &str) -> i64 {
    vocab
        .rank(&log(level))
        .unwrap_or_else(|| panic!("level {level} has a rank"))
}

#[test]
fn the_embedded_vocabulary_parses_and_is_prov_rooted() {
    let vocab = builtin();
    let entry = vocab.class(ENTRY_CLASS).expect("log:Entry is declared");
    assert!(
        entry
            .super_classes
            .contains(&"http://www.w3.org/ns/prov#Activity".to_string()),
        "log:Entry is a prov:Activity: {:?}",
        entry.super_classes
    );
    let segment = vocab
        .class(&log("Segment"))
        .expect("log:Segment is declared");
    assert!(
        segment
            .super_classes
            .contains(&"http://www.w3.org/ns/prov#Bundle".to_string()),
        "a segment is a prov:Bundle"
    );
}

#[test]
fn the_ladder_is_ordered_and_always_sits_below_it() {
    let vocab = builtin();
    let ladder = ["error", "warn", "info", "debug", "trace"];
    for pair in ladder.windows(2) {
        assert!(
            rank(&vocab, pair[0]) < rank(&vocab, pair[1]),
            "{} ranks below {}",
            pair[0],
            pair[1]
        );
    }
    assert!(rank(&vocab, "always") < rank(&vocab, "error"));
    assert_eq!(rank(&vocab, "always"), -1);
}

#[test]
fn the_dial_includes_what_the_vocabulary_says_it_includes() {
    let vocab = builtin();
    let (info, debug, trace) = (
        rank(&vocab, "info"),
        rank(&vocab, "debug"),
        rank(&vocab, "trace"),
    );

    assert!(!vocab.emits(&log("Resolution"), info), "info: no resolutions");
    assert!(vocab.emits(&log("Resolution"), debug));

    assert!(
        !vocab.emits(&log("CacheHit"), debug),
        "debug: resolutions but not cache hits"
    );
    assert!(vocab.emits(&log("CacheHit"), trace));

    assert!(vocab.emits(&log("Message"), info));
    assert!(!vocab.emits(&log("Message"), rank(&vocab, "warn")));
    assert!(
        vocab.emits(&log("Warning"), rank(&vocab, "warn")),
        "severity is carried by subclass, so the class alone decides emission"
    );

    for always in [
        "Seal",
        "ChainBroken",
        "Rotation",
        "Tombstone",
        "Dropped",
        "LevelChange",
        "ConfigChange",
        "CapabilityDenied",
        "KeyChange",
        "ProcessStart",
        "ProcessStop",
    ] {
        assert!(
            vocab.emits(&log(always), rank(&vocab, "error")),
            "{always} lands whatever the dial says"
        );
    }
}

#[test]
fn the_key_table_types_its_values() {
    let vocab = builtin();

    let cap = vocab.key("cap").expect("cap is declared");
    assert_eq!(cap.property, log("capability"));
    assert_eq!(
        cap.range.as_deref(),
        Some("http://www.w3.org/2000/01/rdf-schema#Resource"),
        "a capability column becomes an IRI, not a string"
    );

    let dur = vocab.key("dur").expect("dur is declared");
    assert_eq!(
        dur.range.as_deref(),
        Some("http://www.w3.org/2001/XMLSchema#integer")
    );

    assert_eq!(
        vocab.key("msg").map(|k| k.property.clone()),
        Some(log("text"))
    );
    assert!(vocab.key("nonesuch").is_none());
}

#[test]
fn every_declared_key_types_its_range() {
    let vocab = builtin();
    for key in vocab.keys() {
        assert!(
            key.range.is_some(),
            "{} has no rdfs:range, so its value cannot be typed",
            key.key
        );
    }
}

#[test]
fn every_class_is_placeable_on_the_dial() {
    let vocab = builtin();
    let structural = [
        log("Segment"),
        log("Instance"),
        log("Level"),
        log("Config"),
        log("Destination"),
    ];
    for class in vocab.classes() {
        if structural.contains(&class.iri) {
            continue;
        }
        assert!(
            vocab.is_a(&class.iri, ENTRY_CLASS),
            "{} is neither an entry class nor a declared structural class",
            class.iri
        );
        let min = vocab.min_level(&class.iri).to_string();
        assert!(
            vocab.rank(&min).is_some(),
            "{} declares log:minLevel {min}, which no level defines",
            class.iri
        );
    }
}

#[test]
fn the_subject_column_is_refined_per_class_and_inherited() {
    let vocab = builtin();
    assert_eq!(
        vocab.subject_predicate(&log("Resolution")),
        Some(log("resolved")).as_deref(),
        "a resolution's subject is what it resolved"
    );
    assert_eq!(
        vocab.subject_predicate(&log("CacheHit")),
        Some(log("resolved")).as_deref(),
        "and a cache hit inherits that reading from its superclass"
    );
    assert_eq!(
        vocab.subject_predicate(&log("ProcessStart")),
        Some("http://www.w3.org/ns/prov#wasAssociatedWith"),
        "a liveness event is about the agent it attributes to"
    );
}

#[test]
fn a_module_extends_the_table_without_touching_code() {
    let extension = r#"
        @prefix log:  <https://ikigai-rs.dev/ns/log#> .
        @prefix rdf:  <http://www.w3.org/1999/02/22-rdf-syntax-ns#> .
        @prefix rdfs: <http://www.w3.org/2000/01/rdf-schema#> .
        @prefix ex:   <https://example.org/sync#> .

        ex:SyncRun a rdfs:Class ;
            rdfs:subClassOf log:Entry ;
            log:minLevel log:warn ;
            log:subjectPredicate log:subject .

        ex:SyncFailed a rdfs:Class ;
            rdfs:subClassOf ex:SyncRun .

        ex:peer a rdf:Property ;
            log:keyName "peer" ;
            rdfs:range rdfs:Resource .
    "#;
    let mut vocab = Vocabulary::parse(VOCABULARY_TTL).expect("builtin parses");
    vocab.extend(extension).expect("the extension parses");

    let warn = rank(&vocab, "warn");
    assert!(vocab.emits("https://example.org/sync#SyncRun", warn));
    assert!(
        !vocab.emits("https://example.org/sync#SyncRun", rank(&vocab, "error")),
        "the extension's own minimum is respected"
    );
    assert_eq!(
        vocab.min_level("https://example.org/sync#SyncFailed"),
        log("warn"),
        "a subclass that declares no minimum inherits its parent's"
    );
    assert!(
        vocab.is_a("https://example.org/sync#SyncFailed", ENTRY_CLASS),
        "and it is still an entry, two hops up"
    );

    let peer = vocab
        .key("peer")
        .expect("the extension's key is in the table");
    assert_eq!(peer.property, "https://example.org/sync#peer");
    assert_eq!(
        peer.range.as_deref(),
        Some("http://www.w3.org/2000/01/rdf-schema#Resource")
    );
}

#[test]
fn an_undeclared_class_still_lands_at_the_default() {
    let vocab = builtin();
    assert_eq!(
        vocab.min_level("https://example.org/unknown#Thing"),
        DEFAULT_MIN_LEVEL,
        "a class nothing declares is visible at the day-to-day default rather \
         than silently invisible"
    );
}

#[test]
fn the_always_land_classes_the_chain_depends_on_are_all_declared() {
    let vocab = builtin();
    for class in [ROTATION_CLASS, CHAIN_BROKEN_CLASS] {
        assert!(
            vocab.emits(class, rank(&vocab, "error")),
            "{class} lands whatever the dial says"
        );
    }
    assert_eq!(
        vocab.key("next").map(|k| k.property.as_str()),
        Some("https://ikigai-rs.dev/ns/log#successor")
    );
    assert_eq!(
        vocab.key("next").and_then(|k| k.range.clone()),
        Some("https://ikigai-rs.dev/ns/log#Segment".to_string()),
        "the forward link is an edge, so it joins"
    );
}

#[test]
fn a_vocabulary_that_is_not_turtle_is_refused() {
    let error = Vocabulary::parse("this is not turtle").expect_err("it does not parse");
    assert!(!error.message().is_empty());
    let mut vocab = builtin();
    assert!(vocab.extend("@prefix broken").is_err());
}

#[test]
fn an_empty_vocabulary_knows_nothing_and_loses_nothing() {
    let vocab = Vocabulary::empty();
    assert!(vocab.class(ENTRY_CLASS).is_none());
    assert!(vocab.key("seq").is_none());
    assert!(vocab.rank(&log("info")).is_none());
    assert!(vocab.levels().is_empty());
    assert!(
        vocab.emits(&log("Message"), 0),
        "a class whose threshold has no rank is written rather than lost"
    );
}

fn statement(subject: &str, predicate: &str, object: Object) -> Statement {
    Statement {
        subject: subject.to_string(),
        predicate: predicate.to_string(),
        object,
    }
}

fn literal(value: &str) -> Object {
    Object::Literal(
        value.to_string(),
        "http://www.w3.org/2001/XMLSchema#string".to_string(),
    )
}

#[test]
fn statements_extend_the_table_as_a_document_does() {
    let mut vocab = Vocabulary::empty();
    let document = Document {
        statements: vec![
            statement(
                "<urn:x:verbose>",
                "http://www.w3.org/1999/02/22-rdf-syntax-ns#type",
                Object::Iri(log("Level")),
            ),
            statement("<urn:x:verbose>", &log("rank"), literal("7")),
            statement(
                "<urn:x:size>",
                "http://www.w3.org/2000/01/rdf-schema#range",
                Object::Iri("http://www.w3.org/2001/XMLSchema#integer".to_string()),
            ),
            statement("<urn:x:size>", &log("keyName"), literal("size")),
        ],
        error: None,
    };
    vocab.extend_with(&document).expect("it extends");
    assert_eq!(vocab.rank("urn:x:verbose"), Some(7));
    let size = vocab.key("size").expect("the key is bound");
    assert_eq!(size.property, "urn:x:size");
    assert_eq!(
        size.range.as_deref(),
        Some("http://www.w3.org/2001/XMLSchema#integer")
    );
}

#[test]
fn brackets_do_not_hide_a_declaration() {
    let ttl = format!(
        "@prefix log: <{LOG_NS}> .\n\
         @prefix rdfs: <http://www.w3.org/2000/01/rdf-schema#> .\n\
         # A comment (with brackets) [of both kinds].\n\
         <urn:x:Ping> rdfs:subClassOf log:Entry ;\n\
             rdfs:comment \"[a] (b)\" ;\n\
             log:minLevel log:debug .\n\
         [] rdfs:seeAlso ( <urn:x:one> <urn:x:two> ) .\n\
         <urn:x:Pong> rdfs:subClassOf [ rdfs:comment \"of no name\" ] , <urn:x:Ping> .\n"
    );
    let mut vocab = builtin();
    vocab.extend(&ttl).expect("it parses");
    assert_eq!(vocab.min_level("urn:x:Ping"), log("debug"));
    assert!(vocab.is_a("urn:x:Pong", ENTRY_CLASS));
    assert_eq!(vocab.min_level("urn:x:Pong"), log("debug"));

    let mut again = builtin();
    again.extend(&ttl).expect("it parses");
    assert_eq!(again.class("urn:x:Ping"), vocab.class("urn:x:Ping"));
    assert!(builtin().extend("( <urn:x:one>").is_err());
}

#[test]
fn a_cycle_of_classes_is_walked_once() {
    let mut vocab = builtin();
    vocab
        .extend(
            "<urn:a> <http://www.w3.org/2000/01/rdf-schema#subClassOf> <urn:b> .\n\
             <urn:b> <http://www.w3.org/2000/01/rdf-schema#subClassOf> <urn:a> .\n",
        )
        .expect("it parses");
    assert!(vocab.is_a("urn:a", "urn:b"));
    assert!(vocab.is_a("urn:b", "urn:a"));
    assert!(!vocab.is_a("urn:a", ENTRY_CLASS));
    assert_eq!(vocab.min_level("urn:a"), DEFAULT_MIN_LEVEL);
}

#[test]
fn superclasses_stand_in_iri_order() {
    let sub = "http://www.w3.org/2000/01/rdf-schema#subClassOf";
    let mut v = Vocabulary::parse(&format!("<urn:c> <{sub}> <urn:z>, <urn:a> .")).expect("parses");
    assert_eq!(
        v.class("urn:c").expect("described").super_classes,
        ["urn:a", "urn:z"]
    );
    v.extend(&format!("<urn:c> <{sub}> <urn:m>, <urn:a> ."))
        .expect("extends");
    assert_eq!(
        v.class("urn:c").expect("described").super_classes,
        ["urn:a", "urn:m", "urn:z"],
        "they accumulate, none twice"
    );
}

#[test]
fn a_later_range_wins() {
    let range = "http://www.w3.org/2000/01/rdf-schema#range";
    let xsd = "http://www.w3.org/2001/XMLSchema#";
    let mut v = Vocabulary::parse(&format!(
        "<urn:p> <{LOG_NS}keyName> \"k\" ; <{range}> <{xsd}string> ."
    ))
    .expect("parses");
    assert_eq!(v.key("k").expect("bound").range, Some(format!("{xsd}string")));
    v.extend(&format!("<urn:p> <{range}> <{xsd}integer> ."))
        .expect("extends");
    assert_eq!(
        v.key("k").expect("bound").range,
        Some(format!("{xsd}integer"))
    );
    // What says nothing of it leaves it.
    v.extend("<urn:q> <urn:r> <urn:s> .").expect("extends");
    assert_eq!(
        v.key("k").expect("bound").range,
        Some(format!("{xsd}integer"))
    );
}

#[test]
fn everything_is_listed_in_order() {
    let v = builtin();
    let levels: Vec<&str> = v.levels().iter().map(|l| l.0).collect();
    let classes: Vec<&String> = v.classes().iter().map(|c| &c.iri).collect();
    let keys: Vec<&String> = v.keys().iter().map(|k| &k.key).collect();
    assert!(levels.windows(2).all(|p| p[0] < p[1]));
    assert!(classes.windows(2).all(|p| p[0] < p[1]));
    assert!(keys.windows(2).all(|p| p[0] < p[1]));
}
