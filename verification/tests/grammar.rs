use ikigai_log::entry::parse_fields;
use ikigai_log::{
    is_iri, Entry, Header, Line, ParseError, Prefixes, Prev, RenderError, Seal, Table, Timestamp,
    FORMAT_VERSION, LOG_NS,
};

fn log(term: &str) -> String {
    format!("{LOG_NS}{term}")
}

fn prefixes() -> Prefixes {
    let mut table: Prefixes = Table::new();
    table.insert("log".to_string(), LOG_NS.to_string());
    table.insert("prov".to_string(), "http://www.w3.org/ns/prov#".to_string());
    table
}

// =====================================================================================
// Time
// =====================================================================================

#[test]
fn timestamps_are_fixed_width_utc_and_round_trip() {
    assert_eq!(
        Timestamp::from_millis(0).render(),
        "1970-01-01T00:00:00.000Z"
    );
    let stamp = Timestamp::parse("2026-08-23T09:14:22.031Z").expect("parses");
    assert_eq!(stamp.render(), "2026-08-23T09:14:22.031Z");
    // A leap day, and the day after it.
    for text in ["2024-02-29T23:59:59.999Z", "2024-03-01T00:00:00.000Z"] {
        assert_eq!(Timestamp::parse(text).expect("parses").render(), text);
    }
    // Lexical order is chronological order: the reason the column is fixed width and
    // always UTC.
    let mut rendered = [
        Timestamp::from_millis(2_000).render(),
        Timestamp::from_millis(1_000).render(),
        Timestamp::from_millis(1_500).render(),
    ];
    rendered.sort();
    assert_eq!(rendered[0], Timestamp::from_millis(1_000).render());
    assert_eq!(rendered[2], Timestamp::from_millis(2_000).render());
}

#[test]
fn impossible_and_loose_timestamps_are_refused() {
    for bad in [
        "2026-02-30T00:00:00.000Z", // no such day
        "2026-13-01T00:00:00.000Z", // no such month
        "2026-08-23T24:00:00.000Z", // no such hour
        "2026-08-23T09:14:22Z",     // no millis
        "2026-08-23T09:14:22.031",  // no zone
        "2026-08-23T09:14:22.031+01:00",
        "2026-8-23T09:14:22.031Z",
    ] {
        assert!(
            matches!(Timestamp::parse(bad), Err(ParseError::Timestamp(_))),
            "{bad} must not parse"
        );
    }
}

#[test]
fn instants_are_counted_in_milliseconds() {
    assert_eq!(
        Timestamp::parse("2023-11-14T22:13:20.000Z")
            .expect("parses")
            .as_millis(),
        1_700_000_000_000
    );
    assert_eq!(
        Timestamp::from_millis(253_402_300_799_999).render(),
        "9999-12-31T23:59:59.999Z"
    );
    assert!(Timestamp::parse("1969-12-31T23:59:59.999Z").is_err());
    assert!(Timestamp::parse("2023-02-29T00:00:00.000Z").is_err());
    assert!(Timestamp::parse("2000-02-29T00:00:00.000Z").is_ok());
    assert!(Timestamp::parse("1900-02-29T00:00:00.000Z").is_err());
}

// =====================================================================================
// Entries
// =====================================================================================

#[test]
fn an_entry_round_trips_through_its_line() {
    let entry = Entry::new(
        Timestamp::parse("2026-08-23T09:14:22.031Z").unwrap(),
        &log("Resolution"),
        "urn:calendar:today",
    )
    .with("worker", "ikigai-sched-2")
    .with("span", "7")
    .with("cap", "urn:cap:fs:read")
    .with("cap", "urn:cap:net:api.example.com");

    let line = entry.render(&prefixes()).expect("renders");
    assert_eq!(
        line,
        "2026-08-23T09:14:22.031Z log:Resolution urn:calendar:today \
         worker=ikigai-sched-2 span=7 cap=urn:cap:fs:read cap=urn:cap:net:api.example.com"
    );
    assert_eq!(Entry::parse(&line, &prefixes()).expect("parses"), entry);
    assert_eq!(
        entry.all("cap"),
        vec!["urn:cap:fs:read", "urn:cap:net:api.example.com"],
        "a repeated key is a repeated column: attenuation is multi-valued"
    );
}

#[test]
fn one_entry_is_one_line_whatever_the_payload() {
    let entry = Entry::new(
        Timestamp::from_millis(0),
        &log("Error"),
        "urn:agent:calendar",
    )
    .with("msg", "sync failed:\n  connection refused\tafter 3 retries")
    .with("detail", r#"he said "no""#);

    let line = entry.render(&prefixes()).expect("renders");
    assert!(
        !line.contains('\n') && !line.contains('\r'),
        "a raw newline would break grep, the per-line hash chain, and any \
         rotation reasoning about a prefix of the file: {line}"
    );
    assert!(line.contains(r#"msg="sync failed:\n  connection refused\tafter 3 retries""#));
    assert_eq!(
        Entry::parse(&line, &prefixes()).expect("parses"),
        entry,
        "and the escapes come back as the characters they stood for"
    );
}

#[test]
fn a_class_from_an_unbound_vocabulary_still_renders() {
    let entry = Entry::new(
        Timestamp::from_millis(0),
        "https://example.org/sync#SyncRun",
        "urn:peer:plasma",
    );
    let line = entry.render(&prefixes()).expect("renders");
    assert!(
        line.contains("<https://example.org/sync#SyncRun>"),
        "the CURIE is a convenience for readers, not a constraint on what can \
         be logged: {line}"
    );
    assert_eq!(Entry::parse(&line, &prefixes()).expect("parses"), entry);
}

#[test]
fn columns_that_would_parse_back_as_something_else_are_refused() {
    let stamp = Timestamp::from_millis(0);

    // A subject that is not an IRI.
    let entry = Entry::new(stamp, &log("Message"), "not an iri");
    assert!(entry.render(&prefixes()).is_err());

    // A key with a space in it would split into two columns on the way back.
    let entry = Entry::new(stamp, &log("Message"), "urn:x:y").with("two words", "v");
    assert!(entry.render(&prefixes()).is_err());

    // A CURIE whose prefix the header never bound.
    assert!(matches!(
        Entry::parse("1970-01-01T00:00:00.000Z nope:Thing urn:x:y", &prefixes()),
        Err(ParseError::UnboundPrefix(_))
    ));

    // A subject column that is not an absolute IRI.
    assert!(matches!(
        Entry::parse("1970-01-01T00:00:00.000Z log:Message plain", &prefixes()),
        Err(ParseError::NotAnIri(_))
    ));

    // A trailing column that is not key=value.
    assert!(matches!(
        Entry::parse(
            "1970-01-01T00:00:00.000Z log:Message urn:x:y stray",
            &prefixes()
        ),
        Err(ParseError::Field(_))
    ));
}

#[test]
fn each_fault_of_a_line_has_its_own_error() {
    let p = prefixes();
    assert!(matches!(
        Entry::parse("", &p),
        Err(ParseError::MissingColumn(_))
    ));
    assert!(matches!(
        Entry::parse("1970-01-01T00:00:00.000Z log:Message", &p),
        Err(ParseError::MissingColumn(_))
    ));
    assert!(matches!(
        Entry::parse("yesterday log:Message urn:x:y", &p),
        Err(ParseError::Timestamp(_))
    ));
    assert!(matches!(
        Entry::parse("1970-01-01T00:00:00.000Z log:Message urn:x:y msg=\"open", &p),
        Err(ParseError::Field(_))
    ));
    assert!(matches!(Seal::parse("#seal"), Err(ParseError::Seal(_))));
    assert!(matches!(
        Seal::parse("#seal 3 sha256:ab"),
        Err(ParseError::Seal(_))
    ));
    for error in [
        ParseError::Timestamp("t".to_string()),
        ParseError::MissingColumn("class"),
        ParseError::Field("f".to_string()),
        ParseError::UnboundPrefix("p".to_string()),
        ParseError::NotAnIri("i".to_string()),
        ParseError::Header("h".to_string()),
        ParseError::Seal("s".to_string()),
        ParseError::Version("v".to_string()),
    ] {
        assert!(!error.message().is_empty());
    }
}

#[test]
fn each_fault_of_a_rendering_has_its_own_error() {
    let stamp = Timestamp::from_millis(0);
    assert_eq!(
        Entry::new(stamp, &log("Message"), "nothing").render(&prefixes()),
        Err(RenderError::NotAnIri("nothing".to_string()))
    );
    assert_eq!(
        Entry::new(stamp, &log("Message"), "urn:x:y")
            .with("a b", "v")
            .render(&prefixes()),
        Err(RenderError::Key("a b".to_string()))
    );
    assert!(RenderError::Key("a b".to_string()).message().contains("a b"));
    assert!(RenderError::NotAnIri("nothing".to_string())
        .message()
        .contains("nothing"));
}

#[test]
fn values_are_quoted_only_where_they_have_to_be() {
    let stamp = Timestamp::from_millis(0);
    let line = Entry::new(stamp, &log("Message"), "urn:x:y")
        .with("bare", "word")
        .with("empty", "")
        .with("spaced", "two words")
        .with("slash", "a\\b c")
        .render(&prefixes())
        .expect("renders");
    assert_eq!(
        line,
        "1970-01-01T00:00:00.000Z log:Message urn:x:y bare=word empty=\"\" \
         spaced=\"two words\" slash=\"a\\\\b c\""
    );
    let read = Entry::parse(&line, &prefixes()).expect("parses");
    assert_eq!(read.get("empty"), Some(""));
    assert_eq!(read.get("slash"), Some("a\\b c"));
    assert_eq!(read.get("none"), None);
}

#[test]
fn the_tail_of_a_line_is_read_by_the_same_grammar() {
    assert_eq!(
        parse_fields(r#"span=7 cap=urn:a cap=urn:b msg="two words""#).expect("parses"),
        vec![
            ("span".to_string(), "7".to_string()),
            ("cap".to_string(), "urn:a".to_string()),
            ("cap".to_string(), "urn:b".to_string()),
            ("msg".to_string(), "two words".to_string()),
        ]
    );
    assert_eq!(parse_fields("   ").expect("parses"), Vec::new());
    assert!(parse_fields("stray").is_err());
}

#[test]
fn an_iri_is_told_by_its_shape() {
    for iri in ["urn:x:y", "https://example.org/a#b", "a:"] {
        assert!(is_iri(iri), "{iri}");
    }
    for other in ["plain", "", "urn:a b", "<urn:a>", "urn:\"a\"", "urn:a\u{a0}b"] {
        assert!(!is_iri(other), "{other}");
    }
}

// =====================================================================================
// Seals, headers, whole segments
// =====================================================================================

#[test]
fn a_seal_round_trips_signed_and_unsigned() {
    let sealed = Seal {
        first: 1,
        last: 42,
        hash: "sha256:4c1e".to_string(),
        signature: Some("sig:MEUCIQD".to_string()),
    };
    assert_eq!(sealed.render(), "#seal 1-42 sha256:4c1e sig:MEUCIQD");
    assert_eq!(Seal::parse(&sealed.render()).expect("parses"), sealed);

    let unsigned = Seal {
        signature: None,
        ..sealed
    };
    assert_eq!(
        Seal::parse(&unsigned.render()).expect("parses"),
        unsigned,
        "an unsigned seal still localizes tampering to a range"
    );
}

fn header() -> Header {
    Header {
        version: FORMAT_VERSION,
        prefixes: prefixes(),
        name: "urn:log:bug:daemon:2026-08-23T09-00-00Z".to_string(),
        instance: "urn:ikigai:instance:bug:daemon".to_string(),
        level: log("info"),
        started: Timestamp::parse("2026-08-23T09:00:00.000Z").unwrap(),
        prev: Prev::Genesis,
    }
}

#[test]
fn a_header_round_trips_and_carries_the_chain_across_the_rotation() {
    let genesis = header();
    let text = genesis.render().expect("renders");
    assert!(text.contains("@prev     genesis"));
    let (parsed, offset) = Header::parse(&text).expect("parses");
    assert_eq!(parsed, genesis);
    assert_eq!(
        offset,
        text.len(),
        "the header block ends at the blank line"
    );

    let next = Header {
        prev: Prev::Seal("sha256:9f3a".to_string()),
        ..header()
    };
    let (parsed, _) = Header::parse(&next.render().expect("renders")).expect("parses");
    assert_eq!(
        parsed.prev,
        Prev::Seal("sha256:9f3a".to_string()),
        "without this link, rotation is the seam at which a whole file can be \
         replaced and nothing detects it"
    );
}

#[test]
fn an_incomplete_or_foreign_header_is_an_error_not_a_default() {
    let full = header().render().expect("renders");

    for directive in ["@name", "@instance", "@level", "@started", "@prev"] {
        let pruned: String = full
            .lines()
            .filter(|line| !line.starts_with(directive))
            .map(|line| format!("{line}\n"))
            .collect();
        assert!(
            Header::parse(&pruned).is_err(),
            "a missing {directive} must fail loudly: a level or a destination \
             that silently defaults is a hole nothing brackets"
        );
    }

    let wrong_version = full.replacen("v1", "v2", 1);
    assert!(matches!(
        Header::parse(&wrong_version),
        Err(ParseError::Version(_))
    ));

    assert!(
        Header::parse(&full.replacen("# ikigai-log v1\n", "", 1)).is_err(),
        "and a segment with no version line is not a segment"
    );
}

#[test]
fn a_header_is_written_as_aligned_directives() {
    assert_eq!(
        header().render().expect("renders"),
        "# ikigai-log v1\n\
         @prefix log:  <https://ikigai-rs.dev/ns/log#> .\n\
         @prefix prov: <http://www.w3.org/ns/prov#> .\n\
         @name     urn:log:bug:daemon:2026-08-23T09-00-00Z\n\
         @instance urn:ikigai:instance:bug:daemon\n\
         @level    log:info\n\
         @started  2026-08-23T09:00:00.000Z\n\
         @prev     genesis\n\
         \n"
    );
    let unnamed = Header {
        name: "no iri".to_string(),
        ..header()
    };
    assert_eq!(
        unnamed.render(),
        Err(RenderError::NotAnIri("no iri".to_string()))
    );
}

#[test]
fn a_whole_segment_reads_back_line_by_line() {
    let header = header();
    let entries = || {
        [
            Entry::new(
                Timestamp::parse("2026-08-23T09:00:00.000Z").unwrap(),
                &log("ProcessStart"),
                "urn:ikigai:instance:bug:daemon",
            ),
            Entry::new(
                Timestamp::parse("2026-08-23T09:14:22.031Z").unwrap(),
                &log("Message"),
                "urn:agent:calendar",
            )
            .with("msg", "sync started"),
        ]
    };
    let seal = Seal {
        first: 1,
        last: 2,
        hash: "sha256:4c1e".to_string(),
        signature: None,
    };

    let mut file = header.render().expect("renders");
    for entry in &entries() {
        file.push_str(&entry.render(&header.prefixes).expect("renders"));
        file.push('\n');
    }
    file.push_str(&seal.render());
    file.push('\n');

    let (parsed_header, offset) = Header::parse(&file).expect("header parses");
    assert_eq!(parsed_header, header);

    let body: Vec<Line> = file[offset..]
        .lines()
        .map(|line| Line::parse(line, &parsed_header.prefixes).expect("line parses"))
        .collect();
    let [first, second] = entries();
    assert_eq!(
        body,
        vec![Line::Entry(first), Line::Entry(second), Line::Seal(seal)]
    );
}

#[test]
fn lines_are_classified_by_shape() {
    let p = prefixes();
    assert_eq!(Line::parse("   ", &p).unwrap(), Line::Blank);
    assert_eq!(
        Line::parse("# a note", &p).unwrap(),
        Line::Comment("a note".to_string()),
        "a seal reads as a comment to anything that does not know the format"
    );
    assert!(matches!(
        Line::parse("#seal 1-2 sha256:ab", &p).unwrap(),
        Line::Seal(_)
    ));
    assert_eq!(
        Line::parse("@name urn:log:x", &p).unwrap(),
        Line::Directive {
            name: "name".to_string(),
            value: "urn:log:x".to_string()
        }
    );
}

#[test]
fn a_repeated_directive_is_an_error() {
    let full = header().render().expect("renders");
    for directive in ["@name", "@instance", "@level", "@started", "@prev"] {
        let line = full
            .lines()
            .find(|line| line.starts_with(directive))
            .expect("it is written");
        let twice = full.replacen(line, &format!("{line}\n{line}"), 1);
        assert_eq!(
            Header::parse(&twice),
            Err(ParseError::Header(format!("repeated {directive}"))),
        );
    }

    let two_levels = "# ikigai-log v1\n\
        @prefix log: <https://ikigai-rs.dev/ns/log#> .\n\
        @name urn:log:a\n\
        @instance urn:i:a\n\
        @level log:info\n\
        @level log:debug\n\
        @started 1970-01-01T00:00:00.000Z\n\
        @prev genesis\n\n";
    assert!(matches!(
        Header::parse(two_levels),
        Err(ParseError::Header(_))
    ));
}

#[test]
fn the_last_version_line_counts() {
    let full = header().render().expect("renders");
    let versions = |lines: &str| full.replacen("# ikigai-log v1\n", lines, 1);

    let twice = versions("# ikigai-log v1\n# ikigai-log v1\n");
    let (parsed, offset) = Header::parse(&twice).expect("parses");
    assert_eq!(parsed, header());
    assert_eq!(offset, twice.len());

    let upgraded = versions("# ikigai-log v2\n# ikigai-log v1\n");
    assert_eq!(Header::parse(&upgraded).expect("parses").0, header());
    assert!(Header::parse(&versions("# ikigai-log v1\n# ikigai-log v2\n")).is_err());
}

#[test]
fn a_prefix_may_hold_what_only_an_entry_minds() {
    let mut quoted = prefixes();
    quoted.insert("a\"b".to_string(), "urn:ab:".to_string());
    let h = Header {
        prefixes: quoted,
        ..header()
    };
    let text = h.render().expect("renders");
    let (parsed, offset) = Header::parse(&format!("{text}what follows")).expect("parses");
    assert_eq!(parsed, h);
    assert_eq!(offset, text.len());
}

#[test]
fn no_value_breaks_a_line() {
    let entry = Entry::new(Timestamp::from_millis(0), &log("Message"), "urn:a:b")
        .with("msg", "one\r\ntwo\rthree\nfour");
    let line = entry.render(&prefixes()).expect("renders");
    assert!(!line.contains('\n') && !line.contains('\r'));
    assert_eq!(Entry::parse(&line, &prefixes()), Ok(entry));
}

#[test]
fn a_table_stands_in_the_order_of_its_keys() {
    let mut table: Prefixes = Table::new();
    for key in ["m", "z", "a", "m"] {
        table.insert(key.to_string(), format!("urn:{key}:"));
    }
    let keys: Vec<&String> = (0..table.len()).map(|i| table.at(i).0).collect();
    assert_eq!(keys, ["a", "m", "z"]);
    table.set_at(1, "urn:other:".to_string());
    assert_eq!(table.get("m"), Some(&"urn:other:".to_string()));
    assert_eq!(table.copy(), table);
}
