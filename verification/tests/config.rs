use ikigai_log::config::disambiguated;
use ikigai_log::load::{complete_with, paths_in, target_layer, threads_in, threads_of};
use ikigai_log::{
    instance_iri, level_iri, Bound, ConfigError, Destination, LogConfig, Patch, RotationPolicy,
    SealPolicy, CONFIG_IRI, LOG_NS,
};

fn log(term: &str) -> String {
    format!("{LOG_NS}{term}")
}

fn layer() -> Patch {
    Patch::default()
}

#[test]
fn the_threads_name_every_candidate_including_the_ones_not_created_yet() {
    let threads = threads_in("/cfg/ikigai", Some("serve"));
    assert_eq!(
        threads,
        vec![
            "urn:file:/cfg/ikigai/log.toml".to_string(),
            "urn:file:/cfg/ikigai/serve.log.toml".to_string(),
        ],
        "a config that named only the files it read would never notice an \
         override being created"
    );
}

#[test]
fn a_change_lands_in_the_layer_of_highest_precedence() {
    assert_eq!(
        paths_in("/cfg/ikigai", None),
        vec!["/cfg/ikigai/log.toml".to_string()]
    );
    assert_eq!(
        paths_in("/cfg/ikigai", Some("")),
        paths_in("/cfg/ikigai", None),
        "an empty name is no name"
    );
    assert_eq!(target_layer("/cfg/ikigai", None), "/cfg/ikigai/log.toml");
    assert_eq!(
        target_layer("/cfg/ikigai", Some("serve")),
        "/cfg/ikigai/serve.log.toml"
    );
    assert_eq!(
        target_layer("/cfg/ikigai", Some("team/serve")),
        "/cfg/ikigai/team/serve.log.toml"
    );
    assert_eq!(
        target_layer("/cfg/ikigai", Some("/srv/serve")),
        "/srv/serve.log.toml"
    );
    assert_eq!(
        threads_of(&vec!["/a".to_string()]),
        vec!["urn:file:/a".to_string()]
    );
}

#[test]
fn no_layer_at_all_is_the_host_defaults() {
    let base = LogConfig::default().with_destination(Destination::Console);
    let effective = complete_with(base, &Vec::new());
    assert_eq!(effective.destination, Destination::Console);
    assert_eq!(effective.level, log("info"));
    assert_eq!(effective.instance, "urn:ikigai:instance:repl");
    assert_eq!(effective.directory, None);
    assert!(effective.layers.is_empty());
}

#[test]
fn an_upper_layer_overrides_a_lower_one_key_wise() {
    let shared = || Patch {
        level: Some("debug".to_string()),
        destination: Some(Destination::File),
        ..layer()
    };
    let own = Patch {
        instance: Some("bug:serve".to_string()),
        ..layer()
    };
    let effective = complete_with(
        LogConfig::default(),
        &vec![
            ("/cfg/log.toml".to_string(), shared()),
            ("/cfg/serve.log.toml".to_string(), own),
        ],
    );
    assert_eq!(effective.instance, "urn:ikigai:instance:bug:serve");
    assert_eq!(effective.level, log("debug"), "the shared level survives");
    assert_eq!(effective.destination, Destination::File);
    assert_eq!(
        effective.layers,
        vec!["/cfg/log.toml", "/cfg/serve.log.toml"]
    );

    // Another application sees the shared file only.
    let other = complete_with(
        LogConfig::default(),
        &vec![("/cfg/log.toml".to_string(), shared())],
    );
    assert_eq!(other.instance, "urn:ikigai:instance:repl");
    assert_eq!(other.level, log("debug"));
    assert_eq!(other.layers.len(), 1);
}

#[test]
fn folding_two_layers_is_folding_their_merge() {
    let lower = || Patch {
        level: Some("debug".to_string()),
        directory: Some("/low".to_string()),
        seal_every_entries: Some(Bound::At(5)),
        ..layer()
    };
    let upper = || Patch {
        level: Some("trace".to_string()),
        rotation_max_entries: Some(Bound::Never),
        ..layer()
    };
    let merged = lower().merge(&upper());
    assert_eq!(merged.level.as_deref(), Some("trace"));
    assert_eq!(merged.directory.as_deref(), Some("/low"));
    let mut one = LogConfig::default();
    one.apply(&lower());
    one.apply(&upper());
    let mut both = LogConfig::default();
    both.apply(&merged);
    assert_eq!(one, both);
    assert_eq!(one.seals.every_entries, 5);
    assert_eq!(one.rotation.max_entries, None);
}

#[test]
fn a_layer_that_states_nothing_changes_nothing() {
    assert!(layer().is_empty());
    assert!(layer().validate().is_ok());
    assert_eq!(layer().to_toml(), "");
    let mut config = LogConfig::default();
    config.apply(&layer());
    assert_eq!(config, LogConfig::default());
    assert!(!Patch {
        level: Some("info".to_string()),
        ..layer()
    }
    .is_empty());
}

#[test]
fn an_unusable_value_names_its_key() {
    for (patch, key) in [
        (
            Patch {
                level: Some("not a level".to_string()),
                ..layer()
            },
            "level",
        ),
        (
            Patch {
                instance: Some("two words".to_string()),
                ..layer()
            },
            "instance",
        ),
        (
            Patch {
                directory: Some("  ".to_string()),
                ..layer()
            },
            "directory",
        ),
        (
            Patch {
                seal_every_entries: Some(Bound::At(0)),
                ..layer()
            },
            "seal.every_entries",
        ),
        (
            Patch {
                seal_every_millis: Some(Bound::At(0)),
                ..layer()
            },
            "seal.every_millis",
        ),
        (
            Patch {
                rotation_max_entries: Some(Bound::At(0)),
                ..layer()
            },
            "rotation.max_entries",
        ),
        (
            Patch {
                rotation_max_age_millis: Some(Bound::At(0)),
                ..layer()
            },
            "rotation.max_age_millis",
        ),
    ] {
        match patch.validate() {
            Err(ConfigError::BadValue { key: found, .. }) => assert_eq!(found, key),
            other => panic!("expected {key} to be refused, got {other:?}"),
        }
    }
}

#[test]
fn every_config_error_says_what_went_wrong() {
    assert_eq!(
        ConfigError::BadValue {
            key: "level",
            value: "a \"b\"".to_string(),
            expected: "a level".to_string(),
        }
        .message(),
        "level: \"a \\\"b\\\"\" is not a level"
    );
    assert_eq!(
        ConfigError::Parse {
            path: Some("/cfg/log.toml".to_string()),
            message: "no".to_string(),
        }
        .message(),
        "/cfg/log.toml: no"
    );
    assert_eq!(
        ConfigError::Parse {
            path: None,
            message: "no".to_string(),
        }
        .message(),
        "no"
    );
    for error in [
        ConfigError::Unreadable {
            path: "/cfg".to_string(),
            message: "m".to_string(),
        },
        ConfigError::Unwritable {
            path: "/cfg".to_string(),
            message: "m".to_string(),
        },
    ] {
        assert_eq!(error.message(), "/cfg: m");
    }
    assert!(ConfigError::NoConfigHome.message().contains("config home"));
}

#[test]
fn names_are_spelled_short_and_mean_iris() {
    assert_eq!(instance_iri("bug:serve"), "urn:ikigai:instance:bug:serve");
    assert_eq!(
        instance_iri("urn:ikigai:instance:bug:serve"),
        "urn:ikigai:instance:bug:serve"
    );
    assert_eq!(disambiguated("serve", 64213), "serve-64213");
    assert_eq!(
        LogConfig::default()
            .with_self_assigned_instance("serve", 64213)
            .instance_name(),
        "serve-64213"
    );
    assert_eq!(level_iri("info"), Some(log("info")));
    assert_eq!(level_iri(" log:info "), Some(log("info")));
    assert_eq!(
        level_iri("https://example.org/l#quiet"),
        Some("https://example.org/l#quiet".to_string())
    );
    for bad in ["", "log:", "two words", "a/b"] {
        assert_eq!(level_iri(bad), None, "{bad}");
    }
    assert!(matches!(
        LogConfig::default().with_level("two words"),
        Err(ConfigError::BadValue { key: "level", .. })
    ));
}

#[test]
fn destinations_have_one_token_each() {
    for (destination, token) in [
        (Destination::Off, "off"),
        (Destination::Console, "console"),
        (Destination::File, "file"),
    ] {
        assert_eq!(destination.as_str(), token);
        assert_eq!(Destination::parse(token), Some(destination));
        assert_eq!(destination.iri(), log(token));
    }
    assert_eq!(Destination::parse("flie"), None);
}

#[test]
fn bounds_are_numbers_or_never() {
    assert_eq!(Bound::Never.render(), "\"never\"");
    assert_eq!(Bound::At(7).render(), "7");
    assert_eq!(Bound::Never.number(), u64::MAX);
    assert_eq!(Bound::At(7).number(), 7);
    assert_eq!(Bound::Never.limit(), None);
    assert_eq!(Bound::At(7).limit(), Some(7));
    assert_eq!(Bound::of_number(u64::MAX), Bound::Never);
    assert_eq!(Bound::of_number(7), Bound::At(7));
    assert_eq!(Bound::of_limit(None), Bound::Never);
    assert_eq!(Bound::of_limit(Some(7)), Bound::At(7));
}

#[test]
fn a_layer_is_written_as_the_file_it_is() {
    let patch = Patch {
        level: Some("debug".to_string()),
        destination: Some(Destination::File),
        directory: Some("/var/log/a \"b\"".to_string()),
        instance: Some("bug:serve".to_string()),
        seal_every_entries: Some(Bound::At(10)),
        seal_every_millis: None,
        rotation_max_entries: None,
        rotation_max_age_millis: Some(Bound::Never),
    };
    assert_eq!(
        patch.to_toml(),
        "level = \"debug\"\n\
         destination = \"file\"\n\
         directory = \"/var/log/a \\\"b\\\"\"\n\
         instance = \"bug:serve\"\n\
         \n\
         [seal]\n\
         every_entries = 10\n\
         \n\
         [rotation]\n\
         max_age_millis = \"never\"\n"
    );
}

#[test]
fn the_written_file_is_toml() {
    let table: toml::Table = LogConfig::default()
        .with_level("debug")
        .expect("a level")
        .with_directory("/var/log/a \"b\"")
        .to_toml()
        .parse()
        .expect("it parses");
    assert_eq!(table["level"].as_str(), Some("debug"));
    assert_eq!(table["destination"].as_str(), Some("off"));
    assert_eq!(table["directory"].as_str(), Some("/var/log/a \"b\""));
    assert_eq!(table["instance"].as_str(), Some("repl"));
    assert_eq!(table["seal"]["every_entries"].as_integer(), Some(1_000));
    assert_eq!(
        table["rotation"]["max_age_millis"].as_integer(),
        Some(86_400_000)
    );
}

#[test]
fn the_graph_face_says_where_the_log_is() {
    let mut config = LogConfig::default()
        .with_instance("serve")
        .with_directory("/logs");
    config.layers = vec!["/cfg/log.toml".to_string()];
    let closed = config.to_turtle(CONFIG_IRI, None);
    assert!(closed.contains("<urn:log:config> a log:Config"), "{closed}");
    assert!(closed.contains("log:currentSegment log:none"), "{closed}");
    assert!(closed.contains("log:directory \"/logs\""), "{closed}");
    assert!(closed.contains("log:configLayer \"/cfg/log.toml\""), "{closed}");
    let open = config.to_turtle(
        CONFIG_IRI,
        Some(("urn:log:serve-1:S", "urn:ikigai:instance:serve-1")),
    );
    assert!(open.contains("log:currentSegment <urn:log:serve-1:S>"), "{open}");
    assert!(
        open.contains("log:configuredInstance <urn:ikigai:instance:serve>"),
        "{open}"
    );
}

#[test]
fn a_config_duplicates_whole() {
    let mut config = LogConfig::default().with_directory("/logs");
    config.seals = SealPolicy::manual();
    config.rotation = RotationPolicy::manual();
    assert_eq!(config.duplicate(), config);
}

#[test]
fn an_absolute_instance_name_is_left_alone() {
    for absolute in [
        "https://example.org/agents/a",
        "urn:agent:calendar",
        "urn:ikigai:instance:serve",
    ] {
        assert_eq!(instance_iri(absolute), absolute);
        assert_eq!(LogConfig::default().with_instance(absolute).instance, absolute);
    }
    for bare in ["serve", "bug:serve", "://x", "https://two words"] {
        assert_eq!(instance_iri(bare), format!("urn:ikigai:instance:{bare}"));
    }
}

#[test]
fn a_level_that_is_no_iri_is_refused() {
    for bad in ["log:two words", "log:", "two words", "log:a<b", ""] {
        assert_eq!(level_iri(bad), None, "{bad:?}");
    }
    assert_eq!(level_iri(" log:info "), Some(log("info")));
    assert_eq!(level_iri("urn:mine:loud"), Some("urn:mine:loud".to_string()));
}
