//! The effective configuration, and the layers it is folded from.

use vstd::prelude::*;
use vstd::string::*;

use crate::chain::{RotationPolicy, SealPolicy};
use crate::config::{
    bound_text, debug_of, debug_text, destination_token, instance_iri, instance_of, level_char,
    level_iri, level_read, unprefixed, without_prefix, Bound, ConfigError, ConfigErrorView, Destination,
    DEFAULT_INSTANCE_NAME, DEFAULT_LEVEL, INSTANCE_NS,
};
use crate::header_law::lemma_trim_trimmed;
use crate::number::decimal;
use crate::text::{
    chars_of, copy_maybe, copy_texts, maybe, same_text, starts_with, texts, trim, trimmed,
};
use crate::token::{iri_like, is_iri, seen};
use crate::vocabulary::LOG_NS;

verus! {

/// The **effective** log config: every key resolved, nothing optional except a
/// `directory` that has not been stated and is therefore the data home's.
///
/// This is what `urn:log:config` serves. It is never the contents of one file.
#[derive(Clone, Debug, PartialEq, Eq)]
pub struct LogConfig {
    /// The level this process's segment runs at, as an absolute IRI. Resolved
    /// against the vocabulary once, when a segment is opened.
    pub level: String,
    /// Where the lines go.
    pub destination: Destination,
    /// Where segment files land. `None` is not "nowhere", it is "the data
    /// home's `log` directory", which only a process that knows its home can
    /// name, so the resolution belongs at open time and not here.
    pub directory: Option<String>,
    /// The writing process, as an absolute IRI: the attribution key, since the
    /// log is per-process rather than per-machine.
    pub instance: String,
    /// When a checkpoint lands.
    pub seals: SealPolicy,
    /// When a segment rolls over.
    pub rotation: RotationPolicy,
    /// The files that contributed, lowest precedence first: provenance, not
    /// configuration. Skipped in the TOML face so that face round-trips as a
    /// config file; present in the graph face, where it answers "why is the
    /// level debug?" without a second lookup.
    pub layers: Vec<String>,
}

/// A [`LogConfig`], with its texts as characters.
#[verifier::ext_equal]
pub struct ConfigView {
    pub level: Seq<char>,
    pub destination: Destination,
    pub directory: Option<Seq<char>>,
    pub instance: Seq<char>,
    pub seals: SealPolicy,
    pub rotation: RotationPolicy,
    pub layers: Seq<Seq<char>>,
}

impl View for LogConfig {
    type V = ConfigView;

    open spec fn view(&self) -> ConfigView {
        ConfigView {
            level: self.level@,
            destination: self.destination,
            directory: maybe(self.directory),
            instance: self.instance@,
            seals: self.seals,
            rotation: self.rotation,
            layers: texts(self.layers@),
        }
    }
}

impl Default for LogConfig {
    /// The quiet default: `off`, at `info`, attributed to `repl`.
    ///
    /// A host that logs overrides this before layering the files on top. The
    /// module cannot make that call itself; it does not know what it is inside.
    fn default() -> (r: LogConfig)
        ensures
            r@ == (ConfigView {
                level: DEFAULT_LEVEL@,
                destination: Destination::Off,
                directory: None,
                instance: instance_of(DEFAULT_INSTANCE_NAME@),
                seals: SealPolicy { every_entries: 1_000, every_millis: 60_000 },
                rotation: RotationPolicy {
                    max_entries: Some(100_000),
                    max_age_millis: Some(86_400_000),
                },
                layers: Seq::empty(),
            }),
    {
        let r = LogConfig {
            level: DEFAULT_LEVEL.to_owned(),
            destination: Destination::Off,
            directory: None,
            instance: instance_iri(DEFAULT_INSTANCE_NAME),
            seals: SealPolicy::default(),
            rotation: RotationPolicy::default(),
            layers: Vec::new(),
        };
        assert(r@.layers =~= Seq::empty());
        r
    }
}

// =====================================================================================
// Layers
// =====================================================================================

/// One layer's contents: every key optional, because a layer states only its
/// differences.
#[derive(Debug, PartialEq, Eq)]
pub struct Patch {
    /// The level this layer states.
    pub level: Option<String>,
    /// The destination this layer states.
    pub destination: Option<Destination>,
    /// The segment directory this layer states.
    pub directory: Option<String>,
    /// The instance name this layer states.
    pub instance: Option<String>,
    /// `every_entries` of `[seal]`.
    pub seal_every_entries: Option<Bound>,
    /// `every_millis` of `[seal]`.
    pub seal_every_millis: Option<Bound>,
    /// `max_entries` of `[rotation]`.
    pub rotation_max_entries: Option<Bound>,
    /// `max_age_millis` of `[rotation]`.
    pub rotation_max_age_millis: Option<Bound>,
}

/// A [`Patch`], with its texts as characters.
#[verifier::ext_equal]
pub struct PatchView {
    pub level: Option<Seq<char>>,
    pub destination: Option<Destination>,
    pub directory: Option<Seq<char>>,
    pub instance: Option<Seq<char>>,
    pub seal_every_entries: Option<Bound>,
    pub seal_every_millis: Option<Bound>,
    pub rotation_max_entries: Option<Bound>,
    pub rotation_max_age_millis: Option<Bound>,
}

impl View for Patch {
    type V = PatchView;

    open spec fn view(&self) -> PatchView {
        PatchView {
            level: maybe(self.level),
            destination: self.destination,
            directory: maybe(self.directory),
            instance: maybe(self.instance),
            seal_every_entries: self.seal_every_entries,
            seal_every_millis: self.seal_every_millis,
            rotation_max_entries: self.rotation_max_entries,
            rotation_max_age_millis: self.rotation_max_age_millis,
        }
    }
}

/// A layer that states nothing.
pub open spec fn empty_patch() -> PatchView {
    PatchView {
        level: None,
        destination: None,
        directory: None,
        instance: None,
        seal_every_entries: None,
        seal_every_millis: None,
        rotation_max_entries: None,
        rotation_max_age_millis: None,
    }
}

impl Default for Patch {
    fn default() -> (r: Patch)
        ensures
            r@ == empty_patch(),
    {
        Patch {
            level: None,
            destination: None,
            directory: None,
            instance: None,
            seal_every_entries: None,
            seal_every_millis: None,
            rotation_max_entries: None,
            rotation_max_age_millis: None,
        }
    }
}

/// What `upper` states, or else what `lower` does.
pub open spec fn over<T>(upper: Option<T>, lower: Option<T>) -> Option<T> {
    match upper {
        Some(v) => Some(v),
        None => lower,
    }
}

/// One layer merged over another, key-wise.
pub open spec fn merged(lower: PatchView, upper: PatchView) -> PatchView {
    PatchView {
        level: over(upper.level, lower.level),
        destination: over(upper.destination, lower.destination),
        directory: over(upper.directory, lower.directory),
        instance: over(upper.instance, lower.instance),
        seal_every_entries: over(upper.seal_every_entries, lower.seal_every_entries),
        seal_every_millis: over(upper.seal_every_millis, lower.seal_every_millis),
        rotation_max_entries: over(upper.rotation_max_entries, lower.rotation_max_entries),
        rotation_max_age_millis: over(
            upper.rotation_max_age_millis,
            lower.rotation_max_age_millis,
        ),
    }
}

/// The number at which a bound is reached, the largest one standing for never.
pub open spec fn bound_number(b: Bound) -> u64 {
    match b {
        Bound::Never => u64::MAX,
        Bound::At(n) => n,
    }
}

/// The number at which a bound is reached, if it ever is.
pub open spec fn bound_limit(b: Bound) -> Option<u64> {
    match b {
        Bound::Never => None,
        Bound::At(n) => Some(n),
    }
}

/// A config with one layer folded in, key-wise: a key the layer states wins, a key it
/// stays silent about survives from below. A level that means nothing is passed over.
pub open spec fn applied(c: ConfigView, p: PatchView) -> ConfigView {
    ConfigView {
        level: match p.level {
            Some(level) => match level_read(level) {
                Some(iri) => iri,
                None => c.level,
            },
            None => c.level,
        },
        destination: match p.destination {
            Some(d) => d,
            None => c.destination,
        },
        directory: over(p.directory, c.directory),
        instance: match p.instance {
            Some(name) => instance_of(name),
            None => c.instance,
        },
        seals: SealPolicy {
            every_entries: match p.seal_every_entries {
                Some(b) => bound_number(b),
                None => c.seals.every_entries,
            },
            every_millis: match p.seal_every_millis {
                Some(b) => bound_number(b),
                None => c.seals.every_millis,
            },
        },
        rotation: RotationPolicy {
            max_entries: match p.rotation_max_entries {
                Some(b) => bound_limit(b),
                None => c.rotation.max_entries,
            },
            max_age_millis: match p.rotation_max_age_millis {
                Some(b) => bound_limit(b),
                None => c.rotation.max_age_millis,
            },
        },
        layers: c.layers,
    }
}

/// The error for an unusable value.
pub open spec fn bad_value(
    key: Seq<char>,
    value: Seq<char>,
    expected: Seq<char>,
) -> ConfigErrorView {
    ConfigErrorView::BadValue { key, value, expected }
}

/// What is wrong with a bound: zero is met before anything happened.
pub open spec fn bound_fault(key: Seq<char>, b: Option<Bound>) -> Option<ConfigErrorView> {
    if b == Some(Bound::At(0)) {
        Some(bad_value(key, "0"@, "a positive integer or \"never\""@))
    } else {
        None
    }
}

/// What is wrong with the first of two faults that there is.
pub open spec fn first_fault(
    a: Option<ConfigErrorView>,
    b: Option<ConfigErrorView>,
) -> Option<ConfigErrorView> {
    match a {
        Some(e) => Some(e),
        None => b,
    }
}

/// What is wrong with a layer: the first of its keys that states something unusable.
pub open spec fn patch_fault(p: PatchView) -> Option<ConfigErrorView> {
    let level = match p.level {
        Some(level) => if level_read(level) is None {
            Some(
                bad_value(
                    "level"@,
                    level,
                    "a level name, a log: CURIE, or an absolute IRI"@,
                ),
            )
        } else {
            None
        },
        None => None,
    };
    let instance = match p.instance {
        Some(name) => if !iri_like(instance_of(name)) {
            Some(
                bad_value("instance"@, name, "a name with no whitespace, or an absolute IRI"@),
            )
        } else {
            None
        },
        None => None,
    };
    let directory = match p.directory {
        Some(d) => if trim(d).len() == 0 {
            Some(bad_value("directory"@, d, "a path"@))
        } else {
            None
        },
        None => None,
    };
    let seal = first_fault(
        bound_fault("seal.every_entries"@, p.seal_every_entries),
        bound_fault("seal.every_millis"@, p.seal_every_millis),
    );
    let rotation = first_fault(
        bound_fault("rotation.max_entries"@, p.rotation_max_entries),
        bound_fault("rotation.max_age_millis"@, p.rotation_max_age_millis),
    );
    first_fault(level, first_fault(instance, first_fault(directory, first_fault(seal, rotation))))
}

/// `key = value` on a line of its own.
pub open spec fn toml_line(key: Seq<char>, value: Seq<char>) -> Seq<char> {
    key + " = "@ + value + seq!['\n']
}

/// `key = value` on a line of its own, where there is a value.
pub open spec fn toml_maybe(key: Seq<char>, value: Option<Seq<char>>) -> Seq<char> {
    match value {
        Some(v) => toml_line(key, v),
        None => Seq::empty(),
    }
}

/// An optional text as `Debug` writes it.
pub open spec fn debug_maybe(v: Option<Seq<char>>) -> Option<Seq<char>> {
    match v {
        Some(s) => Some(debug_text(s)),
        None => None,
    }
}

/// An optional bound as it is written.
pub open spec fn bound_maybe(b: Option<Bound>) -> Option<Seq<char>> {
    match b {
        Some(b) => Some(bound_text(b)),
        None => None,
    }
}

/// The lines of a table, under its heading, where there are any.
pub open spec fn toml_table(heading: Seq<char>, lines: Seq<char>) -> Seq<char> {
    if lines.len() == 0 {
        Seq::empty()
    } else {
        heading + lines
    }
}

/// A layer as the TOML file it is written as.
pub open spec fn patch_text(p: PatchView) -> Seq<char> {
    toml_maybe("level"@, debug_maybe(p.level)) + toml_maybe(
        "destination"@,
        match p.destination {
            Some(d) => Some(debug_text(destination_token(d))),
            None => None,
        },
    ) + toml_maybe("directory"@, debug_maybe(p.directory)) + toml_maybe(
        "instance"@,
        debug_maybe(p.instance),
    ) + toml_table(
        "\n[seal]\n"@,
        toml_maybe("every_entries"@, bound_maybe(p.seal_every_entries)) + toml_maybe(
            "every_millis"@,
            bound_maybe(p.seal_every_millis),
        ),
    ) + toml_table(
        "\n[rotation]\n"@,
        toml_maybe("max_entries"@, bound_maybe(p.rotation_max_entries)) + toml_maybe(
            "max_age_millis"@,
            bound_maybe(p.rotation_max_age_millis),
        ),
    )
}

fn append_line(out: &mut String, key: &str, value: &str)
    ensures
        final(out)@ == old(out)@ + toml_line(key@, value@),
{
    let ghost before = out@;
    out.append(key);
    out.append(" = ");
    out.append(value);
    out.push('\n');
    assert(out@ =~= before + toml_line(key@, value@));
}

fn append_text(out: &mut String, key: &str, value: &Option<String>)
    ensures
        final(out)@ == old(out)@ + toml_maybe(key@, debug_maybe(maybe(*value))),
{
    match value {
        Some(v) => {
            append_line(out, key, &debug_of(v));
        },
        None => {
            assert(out@ + Seq::<char>::empty() =~= out@);
        },
    }
}

fn append_bound(out: &mut String, key: &str, value: &Option<Bound>)
    ensures
        final(out)@ == old(out)@ + toml_maybe(key@, bound_maybe(*value)),
{
    match value {
        Some(b) => {
            append_line(out, key, &b.render());
        },
        None => {
            assert(out@ + Seq::<char>::empty() =~= out@);
        },
    }
}

fn append_table(out: &mut String, heading: &str, lines: &str)
    ensures
        final(out)@ == old(out)@ + toml_table(heading@, lines@),
{
    let ghost before = out@;
    if !lines.is_empty() {
        out.append(heading);
        out.append(lines);
    }
    assert(out@ =~= before + toml_table(heading@, lines@));
}

/// Check a bound that a layer states.
fn check_bound(key: &'static str, bound: &Option<Bound>) -> (r: Result<(), ConfigError>)
    ensures
        match r {
            Ok(_) => bound_fault(key@, *bound) is None,
            Err(e) => bound_fault(key@, *bound) == Some(e@),
        },
{
    match bound {
        Some(Bound::At(n)) => if *n == 0 {
            Err(
                ConfigError::BadValue {
                    key,
                    value: "0".to_owned(),
                    expected: "a positive integer or \"never\"".to_owned(),
                },
            )
        } else {
            Ok(())
        },
        _ => Ok(()),
    }
}

impl Patch {
    /// Check every value this layer *states*, before it is merged.
    ///
    /// Validating each layer rather than only the merged result is deliberate:
    /// a misspelled level in the shared `log.toml` is a real defect even when
    /// one application's override happens to hide it, and hiding it is exactly
    /// how it reaches every *other* application unnoticed.
    pub fn validate(&self) -> (r: Result<(), ConfigError>)
        ensures
            match r {
                Ok(_) => patch_fault(self@) is None,
                Err(e) => patch_fault(self@) == Some(e@),
            },
    {
        if let Some(level) = &self.level {
            if level_iri(level).is_none() {
                return Err(
                    ConfigError::BadValue {
                        key: "level",
                        value: level.clone(),
                        expected: "a level name, a log: CURIE, or an absolute IRI".to_owned(),
                    },
                );
            }
        }
        if let Some(instance) = &self.instance {
            if !is_iri(&instance_iri(instance)) {
                return Err(
                    ConfigError::BadValue {
                        key: "instance",
                        value: instance.clone(),
                        expected: "a name with no whitespace, or an absolute IRI".to_owned(),
                    },
                );
            }
        }
        if let Some(directory) = &self.directory {
            if trimmed(&chars_of(directory)).len() == 0 {
                return Err(
                    ConfigError::BadValue {
                        key: "directory",
                        value: directory.clone(),
                        expected: "a path".to_owned(),
                    },
                );
            }
        }
        match check_bound("seal.every_entries", &self.seal_every_entries) {
            Ok(()) => {},
            Err(e) => {
                return Err(e);
            },
        }
        match check_bound("seal.every_millis", &self.seal_every_millis) {
            Ok(()) => {},
            Err(e) => {
                return Err(e);
            },
        }
        match check_bound("rotation.max_entries", &self.rotation_max_entries) {
            Ok(()) => {},
            Err(e) => {
                return Err(e);
            },
        }
        check_bound("rotation.max_age_millis", &self.rotation_max_age_millis)
    }

    /// This layer as the TOML file it came from: how a `urn:log:config` write
    /// lands on disk.
    ///
    /// **Comments do not survive.** The layer is read as values and written
    /// back as values, so an operator's annotations in the file being written
    /// are lost.
    pub fn to_toml(&self) -> (out: String)
        ensures
            out@ == patch_text(self@),
    {
        let mut out = String::new();
        append_text(&mut out, "level", &self.level);
        match self.destination {
            Some(d) => {
                append_line(&mut out, "destination", &debug_of(d.as_str()));
            },
            None => {
                assert(out@ + Seq::<char>::empty() =~= out@);
            },
        }
        append_text(&mut out, "directory", &self.directory);
        append_text(&mut out, "instance", &self.instance);
        let mut seal = String::new();
        append_bound(&mut seal, "every_entries", &self.seal_every_entries);
        append_bound(&mut seal, "every_millis", &self.seal_every_millis);
        append_table(&mut out, "\n[seal]\n", &seal);
        let mut rotation = String::new();
        append_bound(&mut rotation, "max_entries", &self.rotation_max_entries);
        append_bound(&mut rotation, "max_age_millis", &self.rotation_max_age_millis);
        append_table(&mut out, "\n[rotation]\n", &rotation);
        proof {
            let none = Seq::<char>::empty();
            assert(seal@ =~= toml_maybe("every_entries"@, bound_maybe(self@.seal_every_entries))
                + toml_maybe("every_millis"@, bound_maybe(self@.seal_every_millis)));
            assert(rotation@ =~= toml_maybe("max_entries"@, bound_maybe(self@.rotation_max_entries))
                + toml_maybe("max_age_millis"@, bound_maybe(self@.rotation_max_age_millis)));
            assert(out@ =~= patch_text(self@));
        }
        out
    }

    /// Whether this layer states anything at all.
    pub fn is_empty(&self) -> (r: bool)
        ensures
            r == (self@ == empty_patch()),
    {
        self.level.is_none() && self.destination.is_none() && self.directory.is_none()
            && self.instance.is_none() && self.seal_every_entries.is_none()
            && self.seal_every_millis.is_none() && self.rotation_max_entries.is_none()
            && self.rotation_max_age_millis.is_none()
    }

    /// This layer with `change` merged over it, key-wise: keys the change does not
    /// mention survive.
    pub fn merge(&self, change: &Patch) -> (r: Patch)
        ensures
            r@ == merged(self@, change@),
    {
        Patch {
            level: text_over(&change.level, &self.level),
            destination: match change.destination {
                Some(d) => Some(d),
                None => self.destination,
            },
            directory: text_over(&change.directory, &self.directory),
            instance: text_over(&change.instance, &self.instance),
            seal_every_entries: bound_over(change.seal_every_entries, self.seal_every_entries),
            seal_every_millis: bound_over(change.seal_every_millis, self.seal_every_millis),
            rotation_max_entries: bound_over(
                change.rotation_max_entries,
                self.rotation_max_entries,
            ),
            rotation_max_age_millis: bound_over(
                change.rotation_max_age_millis,
                self.rotation_max_age_millis,
            ),
        }
    }
}

fn text_over(upper: &Option<String>, lower: &Option<String>) -> (r: Option<String>)
    ensures
        maybe(r) == over(maybe(*upper), maybe(*lower)),
{
    match upper {
        Some(s) => Some(s.clone()),
        None => copy_maybe(lower),
    }
}

fn bound_over(upper: Option<Bound>, lower: Option<Bound>) -> (r: Option<Bound>)
    ensures
        r == over(upper, lower),
{
    match upper {
        Some(b) => Some(b),
        None => lower,
    }
}

// =====================================================================================
// The effective config
// =====================================================================================

/// The short spelling of a level IRI: `info` for a `log:` level, the IRI itself for one
/// from somewhere else.
pub open spec fn short_level(iri: Seq<char>) -> Seq<char> {
    unprefixed(iri, LOG_NS@)
}

/// The bound that a number of a seal policy stands for.
pub open spec fn number_bound(n: u64) -> Bound {
    if n == u64::MAX {
        Bound::Never
    } else {
        Bound::At(n)
    }
}

/// The bound that a limit of a rotation policy stands for.
pub open spec fn limit_bound(n: Option<u64>) -> Bound {
    match n {
        Some(n) => Bound::At(n),
        None => Bound::Never,
    }
}

/// The effective config as the layer that would state all of it. Where the segments
/// land is stated only where it is known.
pub open spec fn as_patch(c: ConfigView) -> PatchView {
    PatchView {
        level: Some(short_level(c.level)),
        destination: Some(c.destination),
        directory: c.directory,
        instance: Some(unprefixed(c.instance, INSTANCE_NS@)),
        seal_every_entries: Some(number_bound(c.seals.every_entries)),
        seal_every_millis: Some(number_bound(c.seals.every_millis)),
        rotation_max_entries: Some(limit_bound(c.rotation.max_entries)),
        rotation_max_age_millis: Some(limit_bound(c.rotation.max_age_millis)),
    }
}

/// `log:configLayer` lines.
pub open spec fn layer_lines(layers: Seq<Seq<char>>) -> Seq<char>
    decreases layers.len(),
{
    if layers.len() == 0 {
        Seq::empty()
    } else {
        layer_lines(layers.drop_last()) + "    log:configLayer "@ + debug_text(layers.last())
            + " ;\n"@
    }
}

/// What the graph face says of the segment being written, by its name and the instance
/// it is attributed to: nothing where none is open.
pub open spec fn segment_lines(
    c: ConfigView,
    open_segment: Option<(Seq<char>, Seq<char>)>,
) -> Seq<char> {
    match open_segment {
        None => Seq::empty(),
        Some((name, instance)) => ("<"@ + name + "> a log:Segment ;\n    log:level <"@ + c.level
            + "> ;\n    prov:wasAttributedTo <"@ + instance + "> .\n"@) + (if instance
            != c.instance {
            "<"@ + instance + "> a log:Instance ;\n    log:configuredInstance <"@ + c.instance
                + "> .\n"@
        } else {
            Seq::empty()
        }),
    }
}

/// The graph face of a config.
pub open spec fn config_turtle(
    c: ConfigView,
    subject: Seq<char>,
    open_segment: Option<(Seq<char>, Seq<char>)>,
) -> Seq<char> {
    "@prefix log:  <https://ikigai-rs.dev/ns/log#> .\n@prefix prov: <http://www.w3.org/ns/prov#> .\n@prefix xsd:  <http://www.w3.org/2001/XMLSchema#> .\n\n"@
        + ("<"@ + subject + "> a log:Config ;\n"@) + ("    log:level <"@ + c.level + "> ;\n"@) + (
    "    log:destination <"@ + (LOG_NS@ + destination_token(c.destination)) + "> ;\n"@) + (
    match c.directory {
        Some(d) => "    log:directory "@ + debug_text(d) + " ;\n"@,
        None => Seq::empty(),
    }) + ("    log:instance <"@ + c.instance + "> ;\n"@) + layer_lines(c.layers) + (
    match open_segment {
        Some((name, _)) => "    log:currentSegment <"@ + name + "> .\n\n"@,
        None => "    log:currentSegment log:none .\n\n"@,
    }) + ("<"@ + c.instance + "> a log:Instance .\n"@) + segment_lines(c, open_segment)
}

impl LogConfig {
    /// The destination this config uses (builder).
    #[must_use]
    pub fn with_destination(self, destination: Destination) -> (r: Self)
        ensures
            r@ == (ConfigView { destination, ..self@ }),
    {
        let mut r = self;
        r.destination = destination;
        r
    }

    /// The instance name this process is attributed to, bare or absolute
    /// (builder). What `--name` and the `instance =` key both land in.
    #[must_use]
    pub fn with_instance(self, name: &str) -> (r: Self)
        ensures
            r@ == (ConfigView { instance: instance_of(name@), ..self@ }),
    {
        let mut r = self;
        r.instance = instance_iri(name);
        r
    }

    /// A **self-assigned** instance name under `prefix`, made unique by `token`,
    /// which is the process id: `serve` becomes `serve-64213` (builder).
    ///
    /// This is the knob for the common case the policy creates: several servers
    /// on one machine, none of them given a name.
    #[must_use]
    pub fn with_self_assigned_instance(self, prefix: &str, token: u32) -> (r: Self)
        ensures
            r@ == (ConfigView {
                instance: instance_of(prefix@ + seq!['-'] + decimal(token as nat)),
                ..self@
            }),
    {
        self.with_instance(&crate::config::disambiguated(prefix, token))
    }

    /// The level this process's segments run at: bare, CURIE or absolute
    /// (builder). An unusable spelling is rejected here rather than silently
    /// kept.
    pub fn with_level(self, level: &str) -> (r: Result<Self, ConfigError>)
        ensures
            seen(r) == (match level_read(level@) {
                Some(iri) => Ok(ConfigView { level: iri, ..self@ }),
                None => Err(
                    bad_value(
                        "level"@,
                        level@,
                        "a level name, a log: CURIE, or an absolute IRI"@,
                    ),
                ),
            }),
    {
        match level_iri(level) {
            Some(iri) => {
                let mut r = self;
                r.level = iri;
                Ok(r)
            },
            None => Err(
                ConfigError::BadValue {
                    key: "level",
                    value: level.to_owned(),
                    expected: "a level name, a log: CURIE, or an absolute IRI".to_owned(),
                },
            ),
        }
    }

    /// The directory segment files land in (builder).
    #[must_use]
    pub fn with_directory(self, directory: &str) -> (r: Self)
        ensures
            r@ == (ConfigView { directory: Some(directory@), ..self@ }),
    {
        let mut r = self;
        r.directory = Some(directory.to_owned());
        r
    }

    /// Fold one layer in, key-wise: a key the layer states wins, a key it stays
    /// silent about survives from below.
    ///
    /// **Never wholesale.** "The last file that exists wins" is the easy
    /// accidental implementation, and it drops the operator's shared level the
    /// moment one front end wants a different destination.
    pub fn apply(&mut self, patch: &Patch)
        ensures
            final(self)@ == applied(old(self)@, patch@),
    {
        if let Some(level) = &patch.level {
            if let Some(iri) = level_iri(level) {
                self.level = iri;
            }
        }
        if let Some(destination) = patch.destination {
            self.destination = destination;
        }
        if let Some(directory) = &patch.directory {
            self.directory = Some(directory.clone());
        }
        if let Some(instance) = &patch.instance {
            self.instance = instance_iri(instance);
        }
        if let Some(bound) = patch.seal_every_entries {
            self.seals.every_entries = bound.number();
        }
        if let Some(bound) = patch.seal_every_millis {
            self.seals.every_millis = bound.number();
        }
        if let Some(bound) = patch.rotation_max_entries {
            self.rotation.max_entries = bound.limit();
        }
        if let Some(bound) = patch.rotation_max_age_millis {
            self.rotation.max_age_millis = bound.limit();
        }
    }

    /// The same configuration once more.
    pub fn duplicate(&self) -> (r: LogConfig)
        ensures
            r@ == self@,
    {
        LogConfig {
            level: self.level.clone(),
            destination: self.destination,
            directory: copy_maybe(&self.directory),
            instance: self.instance.clone(),
            seals: self.seals,
            rotation: self.rotation,
            layers: copy_texts(&self.layers),
        }
    }

    /// The bare instance name: the IRI with [`INSTANCE_NS`] stripped. What a
    /// file name and a lock file are built from.
    pub fn instance_name(&self) -> (r: String)
        ensures
            r@ == unprefixed(self@.instance, INSTANCE_NS@),
    {
        without_prefix(&self.instance, INSTANCE_NS)
    }

    /// The TOML face: the effective config as a file an operator could paste
    /// back. Provenance (`layers`) is deliberately absent: it is not
    /// configuration, and a face that round-trips must not carry it.
    pub fn to_toml(&self) -> (out: String)
        ensures
            out@ == patch_text(as_patch(self@)),
    {
        let p = Patch {
            level: Some(without_prefix(&self.level, LOG_NS)),
            destination: Some(self.destination),
            directory: copy_maybe(&self.directory),
            instance: Some(self.instance_name()),
            seal_every_entries: Some(Bound::of_number(self.seals.every_entries)),
            seal_every_millis: Some(Bound::of_number(self.seals.every_millis)),
            rotation_max_entries: Some(Bound::of_limit(self.rotation.max_entries)),
            rotation_max_age_millis: Some(Bound::of_limit(self.rotation.max_age_millis)),
        };
        p.to_toml()
    }

    /// The graph face: skolemized, no blank nodes, the layers among it.
    ///
    /// `open_segment` is the segment being written right now, as
    /// `(name, effective instance)`. It is the question a reader of this
    /// resource most often has and the one the config alone cannot answer.
    pub fn to_turtle(&self, subject: &str, open_segment: Option<(&str, &str)>) -> (out: String)
        ensures
            out@ == config_turtle(
                self@,
                subject@,
                match open_segment {
                    Some((name, instance)) => Some((name@, instance@)),
                    None => None,
                },
            ),
    {
        let ghost segment = match open_segment {
            Some((name, instance)) => Some((name@, instance@)),
            None => None,
        };
        let mut out =
            "@prefix log:  <https://ikigai-rs.dev/ns/log#> .\n@prefix prov: <http://www.w3.org/ns/prov#> .\n@prefix xsd:  <http://www.w3.org/2001/XMLSchema#> .\n\n".to_owned();
        append_wrapped(&mut out, "<", subject, "> a log:Config ;\n");
        append_wrapped(&mut out, "    log:level <", &self.level, "> ;\n");
        append_wrapped(&mut out, "    log:destination <", &self.destination.iri(), "> ;\n");
        match &self.directory {
            Some(d) => {
                append_wrapped(&mut out, "    log:directory ", &debug_of(d), " ;\n");
            },
            None => {
                assert(out@ + Seq::<char>::empty() =~= out@);
            },
        }
        append_wrapped(&mut out, "    log:instance <", &self.instance, "> ;\n");
        out.append(&self.layers_turtle());
        match open_segment {
            Some((name, _)) => {
                append_wrapped(&mut out, "    log:currentSegment <", name, "> .\n\n");
            },
            None => {
                out.append("    log:currentSegment log:none .\n\n");
            },
        }
        append_wrapped(&mut out, "<", &self.instance, "> a log:Instance .\n");
        out.append(&self.segment_turtle(open_segment));
        assert(out@ =~= config_turtle(self@, subject@, segment));
        out
    }

    /// The `log:configLayer` lines.
    fn layers_turtle(&self) -> (out: String)
        ensures
            out@ == layer_lines(self@.layers),
    {
        let ghost all = self@.layers;
        let mut out = String::new();
        let mut i: usize = 0;
        assert(all.take(0) =~= Seq::empty());
        while i < self.layers.len()
            invariant
                i <= self.layers.len(),
                all == texts(self.layers@),
                out@ == layer_lines(all.take(i as int)),
            decreases self.layers.len() - i,
        {
            let ghost before = out@;
            append_wrapped(&mut out, "    log:configLayer ", &debug_of(&self.layers[i]), " ;\n");
            proof {
                assert(all.take(i + 1).drop_last() =~= all.take(i as int));
                assert(all.take(i + 1).last() == self.layers@[i as int]@);
                assert(out@ =~= before + "    log:configLayer "@ + debug_text(all[i as int])
                    + " ;\n"@);
            }
            i = i + 1;
        }
        assert(all.take(i as int) =~= all);
        out
    }

    /// What the graph face says of the segment being written.
    fn segment_turtle(&self, open_segment: Option<(&str, &str)>) -> (out: String)
        ensures
            out@ == segment_lines(
                self@,
                match open_segment {
                    Some((name, instance)) => Some((name@, instance@)),
                    None => None,
                },
            ),
    {
        let mut out = String::new();
        if let Some((name, instance)) = open_segment {
            out.append("<");
            out.append(name);
            out.append("> a log:Segment ;\n    log:level <");
            out.append(&self.level);
            out.append("> ;\n    prov:wasAttributedTo <");
            out.append(instance);
            out.append("> .\n");
            let ghost head = out@;
            if !same_text(instance, &self.instance) {
                out.append("<");
                out.append(instance);
                out.append("> a log:Instance ;\n    log:configuredInstance <");
                out.append(&self.instance);
                out.append("> .\n");
                assert(out@ =~= head + ("<"@ + instance@
                    + "> a log:Instance ;\n    log:configuredInstance <"@ + self.instance@
                    + "> .\n"@));
            }
            assert(head =~= "<"@ + name@ + "> a log:Segment ;\n    log:level <"@ + self.level@
                + "> ;\n    prov:wasAttributedTo <"@ + instance@ + "> .\n"@);
            assert(out@ =~= segment_lines(self@, Some((name@, instance@))));
        }
        out
    }
}

fn append_wrapped(out: &mut String, before: &str, text: &str, behind: &str)
    ensures
        final(out)@ == old(out)@ + (before@ + text@ + behind@),
{
    let ghost start = out@;
    out.append(before);
    out.append(text);
    out.append(behind);
    assert(out@ =~= start + (before@ + text@ + behind@));
}

// =====================================================================================
// Laws
// =====================================================================================

/// A layer that states nothing changes nothing.
pub proof fn law_silent_layer(c: ConfigView)
    ensures
        applied(c, empty_patch()) == c,
{
    assert(applied(c, empty_patch()) =~= c);
}

/// Layering is key-wise: each key is what the layer states, or else what was there
/// before, whatever the layer says of the other keys.
pub proof fn law_layering_is_key_wise(c: ConfigView, p: PatchView)
    ensures
        p.level is None ==> applied(c, p).level == c.level,
        p.destination is None ==> applied(c, p).destination == c.destination,
        p.directory is None ==> applied(c, p).directory == c.directory,
        p.instance is None ==> applied(c, p).instance == c.instance,
        p.seal_every_entries is None ==> applied(c, p).seals.every_entries
            == c.seals.every_entries,
        p.seal_every_millis is None ==> applied(c, p).seals.every_millis == c.seals.every_millis,
        p.rotation_max_entries is None ==> applied(c, p).rotation.max_entries
            == c.rotation.max_entries,
        p.rotation_max_age_millis is None ==> applied(c, p).rotation.max_age_millis
            == c.rotation.max_age_millis,
        p.destination matches Some(d) ==> applied(c, p).destination == d,
        p.directory matches Some(d) ==> applied(c, p).directory == Some(d),
{
}

/// Folding two layers in, one after the other, comes to the same as folding in the one
/// that they merge into, where the upper one has passed its check.
pub proof fn law_merge_then_apply(c: ConfigView, lower: PatchView, upper: PatchView)
    requires
        patch_fault(upper) is None,
    ensures
        applied(applied(c, lower), upper) == applied(c, merged(lower, upper)),
{
    assert(applied(applied(c, lower), upper) =~= applied(c, merged(lower, upper)));
}

/// Whether `t` is a bare level name.
pub open spec fn bare_level(t: Seq<char>) -> bool {
    t.len() > 0 && forall|i: int| 0 <= i < t.len() ==> level_char(#[trigger] t[i])
}

/// A bare level name stands for the level of the log vocabulary that it is the short
/// spelling of.
pub proof fn law_level_names_itself(t: Seq<char>)
    requires
        bare_level(t),
    ensures
        level_read(t) == Some(LOG_NS@ + t),
        short_level(LOG_NS@ + t) == t,
{
    let iri = LOG_NS@ + t;
    assert(iri.take(LOG_NS@.len() as int) =~= LOG_NS@);
    assert(iri.skip(LOG_NS@.len() as int) =~= t);
    assert(level_char(t[0]) && level_char(t.last()));
    lemma_trim_trimmed(t);
    reveal_strlit("log:");
    if starts_with(t, "log:"@) {
        assert(t.take(4)[3] == ':');
        assert(level_char(t[3]));
    }
    if t.contains(':') {
        let i = choose|i: int| 0 <= i < t.len() && t[i] == ':';
        assert(level_char(t[i]));
    }
}

/// The config that is served is a layer that restates it: folded over any other config,
/// it gives back every setting. Where the segments land is restated where it is known.
pub proof fn law_served_config_restates_itself(c: ConfigView, d: ConfigView, t: Seq<char>)
    requires
        bare_level(t),
        c.level == LOG_NS@ + t,
        instance_of(unprefixed(c.instance, INSTANCE_NS@)) == c.instance,
    ensures
        applied(d, as_patch(c)) == (ConfigView {
            directory: over(c.directory, d.directory),
            layers: d.layers,
            ..c
        }),
{
    law_level_names_itself(t);
}

/// A layer is written as nothing exactly where it states nothing.
pub proof fn law_only_an_empty_layer_writes_nothing(p: PatchView)
    ensures
        patch_text(p).len() == 0 <==> p == empty_patch(),
{
    reveal_strlit("\n[seal]\n");
    reveal_strlit("\n[rotation]\n");
}

} // verus!
