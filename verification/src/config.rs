//! The log's configuration: the schema, the key-wise layering, and the two
//! faces the effective config is served as.
//!
//! ```toml
//! level       = "info"       # a bare level name, a log: CURIE, or an absolute IRI
//! destination = "file"       # off | console | file
//! directory   = "/var/log/ikigai"   # segments land here (file destination only)
//! instance    = "bug:serve"  # the attribution key; urn:ikigai:instance:{name}
//!
//! [seal]                     # when a #seal line is written
//! every_entries = 1000
//! every_millis  = 60000
//!
//! [rotation]                 # when a segment rolls over
//! max_entries    = 100000
//! max_age_millis = "never"
//! ```
//!
//! Layered lowest-precedence-first over the host's own defaults, merged
//! **key-wise**, so a shared `level = "debug"` survives one application that
//! overrides only its destination. [`Patch`] is one file's contents and
//! [`LogConfig::apply`] folds one in.
//!
//! An absent key means "the layer below decides". A key that is *present* and
//! unusable is a hard error naming the key.
//!
//! One check is deliberately *not* here: whether the configured level is a
//! level the **vocabulary defines**. Levels are extensible, so only the writer,
//! which holds the vocabulary it will actually run against, can judge that.

use vstd::prelude::*;
use vstd::slice::slice_subrange;
use vstd::string::*;

use crate::number::{decimal, decimal_of};
use crate::text::{
    begins_with, chars_of, find_char, first_where, is_char, is_digit, is_letter, is_white, joined,
    maybe, same_text, starts_with, text_of, trim, trimmed,
};
use crate::token::{iri_like, is_iri};
use crate::vocabulary::LOG_NS;

verus! {

/// The config file stem the log layers: `log.toml` shared, `{app}.log.toml` as
/// one application's override.
pub const STEM: &'static str = "log.toml";

/// The instance-IRI prefix a bare configured name is skolemized under.
pub const INSTANCE_NS: &'static str = "urn:ikigai:instance:";

/// The level a segment runs at when nothing states one.
pub const DEFAULT_LEVEL: &'static str = "https://ikigai-rs.dev/ns/log#info";

/// The instance name assumed when nothing states one.
pub const DEFAULT_INSTANCE_NAME: &'static str = "repl";

/// The subdirectory of the ikigai data home that segments land in when no
/// `directory` is configured.
pub const DEFAULT_DIRECTORY_STEM: &'static str = "log";

/// A text in quotes, as `Debug` writes it.
pub uninterp spec fn debug_text(s: Seq<char>) -> Seq<char>;

/// The `Debug` form of a text: in double quotes, with what needs it escaped. Which
/// characters are escaped, and how, is left to std.
#[verifier::external_body]
pub(crate) fn debug_of(s: &str) -> (r: String)
    ensures
        r@ == debug_text(s@),
{
    format!("{s:?}")
}

// =====================================================================================
// Destinations
// =====================================================================================

/// Where a segment's lines go.
#[derive(Clone, Copy, Debug, PartialEq, Eq, Structural)]
pub enum Destination {
    /// Nothing is written, and no segment is opened.
    ///
    /// **The default, and the default is the quiet one on purpose.** A one-shot
    /// or a REPL session that opened a segment would put a process that did
    /// nothing into the journal beside the daemons.
    Off,
    /// The process's own diagnostic stream: stderr natively, and whatever the
    /// host installs (`console.log`) in a browser.
    ///
    /// **stderr, never stdout**: stdout is the pipeline's data channel.
    Console,
    /// A segment file under [`LogConfig::directory`].
    File,
}

impl Default for Destination {
    fn default() -> (r: Destination)
        ensures
            r == Destination::Off,
    {
        Destination::Off
    }
}

/// The token an operator writes for a destination.
pub open spec fn destination_token(d: Destination) -> Seq<char> {
    match d {
        Destination::Off => "off"@,
        Destination::Console => "console"@,
        Destination::File => "file"@,
    }
}

impl Destination {
    /// The token an operator writes in `log.toml`, and the one the plain face
    /// prints back.
    pub fn as_str(self) -> (r: &'static str)
        ensures
            r@ == destination_token(self),
    {
        match self {
            Destination::Off => "off",
            Destination::Console => "console",
            Destination::File => "file",
        }
    }

    /// The vocabulary individual this destination is, for the graph face.
    pub fn iri(self) -> (r: String)
        ensures
            r@ == LOG_NS@ + destination_token(self),
    {
        joined(LOG_NS, self.as_str())
    }

    /// Parse a `destination =` value.
    pub fn parse(token: &str) -> (r: Option<Destination>)
        ensures
            match r {
                Some(d) => token@ == destination_token(d),
                None => forall|d: Destination| token@ != #[trigger] destination_token(d),
            },
    {
        if same_text(token, "off") {
            Some(Destination::Off)
        } else if same_text(token, "console") {
            Some(Destination::Console)
        } else if same_text(token, "file") {
            Some(Destination::File)
        } else {
            None
        }
    }
}

/// Two destinations are never written the same, so a token that parses, parses as the
/// destination it was written for.
pub proof fn law_destination_tokens(a: Destination, b: Destination)
    requires
        destination_token(a) == destination_token(b),
    ensures
        a == b,
{
    reveal_strlit("off");
    reveal_strlit("console");
    reveal_strlit("file");
    assert("off"@.len() == 3 && "console"@.len() == 7 && "file"@.len() == 4);
}

// =====================================================================================
// Errors
// =====================================================================================

/// What went wrong reading or merging a config. Every variant names the key or the
/// file it blames, because the operator's next move is to edit that line.
#[derive(Clone, Debug, PartialEq, Eq)]
pub enum ConfigError {
    /// The TOML did not parse, or carried a key the schema does not define.
    Parse {
        /// The file it came from, when it came from one.
        path: Option<String>,
        /// The parser's own message.
        message: String,
    },
    /// A value that is present and unusable.
    BadValue {
        /// The key, as written in the file.
        key: &'static str,
        /// What was written.
        value: String,
        /// What was expected instead.
        expected: String,
    },
    /// A config file exists but could not be read.
    Unreadable {
        /// The file.
        path: String,
        /// The OS error.
        message: String,
    },
    /// A config file could not be written.
    Unwritable {
        /// The file.
        path: String,
        /// The OS error.
        message: String,
    },
    /// There is no config home to layer within. Not the same as "no config file":
    /// an absent file means the layer below decides, an absent config home means
    /// the process cannot tell whether there was one.
    NoConfigHome,
}

/// A [`ConfigError`], with its texts as characters.
#[verifier::ext_equal]
pub enum ConfigErrorView {
    Parse { path: Option<Seq<char>>, message: Seq<char> },
    BadValue { key: Seq<char>, value: Seq<char>, expected: Seq<char> },
    Unreadable { path: Seq<char>, message: Seq<char> },
    Unwritable { path: Seq<char>, message: Seq<char> },
    NoConfigHome,
}

impl View for ConfigError {
    type V = ConfigErrorView;

    open spec fn view(&self) -> ConfigErrorView {
        match self {
            ConfigError::Parse { path, message } => ConfigErrorView::Parse {
                path: maybe(*path),
                message: message@,
            },
            ConfigError::BadValue { key, value, expected } => ConfigErrorView::BadValue {
                key: key@,
                value: value@,
                expected: expected@,
            },
            ConfigError::Unreadable { path, message } => ConfigErrorView::Unreadable {
                path: path@,
                message: message@,
            },
            ConfigError::Unwritable { path, message } => ConfigErrorView::Unwritable {
                path: path@,
                message: message@,
            },
            ConfigError::NoConfigHome => ConfigErrorView::NoConfigHome,
        }
    }
}

/// What is said of an error.
pub open spec fn config_error_text(e: ConfigErrorView) -> Seq<char> {
    match e {
        ConfigErrorView::Parse { path, message } => match path {
            Some(path) => path + ": "@ + message,
            None => message,
        },
        ConfigErrorView::BadValue { key, value, expected } => key + ": "@ + debug_text(value)
            + " is not "@ + expected,
        ConfigErrorView::Unreadable { path, message } => path + ": "@ + message,
        ConfigErrorView::Unwritable { path, message } => path + ": "@ + message,
        ConfigErrorView::NoConfigHome =>
            "no ikigai config home: neither XDG_CONFIG_HOME nor HOME is set"@,
    }
}

fn located(path: &str, message: &str) -> (r: String)
    ensures
        r@ == path@ + ": "@ + message@,
{
    let mut r = joined(path, ": ");
    r.append(message);
    r
}

impl ConfigError {
    /// What is wrong, in words.
    pub fn message(&self) -> (r: String)
        ensures
            r@ == config_error_text(self@),
    {
        match self {
            ConfigError::Parse { path, message } => match path {
                Some(path) => located(path, message),
                None => message.clone(),
            },
            ConfigError::BadValue { key, value, expected } => {
                let mut r = joined(key, ": ");
                r.append(&debug_of(value));
                r.append(" is not ");
                r.append(expected);
                r
            },
            ConfigError::Unreadable { path, message } => located(path, message),
            ConfigError::Unwritable { path, message } => located(path, message),
            ConfigError::NoConfigHome =>
                "no ikigai config home: neither XDG_CONFIG_HOME nor HOME is set".to_owned(),
        }
    }
}

// =====================================================================================
// Names
// =====================================================================================

/// Whether an instance name is absolute rather than bare: it stands in the instance
/// namespace, or it is an IRI that is a URN or goes on with `//` after its scheme. A colon
/// alone does not make it so: `bug:serve` is a bare name.
pub open spec fn absolute_name(name: Seq<char>) -> bool {
    let colon = first_where(name, is_char(':'));
    ||| starts_with(name, INSTANCE_NS@)
    ||| iri_like(name) && starts_with(name, "urn:"@)
    ||| iri_like(name) && colon > 0 && starts_with(name.skip(colon), "://"@)
}

/// A configured instance name as the IRI it means.
pub open spec fn instance_of(name: Seq<char>) -> Seq<char> {
    if absolute_name(name) {
        name
    } else {
        INSTANCE_NS@ + name
    }
}

/// A configured instance name as the IRI it means: a bare `bug:serve` becomes
/// `urn:ikigai:instance:bug:serve`, and something already absolute is left
/// alone.
pub fn instance_iri(name: &str) -> (r: String)
    ensures
        r@ == instance_of(name@),
{
    let c = chars_of(name);
    let colon = find_char(&c, 0, ':');
    let after = slice_subrange(&c, colon, c.len());
    assert(c@.skip(0) =~= c@);
    assert(after@ =~= c@.skip(colon as int));
    let iri = is_iri(name) && (begins_with(&c, &chars_of("urn:")) || (colon > 0 && begins_with(
        after,
        &chars_of("://"),
    )));
    if iri || begins_with(&c, &chars_of(INSTANCE_NS)) {
        name.to_owned()
    } else {
        joined(INSTANCE_NS, name)
    }
}

/// `s` without the prefix `p`, where it has it.
pub open spec fn unprefixed(s: Seq<char>, p: Seq<char>) -> Seq<char> {
    if starts_with(s, p) {
        s.skip(p.len() as int)
    } else {
        s
    }
}

/// `s` without the prefix `p`, where it has it.
pub fn without_prefix(s: &str, p: &str) -> (r: String)
    ensures
        r@ == unprefixed(s@, p@),
{
    let c = chars_of(s);
    let q = chars_of(p);
    if begins_with(&c, &q) {
        let r = text_of(slice_subrange(&c, q.len(), c.len()));
        assert(r@ =~= s@.skip(p@.len() as int));
        r
    } else {
        s.to_owned()
    }
}

/// Naming an instance by its IRI or by its bare name comes to the same, and an absolute
/// name is left alone.
pub proof fn law_instance_idempotent(name: Seq<char>)
    ensures
        instance_of(instance_of(name)) == instance_of(name),
        absolute_name(name) ==> instance_of(name) == name,
        !absolute_name(name) ==> starts_with(instance_of(name), INSTANCE_NS@) && unprefixed(
            instance_of(name),
            INSTANCE_NS@,
        ) == name,
{
    let iri = INSTANCE_NS@ + name;
    assert(iri.take(INSTANCE_NS@.len() as int) =~= INSTANCE_NS@);
    assert(iri.skip(INSTANCE_NS@.len() as int) =~= name);
}

/// A name made unique among the processes running right now, by suffixing the
/// process id: `serve` becomes `serve-64213`.
///
/// **The pid, not a random token.** Both are unique among *live* processes,
/// which is exactly the span a name has to be unique over, and the pid
/// additionally points at something an operator can go and look at.
pub fn disambiguated(name: &str, token: u32) -> (r: String)
    ensures
        r@ == name@ + seq!['-'] + decimal(token as nat),
{
    let mut r = name.to_owned();
    r.push('-');
    r.append(&decimal_of(token as u64));
    assert(r@ =~= name@ + seq!['-'] + decimal(token as nat));
    r
}

/// Whether `c` may stand in a bare level name.
pub open spec fn level_char(c: char) -> bool {
    is_letter(c) || is_digit(c) || c == '_' || c == '-'
}

/// A configured level as the IRI it means: a `log:` CURIE or a bare token under the log
/// namespace, an absolute IRI as it is, and nothing for anything else.
pub open spec fn level_read(name: Seq<char>) -> Option<Seq<char>> {
    let t = trim(name);
    if t.len() == 0 {
        None
    } else if starts_with(t, "log:"@) {
        let local = t.skip("log:"@.len() as int);
        if local.len() > 0 && iri_like(LOG_NS@ + local) {
            Some(LOG_NS@ + local)
        } else {
            None
        }
    } else if iri_like(t) {
        Some(t)
    } else if forall|i: int| 0 <= i < t.len() ==> level_char(#[trigger] t[i]) {
        Some(LOG_NS@ + t)
    } else {
        None
    }
}

/// A configured level as the IRI it means: a bare `info` and a `log:info` CURIE
/// both become `https://ikigai-rs.dev/ns/log#info`, and an absolute IRI (a
/// module's own level) is left alone.
pub fn level_iri(name: &str) -> (r: Option<String>)
    ensures
        maybe(r) == level_read(name@),
{
    let c = chars_of(name);
    let t = trimmed(&c);
    if t.len() == 0 {
        return None;
    }
    let curie = chars_of("log:");
    if begins_with(t, &curie) {
        let local = slice_subrange(t, curie.len(), t.len());
        assert(local@ =~= t@.skip("log:"@.len() as int));
        let iri = joined(LOG_NS, &text_of(local));
        return if local.len() > 0 && is_iri(&iri) {
            Some(iri)
        } else {
            None
        };
    }
    let text = text_of(t);
    if is_iri(&text) {
        return Some(text);
    }
    let mut i: usize = 0;
    while i < t.len()
        invariant
            i <= t.len(),
            t@ == trim(name@),
            t@.len() > 0,
            !starts_with(t@, "log:"@),
            !iri_like(t@),
            forall|j: int| 0 <= j < i ==> level_char(#[trigger] t@[j]),
        decreases t.len() - i,
    {
        let c = t[i];
        if !(('a' <= c && c <= 'z') || ('A' <= c && c <= 'Z') || ('0' <= c && c <= '9') || c == '_'
            || c == '-') {
            assert(!level_char(t@[i as int]));
            return None;
        }
        i = i + 1;
    }
    Some(joined(LOG_NS, &text))
}

/// What a configured level means is an IRI.
pub proof fn law_level_is_an_iri(name: Seq<char>)
    ensures
        level_read(name) matches Some(iri) ==> iri_like(iri),
{
    let t = trim(name);
    if t.len() > 0 && !starts_with(t, "log:"@) && !iri_like(t) && level_read(name) is Some {
        reveal_strlit("https://ikigai-rs.dev/ns/log#");
        let iri = LOG_NS@ + t;
        assert(iri[5] == ':');
        assert forall|i: int| 0 <= i < iri.len() implies #[trigger] iri[i] != '<' && iri[i] != '>'
            && iri[i] != '"' && !is_white(iri[i]) by {
            if i >= LOG_NS@.len() {
                assert(iri[i] == t[i - LOG_NS@.len()]);
                assert(level_char(t[i - LOG_NS@.len()]));
            }
        }
    }
}

// =====================================================================================
// Bounds
// =====================================================================================

/// A bound of a cadence: a number, or none.
#[derive(Clone, Copy, Debug, PartialEq, Eq, Structural)]
pub enum Bound {
    /// Never reached.
    Never,
    /// Reached at this number.
    At(u64),
}

impl View for Bound {
    type V = Bound;

    open spec fn view(&self) -> Bound {
        *self
    }
}

/// A bound as it is written: a number, or the word `"never"`.
pub open spec fn bound_text(b: Bound) -> Seq<char> {
    match b {
        Bound::Never => "\"never\""@,
        Bound::At(n) => decimal(n as nat),
    }
}

impl Bound {
    /// The bound as it is written.
    pub fn render(self) -> (r: String)
        ensures
            r@ == bound_text(self),
    {
        match self {
            Bound::Never => "\"never\"".to_owned(),
            Bound::At(n) => decimal_of(n),
        }
    }

    /// The number at which it is reached, the largest one standing for never.
    pub fn number(self) -> (r: u64)
        ensures
            r == (match self {
                Bound::Never => u64::MAX,
                Bound::At(n) => n,
            }),
    {
        match self {
            Bound::Never => u64::MAX,
            Bound::At(n) => n,
        }
    }

    /// The number at which it is reached, if it ever is.
    pub fn limit(self) -> (r: Option<u64>)
        ensures
            r == (match self {
                Bound::Never => None,
                Bound::At(n) => Some(n),
            }),
    {
        match self {
            Bound::Never => None,
            Bound::At(n) => Some(n),
        }
    }

    /// The bound that the largest number, which no count reaches, stands for.
    pub fn of_number(n: u64) -> (r: Bound)
        ensures
            r == (if n == u64::MAX {
                Bound::Never
            } else {
                Bound::At(n)
            }),
    {
        if n == u64::MAX {
            Bound::Never
        } else {
            Bound::At(n)
        }
    }

    /// The bound that an optional limit stands for.
    pub fn of_limit(n: Option<u64>) -> (r: Bound)
        ensures
            r == (match n {
                None => Bound::Never,
                Some(n) => Bound::At(n),
            }),
    {
        match n {
            None => Bound::Never,
            Some(n) => Bound::At(n),
        }
    }
}

} // verus!
