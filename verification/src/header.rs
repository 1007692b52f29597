//! Headers: what a segment file is, who wrote it, at what level, and what it
//! chains from.

use vstd::prelude::*;
use vstd::slice::slice_subrange;
use vstd::string::*;
use vstd::utf8::encode_utf8;

use crate::error::{ParseError, ParseErrorView, RenderError, RenderErrorView};
use crate::line::{line_read, Line, LineView};
use crate::number::{decimal, decimal_of, read_unsigned, unsigned_of};
use crate::table::{stored, Prefixes, Table};
use crate::text::{
    begins_with, chars_of, chomp, chomped, first_where, is_char, joined, keep_from_first,
    keep_to_last, lemma_first_where, lines, lines_of, maybe, not_char, same_text, starts_with, text_of,
    texts, trim, trimmed, without_leading, without_trailing, words, words_of,
};
use crate::time::{time_read, time_text, Timestamp};
use crate::token::{
    column_iri, column_text, iri_like, is_iri, parse_iri_column, render_iri_column, seen,
};

verus! {

/// The format version, written as the first line of every segment.
pub const FORMAT_VERSION: u32 = 1;

/// What a segment chains from: the previous segment's final seal, or the
/// beginning of the chain.
#[derive(Debug, PartialEq, Eq)]
pub enum Prev {
    /// The first segment of a chain.
    Genesis,
    /// The prior segment's final seal hash, tagged (`sha256:…`).
    Seal(String),
}

/// A [`Prev`], with its text as characters.
#[verifier::ext_equal]
pub enum PrevView {
    Genesis,
    Seal(Seq<char>),
}

impl View for Prev {
    type V = PrevView;

    open spec fn view(&self) -> PrevView {
        match self {
            Prev::Genesis => PrevView::Genesis,
            Prev::Seal(s) => PrevView::Seal(s@),
        }
    }
}

/// A segment's header: what this file is, who wrote it, at what level, and what
/// it chains from.
///
/// The level lives here and nowhere else, and a segment has exactly one, which
/// is the point: a level change takes effect only at a rotation, so a verifier
/// reasons per sealed segment ("this ran at `info`, so absent resolutions are
/// explained") instead of tracking transitions inside sealed content.
#[derive(Debug, PartialEq, Eq)]
pub struct Header {
    /// Format version from the `# ikigai-log vN` line.
    pub version: u32,
    /// Prefix to namespace, for the class column. Dumped into the file so it is
    /// self-describing without being opaque.
    pub prefixes: Prefixes,
    /// This segment's IRI: the named graph its entries land in.
    pub name: String,
    /// The writing process, as an IRI: the attribution key, since the log is
    /// per-process, not per-machine.
    pub instance: String,
    /// The level this whole segment ran at, as an absolute IRI.
    pub level: String,
    /// When the segment was opened.
    pub started: Timestamp,
    /// The chain link across the rotation boundary.
    pub prev: Prev,
}

/// A [`Header`], with its texts as characters.
#[verifier::ext_equal]
pub struct HeaderView {
    pub version: nat,
    pub prefixes: Seq<(Seq<char>, Seq<char>)>,
    pub name: Seq<char>,
    pub instance: Seq<char>,
    pub level: Seq<char>,
    pub started: nat,
    pub prev: PrevView,
}

impl View for Header {
    type V = HeaderView;

    open spec fn view(&self) -> HeaderView {
        HeaderView {
            version: self.version as nat,
            prefixes: self.prefixes@,
            name: self.name@,
            instance: self.instance@,
            level: self.level@,
            started: self.started.0 as nat,
            prev: self.prev@,
        }
    }
}

// =====================================================================================
// Writing
// =====================================================================================

/// `n` blanks, or none where `n` is negative.
pub open spec fn blanks(n: int) -> Seq<char> {
    Seq::new(
        if n < 0 {
            0
        } else {
            n as nat
        },
        |i: int| ' ',
    )
}

/// The length in bytes of the longest prefix.
pub open spec fn prefix_width(prefixes: Seq<(Seq<char>, Seq<char>)>) -> nat
    decreases prefixes.len(),
{
    if prefixes.len() == 0 {
        0
    } else {
        let before = prefix_width(prefixes.drop_last());
        let here = encode_utf8(prefixes.last().0).len();
        if here > before {
            here
        } else {
            before
        }
    }
}

/// One `@prefix` line, in Turtle syntax, padded so that the namespaces line up.
pub open spec fn prefix_line(p: (Seq<char>, Seq<char>), width: nat) -> Seq<char> {
    "@prefix "@ + p.0 + seq![':'] + blanks(width - p.0.len()) + " <"@ + p.1 + "> .\n"@
}

/// The `@prefix` lines.
pub open spec fn prefix_lines(prefixes: Seq<(Seq<char>, Seq<char>)>, width: nat) -> Seq<char>
    decreases prefixes.len(),
{
    if prefixes.len() == 0 {
        Seq::empty()
    } else {
        prefix_lines(prefixes.drop_last(), width) + prefix_line(prefixes.last(), width)
    }
}

/// What stands after `@prev`.
pub open spec fn prev_text(p: PrevView) -> Seq<char> {
    match p {
        PrevView::Genesis => "genesis"@,
        PrevView::Seal(hash) => hash,
    }
}

/// The lines of a header that follow its prefixes, and the blank line that ends it.
pub open spec fn directive_lines(h: HeaderView) -> Seq<char> {
    ("@name     "@ + h.name + seq!['\n']) + ("@instance "@ + h.instance + seq!['\n']) + (
    "@level    "@ + column_text(h.level, h.prefixes) + seq!['\n']) + ("@started  "@ + time_text(
        h.started,
    ) + seq!['\n']) + ("@prev     "@ + prev_text(h.prev) + seq!['\n']) + seq!['\n']
}

/// The block a header is written as, where all of it can be written.
pub open spec fn header_block(h: HeaderView) -> Seq<char> {
    ("# ikigai-log v"@ + decimal(h.version) + seq!['\n']) + prefix_lines(
        h.prefixes,
        prefix_width(h.prefixes),
    ) + directive_lines(h)
}

/// The block a header is written as, or why it is not.
pub open spec fn header_text(h: HeaderView) -> Result<Seq<char>, RenderErrorView> {
    if !iri_like(h.name) {
        Err(RenderErrorView::NotAnIri(h.name))
    } else if !iri_like(h.instance) {
        Err(RenderErrorView::NotAnIri(h.instance))
    } else if !iri_like(h.level) {
        Err(RenderErrorView::NotAnIri(h.level))
    } else {
        Ok(header_block(h))
    }
}

/// The `@prefix` lines.
fn render_prefixes(prefixes: &Prefixes) -> (out: String)
    ensures
        out@ == prefix_lines(prefixes@, prefix_width(prefixes@)),
{
    let ghost p = prefixes@;
    let mut width: usize = 0;
    let mut i: usize = 0;
    assert(p.take(0) =~= Seq::empty());
    while i < prefixes.len()
        invariant
            i <= p.len(),
            p == prefixes@,
            width == prefix_width(p.take(i as int)),
        decreases p.len() - i,
    {
        let here = prefixes.at(i).0.as_str().as_bytes().len();
        assert(p.take(i + 1).drop_last() =~= p.take(i as int));
        if here > width {
            width = here;
        }
        i = i + 1;
    }
    assert(p.take(i as int) =~= p);
    let mut out = String::new();
    let mut j: usize = 0;
    assert(p.take(0) =~= Seq::empty());
    while j < prefixes.len()
        invariant
            j <= p.len(),
            p == prefixes@,
            width == prefix_width(p),
            out@ == prefix_lines(p.take(j as int), width as nat),
        decreases p.len() - j,
    {
        let (prefix, namespace) = prefixes.at(j);
        let ghost before = out@;
        out.append("@prefix ");
        out.append(prefix);
        out.push(':');
        let len = chars_of(prefix).len();
        let ghost head = out@;
        let mut k: usize = len;
        assert(head =~= head + blanks(0));
        while k < width
            invariant
                len <= k,
                k <= width || k == len,
                out@ == head + blanks(k - len),
            decreases width - k,
        {
            out.push(' ');
            k = k + 1;
            assert(blanks(k - len) =~= blanks(k - 1 - len).push(' '));
            assert(out@ =~= head + blanks(k - len));
        }
        assert(blanks(k - len) =~= blanks(width - len));
        out.append(" <");
        out.append(namespace);
        out.append("> .\n");
        proof {
            assert(p.take(j + 1).drop_last() =~= p.take(j as int));
            assert(p.take(j + 1).last() == p[j as int]);
            assert(out@ =~= before + prefix_line(p[j as int], width as nat));
        }
        j = j + 1;
    }
    assert(p.take(j as int) =~= p);
    out
}

// =====================================================================================
// Reading
// =====================================================================================

/// What has been read of a header so far.
#[verifier::ext_equal]
pub struct DraftView {
    pub version: Option<nat>,
    pub prefixes: Seq<(Seq<char>, Seq<char>)>,
    pub name: Option<Seq<char>>,
    pub instance: Option<Seq<char>>,
    pub level: Option<Seq<char>>,
    pub started: Option<nat>,
    pub prev: Option<PrevView>,
}

/// A header of which nothing has been read yet.
pub open spec fn empty_draft() -> DraftView {
    DraftView {
        version: None,
        prefixes: Seq::empty(),
        name: None,
        instance: None,
        level: None,
        started: None,
        prev: None,
    }
}

/// The prefix and the namespace of an `@prefix` directive.
pub open spec fn prefix_read(
    value: Seq<char>,
) -> Result<(Seq<char>, Seq<char>), ParseErrorView> {
    let w = words(value);
    let prefix = keep_to_last(w[0], not_char(':'));
    let namespace = keep_to_last(keep_from_first(w[1], not_char('<')), not_char('>'));
    if w.len() < 2 || prefix.len() == 0 || namespace.len() == 0 {
        Err(ParseErrorView::Header("@prefix "@ + value))
    } else {
        Ok((prefix, namespace))
    }
}

/// Whether the directive `name` has been read already. Only `@prefix` may stand more than
/// once.
pub open spec fn already_read(d: DraftView, name: Seq<char>) -> bool {
    ||| name == "name"@ && d.name is Some
    ||| name == "instance"@ && d.instance is Some
    ||| name == "level"@ && d.level is Some
    ||| name == "started"@ && d.started is Some
    ||| name == "prev"@ && d.prev is Some
}

/// What one directive adds to a header, or why it cannot.
pub open spec fn with_directive(
    d: DraftView,
    name: Seq<char>,
    value: Seq<char>,
) -> Result<DraftView, ParseErrorView> {
    if already_read(d, name) {
        Err(ParseErrorView::Header("repeated @"@ + name))
    } else if name == "prefix"@ {
        match prefix_read(value) {
            Ok((p, ns)) => Ok(DraftView { prefixes: stored(d.prefixes, p, ns), ..d }),
            Err(e) => Err(e),
        }
    } else if name == "name"@ {
        if iri_like(value) {
            Ok(DraftView { name: Some(value), ..d })
        } else {
            Err(ParseErrorView::NotAnIri(value))
        }
    } else if name == "instance"@ {
        if iri_like(value) {
            Ok(DraftView { instance: Some(value), ..d })
        } else {
            Err(ParseErrorView::NotAnIri(value))
        }
    } else if name == "level"@ {
        match column_iri(value, d.prefixes) {
            Ok(level) => Ok(DraftView { level: Some(level), ..d }),
            Err(e) => Err(e),
        }
    } else if name == "started"@ {
        match time_read(value) {
            Some(t) => Ok(DraftView { started: Some(t), ..d }),
            None => Err(ParseErrorView::Timestamp(value)),
        }
    } else if name == "prev"@ {
        if value == "genesis"@ {
            Ok(DraftView { prev: Some(PrevView::Genesis), ..d })
        } else if value.len() == 0 {
            Err(ParseErrorView::Header("empty @prev"@))
        } else {
            Ok(DraftView { prev: Some(PrevView::Seal(value)), ..d })
        }
    } else {
        Err(ParseErrorView::Header("unknown directive @"@ + name))
    }
}

/// What one line adds to a header, or why it cannot.
pub open spec fn with_line(d: DraftView, line: Seq<char>) -> Result<DraftView, ParseErrorView> {
    if starts_with(line, "# ikigai-log v"@) {
        match read_unsigned(trim(line.skip("# ikigai-log v"@.len() as int)), u32::MAX as nat) {
            Some(v) => Ok(DraftView { version: Some(v), ..d }),
            None => Err(ParseErrorView::Version(line)),
        }
    } else {
        match line_read(line, d.prefixes) {
            Err(e) => Err(e),
            Ok(LineView::Directive { name, value }) => with_directive(d, name, value),
            Ok(LineView::Comment(_)) => Ok(d),
            Ok(_) => Err(ParseErrorView::Header(line)),
        }
    }
}

/// What the lines `ls` add to a header, up to the first blank one, and how many bytes
/// they take together with it.
pub open spec fn with_lines(
    d: DraftView,
    ls: Seq<Seq<char>>,
) -> Result<(DraftView, nat), ParseErrorView>
    decreases ls.len(),
{
    if ls.len() == 0 {
        Ok((d, 0))
    } else {
        let bytes = encode_utf8(ls[0]).len();
        let line = chomp(ls[0]);
        if trim(line).len() == 0 {
            Ok((d, bytes))
        } else {
            match with_line(d, line) {
                Err(e) => Err(e),
                Ok(next) => match with_lines(next, ls.drop_first()) {
                    Err(e) => Err(e),
                    Ok((done, more)) => Ok((done, bytes + more)),
                },
            }
        }
    }
}

/// The header that has been read, where nothing of it is missing. Every directive is
/// required: a destination or a level that silently defaults is a hole in the record
/// that nothing brackets.
pub open spec fn finished(d: DraftView) -> Result<HeaderView, ParseErrorView> {
    match d.version {
        None => Err(ParseErrorView::Version("no version line"@)),
        Some(version) => if version != FORMAT_VERSION {
            Err(
                ParseErrorView::Version(
                    "segment is v"@ + decimal(version) + ", this build reads v"@ + decimal(
                        FORMAT_VERSION as nat,
                    ),
                ),
            )
        } else if d.name is None {
            Err(ParseErrorView::Header("missing @name"@))
        } else if d.instance is None {
            Err(ParseErrorView::Header("missing @instance"@))
        } else if d.level is None {
            Err(ParseErrorView::Header("missing @level"@))
        } else if d.started is None {
            Err(ParseErrorView::Header("missing @started"@))
        } else if d.prev is None {
            Err(ParseErrorView::Header("missing @prev"@))
        } else {
            Ok(
                HeaderView {
                    version,
                    prefixes: d.prefixes,
                    name: d.name->0,
                    instance: d.instance->0,
                    level: d.level->0,
                    started: d.started->0,
                    prev: d.prev->0,
                },
            )
        },
    }
}

/// The header at the start of `text` and the bytes it takes, or why there is none.
pub open spec fn header_read(text: Seq<char>) -> Result<(HeaderView, nat), ParseErrorView> {
    match with_lines(empty_draft(), lines(text)) {
        Err(e) => Err(e),
        Ok((d, bytes)) => match finished(d) {
            Err(e) => Err(e),
            Ok(h) => Ok((h, bytes)),
        },
    }
}

/// A header being read.
struct Draft {
    version: Option<u32>,
    prefixes: Prefixes,
    name: Option<String>,
    instance: Option<String>,
    level: Option<String>,
    started: Option<Timestamp>,
    prev: Option<Prev>,
}

impl View for Draft {
    type V = DraftView;

    closed spec fn view(&self) -> DraftView {
        DraftView {
            version: match self.version {
                Some(v) => Some(v as nat),
                None => None,
            },
            prefixes: self.prefixes@,
            name: maybe(self.name),
            instance: maybe(self.instance),
            level: maybe(self.level),
            started: match self.started {
                Some(t) => Some(t.0 as nat),
                None => None,
            },
            prev: match self.prev {
                Some(p) => Some(p@),
                None => None,
            },
        }
    }
}

/// `log: <https://ikigai-rs.dev/ns/log#> .` gives `("log", "https://…#")`.
fn parse_prefix_directive(value: &str) -> (r: Result<(String, String), ParseError>)
    ensures
        match r {
            Ok((p, ns)) => prefix_read(value@) == Ok::<_, ParseErrorView>((p@, ns@)),
            Err(e) => prefix_read(value@) == Err::<(Seq<char>, Seq<char>), _>(e@),
        },
{
    let w = words_of(&chars_of(value));
    let ghost ws = words(value@);
    if w.len() < 2 {
        return Err(ParseError::Header(joined("@prefix ", value)));
    }
    assert(ws[0] == w@[0]@ && ws[1] == w@[1]@);
    let first = chars_of(&w[0]);
    let second = chars_of(&w[1]);
    let prefix = without_trailing(&first, ':');
    let namespace = without_trailing(without_leading(&second, '<'), '>');
    if prefix.len() == 0 || namespace.len() == 0 {
        return Err(ParseError::Header(joined("@prefix ", value)));
    }
    Ok((text_of(prefix), text_of(namespace)))
}

impl Draft {
    /// Whether the directive `name` has been read already.
    fn has(&self, name: &str) -> (r: bool)
        ensures
            r == already_read(self@, name@),
    {
        (same_text(name, "name") && self.name.is_some()) || (same_text(name, "instance")
            && self.instance.is_some()) || (same_text(name, "level") && self.level.is_some()) || (
        same_text(name, "started") && self.started.is_some()) || (same_text(name, "prev")
            && self.prev.is_some())
    }

    /// Take in one directive.
    fn directive(&mut self, name: &str, value: String) -> (r: Result<(), ParseError>)
        ensures
            match r {
                Ok(()) => with_directive(old(self)@, name@, value@) == Ok::<_, ParseErrorView>(
                    final(self)@,
                ),
                Err(e) => with_directive(old(self)@, name@, value@) == Err::<DraftView, _>(e@),
            },
    {
        if self.has(name) {
            return Err(ParseError::Header(joined("repeated @", name)));
        }
        if same_text(name, "prefix") {
            match parse_prefix_directive(&value) {
                Err(e) => {
                    return Err(e);
                },
                Ok((p, ns)) => {
                    self.prefixes.insert(p, ns);
                },
            }
        } else if same_text(name, "name") {
            if !is_iri(&value) {
                return Err(ParseError::NotAnIri(value));
            }
            self.name = Some(value);
        } else if same_text(name, "instance") {
            if !is_iri(&value) {
                return Err(ParseError::NotAnIri(value));
            }
            self.instance = Some(value);
        } else if same_text(name, "level") {
            match parse_iri_column(&value, &self.prefixes) {
                Err(e) => {
                    return Err(e);
                },
                Ok(level) => {
                    self.level = Some(level);
                },
            }
        } else if same_text(name, "started") {
            match Timestamp::parse(&value) {
                Err(e) => {
                    return Err(e);
                },
                Ok(t) => {
                    self.started = Some(t);
                },
            }
        } else if same_text(name, "prev") {
            if same_text(&value, "genesis") {
                self.prev = Some(Prev::Genesis);
            } else if value.as_str().is_empty() {
                return Err(ParseError::Header("empty @prev".to_owned()));
            } else {
                self.prev = Some(Prev::Seal(value));
            }
        } else {
            return Err(ParseError::Header(joined("unknown directive @", name)));
        }
        Ok(())
    }

    /// Take in one line.
    fn line(&mut self, line: &[char]) -> (r: Result<(), ParseError>)
        ensures
            match r {
                Ok(()) => with_line(old(self)@, line@) == Ok::<_, ParseErrorView>(final(self)@),
                Err(e) => with_line(old(self)@, line@) == Err::<DraftView, _>(e@),
            },
    {
        let marker = chars_of("# ikigai-log v");
        if begins_with(line, &marker) {
            let rest = slice_subrange(line, marker.len(), line.len());
            assert(rest@ =~= line@.skip(marker@.len() as int));
            match unsigned_of(trimmed(rest), u32::MAX as u64) {
                None => Err(ParseError::Version(text_of(line))),
                Some(v) => {
                    self.version = Some(v as u32);
                    Ok(())
                },
            }
        } else {
            let text = text_of(line);
            match Line::parse(&text, &self.prefixes) {
                Err(e) => Err(e),
                Ok(Line::Directive { name, value }) => self.directive(&name, value),
                Ok(Line::Comment(_)) => Ok(()),
                Ok(_) => Err(ParseError::Header(text)),
            }
        }
    }

    /// The header that has been read, where nothing of it is missing.
    fn finish(self) -> (r: Result<Header, ParseError>)
        ensures
            seen(r) == finished(self@),
    {
        let version = match self.version {
            Some(v) => v,
            None => {
                return Err(ParseError::Version("no version line".to_owned()));
            },
        };
        if version != FORMAT_VERSION {
            let mut message = "segment is v".to_owned();
            message.append(&decimal_of(version as u64));
            message.append(", this build reads v");
            message.append(&decimal_of(FORMAT_VERSION as u64));
            return Err(ParseError::Version(message));
        }
        let name = match self.name {
            Some(v) => v,
            None => {
                return Err(ParseError::Header("missing @name".to_owned()));
            },
        };
        let instance = match self.instance {
            Some(v) => v,
            None => {
                return Err(ParseError::Header("missing @instance".to_owned()));
            },
        };
        let level = match self.level {
            Some(v) => v,
            None => {
                return Err(ParseError::Header("missing @level".to_owned()));
            },
        };
        let started = match self.started {
            Some(v) => v,
            None => {
                return Err(ParseError::Header("missing @started".to_owned()));
            },
        };
        let prev = match self.prev {
            Some(v) => v,
            None => {
                return Err(ParseError::Header("missing @prev".to_owned()));
            },
        };
        Ok(Header { version, prefixes: self.prefixes, name, instance, level, started, prev })
    }
}

// =====================================================================================
// Bytes
// =====================================================================================

/// The bytes of a text are the bytes of its parts.
pub proof fn lemma_utf8_join(a: Seq<char>, b: Seq<char>)
    ensures
        encode_utf8(a + b) == encode_utf8(a) + encode_utf8(b),
    decreases a.len(),
{
    if a.len() == 0 {
        assert(a + b =~= b);
        assert(encode_utf8(a) =~= Seq::empty());
        assert(encode_utf8(a) + encode_utf8(b) =~= encode_utf8(b));
    } else {
        lemma_utf8_join(a.drop_first(), b);
        assert((a + b).drop_first() =~= a.drop_first() + b);
        assert(encode_utf8(a + b) =~= encode_utf8(a) + encode_utf8(b));
    }
}

/// How many bytes the lines `ls` take.
pub open spec fn bytes_of(ls: Seq<Seq<char>>) -> nat
    decreases ls.len(),
{
    if ls.len() == 0 {
        0
    } else {
        encode_utf8(ls[0]).len() + bytes_of(ls.drop_first())
    }
}

/// The lines of a text take as many bytes as the text.
pub proof fn lemma_bytes_of_lines(s: Seq<char>)
    ensures
        bytes_of(lines(s)) == encode_utf8(s).len(),
    decreases s.len(),
{
    if s.len() > 0 {
        let n = first_where(s, is_char('\n'));
        lemma_first_where(s, is_char('\n'));
        if n >= s.len() {
            assert(lines(s).drop_first() =~= Seq::empty());
            assert(bytes_of(lines(s).drop_first()) == 0);
        } else {
            lemma_bytes_of_lines(s.skip(n + 1));
            lemma_utf8_join(s.take(n + 1), s.skip(n + 1));
            assert(s.take(n + 1) + s.skip(n + 1) =~= s);
            assert(lines(s).drop_first() =~= lines(s.skip(n + 1)));
        }
    }
}

impl Header {
    /// Render the header block, ending with the blank line that separates it
    /// from the entries.
    pub fn render(&self) -> (r: Result<String, RenderError>)
        ensures
            seen(r) == header_text(self@),
    {
        if !is_iri(&self.name) {
            return Err(RenderError::NotAnIri(self.name.clone()));
        }
        if !is_iri(&self.instance) {
            return Err(RenderError::NotAnIri(self.instance.clone()));
        }
        let level = match render_iri_column(&self.level, &self.prefixes) {
            Ok(level) => level,
            Err(e) => {
                return Err(e);
            },
        };
        let mut out = "# ikigai-log v".to_owned();
        out.append(&decimal_of(self.version as u64));
        out.push('\n');
        out.append(&render_prefixes(&self.prefixes));
        let ghost head = out@;
        out.append("@name     ");
        out.append(&self.name);
        out.append("\n@instance ");
        out.append(&self.instance);
        out.append("\n@level    ");
        out.append(&level);
        out.append("\n@started  ");
        out.append(&self.started.render());
        out.append("\n@prev     ");
        match &self.prev {
            Prev::Genesis => {
                out.append("genesis");
            },
            Prev::Seal(hash) => {
                out.append(hash);
            },
        }
        out.append("\n\n");
        proof {
            reveal_strlit("\n@instance ");
            reveal_strlit("@instance ");
            reveal_strlit("\n@level    ");
            reveal_strlit("@level    ");
            reveal_strlit("\n@started  ");
            reveal_strlit("@started  ");
            reveal_strlit("\n@prev     ");
            reveal_strlit("@prev     ");
            reveal_strlit("\n\n");
            assert("\n@instance "@ =~= seq!['\n'] + "@instance "@);
            assert("\n@level    "@ =~= seq!['\n'] + "@level    "@);
            assert("\n@started  "@ =~= seq!['\n'] + "@started  "@);
            assert("\n@prev     "@ =~= seq!['\n'] + "@prev     "@);
            assert("\n\n"@ =~= seq!['\n', '\n']);
            assert(out@ =~= head + directive_lines(self@));
            assert(head =~= ("# ikigai-log v"@ + decimal(self@.version) + seq!['\n']) + prefix_lines(
                self@.prefixes,
                prefix_width(self@.prefixes),
            ));
        }
        Ok(out)
    }

    /// Parse the header block at the start of `text`, up to the first blank
    /// line. Returns the header and the byte offset where the entries begin.
    ///
    /// Every directive is required. A destination or a level that silently
    /// defaults is a hole in the record that nothing brackets, so an incomplete
    /// header is an error and not a set of assumptions. So is one that states a
    /// directive twice.
    pub fn parse(text: &str) -> (r: Result<(Header, usize), ParseError>)
        ensures
            match r {
                Ok((h, offset)) => header_read(text@) == Ok::<_, ParseErrorView>(
                    (h@, offset as nat),
                ),
                Err(e) => header_read(text@) == Err::<(HeaderView, nat), _>(e@),
            },
    {
        let size = text.as_bytes().len();
        let ls = lines_of(&chars_of(text));
        let ghost all = lines(text@);
        let mut draft = Draft {
            version: None,
            prefixes: Table::new(),
            name: None,
            instance: None,
            level: None,
            started: None,
            prev: None,
        };
        let mut offset: usize = 0;
        let mut i: usize = 0;
        let mut open = true;
        proof {
            lemma_bytes_of_lines(text@);
            assert(all.skip(0) =~= all);
            assert(draft@ =~= empty_draft());
            lemma_later(with_lines(draft@, all));
        }
        while open && i < ls.len()
            invariant
                i <= ls.len(),
                all == texts(ls@),
                offset + bytes_of(all.skip(i as int)) == size,
                open ==> with_lines(empty_draft(), all) == later(
                    offset as nat,
                    with_lines(draft@, all.skip(i as int)),
                ),
                !open ==> with_lines(empty_draft(), all) == Ok::<_, ParseErrorView>(
                    (draft@, offset as nat),
                ),
                header_read(text@) == match with_lines(empty_draft(), all) {
                    Err(e) => Err(e),
                    Ok((d, bytes)) => match finished(d) {
                        Err(e) => Err(e),
                        Ok(h) => Ok((h, bytes)),
                    },
                },
            decreases ls.len() - i,
        {
            let ghost rest = all.skip(i as int);
            assert(rest[0] == ls@[i as int]@);
            assert(rest.drop_first() =~= all.skip(i + 1));
            let raw = chars_of(&ls[i]);
            let bytes = ls[i].as_str().as_bytes().len();
            let line = chomped(&raw);
            let ghost before = draft@;
            if trimmed(line).len() == 0 {
                open = false;
            } else {
                match draft.line(line) {
                    Err(e) => {
                        return Err(e);
                    },
                    Ok(()) => {},
                }
            }
            proof {
                if open {
                    lemma_later_step(
                        offset as nat,
                        bytes as nat,
                        with_lines(draft@, all.skip(i + 1)),
                    );
                }
            }
            offset = offset + bytes;
            i = i + 1;
        }
        proof {
            if open {
                assert(all.skip(i as int) =~= Seq::empty());
            }
        }
        match draft.finish() {
            Err(e) => Err(e),
            Ok(h) => Ok((h, offset)),
        }
    }
}

/// A result of [`with_lines`], with the bytes of the lines before counted in.
spec fn later(
    bytes: nat,
    r: Result<(DraftView, nat), ParseErrorView>,
) -> Result<(DraftView, nat), ParseErrorView> {
    match r {
        Err(e) => Err(e),
        Ok((d, more)) => Ok((d, bytes + more)),
    }
}

proof fn lemma_later(r: Result<(DraftView, nat), ParseErrorView>)
    ensures
        later(0, r) == r,
{
}

proof fn lemma_later_step(a: nat, b: nat, r: Result<(DraftView, nat), ParseErrorView>)
    ensures
        later(a, later(b, r)) == later(a + b, r),
{
}

} // verus!
