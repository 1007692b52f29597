//! What can be wrong with a line, read or written.

use vstd::prelude::*;
use vstd::string::*;

use crate::text::joined;

verus! {

/// A line (or header) that does not parse.
#[derive(Clone, Debug, PartialEq, Eq)]
pub enum ParseError {
    /// The timestamp column is not exactly `YYYY-MM-DDTHH:MM:SS.mmmZ`.
    Timestamp(String),
    /// A column is missing entirely.
    MissingColumn(&'static str),
    /// A `key=value` column is malformed.
    Field(String),
    /// A CURIE whose prefix the header never bound.
    UnboundPrefix(String),
    /// A token that must be an absolute IRI is not one.
    NotAnIri(String),
    /// A header directive is missing, repeated, or malformed.
    Header(String),
    /// A `#seal` line that does not parse.
    Seal(String),
    /// The version line is absent or names a version this build cannot read.
    Version(String),
}

/// A [`ParseError`], with its text as characters.
#[verifier::ext_equal]
pub enum ParseErrorView {
    Timestamp(Seq<char>),
    MissingColumn(Seq<char>),
    Field(Seq<char>),
    UnboundPrefix(Seq<char>),
    NotAnIri(Seq<char>),
    Header(Seq<char>),
    Seal(Seq<char>),
    Version(Seq<char>),
}

impl View for ParseError {
    type V = ParseErrorView;

    open spec fn view(&self) -> ParseErrorView {
        match self {
            ParseError::Timestamp(s) => ParseErrorView::Timestamp(s@),
            ParseError::MissingColumn(s) => ParseErrorView::MissingColumn(s@),
            ParseError::Field(s) => ParseErrorView::Field(s@),
            ParseError::UnboundPrefix(s) => ParseErrorView::UnboundPrefix(s@),
            ParseError::NotAnIri(s) => ParseErrorView::NotAnIri(s@),
            ParseError::Header(s) => ParseErrorView::Header(s@),
            ParseError::Seal(s) => ParseErrorView::Seal(s@),
            ParseError::Version(s) => ParseErrorView::Version(s@),
        }
    }
}

/// What is said of an error.
pub open spec fn parse_error_text(e: ParseErrorView) -> Seq<char> {
    match e {
        ParseErrorView::Timestamp(s) => "bad timestamp: "@ + s,
        ParseErrorView::MissingColumn(s) => "missing "@ + s + " column"@,
        ParseErrorView::Field(s) => "bad key=value column: "@ + s,
        ParseErrorView::UnboundPrefix(s) => "unbound prefix in CURIE: "@ + s,
        ParseErrorView::NotAnIri(s) => "not an absolute IRI: "@ + s,
        ParseErrorView::Header(s) => "bad header: "@ + s,
        ParseErrorView::Seal(s) => "bad seal line: "@ + s,
        ParseErrorView::Version(s) => "bad version line: "@ + s,
    }
}

impl ParseError {
    /// What is wrong, in words.
    pub fn message(&self) -> (r: String)
        ensures
            r@ == parse_error_text(self@),
    {
        match self {
            ParseError::Timestamp(s) => joined("bad timestamp: ", s),
            ParseError::MissingColumn(s) => joined(joined("missing ", s).as_str(), " column"),
            ParseError::Field(s) => joined("bad key=value column: ", s),
            ParseError::UnboundPrefix(s) => joined("unbound prefix in CURIE: ", s),
            ParseError::NotAnIri(s) => joined("not an absolute IRI: ", s),
            ParseError::Header(s) => joined("bad header: ", s),
            ParseError::Seal(s) => joined("bad seal line: ", s),
            ParseError::Version(s) => joined("bad version line: ", s),
        }
    }
}

/// A value that cannot be written as a line without losing or corrupting it.
///
/// Rendering is fallible on purpose: a subject that is not an IRI or a key with
/// a space in it would produce a line that parses back as something else, and
/// silently writing that into a hash-chained file is worse than refusing.
#[derive(Clone, Debug, PartialEq, Eq)]
pub enum RenderError {
    /// A token that must be an absolute IRI is not one.
    NotAnIri(String),
    /// A key that is not `[A-Za-z][A-Za-z0-9_.-]*`.
    Key(String),
}

/// A [`RenderError`], with its text as characters.
#[verifier::ext_equal]
pub enum RenderErrorView {
    NotAnIri(Seq<char>),
    Key(Seq<char>),
}

impl View for RenderError {
    type V = RenderErrorView;

    open spec fn view(&self) -> RenderErrorView {
        match self {
            RenderError::NotAnIri(s) => RenderErrorView::NotAnIri(s@),
            RenderError::Key(s) => RenderErrorView::Key(s@),
        }
    }
}

/// What is said of an error.
pub open spec fn render_error_text(e: RenderErrorView) -> Seq<char> {
    match e {
        RenderErrorView::NotAnIri(s) => "not an absolute IRI: "@ + s,
        RenderErrorView::Key(s) => "not a usable key: "@ + s,
    }
}

impl RenderError {
    /// What is wrong, in words.
    pub fn message(&self) -> (r: String)
        ensures
            r@ == render_error_text(self@),
    {
        match self {
            RenderError::NotAnIri(s) => joined("not an absolute IRI: ", s),
            RenderError::Key(s) => joined("not a usable key: ", s),
        }
    }
}

} // verus!
