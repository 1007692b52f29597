//! RDF as plain values, and the Turtle reader they come from.

use oxrdf::Term;
use oxrdfio::{RdfFormat, RdfParser};
use vstd::prelude::*;
use vstd::string::*;

use crate::text::starts_with;

verus! {

/// The object of a statement that was read.
#[derive(Debug, PartialEq, Eq)]
pub enum Object {
    /// An IRI.
    Iri(String),
    /// The value of a literal and the IRI of its datatype, whatever its language.
    Literal(String, String),
    /// The label of a blank node.
    Blank(String),
}

/// An [`Object`], with its text as characters.
#[verifier::ext_equal]
pub enum ObjectView {
    Iri(Seq<char>),
    Literal(Seq<char>, Seq<char>),
    Blank(Seq<char>),
}

impl View for Object {
    type V = ObjectView;

    open spec fn view(&self) -> ObjectView {
        match self {
            Object::Iri(s) => ObjectView::Iri(s@),
            Object::Literal(s, datatype) => ObjectView::Literal(s@, datatype@),
            Object::Blank(s) => ObjectView::Blank(s@),
        }
    }
}

/// One statement that was read.
#[derive(Debug, PartialEq, Eq)]
pub struct Statement {
    /// The subject as it is written in N-Triples: `<iri>` or `_:label`.
    pub subject: String,
    /// The predicate's IRI.
    pub predicate: String,
    /// The object.
    pub object: Object,
}

/// A [`Statement`], with its texts as characters.
#[verifier::ext_equal]
pub struct StatementView {
    pub subject: Seq<char>,
    pub predicate: Seq<char>,
    pub object: ObjectView,
}

impl View for Statement {
    type V = StatementView;

    open spec fn view(&self) -> StatementView {
        StatementView {
            subject: self.subject@,
            predicate: self.predicate@,
            object: self.object@,
        }
    }
}

/// What a Turtle document was read as: the statements up to its end or up to the
/// first error, and the error.
#[derive(Debug, PartialEq, Eq)]
pub struct Document {
    /// The statements, in order.
    pub statements: Vec<Statement>,
    /// Why reading stopped before the end.
    pub error: Option<String>,
}

/// Statements, with their texts as characters.
pub open spec fn statements(v: Seq<Statement>) -> Seq<StatementView> {
    v.map_values(|s: Statement| s@)
}

/// A [`Document`], with its texts as characters.
#[verifier::ext_equal]
pub struct DocumentView {
    pub statements: Seq<StatementView>,
    pub error: Option<Seq<char>>,
}

impl View for Document {
    type V = DocumentView;

    open spec fn view(&self) -> DocumentView {
        DocumentView {
            statements: statements(self.statements@),
            error: match self.error {
                Some(s) => Some(s@),
                None => None,
            },
        }
    }
}

/// What the Turtle reader makes of a document, with one choice of labels for the nodes
/// that the document leaves without one.
pub uninterp spec fn turtle_document(ttl: Seq<char>) -> DocumentView;

/// Whether a document has no place at which the reader makes up a blank node: the
/// brackets of an anonymous node or of a collection.
pub open spec fn labelled(ttl: Seq<char>) -> bool {
    !ttl.contains('[') && !ttl.contains('(')
}

/// Whether a subject is a blank node.
pub open spec fn blank(subject: Seq<char>) -> bool {
    starts_with(subject, "_:"@)
}

/// A statement without the labels of its blank nodes.
pub open spec fn unlabelled(s: StatementView) -> StatementView {
    StatementView {
        subject: if blank(s.subject) {
            "_:"@
        } else {
            s.subject
        },
        predicate: s.predicate,
        object: match s.object {
            ObjectView::Blank(_) => ObjectView::Blank(Seq::empty()),
            object => object,
        },
    }
}

/// A document without the labels of its blank nodes.
pub open spec fn shape(d: DocumentView) -> DocumentView {
    DocumentView {
        statements: d.statements.map_values(|s: StatementView| unlabelled(s)),
        error: d.error,
    }
}

/// Whether no statement of a document speaks of a blank node.
pub open spec fn grounded(d: DocumentView) -> bool {
    forall|i: int|
        0 <= i < d.statements.len() ==> !blank((#[trigger] d.statements[i]).subject)
            && d.statements[i].object !is Blank
}

/// Whether `doc` is what reading `ttl` may come to. But for the labels of blank nodes it
/// is the text's own document, and it is that document outright where the text is
/// [`labelled`].
pub open spec fn may_read(ttl: Seq<char>, doc: DocumentView) -> bool {
    &&& shape(doc) == shape(turtle_document(ttl))
    &&& labelled(ttl) ==> doc == turtle_document(ttl)
}

/// A text whose document speaks of no blank node has one reading, whatever brackets its
/// literals and comments hold.
pub proof fn law_grounded_reading(ttl: Seq<char>, doc: DocumentView)
    requires
        may_read(ttl, doc),
        grounded(turtle_document(ttl)),
    ensures
        doc == turtle_document(ttl),
{
    reveal_strlit("_:");
    let own = turtle_document(ttl);
    assert(doc.statements.len() == shape(doc).statements.len());
    assert(own.statements.len() == shape(own).statements.len());
    assert forall|i: int| 0 <= i < doc.statements.len() implies doc.statements[i]
        == own.statements[i] by {
        assert(shape(doc).statements[i] == unlabelled(doc.statements[i]));
        assert(shape(own).statements[i] == unlabelled(own.statements[i]));
        if blank(doc.statements[i].subject) {
            assert("_:"@.take(2) =~= "_:"@);
        }
    }
    assert(doc.statements =~= own.statements);
}

/// Two readings of one text are alike but for the labels of blank nodes: as many
/// statements in the same order, and the same error.
pub proof fn law_readings_agree(ttl: Seq<char>, a: DocumentView, b: DocumentView)
    requires
        may_read(ttl, a),
        may_read(ttl, b),
    ensures
        a.error == b.error,
        a.statements.len() == b.statements.len(),
        forall|i: int|
            0 <= i < a.statements.len() ==> unlabelled(#[trigger] a.statements[i]) == unlabelled(
                b.statements[i],
            ),
{
    assert(a.statements.len() == shape(a).statements.len());
    assert(b.statements.len() == shape(b).statements.len());
    assert forall|i: int| 0 <= i < a.statements.len() implies unlabelled(
        #[trigger] a.statements[i],
    ) == unlabelled(b.statements[i]) by {
        assert(shape(a).statements[i] == unlabelled(a.statements[i]));
        assert(shape(b).statements[i] == unlabelled(b.statements[i]));
    }
}

/// Read Turtle with `oxrdfio::RdfParser`, each statement as plain values, up to the
/// first error it reports.
///
/// What it reads depends on the text alone, but for the labels of blank nodes: an
/// anonymous node or a collection makes it draw a random one. Of the labels nothing is
/// claimed where the text is not [`labelled`], not even that two of them differ.
#[verifier::external_body]
pub(crate) fn read_turtle(ttl: &str) -> (r: Document)
    ensures
        shape(r@) == shape(turtle_document(ttl@)),
        labelled(ttl@) ==> r@ == turtle_document(ttl@),
{
    let mut statements = Vec::new();
    for quad in RdfParser::from_format(RdfFormat::Turtle).for_slice(ttl.as_bytes()) {
        let quad = match quad {
            Ok(quad) => quad,
            Err(e) => return Document { statements, error: Some(e.to_string()) },
        };
        let object = match quad.object {
            Term::NamedNode(n) => Object::Iri(n.into_string()),
            Term::Literal(l) => Object::Literal(l.value().to_owned(), l.datatype().as_str().to_owned()),
            Term::BlankNode(b) => Object::Blank(b.into_string()),
        };
        let (subject, predicate) = (quad.subject.to_string(), quad.predicate.into_string());
        statements.push(Statement { subject, predicate, object });
    }
    Document { statements, error: None }
}

} // verus!
