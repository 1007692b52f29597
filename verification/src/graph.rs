//! A segment becomes a graph.
//!
//! One function, [`to_turtle`], turns the bytes of a segment into Turtle. A segment
//! carries its own `@name`, so nothing has to tell it which graph it is producing.
//!
//! ## The mapping is driven by the vocabulary
//!
//! Nothing below branches on a term name. [`Vocabulary::key`] binds a bare `key=` column
//! to a property and the property's range types its value;
//! [`Vocabulary::subject_predicate`] refines the subject column per class;
//! [`Vocabulary::is_a`] finds the run boundaries. A module that adds entry types with
//! `rdfs:subClassOf` needs no change here, which is the entire reason the table is data.
//!
//! **A key the table does not claim lands as `log:{key}` with a plain literal and a
//! `log:undeclaredKey` flag.** Never guessed, never dropped.
//!
//! ## Skolemized, never blank
//!
//! Every node is a stable IRI: `{segment}:{seq}` for an entry,
//! `{segment}:seal:{first}-{last}` for a seal. A blank node in a log is a fact you cannot
//! cite.
//!
//! ## Stated, not judged
//!
//! It states what a `#seal` line says. No hash is recomputed and no signature is checked.

use vstd::prelude::*;
use vstd::string::*;
use vstd::utf8::is_ascii_chars_encode_utf8;

use crate::chain::{split_signature, token_parts};
use crate::entry::{Entry, EntryView};
use crate::header::{header_read, prev_text, Header, HeaderView, Prev};
use crate::line::{Seal, SealView};
use crate::lineage::predicate_of;
use crate::number::{decimal, decimal_of};
use crate::rdf::turtle_document;
use crate::table::lookup;
use crate::text::{begins_with, chars_of, joined, maybe, same_text, starts_with};
use crate::time::{time_text, Timestamp};
use crate::triple::{
    document_of, each_once, is_rdf_iri, lengths_differ, namespaces, once, push_triple, push_unique, rdf_iri,
    sound_triples, stating, triple, triples, turtle_text, unrepeated, write_turtle, Term, TermView, Triple,
    TripleView,
};
use crate::turtle_law::{law_graph_is_sound, lemma_prefixes_are_sound};
use crate::vocabulary::{Vocabulary, VocabularyView, LOG_NS, PROV_NS, RDF_TYPE};
use crate::window::{
    rows_view, scan, seals_view, takes_in, walk, GraphError, GraphErrorView, Options, Row, RowView,
};

verus! {

/// The media type of a segment.
///
/// The format already carries its own magic, `# ikigai-log v1`, as the first line of
/// every segment, so a sniffer wants that line and not a second signature.
pub const LOG_MEDIA_TYPE: &'static str = "text/x-ikigai-log";

/// The media type of its graph.
pub const TURTLE_MEDIA_TYPE: &'static str = "text/turtle";

/// The signature vocabulary namespace, from `ikigai-sign`. Seals reuse its terms rather
/// than minting parallel ones.
pub const SIG_NS: &'static str = "https://ikigai-rs.dev/ns/sign#";

/// The namespace of the XML Schema datatypes.
pub const XSD_NS: &'static str = "http://www.w3.org/2001/XMLSchema#";

pub const XSD_STRING: &'static str = "http://www.w3.org/2001/XMLSchema#string";

pub const XSD_INTEGER: &'static str = "http://www.w3.org/2001/XMLSchema#integer";

pub const XSD_DATE_TIME: &'static str = "http://www.w3.org/2001/XMLSchema#dateTime";

pub const PROV_STARTED_AT_TIME: &'static str = "http://www.w3.org/ns/prov#startedAtTime";

pub const PROV_WAS_ASSOCIATED_WITH: &'static str = "http://www.w3.org/ns/prov#wasAssociatedWith";

pub const PROV_WAS_ATTRIBUTED_TO: &'static str = "http://www.w3.org/ns/prov#wasAttributedTo";

pub const PROV_SOFTWARE_AGENT: &'static str = "http://www.w3.org/ns/prov#SoftwareAgent";

pub const LOG_SEGMENT_CLASS: &'static str = "https://ikigai-rs.dev/ns/log#Segment";

pub const LOG_INSTANCE_CLASS: &'static str = "https://ikigai-rs.dev/ns/log#Instance";

pub const LOG_SEAL_CLASS: &'static str = "https://ikigai-rs.dev/ns/log#Seal";

pub const LOG_LEVEL: &'static str = "https://ikigai-rs.dev/ns/log#level";

pub const LOG_PREV_SEAL: &'static str = "https://ikigai-rs.dev/ns/log#prevSeal";

pub const LOG_SEGMENT: &'static str = "https://ikigai-rs.dev/ns/log#segment";

pub const LOG_SUBJECT: &'static str = "https://ikigai-rs.dev/ns/log#subject";

pub const LOG_UNDECLARED_KEY: &'static str = "https://ikigai-rs.dev/ns/log#undeclaredKey";

pub const LOG_INVOKED: &'static str = "https://ikigai-rs.dev/ns/log#invoked";

pub const LOG_FIRST_SEQUENCE: &'static str = "https://ikigai-rs.dev/ns/log#firstSequence";

pub const LOG_LAST_SEQUENCE: &'static str = "https://ikigai-rs.dev/ns/log#lastSequence";

pub const SIG_CONTENT_HASH: &'static str = "https://ikigai-rs.dev/ns/sign#contentHash";

pub const SIG_ALGORITHM: &'static str = "https://ikigai-rs.dev/ns/sign#algorithm";

pub const SIG_VALUE: &'static str = "https://ikigai-rs.dev/ns/sign#value";

/// The properties whose values are joined into `log:invoked`. Read from the vocabulary by
/// property IRI, so a module that rebinds `span`/`parent` to a different column still
/// joins.
pub const LOG_SPAN: &'static str = "https://ikigai-rs.dev/ns/log#span";

pub const LOG_PARENT_SPAN: &'static str = "https://ikigai-rs.dev/ns/log#parentSpan";

// =====================================================================================
// The header
// =====================================================================================

/// The literal of a time.
pub open spec fn date_time(millis: nat) -> TermView {
    TermView::Typed(time_text(millis), XSD_DATE_TIME@)
}

/// The literal of a whole number.
pub open spec fn whole_number(n: nat) -> TermView {
    TermView::Typed(decimal(n), XSD_INTEGER@)
}

/// What a header states of its segment, and of the instance that wrote it. The instance
/// has both types, because a consumer of this graph alone has no reasoner and no copy of
/// the log vocabulary.
pub open spec fn header_triples(h: HeaderView) -> Seq<TripleView> {
    seq![
        stating(h.name, RDF_TYPE@, TermView::Iri(LOG_SEGMENT_CLASS@)),
        stating(h.name, LOG_LEVEL@, TermView::Iri(h.level)),
        stating(h.name, PROV_STARTED_AT_TIME@, date_time(h.started)),
        stating(h.name, PROV_WAS_ATTRIBUTED_TO@, TermView::Iri(h.instance)),
        stating(h.name, LOG_PREV_SEAL@, TermView::Simple(prev_text(h.prev))),
        stating(h.instance, RDF_TYPE@, TermView::Iri(LOG_INSTANCE_CLASS@)),
        stating(h.instance, RDF_TYPE@, TermView::Iri(PROV_SOFTWARE_AGENT@)),
    ]
}

fn iri_term(s: &str) -> (r: Term)
    ensures
        r@ == TermView::Iri(s@),
{
    Term::Iri(s.to_owned())
}

fn simple_term(s: &str) -> (r: Term)
    ensures
        r@ == TermView::Simple(s@),
{
    Term::Simple(s.to_owned())
}

fn time_term(t: Timestamp) -> (r: Term)
    ensures
        r@ == date_time(t.0 as nat),
{
    Term::Typed(t.render(), XSD_DATE_TIME.to_owned())
}

fn number_term(n: u64) -> (r: Term)
    ensures
        r@ == whole_number(n as nat),
{
    Term::Typed(decimal_of(n), XSD_INTEGER.to_owned())
}

fn header_graph(h: &Header) -> (out: Vec<Triple>)
    ensures
        triples(out@) == header_triples(h@),
{
    let mut out: Vec<Triple> = Vec::new();
    let prev = match &h.prev {
        Prev::Genesis => simple_term("genesis"),
        Prev::Seal(hash) => simple_term(hash),
    };
    out.push(triple(&h.name, RDF_TYPE, iri_term(LOG_SEGMENT_CLASS)));
    out.push(triple(&h.name, LOG_LEVEL, iri_term(&h.level)));
    out.push(triple(&h.name, PROV_STARTED_AT_TIME, time_term(h.started)));
    out.push(triple(&h.name, PROV_WAS_ATTRIBUTED_TO, iri_term(&h.instance)));
    out.push(triple(&h.name, LOG_PREV_SEAL, prev));
    out.push(triple(&h.instance, RDF_TYPE, iri_term(LOG_INSTANCE_CLASS)));
    out.push(triple(&h.instance, RDF_TYPE, iri_term(PROV_SOFTWARE_AGENT)));
    assert(triples(out@) =~= header_triples(h@));
    out
}

// =====================================================================================
// An entry
// =====================================================================================

/// The predicate that a property is stated under. One that RDF will not take cannot be
/// dropped silently, so it lands under a term that says what happened.
pub open spec fn usable_predicate(p: Seq<char>) -> Seq<char> {
    if rdf_iri(p) {
        p
    } else {
        LOG_UNDECLARED_KEY@
    }
}

fn predicate(p: &str) -> (r: String)
    ensures
        r@ == usable_predicate(p@),
{
    if is_rdf_iri(p) {
        p.to_owned()
    } else {
        LOG_UNDECLARED_KEY.to_owned()
    }
}

/// A `key=` value as the term its declared range says it is: a plain literal where there
/// is no range or it is a string, a typed literal where it is an XSD datatype, and an IRI
/// otherwise. What is no usable IRI stays a plain literal.
pub open spec fn ranged(value: Seq<char>, range: Option<Seq<char>>) -> TermView {
    match range {
        None => TermView::Simple(value),
        Some(r) => if r == XSD_STRING@ {
            TermView::Simple(value)
        } else if starts_with(r, XSD_NS@) {
            if rdf_iri(r) {
                TermView::Typed(value, r)
            } else {
                TermView::Simple(value)
            }
        } else if rdf_iri(value) {
            TermView::Iri(value)
        } else {
            TermView::Simple(value)
        },
    }
}

/// A `key=` value as the term its declared range says it is.
///
/// The lexical form is not held against the datatype: a malformed integer stays exactly
/// what the line said. Silently rewriting it as a string would hide a defect in whatever
/// wrote the line.
pub fn value_term(value: &str, range: &Option<String>) -> (r: Term)
    ensures
        r@ == ranged(value@, maybe(*range)),
{
    match range {
        None => simple_term(value),
        Some(datatype) => {
            if same_text(datatype, XSD_STRING) {
                return simple_term(value);
            }
            let c = chars_of(datatype);
            if begins_with(&c, &chars_of(XSD_NS)) {
                if is_rdf_iri(datatype) {
                    Term::Typed(value.to_owned(), datatype.clone())
                } else {
                    simple_term(value)
                }
            } else if is_rdf_iri(value) {
                iri_term(value)
            } else {
                simple_term(value)
            }
        },
    }
}

/// The IRI of an entry.
pub open spec fn entry_iri(segment: Seq<char>, seq: nat) -> Seq<char> {
    segment + seq![':'] + decimal(seq)
}

fn entry_node(segment: &str, seq: u64) -> (r: String)
    ensures
        r@ == entry_iri(segment@, seq as nat),
{
    let mut r = segment.to_owned();
    r.push(':');
    r.append(&decimal_of(seq));
    assert(r@ =~= entry_iri(segment@, seq as nat));
    r
}

/// What every entry states: its class, its segment, its time, the instance that wrote it,
/// and its subject, once more under the predicate that its class declares for it.
pub open spec fn column_triples(
    h: HeaderView,
    v: VocabularyView,
    node: Seq<char>,
    e: EntryView,
) -> Seq<TripleView> {
    let columns = seq![
        stating(node, RDF_TYPE@, TermView::Iri(e.class)),
        stating(node, LOG_SEGMENT@, TermView::Iri(h.name)),
        stating(node, PROV_STARTED_AT_TIME@, date_time(e.time)),
        stating(node, PROV_WAS_ASSOCIATED_WITH@, TermView::Iri(h.instance)),
        stating(node, LOG_SUBJECT@, TermView::Iri(e.subject)),
    ];
    match predicate_of(v, e.class) {
        Some(p) => once(columns, stating(node, usable_predicate(p), TermView::Iri(e.subject))),
        None => columns,
    }
}

/// Whether one of `fields` has the key `key`.
pub open spec fn has_key(fields: Seq<(Seq<char>, Seq<char>)>, key: Seq<char>) -> bool {
    exists|i: int| 0 <= i < fields.len() && (#[trigger] fields[i]).0 == key
}

/// An entry's triples with those of its fields: under the property that the vocabulary
/// binds the key to, or under the key itself and with a flag, once for each such key.
pub open spec fn field_triples(
    v: VocabularyView,
    node: Seq<char>,
    columns: Seq<TripleView>,
    fields: Seq<(Seq<char>, Seq<char>)>,
) -> Seq<TripleView>
    decreases fields.len(),
{
    if fields.len() == 0 {
        columns
    } else {
        let before = field_triples(v, node, columns, fields.drop_last());
        let (key, value) = fields.last();
        match lookup(v.keys, key) {
            Some(def) => once(
                before,
                stating(node, usable_predicate(def.property), ranged(value, def.range)),
            ),
            None => {
                let stated = once(
                    before,
                    stating(node, usable_predicate(LOG_NS@ + key), TermView::Simple(value)),
                );
                if has_key(fields.drop_last(), key) {
                    stated
                } else {
                    stated.push(stating(node, LOG_UNDECLARED_KEY@, TermView::Simple(key)))
                }
            },
        }
    }
}

/// What an entry states, or the part of it that is no IRI.
pub open spec fn entry_triples(
    h: HeaderView,
    v: VocabularyView,
    row: RowView,
) -> Result<Seq<TripleView>, GraphErrorView> {
    let node = entry_iri(h.name, row.seq);
    let e = row.entry;
    if !rdf_iri(node) {
        Err(GraphErrorView::Iri(node))
    } else if !rdf_iri(e.class) {
        Err(GraphErrorView::Iri(e.class))
    } else if !rdf_iri(e.subject) {
        Err(GraphErrorView::Iri(e.subject))
    } else {
        Ok(field_triples(v, node, column_triples(h, v, node, e), e.fields))
    }
}

/// A result, with its triples as characters.
pub open spec fn graph_seen(r: Result<Vec<Triple>, GraphError>) -> Result<
    Seq<TripleView>,
    GraphErrorView,
> {
    match r {
        Ok(t) => Ok(triples(t@)),
        Err(e) => Err(e@),
    }
}

fn column_graph(h: &Header, vocab: &Vocabulary, node: &str, e: &Entry) -> (out: Vec<Triple>)
    ensures
        triples(out@) == column_triples(h@, vocab@, node@, e@),
{
    let mut out: Vec<Triple> = Vec::new();
    out.push(triple(node, RDF_TYPE, iri_term(&e.class)));
    out.push(triple(node, LOG_SEGMENT, iri_term(&h.name)));
    out.push(triple(node, PROV_STARTED_AT_TIME, time_term(e.time)));
    out.push(triple(node, PROV_WAS_ASSOCIATED_WITH, iri_term(&h.instance)));
    out.push(triple(node, LOG_SUBJECT, iri_term(&e.subject)));
    assert(triples(out@) =~= seq![
        stating(node@, RDF_TYPE@, TermView::Iri(e@.class)),
        stating(node@, LOG_SEGMENT@, TermView::Iri(h@.name)),
        stating(node@, PROV_STARTED_AT_TIME@, date_time(e@.time)),
        stating(node@, PROV_WAS_ASSOCIATED_WITH@, TermView::Iri(h@.instance)),
        stating(node@, LOG_SUBJECT@, TermView::Iri(e@.subject)),
    ]);
    match vocab.subject_predicate(&e.class) {
        Some(p) => {
            push_unique(&mut out, triple(node, &predicate(p), iri_term(&e.subject)));
        },
        None => {},
    }
    out
}

fn key_before(fields: &Vec<(String, String)>, end: usize, key: &str) -> (r: bool)
    requires
        end <= fields.len(),
    ensures
        r == has_key(crate::entry::pairs(fields@).take(end as int), key@),
{
    let ghost all = crate::entry::pairs(fields@).take(end as int);
    let mut i: usize = 0;
    while i < end
        invariant
            i <= end <= fields.len(),
            all == crate::entry::pairs(fields@).take(end as int),
            forall|j: int| 0 <= j < i ==> (#[trigger] all[j]).0 != key@,
        decreases end - i,
    {
        if same_text(&fields[i].0, key) {
            assert(all[i as int].0 == key@);
            return true;
        }
        i = i + 1;
    }
    false
}

/// One field of an entry, added to the entry's triples.
fn add_field(
    out: &mut Vec<Triple>,
    vocab: &Vocabulary,
    node: &str,
    key: &str,
    value: &str,
    known: bool,
)
    ensures
        triples(final(out)@) == (match lookup(vocab@.keys, key@) {
            Some(def) => once(
                triples(old(out)@),
                stating(node@, usable_predicate(def.property), ranged(value@, def.range)),
            ),
            None => {
                let stated = once(
                    triples(old(out)@),
                    stating(node@, usable_predicate(LOG_NS@ + key@), TermView::Simple(value@)),
                );
                if known {
                    stated
                } else {
                    stated.push(stating(node@, LOG_UNDECLARED_KEY@, TermView::Simple(key@)))
                }
            },
        }),
{
    match vocab.key(key) {
        Some(def) => {
            push_unique(
                out,
                triple(node, &predicate(&def.property), value_term(value, &def.range)),
            );
        },
        None => {
            // Lossless and flagged. Never guess a range.
            push_unique(
                out,
                triple(node, &predicate(&joined(LOG_NS, key)), simple_term(value)),
            );
            if !known {
                push_triple(out, triple(node, LOG_UNDECLARED_KEY, simple_term(key)));
            }
        },
    }
}

/// What an entry states.
fn entry_graph(h: &Header, vocab: &Vocabulary, row: &Row) -> (r: Result<Vec<Triple>, GraphError>)
    ensures
        graph_seen(r) == entry_triples(h@, vocab@, row@),
{
    let node = entry_node(&h.name, row.seq);
    let e = &row.entry;
    if !is_rdf_iri(&node) {
        return Err(GraphError::Iri(node));
    }
    if !is_rdf_iri(&e.class) {
        return Err(GraphError::Iri(e.class.clone()));
    }
    if !is_rdf_iri(&e.subject) {
        return Err(GraphError::Iri(e.subject.clone()));
    }
    let mut out = column_graph(h, vocab, &node, e);
    let ghost columns = triples(out@);
    let ghost all = crate::entry::pairs(e.fields@);
    let mut i: usize = 0;
    assert(all.take(0) =~= Seq::empty());
    while i < e.fields.len()
        invariant
            i <= e.fields.len(),
            all == crate::entry::pairs(e.fields@),
            triples(out@) == field_triples(vocab@, node@, columns, all.take(i as int)),
        decreases e.fields.len() - i,
    {
        proof {
            assert(all.take(i + 1).drop_last() =~= all.take(i as int));
            assert(all.take(i + 1).last() == (e.fields@[i as int].0@, e.fields@[i as int].1@));
        }
        let known = key_before(&e.fields, i, &e.fields[i].0);
        add_field(&mut out, vocab, &node, &e.fields[i].0, &e.fields[i].1, known);
        i = i + 1;
    }
    assert(all.take(i as int) =~= all);
    Ok(out)
}

/// What the entries that the window takes in state, in order, up to the first that is
/// refused.
pub open spec fn rows_triples(
    h: HeaderView,
    v: VocabularyView,
    o: Options,
    rows: Seq<RowView>,
) -> Result<Seq<TripleView>, GraphErrorView>
    decreases rows.len(),
{
    if rows.len() == 0 {
        Ok(Seq::empty())
    } else {
        let row = rows.last();
        match rows_triples(h, v, o, rows.drop_last()) {
            Err(e) => Err(e),
            Ok(before) => if takes_in(o, row.entry.time, row.seq) {
                match entry_triples(h, v, row) {
                    Err(e) => Err(e),
                    Ok(more) => Ok(before + more),
                }
            } else {
                Ok(before)
            },
        }
    }
}

proof fn lemma_rows_stop(
    h: HeaderView,
    v: VocabularyView,
    o: Options,
    rows: Seq<RowView>,
    k: int,
)
    requires
        0 <= k <= rows.len(),
        rows_triples(h, v, o, rows.take(k)) is Err,
    ensures
        rows_triples(h, v, o, rows) == rows_triples(h, v, o, rows.take(k)),
    decreases rows.len(),
{
    if k < rows.len() {
        assert(rows.drop_last().take(k) =~= rows.take(k));
        lemma_rows_stop(h, v, o, rows.drop_last(), k);
    } else {
        assert(rows.take(k) =~= rows);
    }
}

/// Append triples.
fn extend(out: &mut Vec<Triple>, more: Vec<Triple>)
    ensures
        triples(final(out)@) == triples(old(out)@) + triples(more@),
{
    let ghost before = out@;
    let mut rest = more;
    out.append(&mut rest);
    assert(triples(out@) =~= triples(before) + triples(more@));
}

fn rows_graph(h: &Header, vocab: &Vocabulary, options: &Options, rows: &Vec<Row>) -> (r: Result<
    Vec<Triple>,
    GraphError,
>)
    ensures
        graph_seen(r) == rows_triples(h@, vocab@, *options, rows_view(rows@)),
{
    let ghost all = rows_view(rows@);
    let mut out: Vec<Triple> = Vec::new();
    let mut i: usize = 0;
    proof {
        assert(all.take(0) =~= Seq::empty());
        assert(triples(out@) =~= Seq::empty());
    }
    while i < rows.len()
        invariant
            i <= rows.len(),
            all == rows_view(rows@),
            rows_triples(h@, vocab@, *options, all.take(i as int)) == Ok::<_, GraphErrorView>(
                triples(out@),
            ),
        decreases rows.len() - i,
    {
        proof {
            assert(all.take(i + 1).drop_last() =~= all.take(i as int));
            assert(all.take(i + 1).last() == rows@[i as int]@);
        }
        if options.admits(rows[i].entry.time, rows[i].seq) {
            match entry_graph(h, vocab, &rows[i]) {
                Err(e) => {
                    proof {
                        lemma_rows_stop(h@, vocab@, *options, all, i + 1);
                    }
                    return Err(e);
                },
                Ok(more) => {
                    extend(&mut out, more);
                },
            }
        }
        i = i + 1;
    }
    assert(all.take(i as int) =~= all);
    Ok(out)
}

// =====================================================================================
// Spans
// =====================================================================================

/// A span that an entry mentions.
#[verifier::ext_equal]
pub struct MentionView {
    pub run: nat,
    pub span: Seq<char>,
    pub node: Seq<char>,
}

struct Mention {
    run: usize,
    span: String,
    node: String,
}

impl View for Mention {
    type V = MentionView;

    closed spec fn view(&self) -> MentionView {
        MentionView { run: self.run as nat, span: self.span@, node: self.node@ }
    }
}

spec fn mentions_view(v: Seq<Mention>) -> Seq<MentionView> {
    v.map_values(|m: Mention| m@)
}

/// The values that `fields` state under the property `property`.
pub open spec fn field_mentions(
    v: VocabularyView,
    property: Seq<char>,
    run: nat,
    node: Seq<char>,
    fields: Seq<(Seq<char>, Seq<char>)>,
) -> Seq<MentionView>
    decreases fields.len(),
{
    if fields.len() == 0 {
        Seq::empty()
    } else {
        let before = field_mentions(v, property, run, node, fields.drop_last());
        let (key, value) = fields.last();
        if lookup(v.keys, key) matches Some(def) && def.property == property {
            before.push(MentionView { run, span: value, node })
        } else {
            before
        }
    }
}

/// The values that the entries which the window takes in state under `property`.
pub open spec fn mentions(
    h: HeaderView,
    v: VocabularyView,
    o: Options,
    property: Seq<char>,
    rows: Seq<RowView>,
) -> Seq<MentionView>
    decreases rows.len(),
{
    if rows.len() == 0 {
        Seq::empty()
    } else {
        let before = mentions(h, v, o, property, rows.drop_last());
        let row = rows.last();
        if takes_in(o, row.entry.time, row.seq) {
            before + field_mentions(
                v,
                property,
                row.run,
                entry_iri(h.name, row.seq),
                row.entry.fields,
            )
        } else {
            before
        }
    }
}

/// The node that last claimed a span within a run.
pub open spec fn claimed(spans: Seq<MentionView>, run: nat, span: Seq<char>) -> Option<Seq<char>>
    decreases spans.len(),
{
    if spans.len() == 0 {
        None
    } else if spans.last().run == run && spans.last().span == span {
        Some(spans.last().node)
    } else {
        claimed(spans.drop_last(), run, span)
    }
}

/// Parent to child, within one run: an edge for each mention of a parent that some other
/// entry in this graph claims. Where it does not resolve, no edge is invented.
pub open spec fn invoked_triples(
    spans: Seq<MentionView>,
    parents: Seq<MentionView>,
) -> Seq<TripleView>
    decreases parents.len(),
{
    if parents.len() == 0 {
        Seq::empty()
    } else {
        let before = invoked_triples(spans, parents.drop_last());
        let child = parents.last();
        match claimed(spans, child.run, child.span) {
            Some(parent) => if parent != child.node {
                before.push(stating(parent, LOG_INVOKED@, TermView::Iri(child.node)))
            } else {
                before
            },
            None => before,
        }
    }
}

/// Add what one entry states under a property.
fn add_mentions(out: &mut Vec<Mention>, vocab: &Vocabulary, property: &str, row: &Row, node: &str)
    ensures
        mentions_view(final(out)@) == mentions_view(old(out)@) + field_mentions(
            vocab@,
            property@,
            row@.run,
            node@,
            row@.entry.fields,
        ),
{
    let ghost start = mentions_view(out@);
    let fields = &row.entry.fields;
    let ghost all = crate::entry::pairs(fields@);
    let mut i: usize = 0;
    proof {
        assert(all.take(0) =~= Seq::empty());
        assert(start + Seq::<MentionView>::empty() =~= start);
    }
    while i < fields.len()
        invariant
            i <= fields.len(),
            all == crate::entry::pairs(fields@),
            mentions_view(out@) == start + field_mentions(
                vocab@,
                property@,
                row@.run,
                node@,
                all.take(i as int),
            ),
        decreases fields.len() - i,
    {
        proof {
            assert(all.take(i + 1).drop_last() =~= all.take(i as int));
            assert(all.take(i + 1).last() == (fields@[i as int].0@, fields@[i as int].1@));
        }
        let bound = match vocab.key(&fields[i].0) {
            Some(def) => same_text(&def.property, property),
            None => false,
        };
        if bound {
            let ghost before = out@;
            out.push(
                Mention { run: row.run, span: fields[i].1.clone(), node: node.to_owned() },
            );
            assert(mentions_view(out@) =~= mentions_view(before).push(
                MentionView { run: row@.run, span: fields@[i as int].1@, node: node@ },
            ));
            assert(mentions_view(out@) =~= start + field_mentions(
                vocab@,
                property@,
                row@.run,
                node@,
                all.take(i + 1),
            ));
        }
        i = i + 1;
    }
    assert(all.take(i as int) =~= all);
}

fn mentions_of(
    h: &Header,
    vocab: &Vocabulary,
    options: &Options,
    property: &str,
    rows: &Vec<Row>,
) -> (out: Vec<Mention>)
    ensures
        mentions_view(out@) == mentions(h@, vocab@, *options, property@, rows_view(rows@)),
{
    let ghost all = rows_view(rows@);
    let mut out: Vec<Mention> = Vec::new();
    let mut i: usize = 0;
    proof {
        assert(all.take(0) =~= Seq::empty());
        assert(mentions_view(out@) =~= Seq::empty());
    }
    while i < rows.len()
        invariant
            i <= rows.len(),
            all == rows_view(rows@),
            mentions_view(out@) == mentions(
                h@,
                vocab@,
                *options,
                property@,
                all.take(i as int),
            ),
        decreases rows.len() - i,
    {
        proof {
            assert(all.take(i + 1).drop_last() =~= all.take(i as int));
            assert(all.take(i + 1).last() == rows@[i as int]@);
        }
        if options.admits(rows[i].entry.time, rows[i].seq) {
            let node = entry_node(&h.name, rows[i].seq);
            add_mentions(&mut out, vocab, property, &rows[i], &node);
        }
        i = i + 1;
    }
    assert(all.take(i as int) =~= all);
    out
}

/// The node that last claimed a span within a run.
fn claimant<'a>(spans: &'a Vec<Mention>, run: usize, span: &str) -> (r: Option<&'a String>)
    ensures
        match r {
            Some(node) => claimed(mentions_view(spans@), run as nat, span@) == Some(node@),
            None => claimed(mentions_view(spans@), run as nat, span@) is None,
        },
{
    let ghost all = mentions_view(spans@);
    let mut i: usize = spans.len();
    assert(all.take(i as int) =~= all);
    while i > 0
        invariant
            i <= spans.len(),
            all == mentions_view(spans@),
            claimed(all, run as nat, span@) == claimed(all.take(i as int), run as nat, span@),
        decreases i,
    {
        proof {
            assert(all.take(i as int).drop_last() =~= all.take(i - 1));
            assert(all.take(i as int).last() == spans@[i - 1]@);
        }
        if spans[i - 1].run == run && same_text(&spans[i - 1].span, span) {
            return Some(&spans[i - 1].node);
        }
        i = i - 1;
    }
    assert(all.take(0) =~= Seq::empty());
    None
}

fn invoked_graph(spans: &Vec<Mention>, parents: &Vec<Mention>) -> (out: Vec<Triple>)
    ensures
        triples(out@) == invoked_triples(mentions_view(spans@), mentions_view(parents@)),
{
    let ghost all = mentions_view(parents@);
    let mut out: Vec<Triple> = Vec::new();
    let mut i: usize = 0;
    proof {
        assert(all.take(0) =~= Seq::empty());
        assert(triples(out@) =~= Seq::empty());
    }
    while i < parents.len()
        invariant
            i <= parents.len(),
            all == mentions_view(parents@),
            triples(out@) == invoked_triples(mentions_view(spans@), all.take(i as int)),
        decreases parents.len() - i,
    {
        let child = &parents[i];
        proof {
            assert(all.take(i + 1).drop_last() =~= all.take(i as int));
            assert(all.take(i + 1).last() == parents@[i as int]@);
        }
        match claimant(spans, child.run, &child.span) {
            Some(parent) => {
                if !same_text(parent, &child.node) {
                    push_triple(&mut out, triple(parent, LOG_INVOKED, iri_term(&child.node)));
                }
            },
            None => {},
        }
        i = i + 1;
    }
    assert(all.take(i as int) =~= all);
    out
}

// =====================================================================================
// Seals
// =====================================================================================

/// The IRI of a seal.
pub open spec fn seal_iri(segment: Seq<char>, s: SealView) -> Seq<char> {
    segment + ":seal:"@ + decimal(s.first) + seq!['-'] + decimal(s.last)
}

/// What a seal states: the tokens as its line wrote them, but for the signature column,
/// which is split into its algorithm and its value. A token without an algorithm is a
/// value alone.
pub open spec fn seal_triples(segment: Seq<char>, s: SealView) -> Seq<TripleView> {
    let node = seal_iri(segment, s);
    seq![
        stating(node, RDF_TYPE@, TermView::Iri(LOG_SEAL_CLASS@)),
        stating(node, LOG_SEGMENT@, TermView::Iri(segment)),
        stating(node, LOG_FIRST_SEQUENCE@, whole_number(s.first)),
        stating(node, LOG_LAST_SEQUENCE@, whole_number(s.last)),
        stating(node, SIG_CONTENT_HASH@, TermView::Simple(s.hash)),
    ] + match s.signature {
        None => Seq::empty(),
        Some(token) => match token_parts(token) {
            Some((algorithm, value)) => seq![
                stating(node, SIG_ALGORITHM@, TermView::Simple(algorithm)),
                stating(node, SIG_VALUE@, TermView::Simple(value)),
            ],
            None => seq![stating(node, SIG_VALUE@, TermView::Simple(token))],
        },
    }
}

/// What seals state, in order, up to the first whose node is no IRI.
pub open spec fn seals_triples(segment: Seq<char>, seals: Seq<SealView>) -> Result<
    Seq<TripleView>,
    GraphErrorView,
>
    decreases seals.len(),
{
    if seals.len() == 0 {
        Ok(Seq::empty())
    } else {
        match seals_triples(segment, seals.drop_last()) {
            Err(e) => Err(e),
            Ok(before) => if rdf_iri(seal_iri(segment, seals.last())) {
                Ok(before + seal_triples(segment, seals.last()))
            } else {
                Err(GraphErrorView::Iri(seal_iri(segment, seals.last())))
            },
        }
    }
}

proof fn lemma_seals_stop(segment: Seq<char>, seals: Seq<SealView>, k: int)
    requires
        0 <= k <= seals.len(),
        seals_triples(segment, seals.take(k)) is Err,
    ensures
        seals_triples(segment, seals) == seals_triples(segment, seals.take(k)),
    decreases seals.len(),
{
    if k < seals.len() {
        assert(seals.drop_last().take(k) =~= seals.take(k));
        lemma_seals_stop(segment, seals.drop_last(), k);
    } else {
        assert(seals.take(k) =~= seals);
    }
}

fn seal_node(segment: &str, s: &Seal) -> (r: String)
    ensures
        r@ == seal_iri(segment@, s@),
{
    let mut r = joined(segment, ":seal:");
    r.append(&decimal_of(s.first));
    r.push('-');
    r.append(&decimal_of(s.last));
    assert(r@ =~= seal_iri(segment@, s@));
    r
}

fn seal_graph(segment: &str, node: &str, s: &Seal) -> (out: Vec<Triple>)
    requires
        node@ == seal_iri(segment@, s@),
    ensures
        triples(out@) == seal_triples(segment@, s@),
{
    let mut out: Vec<Triple> = Vec::new();
    out.push(triple(node, RDF_TYPE, iri_term(LOG_SEAL_CLASS)));
    out.push(triple(node, LOG_SEGMENT, iri_term(segment)));
    out.push(triple(node, LOG_FIRST_SEQUENCE, number_term(s.first)));
    out.push(triple(node, LOG_LAST_SEQUENCE, number_term(s.last)));
    out.push(triple(node, SIG_CONTENT_HASH, simple_term(&s.hash)));
    match &s.signature {
        None => {},
        Some(token) => match split_signature(token) {
            Some((algorithm, value)) => {
                out.push(triple(node, SIG_ALGORITHM, simple_term(&algorithm)));
                out.push(triple(node, SIG_VALUE, simple_term(&value)));
            },
            None => {
                out.push(triple(node, SIG_VALUE, simple_term(token)));
            },
        },
    }
    assert(triples(out@) =~= seal_triples(segment@, s@));
    out
}

fn seals_graph(segment: &str, seals: &Vec<Seal>) -> (r: Result<Vec<Triple>, GraphError>)
    ensures
        graph_seen(r) == seals_triples(segment@, seals_view(seals@)),
{
    let ghost all = seals_view(seals@);
    let mut out: Vec<Triple> = Vec::new();
    let mut i: usize = 0;
    proof {
        assert(all.take(0) =~= Seq::empty());
        assert(triples(out@) =~= Seq::empty());
    }
    while i < seals.len()
        invariant
            i <= seals.len(),
            all == seals_view(seals@),
            seals_triples(segment@, all.take(i as int)) == Ok::<_, GraphErrorView>(triples(out@)),
        decreases seals.len() - i,
    {
        proof {
            assert(all.take(i + 1).drop_last() =~= all.take(i as int));
            assert(all.take(i + 1).last() == seals@[i as int]@);
        }
        let node = seal_node(segment, &seals[i]);
        if !is_rdf_iri(&node) {
            proof {
                lemma_seals_stop(segment@, all, i + 1);
            }
            return Err(GraphError::Iri(node));
        }
        let more = seal_graph(segment, &node, &seals[i]);
        extend(&mut out, more);
        i = i + 1;
    }
    assert(all.take(i as int) =~= all);
    Ok(out)
}

// =====================================================================================
// The graph
// =====================================================================================

/// The graph of a segment, or why it has none: what its header states, what its entries
/// state, who invoked whom, and what its seals state, each in the order of the lines and
/// once. A set has no duplicates, so neither has what it is written as.
pub open spec fn graph_of(text: Seq<char>, v: VocabularyView, o: Options) -> Result<
    Seq<TripleView>,
    GraphErrorView,
> {
    match header_read(text) {
        Err(error) => Err(GraphErrorView::Parse { line: 1, error }),
        Ok((h, _)) => if !rdf_iri(h.name) {
            Err(GraphErrorView::Iri(h.name))
        } else if !rdf_iri(h.instance) {
            Err(GraphErrorView::Iri(h.instance))
        } else if !rdf_iri(h.level) {
            Err(GraphErrorView::Iri(h.level))
        } else {
            match walk(text, h, v, o) {
                Err(e) => Err(e),
                Ok(w) => match rows_triples(h, v, o, w.rows) {
                    Err(e) => Err(e),
                    Ok(entries) => match seals_triples(h.name, w.seals) {
                        Err(e) => Err(e),
                        Ok(seals) => Ok(
                            unrepeated(
                                header_triples(h) + entries + invoked_triples(
                                    mentions(h, v, o, LOG_SPAN@, w.rows),
                                    mentions(h, v, o, LOG_PARENT_SPAN@, w.rows),
                                ) + seals,
                            ),
                        ),
                    },
                },
            }
        },
    }
}

/// [`to_turtle`]'s graph, before serialization, for a caller that wants the triples
/// themselves.
pub fn to_triples(text: &str, vocab: &Vocabulary, options: &Options) -> (r: Result<
    Vec<Triple>,
    GraphError,
>)
    ensures
        graph_seen(r) == graph_of(text@, vocab@, *options),
{
    let header = match Header::parse(text) {
        Ok((header, _)) => header,
        Err(error) => {
            return Err(GraphError::Parse { line: 1, error });
        },
    };
    if !is_rdf_iri(&header.name) {
        return Err(GraphError::Iri(header.name));
    }
    if !is_rdf_iri(&header.instance) {
        return Err(GraphError::Iri(header.instance));
    }
    if !is_rdf_iri(&header.level) {
        return Err(GraphError::Iri(header.level));
    }
    let walk = match scan(text, &header, vocab, options) {
        Ok(walk) => walk,
        Err(e) => {
            return Err(e);
        },
    };
    let mut out = header_graph(&header);
    let entries = match rows_graph(&header, vocab, options, &walk.rows) {
        Ok(t) => t,
        Err(e) => {
            return Err(e);
        },
    };
    let seals = match seals_graph(&header.name, &walk.seals) {
        Ok(t) => t,
        Err(e) => {
            return Err(e);
        },
    };
    extend(&mut out, entries);
    // After the entries, so that the whole run's spans are known however the lines were
    // ordered: a parent's line is written when it completes, so its children's lines
    // usually precede it.
    let spans = mentions_of(&header, vocab, options, LOG_SPAN, &walk.rows);
    let parents = mentions_of(&header, vocab, options, LOG_PARENT_SPAN, &walk.rows);
    extend(&mut out, invoked_graph(&spans, &parents));
    extend(&mut out, seals);
    Ok(each_once(out))
}

/// The prefixes that a graph's Turtle binds.
pub open spec fn graph_prefixes() -> Seq<(Seq<char>, Seq<char>)> {
    seq![
        ("log"@, LOG_NS@),
        ("prov"@, PROV_NS@),
        ("sig"@, SIG_NS@),
        ("xsd"@, XSD_NS@),
    ]
}

/// What the Turtle of a graph is, or why there is none.
pub open spec fn turtle_of(t: Seq<TripleView>) -> Result<Seq<char>, GraphErrorView> {
    match turtle_text(graph_prefixes(), t) {
        Ok(s) => Ok(s),
        Err(e) => Err(GraphErrorView::Serialize(e)),
    }
}

/// A text, or why there is none.
pub open spec fn text_seen(r: Result<String, GraphError>) -> Result<Seq<char>, GraphErrorView> {
    match r {
        Ok(s) => Ok(s@),
        Err(e) => Err(e@),
    }
}

proof fn lemma_prefix_lengths()
    ensures
        lengths_differ(graph_prefixes()),
{
    let p = graph_prefixes();
    reveal_strlit("https://ikigai-rs.dev/ns/log#");
    reveal_strlit("http://www.w3.org/ns/prov#");
    reveal_strlit("https://ikigai-rs.dev/ns/sign#");
    reveal_strlit("http://www.w3.org/2001/XMLSchema#");
    is_ascii_chars_encode_utf8(LOG_NS@);
    is_ascii_chars_encode_utf8(PROV_NS@);
    is_ascii_chars_encode_utf8(SIG_NS@);
    is_ascii_chars_encode_utf8(XSD_NS@);
}

/// Serialize in the order given, which is that of the lines, so the graph reads down the
/// segment and two runs over the same segment are byte-identical.
///
/// Only the prefixes the output uses are bound: an unused `@prefix` line is noise in an
/// artifact whose value is being diffable.
pub fn serialize(graph: &Vec<Triple>) -> (r: Result<String, GraphError>)
    ensures
        text_seen(r) == turtle_of(triples(graph@)),
        r is Ok,
        sound_triples(triples(graph@)) ==> turtle_document(r->Ok_0@) == document_of(
            triples(graph@),
        ),
{
    let prefixes: [(&str, &str); 4] = [
        ("log", LOG_NS),
        ("prov", PROV_NS),
        ("sig", SIG_NS),
        ("xsd", XSD_NS),
    ];
    proof {
        lemma_prefix_lengths();
        lemma_prefixes_are_sound();
        assert(namespaces(prefixes@) =~= graph_prefixes());
    }
    match write_turtle(prefixes.as_slice(), graph.as_slice()) {
        Ok(s) => Ok(s),
        Err(e) => Err(GraphError::Serialize(e)),
    }
}

/// Turn a segment into Turtle.
///
/// `vocab` is the term table: the built-in one, or a host's extended graph. The segment's
/// own `@name` header names the graph, so the result is complete without a
/// caller-supplied IRI. Read as Turtle it is that graph again.
pub fn to_turtle(text: &str, vocab: &Vocabulary, options: &Options) -> (r: Result<
    String,
    GraphError,
>)
    ensures
        text_seen(r) == (match graph_of(text@, vocab@, *options) {
            Ok(t) => turtle_of(t),
            Err(e) => Err(e),
        }),
        graph_of(text@, vocab@, *options) matches Ok(t) ==> {
            &&& r is Ok
            &&& turtle_document(r->Ok_0@) == document_of(t)
        },
{
    match to_triples(text, vocab, options) {
        Ok(graph) => {
            proof {
                law_graph_is_sound(text@, vocab@, *options);
            }
            serialize(&graph)
        },
        Err(e) => Err(e),
    }
}

} // verus!
