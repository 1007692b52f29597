//! What reading a graph's Turtle gives back.

use vstd::prelude::*;
use vstd::string::*;

use crate::graph::{
    claimed, column_triples, entry_iri, entry_triples, field_mentions, field_triples, graph_of,
    graph_prefixes, header_triples, invoked_triples, mentions, ranged, rows_triples, seal_triples,
    seals_triples, usable_predicate, MentionView, LOG_FIRST_SEQUENCE, LOG_INSTANCE_CLASS,
    LOG_INVOKED, LOG_LAST_SEQUENCE, LOG_LEVEL, LOG_PARENT_SPAN, LOG_PREV_SEAL, LOG_SEAL_CLASS,
    LOG_SEGMENT, LOG_SEGMENT_CLASS, LOG_SPAN, LOG_SUBJECT, LOG_UNDECLARED_KEY,
    PROV_SOFTWARE_AGENT, PROV_STARTED_AT_TIME, PROV_WAS_ASSOCIATED_WITH, PROV_WAS_ATTRIBUTED_TO,
    SIG_ALGORITHM, SIG_CONTENT_HASH, SIG_NS, SIG_VALUE, XSD_DATE_TIME, XSD_INTEGER, XSD_NS,
    XSD_STRING,
};
use crate::header::{header_read, HeaderView};
use crate::line::SealView;
use crate::lineage::predicate_of;
use crate::rdf::{blank, grounded, law_grounded_reading, may_read, turtle_document, DocumentView};
use crate::table::lookup;
use crate::text::starts_with;
use crate::triple::{
    document_of, law_unrepeated, letters, once, rdf_iri, sound_iri, sound_prefixes, sound_triple,
    sound_triples, stating, statement_of, term_of, unrepeated, well_known, TermView, TripleView,
};
use crate::vocabulary::{VocabularyView, LOG_NS, PROV_NS, RDF_NS, RDF_TYPE};
use crate::window::{takes_in, walk, Options, RowView};

verus! {

// =====================================================================================
// The terms that a graph draws on
// =====================================================================================

proof fn lemma_term(iri: Seq<char>, ns: Seq<char>, name: Seq<char>)
    requires
        iri == ns + name,
        letters(name),
    ensures
        term_of(iri, ns),
{
    assert(iri.take(ns.len() as int) =~= ns);
    assert(iri.skip(ns.len() as int) =~= name);
}

proof fn lemma_log_classes()
    ensures
        well_known(LOG_SEGMENT_CLASS@),
        well_known(LOG_INSTANCE_CLASS@),
        well_known(LOG_SEAL_CLASS@),
        well_known(LOG_LEVEL@),
{
    reveal_strlit("https://ikigai-rs.dev/ns/log#");
    reveal_strlit("https://ikigai-rs.dev/ns/log#Segment");
    reveal_strlit("https://ikigai-rs.dev/ns/log#Instance");
    reveal_strlit("https://ikigai-rs.dev/ns/log#Seal");
    reveal_strlit("https://ikigai-rs.dev/ns/log#level");
    reveal_strlit("Segment");
    reveal_strlit("Instance");
    reveal_strlit("Seal");
    reveal_strlit("level");
    assert(LOG_SEGMENT_CLASS@ =~= LOG_NS@ + "Segment"@);
    assert(LOG_INSTANCE_CLASS@ =~= LOG_NS@ + "Instance"@);
    assert(LOG_SEAL_CLASS@ =~= LOG_NS@ + "Seal"@);
    assert(LOG_LEVEL@ =~= LOG_NS@ + "level"@);
    lemma_term(LOG_SEGMENT_CLASS@, LOG_NS@, "Segment"@);
    lemma_term(LOG_INSTANCE_CLASS@, LOG_NS@, "Instance"@);
    lemma_term(LOG_SEAL_CLASS@, LOG_NS@, "Seal"@);
    lemma_term(LOG_LEVEL@, LOG_NS@, "level"@);
}

proof fn lemma_log_properties()
    ensures
        well_known(LOG_PREV_SEAL@),
        well_known(LOG_SEGMENT@),
        well_known(LOG_SUBJECT@),
        well_known(LOG_UNDECLARED_KEY@),
{
    reveal_strlit("https://ikigai-rs.dev/ns/log#");
    reveal_strlit("https://ikigai-rs.dev/ns/log#prevSeal");
    reveal_strlit("https://ikigai-rs.dev/ns/log#segment");
    reveal_strlit("https://ikigai-rs.dev/ns/log#subject");
    reveal_strlit("https://ikigai-rs.dev/ns/log#undeclaredKey");
    reveal_strlit("prevSeal");
    reveal_strlit("segment");
    reveal_strlit("subject");
    reveal_strlit("undeclaredKey");
    assert(LOG_PREV_SEAL@ =~= LOG_NS@ + "prevSeal"@);
    assert(LOG_SEGMENT@ =~= LOG_NS@ + "segment"@);
    assert(LOG_SUBJECT@ =~= LOG_NS@ + "subject"@);
    assert(LOG_UNDECLARED_KEY@ =~= LOG_NS@ + "undeclaredKey"@);
    lemma_term(LOG_PREV_SEAL@, LOG_NS@, "prevSeal"@);
    lemma_term(LOG_SEGMENT@, LOG_NS@, "segment"@);
    lemma_term(LOG_SUBJECT@, LOG_NS@, "subject"@);
    lemma_term(LOG_UNDECLARED_KEY@, LOG_NS@, "undeclaredKey"@);
}

proof fn lemma_log_relations()
    ensures
        well_known(LOG_INVOKED@),
        well_known(LOG_FIRST_SEQUENCE@),
        well_known(LOG_LAST_SEQUENCE@),
{
    reveal_strlit("https://ikigai-rs.dev/ns/log#");
    reveal_strlit("https://ikigai-rs.dev/ns/log#invoked");
    reveal_strlit("https://ikigai-rs.dev/ns/log#firstSequence");
    reveal_strlit("https://ikigai-rs.dev/ns/log#lastSequence");
    reveal_strlit("invoked");
    reveal_strlit("firstSequence");
    reveal_strlit("lastSequence");
    assert(LOG_INVOKED@ =~= LOG_NS@ + "invoked"@);
    assert(LOG_FIRST_SEQUENCE@ =~= LOG_NS@ + "firstSequence"@);
    assert(LOG_LAST_SEQUENCE@ =~= LOG_NS@ + "lastSequence"@);
    lemma_term(LOG_INVOKED@, LOG_NS@, "invoked"@);
    lemma_term(LOG_FIRST_SEQUENCE@, LOG_NS@, "firstSequence"@);
    lemma_term(LOG_LAST_SEQUENCE@, LOG_NS@, "lastSequence"@);
}

proof fn lemma_prov_terms()
    ensures
        well_known(PROV_STARTED_AT_TIME@),
        well_known(PROV_WAS_ASSOCIATED_WITH@),
        well_known(PROV_WAS_ATTRIBUTED_TO@),
        well_known(PROV_SOFTWARE_AGENT@),
{
    reveal_strlit("http://www.w3.org/ns/prov#");
    reveal_strlit("http://www.w3.org/ns/prov#startedAtTime");
    reveal_strlit("http://www.w3.org/ns/prov#wasAssociatedWith");
    reveal_strlit("http://www.w3.org/ns/prov#wasAttributedTo");
    reveal_strlit("http://www.w3.org/ns/prov#SoftwareAgent");
    reveal_strlit("startedAtTime");
    reveal_strlit("wasAssociatedWith");
    reveal_strlit("wasAttributedTo");
    reveal_strlit("SoftwareAgent");
    assert(PROV_STARTED_AT_TIME@ =~= PROV_NS@ + "startedAtTime"@);
    assert(PROV_WAS_ASSOCIATED_WITH@ =~= PROV_NS@ + "wasAssociatedWith"@);
    assert(PROV_WAS_ATTRIBUTED_TO@ =~= PROV_NS@ + "wasAttributedTo"@);
    assert(PROV_SOFTWARE_AGENT@ =~= PROV_NS@ + "SoftwareAgent"@);
    lemma_term(PROV_STARTED_AT_TIME@, PROV_NS@, "startedAtTime"@);
    lemma_term(PROV_WAS_ASSOCIATED_WITH@, PROV_NS@, "wasAssociatedWith"@);
    lemma_term(PROV_WAS_ATTRIBUTED_TO@, PROV_NS@, "wasAttributedTo"@);
    lemma_term(PROV_SOFTWARE_AGENT@, PROV_NS@, "SoftwareAgent"@);
}

proof fn lemma_sig_terms()
    ensures
        well_known(SIG_CONTENT_HASH@),
        well_known(SIG_ALGORITHM@),
        well_known(SIG_VALUE@),
{
    reveal_strlit("https://ikigai-rs.dev/ns/sign#");
    reveal_strlit("https://ikigai-rs.dev/ns/sign#contentHash");
    reveal_strlit("https://ikigai-rs.dev/ns/sign#algorithm");
    reveal_strlit("https://ikigai-rs.dev/ns/sign#value");
    reveal_strlit("contentHash");
    reveal_strlit("algorithm");
    reveal_strlit("value");
    assert(SIG_CONTENT_HASH@ =~= SIG_NS@ + "contentHash"@);
    assert(SIG_ALGORITHM@ =~= SIG_NS@ + "algorithm"@);
    assert(SIG_VALUE@ =~= SIG_NS@ + "value"@);
    lemma_term(SIG_CONTENT_HASH@, SIG_NS@, "contentHash"@);
    lemma_term(SIG_ALGORITHM@, SIG_NS@, "algorithm"@);
    lemma_term(SIG_VALUE@, SIG_NS@, "value"@);
}

proof fn lemma_type_term()
    ensures
        well_known(RDF_TYPE@),
{
    reveal_strlit("http://www.w3.org/1999/02/22-rdf-syntax-ns#");
    reveal_strlit("http://www.w3.org/1999/02/22-rdf-syntax-ns#type");
    reveal_strlit("type");
    assert(RDF_TYPE@ =~= RDF_NS@ + "type"@);
    lemma_term(RDF_TYPE@, RDF_NS@, "type"@);
}

/// A datatype of XML Schema is none of RDF's own.
proof fn lemma_xsd_apart(d: Seq<char>)
    requires
        starts_with(d, XSD_NS@),
    ensures
        !starts_with(d, RDF_NS@),
{
    reveal_strlit("http://www.w3.org/2001/XMLSchema#");
    reveal_strlit("http://www.w3.org/1999/02/22-rdf-syntax-ns#");
    assert(d.take(XSD_NS@.len() as int)[18] == d[18]);
    if starts_with(d, RDF_NS@) {
        assert(d.take(RDF_NS@.len() as int)[18] == d[18]);
    }
}

proof fn lemma_datatypes()
    ensures
        well_known(XSD_DATE_TIME@),
        well_known(XSD_INTEGER@),
        !starts_with(XSD_DATE_TIME@, RDF_NS@),
        !starts_with(XSD_INTEGER@, RDF_NS@),
{
    reveal_strlit("http://www.w3.org/2001/XMLSchema#");
    reveal_strlit("http://www.w3.org/2001/XMLSchema#dateTime");
    reveal_strlit("http://www.w3.org/2001/XMLSchema#integer");
    reveal_strlit("dateTime");
    reveal_strlit("integer");
    assert(XSD_DATE_TIME@ =~= XSD_NS@ + "dateTime"@);
    assert(XSD_INTEGER@ =~= XSD_NS@ + "integer"@);
    lemma_term(XSD_DATE_TIME@, XSD_NS@, "dateTime"@);
    lemma_term(XSD_INTEGER@, XSD_NS@, "integer"@);
    lemma_xsd_apart(XSD_DATE_TIME@);
    lemma_xsd_apart(XSD_INTEGER@);
}

/// The prefixes that a graph's Turtle binds are usable ones.
pub(crate) proof fn lemma_prefixes_are_sound()
    ensures
        sound_prefixes(graph_prefixes()),
{
    reveal_strlit("log");
    reveal_strlit("prov");
    reveal_strlit("sig");
    reveal_strlit("xsd");
    let none = Seq::<char>::empty();
    assert(LOG_NS@ =~= LOG_NS@ + none);
    assert(PROV_NS@ =~= PROV_NS@ + none);
    assert(SIG_NS@ =~= SIG_NS@ + none);
    assert(XSD_NS@ =~= XSD_NS@ + none);
    lemma_term(LOG_NS@, LOG_NS@, none);
    lemma_term(PROV_NS@, PROV_NS@, none);
    lemma_term(SIG_NS@, SIG_NS@, none);
    lemma_term(XSD_NS@, XSD_NS@, none);
}

// =====================================================================================
// A graph is sound
// =====================================================================================

proof fn lemma_sound_once(s: Seq<TripleView>, t: TripleView)
    requires
        sound_triples(s),
        sound_triple(t),
    ensures
        sound_triples(s.push(t)),
        sound_triples(once(s, t)),
{
}

proof fn lemma_usable_predicate(p: Seq<char>)
    ensures
        sound_iri(usable_predicate(p)),
{
    lemma_log_properties();
}

proof fn lemma_header_sound(h: HeaderView)
    requires
        rdf_iri(h.name),
        rdf_iri(h.instance),
        rdf_iri(h.level),
    ensures
        sound_triples(header_triples(h)),
{
    lemma_log_classes();
    lemma_log_properties();
    lemma_prov_terms();
    lemma_type_term();
    lemma_datatypes();
}

proof fn lemma_columns_sound(h: HeaderView, v: VocabularyView, row: RowView)
    requires
        rdf_iri(h.name),
        rdf_iri(h.instance),
        entry_triples(h, v, row) is Ok,
    ensures
        sound_triples(column_triples(h, v, entry_iri(h.name, row.seq), row.entry)),
{
    lemma_log_properties();
    lemma_prov_terms();
    lemma_type_term();
    lemma_datatypes();
    if let Some(p) = predicate_of(v, row.entry.class) {
        lemma_usable_predicate(p);
    }
}

proof fn lemma_fields_sound(
    v: VocabularyView,
    node: Seq<char>,
    columns: Seq<TripleView>,
    fields: Seq<(Seq<char>, Seq<char>)>,
)
    requires
        rdf_iri(node),
        sound_triples(columns),
    ensures
        sound_triples(field_triples(v, node, columns, fields)),
    decreases fields.len(),
{
    if fields.len() > 0 {
        let before = field_triples(v, node, columns, fields.drop_last());
        let (key, value) = fields.last();
        lemma_fields_sound(v, node, columns, fields.drop_last());
        match lookup(v.keys, key) {
            Some(def) => {
                let t = stating(node, usable_predicate(def.property), ranged(value, def.range));
                lemma_usable_predicate(def.property);
                if let Some(r) = def.range {
                    if starts_with(r, XSD_NS@) {
                        lemma_xsd_apart(r);
                    }
                }
                lemma_sound_once(before, t);
            },
            None => {
                let t = stating(node, usable_predicate(LOG_NS@ + key), TermView::Simple(value));
                lemma_usable_predicate(LOG_NS@ + key);
                lemma_log_properties();
                lemma_sound_once(before, t);
                lemma_sound_once(
                    once(before, t),
                    stating(node, LOG_UNDECLARED_KEY@, TermView::Simple(key)),
                );
            },
        }
    }
}

proof fn lemma_rows_sound(h: HeaderView, v: VocabularyView, o: Options, rows: Seq<RowView>)
    requires
        rdf_iri(h.name),
        rdf_iri(h.instance),
        rows_triples(h, v, o, rows) is Ok,
    ensures
        sound_triples(rows_triples(h, v, o, rows)->Ok_0),
    decreases rows.len(),
{
    if rows.len() > 0 {
        let row = rows.last();
        lemma_rows_sound(h, v, o, rows.drop_last());
        if takes_in(o, row.entry.time, row.seq) {
            let node = entry_iri(h.name, row.seq);
            lemma_columns_sound(h, v, row);
            lemma_fields_sound(v, node, column_triples(h, v, node, row.entry), row.entry.fields);
        }
    }
}

/// Whether mentions are of nodes that are IRIs.
spec fn sound_mentions(s: Seq<MentionView>) -> bool {
    forall|i: int| 0 <= i < s.len() ==> rdf_iri((#[trigger] s[i]).node)
}

proof fn lemma_field_mentions_sound(
    v: VocabularyView,
    property: Seq<char>,
    run: nat,
    node: Seq<char>,
    fields: Seq<(Seq<char>, Seq<char>)>,
)
    requires
        rdf_iri(node),
    ensures
        sound_mentions(field_mentions(v, property, run, node, fields)),
    decreases fields.len(),
{
    if fields.len() > 0 {
        lemma_field_mentions_sound(v, property, run, node, fields.drop_last());
    }
}

proof fn lemma_mentions_sound(
    h: HeaderView,
    v: VocabularyView,
    o: Options,
    property: Seq<char>,
    rows: Seq<RowView>,
)
    requires
        rows_triples(h, v, o, rows) is Ok,
    ensures
        sound_mentions(mentions(h, v, o, property, rows)),
    decreases rows.len(),
{
    if rows.len() > 0 {
        let row = rows.last();
        lemma_mentions_sound(h, v, o, property, rows.drop_last());
        if takes_in(o, row.entry.time, row.seq) {
            lemma_field_mentions_sound(
                v,
                property,
                row.run,
                entry_iri(h.name, row.seq),
                row.entry.fields,
            );
        }
    }
}

proof fn lemma_claimed_sound(spans: Seq<MentionView>, run: nat, span: Seq<char>)
    requires
        sound_mentions(spans),
    ensures
        claimed(spans, run, span) matches Some(node) ==> rdf_iri(node),
    decreases spans.len(),
{
    if spans.len() > 0 {
        assert(rdf_iri(spans[spans.len() - 1].node));
        lemma_claimed_sound(spans.drop_last(), run, span);
    }
}

proof fn lemma_invoked_sound(spans: Seq<MentionView>, parents: Seq<MentionView>)
    requires
        sound_mentions(spans),
        sound_mentions(parents),
    ensures
        sound_triples(invoked_triples(spans, parents)),
    decreases parents.len(),
{
    if parents.len() > 0 {
        let child = parents.last();
        assert(rdf_iri(parents[parents.len() - 1].node));
        lemma_invoked_sound(spans, parents.drop_last());
        lemma_claimed_sound(spans, child.run, child.span);
        lemma_log_relations();
    }
}

proof fn lemma_seals_sound(segment: Seq<char>, seals: Seq<SealView>)
    requires
        rdf_iri(segment),
        seals_triples(segment, seals) is Ok,
    ensures
        sound_triples(seals_triples(segment, seals)->Ok_0),
    decreases seals.len(),
{
    if seals.len() > 0 {
        lemma_seals_sound(segment, seals.drop_last());
        lemma_log_classes();
        lemma_log_properties();
        lemma_log_relations();
        lemma_sig_terms();
        lemma_type_term();
        lemma_datatypes();
        assert(sound_triples(seal_triples(segment, seals.last())));
    }
}

/// Every triple of a graph is one that can be read where it is written: each node, each
/// predicate and each datatype is an IRI.
pub proof fn law_graph_is_sound(text: Seq<char>, v: VocabularyView, o: Options)
    requires
        graph_of(text, v, o) is Ok,
    ensures
        sound_triples(graph_of(text, v, o)->Ok_0),
{
    let h = header_read(text)->Ok_0.0;
    let w = walk(text, h, v, o)->Ok_0;
    let spans = mentions(h, v, o, LOG_SPAN@, w.rows);
    let parents = mentions(h, v, o, LOG_PARENT_SPAN@, w.rows);
    let entries = rows_triples(h, v, o, w.rows)->Ok_0;
    let seals = seals_triples(h.name, w.seals)->Ok_0;
    lemma_header_sound(h);
    lemma_rows_sound(h, v, o, w.rows);
    lemma_mentions_sound(h, v, o, LOG_SPAN@, w.rows);
    lemma_mentions_sound(h, v, o, LOG_PARENT_SPAN@, w.rows);
    lemma_invoked_sound(spans, parents);
    lemma_seals_sound(h.name, w.seals);
    let all = header_triples(h) + entries + invoked_triples(spans, parents) + seals;
    assert(sound_triples(all));
    let graph = unrepeated(all);
    assert forall|i: int| 0 <= i < graph.len() implies sound_triple(#[trigger] graph[i]) by {
        law_unrepeated(all, graph[i]);
        assert(graph.contains(graph[i]));
    }
}

// =====================================================================================
// Reading it back
// =====================================================================================

/// Triples that were written are read back as they are, in any reading of the text: each
/// of them, in the order given, and nothing else.
pub proof fn law_turtle_reads_back(ttl: Seq<char>, t: Seq<TripleView>, doc: DocumentView)
    requires
        turtle_document(ttl) == document_of(t),
        may_read(ttl, doc),
    ensures
        doc == document_of(t),
{
    reveal_strlit("_:");
    let own = document_of(t);
    assert forall|i: int| 0 <= i < own.statements.len() implies !blank(
        (#[trigger] own.statements[i]).subject,
    ) && own.statements[i].object !is Blank by {
        let s = own.statements[i];
        assert(s == statement_of(t[i]));
        assert(s.subject[0] == '<');
        if blank(s.subject) {
            assert(s.subject.take(2)[0] == s.subject[0]);
        }
    }
    assert(grounded(turtle_document(ttl)));
    law_grounded_reading(ttl, doc);
}

/// No two triples are read as one: where the statements of two triples are the same, so are
/// the triples, but for a plain string that one of them gives the datatype of strings.
pub proof fn law_statements_tell_triples_apart(a: TripleView, b: TripleView)
    requires
        statement_of(a) == statement_of(b),
    ensures
        a.subject == b.subject,
        a.predicate == b.predicate,
        a.object == b.object || {
            ||| a.object matches TermView::Simple(s) && b.object == TermView::Typed(s, XSD_STRING@)
            ||| b.object matches TermView::Simple(s) && a.object == TermView::Typed(s, XSD_STRING@)
        },
{
    let x = statement_of(a).subject;
    let y = statement_of(b).subject;
    assert(x.subrange(1, x.len() - 1) =~= a.subject);
    assert(y.subrange(1, y.len() - 1) =~= b.subject);
}

} // verus!
