//! What a graph states, told from the header, the entries and the seals of its segment.

use vstd::prelude::*;
use vstd::string::*;

use crate::chain::token_parts;
use crate::entry::EntryView;
use crate::evidence_law::{body, entries_in, entries_of, readable, seals_in, seals_of};
use crate::graph::{
    claimed, column_triples, entry_iri, entry_triples, field_mentions, field_triples, graph_of,
    header_triples, invoked_triples, mentions, ranged, rows_triples, seal_iri, seal_triples,
    seals_triples, usable_predicate, whole_number, MentionView, LOG_INVOKED, LOG_PARENT_SPAN,
    LOG_SPAN, LOG_UNDECLARED_KEY,
};
use crate::graph_law::{
    joins, law_entry_lands, law_entry_states_its_columns, law_fields_are_lossless,
    law_graph_states_each_fact_once, law_header_always_lands, law_invoked_stays_in_a_run, stated,
};
use crate::header::{header_read, HeaderView, PrevView};
use crate::line::{line_read, LineView, SealView};
use crate::lineage::{descends, predicate_of};
use crate::number::{decimal, read_unsigned};
use crate::table::lookup;
use crate::text::{lines, starts_with};
use crate::time::time_text;
use crate::triple::{once, rdf_iri, stating, TermView, TripleView};
use crate::verify::body_start;
use crate::vocabulary::{VocabularyView, LOG_NS};
use crate::window::{takes_in, walk, walked, whole, GraphErrorView, Options, RowView, WalkView};
use crate::window_law::{everything, lemma_claims, lemma_invoked_holds, spans_are_unique};

verus! {

// =====================================================================================
// The header
// =====================================================================================

/// The header is in the graph whole, whatever the window: that it is a segment, its level,
/// its start, who wrote it and what it follows. A segment that follows another one names the
/// seal that it follows, and only the first of a chain says that it is.
pub proof fn law_header_facts(text: Seq<char>, v: VocabularyView, o: Options)
    requires
        graph_of(text, v, o) is Ok,
    ensures
        header_read(text) is Ok,
        ({
            let h = header_read(text)->Ok_0.0;
            let g = graph_of(text, v, o)->Ok_0;
            &&& h.prev matches PrevView::Seal(hash) ==> g.contains(
                stating(
                    h.name,
                    "https://ikigai-rs.dev/ns/log#prevSeal"@,
                    TermView::Simple(hash),
                ),
            )
            &&& h.prev is Genesis ==> g.contains(
                stating(
                    h.name,
                    "https://ikigai-rs.dev/ns/log#prevSeal"@,
                    TermView::Simple("genesis"@),
                ),
            )
            &&& g.contains(
                stating(
                    h.name,
                    "http://www.w3.org/1999/02/22-rdf-syntax-ns#type"@,
                    TermView::Iri("https://ikigai-rs.dev/ns/log#Segment"@),
                ),
            )
            &&& g.contains(
                stating(h.name, "https://ikigai-rs.dev/ns/log#level"@, TermView::Iri(h.level)),
            )
            &&& g.contains(
                stating(
                    h.name,
                    "http://www.w3.org/ns/prov#startedAtTime"@,
                    TermView::Typed(
                        time_text(h.started),
                        "http://www.w3.org/2001/XMLSchema#dateTime"@,
                    ),
                ),
            )
            &&& g.contains(
                stating(
                    h.name,
                    "http://www.w3.org/ns/prov#wasAttributedTo"@,
                    TermView::Iri(h.instance),
                ),
            )
            &&& g.contains(
                stating(
                    h.instance,
                    "http://www.w3.org/1999/02/22-rdf-syntax-ns#type"@,
                    TermView::Iri("https://ikigai-rs.dev/ns/log#Instance"@),
                ),
            )
            &&& g.contains(
                stating(
                    h.instance,
                    "http://www.w3.org/1999/02/22-rdf-syntax-ns#type"@,
                    TermView::Iri("http://www.w3.org/ns/prov#SoftwareAgent"@),
                ),
            )
        }),
{
    law_header_always_lands(text, v, o);
    let h = header_read(text)->Ok_0.0;
    let g = graph_of(text, v, o)->Ok_0;
    let top = header_triples(h);
    assert forall|i: int| 0 <= i < 7 implies g.contains(#[trigger] top[i]) by {
        assert(g.take(7)[i] == g[i]);
    }
    lemma_header_follows(h);
    assert(g.contains(top[0]) && g.contains(top[1]) && g.contains(top[2]) && g.contains(top[3]));
    assert(g.contains(top[4]) && g.contains(top[5]) && g.contains(top[6]));
}

proof fn lemma_header_follows(h: HeaderView)
    ensures
        header_triples(h)[4] == stating(
            h.name,
            "https://ikigai-rs.dev/ns/log#prevSeal"@,
            TermView::Simple(
                match h.prev {
                    PrevView::Seal(hash) => hash,
                    PrevView::Genesis => "genesis"@,
                },
            ),
        ),
{
}

// =====================================================================================
// Rows and entries
// =====================================================================================

/// How many of the entries start a process.
pub open spec fn starts(es: Seq<EntryView>, v: VocabularyView) -> nat
    decreases es.len(),
{
    if es.len() == 0 {
        0
    } else {
        starts(es.drop_last(), v) + if descends(
            v,
            es.last().class,
            "https://ikigai-rs.dev/ns/log#ProcessStart"@,
        ) {
            1nat
        } else {
            0nat
        }
    }
}

/// The number of an entry: the one that it states, or else its place among the entries.
pub open spec fn number_of(es: Seq<EntryView>, i: int) -> nat {
    let place = (i + 1) as nat;
    match lookup(es[i].fields, "seq"@) {
        Some(s) => match read_unsigned(s, u64::MAX as nat) {
            Some(n) => n,
            None => place,
        },
        None => place,
    }
}

/// The node of an entry.
pub open spec fn node_of(text: Seq<char>, i: int) -> Seq<char> {
    header_read(text)->Ok_0.0.name + ":"@ + decimal(number_of(entries_of(text), i))
}

spec fn rows_tell(w: WalkView, v: VocabularyView, es: Seq<EntryView>) -> bool {
    &&& w.rows.len() == es.len()
    &&& w.ordinal == es.len()
    &&& w.run == starts(es, v)
    &&& forall|i: int|
        0 <= i < es.len() ==> (#[trigger] w.rows[i]).entry == es[i] && w.rows[i].seq == number_of(
            es,
            i,
        ) && w.rows[i].run == starts(es.take(i + 1), v)
}

proof fn lemma_rows_tell(
    v: VocabularyView,
    prefixes: Seq<(Seq<char>, Seq<char>)>,
    skipped: nat,
    ls: Seq<Seq<char>>,
)
    requires
        walked(v, prefixes, whole(), skipped, ls) is Ok,
    ensures
        rows_tell(walked(v, prefixes, whole(), skipped, ls)->Ok_0, v, entries_in(ls, prefixes)),
        walked(v, prefixes, whole(), skipped, ls)->Ok_0.seals.len() == seals_in(
            ls,
            prefixes,
        ).len(),
        forall|i: int|
            0 <= i < seals_in(ls, prefixes).len() ==> walked(
                v,
                prefixes,
                whole(),
                skipped,
                ls,
            )->Ok_0.seals[i] == (#[trigger] seals_in(ls, prefixes)[i]).1,
    decreases ls.len(),
{
    if ls.len() > 0 {
        let front = ls.drop_last();
        let w = walked(v, prefixes, whole(), skipped, front)->Ok_0;
        let x = walked(v, prefixes, whole(), skipped, ls)->Ok_0;
        lemma_rows_tell(v, prefixes, skipped, front);
        let es = entries_in(front, prefixes);
        match line_read(ls.last(), prefixes) {
            Ok(LineView::Entry(e)) => {
                let all = es.push(e);
                assert(all.drop_last() =~= es);
                assert forall|i: int| 0 <= i < all.len() implies (#[trigger] x.rows[i]).entry
                    == all[i] && x.rows[i].seq == number_of(all, i) && x.rows[i].run == starts(
                    all.take(i + 1),
                    v,
                ) by {
                    if i < es.len() {
                        assert(x.rows[i] == w.rows[i]);
                        assert(all.take(i + 1) =~= es.take(i + 1));
                    } else {
                        assert(all.take(i + 1) =~= all);
                    }
                }
            },
            Ok(LineView::Seal(s)) => {
                let ss = seals_in(front, prefixes);
                let all = seals_in(ls, prefixes);
                assert forall|i: int| 0 <= i < all.len() implies x.seals[i] == (
                #[trigger] all[i]).1 by {
                    if i < ss.len() {
                        assert(all[i] == ss[i]);
                    }
                }
            },
            _ => {},
        }
    }
}

/// A graph is made of the entries and the seals of its segment, all of them and in order.
/// Each entry has the number it states, or else its place, and belongs to the run that the
/// last process start before it, or itself, opened.
pub proof fn law_graph_is_made_of_the_lines(text: Seq<char>, v: VocabularyView, i: int)
    requires
        graph_of(text, v, whole()) is Ok,
    ensures
        everything(text, v).rows.len() == entries_of(text).len(),
        0 <= i < entries_of(text).len() ==> {
            let row = everything(text, v).rows[i];
            &&& row.entry == entries_of(text)[i]
            &&& row.seq == number_of(entries_of(text), i)
            &&& row.run == starts(entries_of(text).take(i + 1), v)
        },
        everything(text, v).seals.len() == seals_of(text).len(),
        0 <= i < seals_of(text).len() ==> everything(text, v).seals[i] == seals_of(text)[i].1,
{
    let h = header_read(text)->Ok_0.0;
    lemma_rows_tell(v, h.prefixes, body_start(lines(text)) as nat, body(text));
    if 0 <= i < entries_of(text).len() {
        let row = everything(text, v).rows[i];
        assert(row.entry == entries_of(text)[i]);
    }
    if 0 <= i < seals_of(text).len() {
        let s = seals_of(text)[i];
    }
}

proof fn lemma_node(text: Seq<char>, v: VocabularyView, i: int)
    requires
        graph_of(text, v, whole()) is Ok,
        0 <= i < entries_of(text).len(),
    ensures
        entry_iri(header_read(text)->Ok_0.0.name, everything(text, v).rows[i].seq) == node_of(
            text,
            i,
        ),
{
    law_graph_is_made_of_the_lines(text, v, i);
    reveal_strlit(":");
    assert(":"@ =~= seq![':']);
}

// =====================================================================================
// Entries
// =====================================================================================

/// What every entry states of itself, under a node that is named by its segment and its
/// number: its class, its segment, its time, who wrote it and what it is about, once more
/// under the predicate that its class declares.
pub proof fn law_entry_facts(text: Seq<char>, v: VocabularyView, i: int)
    requires
        graph_of(text, v, whole()) is Ok,
        0 <= i < entries_of(text).len(),
    ensures
        ({
            let h = header_read(text)->Ok_0.0;
            let g = graph_of(text, v, whole())->Ok_0;
            let e = entries_of(text)[i];
            let node = node_of(text, i);
            &&& g.contains(
                stating(
                    node,
                    "http://www.w3.org/1999/02/22-rdf-syntax-ns#type"@,
                    TermView::Iri(e.class),
                ),
            )
            &&& g.contains(
                stating(node, "https://ikigai-rs.dev/ns/log#segment"@, TermView::Iri(h.name)),
            )
            &&& g.contains(
                stating(
                    node,
                    "http://www.w3.org/ns/prov#startedAtTime"@,
                    TermView::Typed(
                        time_text(e.time),
                        "http://www.w3.org/2001/XMLSchema#dateTime"@,
                    ),
                ),
            )
            &&& g.contains(
                stating(
                    node,
                    "http://www.w3.org/ns/prov#wasAssociatedWith"@,
                    TermView::Iri(h.instance),
                ),
            )
            &&& g.contains(
                stating(node, "https://ikigai-rs.dev/ns/log#subject"@, TermView::Iri(e.subject)),
            )
            &&& predicate_of(v, e.class) matches Some(p) ==> rdf_iri(p) ==> g.contains(
                stating(node, p, TermView::Iri(e.subject)),
            )
        }),
{
    let h = header_read(text)->Ok_0.0;
    let e = entries_of(text)[i];
    let node = node_of(text, i);
    law_graph_is_made_of_the_lines(text, v, i);
    lemma_node(text, v, i);
    let row = everything(text, v).rows[i];
    if entry_triples(h, v, row) is Ok {
        law_entry_states_its_columns(h, v, row);
    }
    lemma_lands(
        text,
        v,
        i,
        stating(
            node,
            "http://www.w3.org/1999/02/22-rdf-syntax-ns#type"@,
            TermView::Iri(e.class),
        ),
    );
    lemma_lands(
        text,
        v,
        i,
        stating(node, "https://ikigai-rs.dev/ns/log#segment"@, TermView::Iri(h.name)),
    );
    lemma_lands(
        text,
        v,
        i,
        stating(
            node,
            "http://www.w3.org/ns/prov#startedAtTime"@,
            TermView::Typed(time_text(e.time), "http://www.w3.org/2001/XMLSchema#dateTime"@),
        ),
    );
    lemma_lands(
        text,
        v,
        i,
        stating(
            node,
            "http://www.w3.org/ns/prov#wasAssociatedWith"@,
            TermView::Iri(h.instance),
        ),
    );
    lemma_lands(
        text,
        v,
        i,
        stating(node, "https://ikigai-rs.dev/ns/log#subject"@, TermView::Iri(e.subject)),
    );
    if let Some(p) = predicate_of(v, e.class) {
        if rdf_iri(p) {
            lemma_lands(text, v, i, stating(node, p, TermView::Iri(e.subject)));
        }
    }
}

/// What an entry states is in the graph.
proof fn lemma_lands(text: Seq<char>, v: VocabularyView, i: int, q: TripleView)
    requires
        graph_of(text, v, whole()) is Ok,
        0 <= i < entries_of(text).len(),
        ({
            let h = header_read(text)->Ok_0.0;
            let row = everything(text, v).rows[i];
            entry_triples(h, v, row) is Ok ==> entry_triples(h, v, row)->Ok_0.contains(q)
        }),
    ensures
        graph_of(text, v, whole())->Ok_0.contains(q),
{
    law_graph_is_made_of_the_lines(text, v, i);
    law_entry_lands(text, v, whole(), i, q);
}

/// A value stays the text that it is, and becomes what the range of its property says: an
/// IRI for a range that is no datatype, a literal of the datatype for one that is, and a
/// plain string where there is no range, where the range is that of strings, and where what
/// should be an IRI is none.
pub proof fn law_value_becomes_what_its_range_says(value: Seq<char>, range: Option<Seq<char>>)
    ensures
        match ranged(value, range) {
            TermView::Iri(t) => t == value && rdf_iri(value) && range is Some && !starts_with(
                range->0,
                "http://www.w3.org/2001/XMLSchema#"@,
            ),
            TermView::Typed(t, d) => t == value && range == Some(d) && rdf_iri(d) && starts_with(
                d,
                "http://www.w3.org/2001/XMLSchema#"@,
            ) && d != "http://www.w3.org/2001/XMLSchema#string"@,
            TermView::Simple(t) => t == value && (range is None || range == Some(
                "http://www.w3.org/2001/XMLSchema#string"@,
            ) || (if starts_with(range->0, "http://www.w3.org/2001/XMLSchema#"@) {
                !rdf_iri(range->0)
            } else {
                !rdf_iri(value)
            })),
        },
{
    reveal_strlit("http://www.w3.org/2001/XMLSchema#");
    reveal_strlit("http://www.w3.org/2001/XMLSchema#string");
    let s = "http://www.w3.org/2001/XMLSchema#string"@;
    assert(s.take(33) =~= "http://www.w3.org/2001/XMLSchema#"@);
}

/// Every field of every entry is in the graph: under the property that the vocabulary binds
/// its key to, as what the property's range makes of the value; or, where no property claims
/// the key, under the key itself as a plain string, and flagged.
pub proof fn law_field_facts(text: Seq<char>, v: VocabularyView, i: int, j: int)
    requires
        graph_of(text, v, whole()) is Ok,
        0 <= i < entries_of(text).len(),
        0 <= j < entries_of(text)[i].fields.len(),
    ensures
        ({
            let g = graph_of(text, v, whole())->Ok_0;
            let (key, value) = entries_of(text)[i].fields[j];
            let node = node_of(text, i);
            match lookup(v.keys, key) {
                Some(def) => g.contains(
                    stating(
                        node,
                        if rdf_iri(def.property) {
                            def.property
                        } else {
                            "https://ikigai-rs.dev/ns/log#undeclaredKey"@
                        },
                        ranged(value, def.range),
                    ),
                ),
                None => {
                    &&& g.contains(
                        stating(
                            node,
                            if rdf_iri("https://ikigai-rs.dev/ns/log#"@ + key) {
                                "https://ikigai-rs.dev/ns/log#"@ + key
                            } else {
                                "https://ikigai-rs.dev/ns/log#undeclaredKey"@
                            },
                            TermView::Simple(value),
                        ),
                    )
                    &&& g.contains(
                        stating(
                            node,
                            "https://ikigai-rs.dev/ns/log#undeclaredKey"@,
                            TermView::Simple(key),
                        ),
                    )
                },
            }
        }),
{
    let h = header_read(text)->Ok_0.0;
    let e = entries_of(text)[i];
    let (key, value) = e.fields[j];
    let node = node_of(text, i);
    law_graph_is_made_of_the_lines(text, v, i);
    lemma_node(text, v, i);
    let row = everything(text, v).rows[i];
    let columns = column_triples(h, v, node, e);
    law_fields_are_lossless(v, node, columns, e.fields, j);
    match lookup(v.keys, key) {
        Some(def) => {
            lemma_lands(
                text,
                v,
                i,
                stating(node, usable_predicate(def.property), ranged(value, def.range)),
            );
        },
        None => {
            lemma_lands(
                text,
                v,
                i,
                stating(node, usable_predicate(LOG_NS@ + key), TermView::Simple(value)),
            );
            lemma_lands(text, v, i, stating(node, LOG_UNDECLARED_KEY@, TermView::Simple(key)));
        },
    }
}

// =====================================================================================
// Seals
// =====================================================================================

/// Every seal is in the graph with what its line says: what it covers, the hash it states,
/// and its signature, as an algorithm and a value where it has both.
pub proof fn law_seal_facts(text: Seq<char>, v: VocabularyView, i: int)
    requires
        graph_of(text, v, whole()) is Ok,
        0 <= i < seals_of(text).len(),
    ensures
        ({
            let h = header_read(text)->Ok_0.0;
            let g = graph_of(text, v, whole())->Ok_0;
            let s = seals_of(text)[i].1;
            let node = h.name + ":seal:"@ + decimal(s.first) + "-"@ + decimal(s.last);
            &&& g.contains(
                stating(
                    node,
                    "http://www.w3.org/1999/02/22-rdf-syntax-ns#type"@,
                    TermView::Iri("https://ikigai-rs.dev/ns/log#Seal"@),
                ),
            )
            &&& g.contains(
                stating(node, "https://ikigai-rs.dev/ns/log#segment"@, TermView::Iri(h.name)),
            )
            &&& g.contains(
                stating(
                    node,
                    "https://ikigai-rs.dev/ns/log#firstSequence"@,
                    TermView::Typed(
                        decimal(s.first),
                        "http://www.w3.org/2001/XMLSchema#integer"@,
                    ),
                ),
            )
            &&& g.contains(
                stating(
                    node,
                    "https://ikigai-rs.dev/ns/log#lastSequence"@,
                    TermView::Typed(decimal(s.last), "http://www.w3.org/2001/XMLSchema#integer"@),
                ),
            )
            &&& g.contains(
                stating(
                    node,
                    "https://ikigai-rs.dev/ns/sign#contentHash"@,
                    TermView::Simple(s.hash),
                ),
            )
            &&& s.signature matches Some(token) ==> match token_parts(token) {
                Some((algorithm, value)) => g.contains(
                    stating(
                        node,
                        "https://ikigai-rs.dev/ns/sign#algorithm"@,
                        TermView::Simple(algorithm),
                    ),
                ) && g.contains(
                    stating(
                        node,
                        "https://ikigai-rs.dev/ns/sign#value"@,
                        TermView::Simple(value),
                    ),
                ),
                None => g.contains(
                    stating(
                        node,
                        "https://ikigai-rs.dev/ns/sign#value"@,
                        TermView::Simple(token),
                    ),
                ),
            }
        }),
{
    let h = header_read(text)->Ok_0.0;
    let g = graph_of(text, v, whole())->Ok_0;
    let s = seals_of(text)[i].1;
    let node = h.name + ":seal:"@ + decimal(s.first) + "-"@ + decimal(s.last);
    law_graph_is_made_of_the_lines(text, v, i);
    law_graph_states_each_fact_once(text, v, whole());
    let w = everything(text, v);
    reveal_strlit("-");
    assert("-"@ =~= seq!['-']);
    let t = seal_triples(h.name, s);
    assert(seal_iri(h.name, s) == node);
    let before = header_triples(h) + rows_triples(h, v, whole(), w.rows)->Ok_0 + invoked_triples(
        mentions(h, v, whole(), LOG_SPAN@, w.rows),
        mentions(h, v, whole(), LOG_PARENT_SPAN@, w.rows),
    );
    assert forall|k: int| 0 <= k < t.len() implies g.contains(#[trigger] t[k]) by {
        let m = lemma_seal_stated(h.name, w.seals, i, k);
        assert(stated(text, v, whole())[before.len() + m] == t[k]);
    }
    assert(g.contains(t[0]) && g.contains(t[1]) && g.contains(t[2]) && g.contains(t[3])
        && g.contains(t[4]));
    if let Some(token) = s.signature {
        assert(g.contains(t[5]));
        if token_parts(token) is Some {
            assert(g.contains(t[6]));
        }
    }
}

/// Where what a seal states stands among what all the seals state.
proof fn lemma_seal_stated(segment: Seq<char>, seals: Seq<SealView>, i: int, k: int) -> (m: int)
    requires
        seals_triples(segment, seals) is Ok,
        0 <= i < seals.len(),
        0 <= k < seal_triples(segment, seals[i]).len(),
    ensures
        0 <= m < seals_triples(segment, seals)->Ok_0.len(),
        seals_triples(segment, seals)->Ok_0[m] == seal_triples(segment, seals[i])[k],
    decreases seals.len(),
{
    let front = seals.drop_last();
    let before = seals_triples(segment, front)->Ok_0;
    if i < front.len() {
        assert(front[i] == seals[i]);
        lemma_seal_stated(segment, front, i, k)
    } else {
        before.len() + k
    }
}

// =====================================================================================
// Who invoked whom
// =====================================================================================

/// Whether an entry has a field under a key that is bound to `property`, with the value
/// `value`.
pub open spec fn has_value(
    e: EntryView,
    v: VocabularyView,
    property: Seq<char>,
    value: Seq<char>,
) -> bool {
    exists|j: int|
        0 <= j < e.fields.len() && (#[trigger] e.fields[j]).1 == value && (lookup(
            v.keys,
            e.fields[j].0,
        ) matches Some(def) && def.property == property)
}

proof fn lemma_field_mentioned(
    v: VocabularyView,
    property: Seq<char>,
    run: nat,
    node: Seq<char>,
    fields: Seq<(Seq<char>, Seq<char>)>,
    j: int,
) -> (m: int)
    requires
        0 <= j < fields.len(),
        lookup(v.keys, fields[j].0) matches Some(def) && def.property == property,
    ensures
        0 <= m < field_mentions(v, property, run, node, fields).len(),
        field_mentions(v, property, run, node, fields)[m] == (MentionView {
            run,
            span: fields[j].1,
            node,
        }),
    decreases fields.len(),
{
    let front = fields.drop_last();
    let before = field_mentions(v, property, run, node, front);
    if j < front.len() {
        assert(front[j] == fields[j]);
        let m = lemma_field_mentioned(v, property, run, node, front, j);
        assert(field_mentions(v, property, run, node, fields)[m] == before[m]);
        m
    } else {
        before.len() as int
    }
}

proof fn lemma_mentioned(
    h: HeaderView,
    v: VocabularyView,
    o: Options,
    property: Seq<char>,
    rows: Seq<RowView>,
    i: int,
    j: int,
) -> (m: int)
    requires
        0 <= i < rows.len(),
        takes_in(o, rows[i].entry.time, rows[i].seq),
        0 <= j < rows[i].entry.fields.len(),
        lookup(v.keys, rows[i].entry.fields[j].0) matches Some(def) && def.property == property,
    ensures
        0 <= m < mentions(h, v, o, property, rows).len(),
        mentions(h, v, o, property, rows)[m] == (MentionView {
            run: rows[i].run,
            span: rows[i].entry.fields[j].1,
            node: entry_iri(h.name, rows[i].seq),
        }),
    decreases rows.len(),
{
    let front = rows.drop_last();
    let before = mentions(h, v, o, property, front);
    if i < front.len() {
        assert(front[i] == rows[i]);
        let m = lemma_mentioned(h, v, o, property, front, i, j);
        assert(mentions(h, v, o, property, rows)[m] == before[m]);
        m
    } else {
        let row = rows[i];
        let m = lemma_field_mentioned(
            v,
            property,
            row.run,
            entry_iri(h.name, row.seq),
            row.entry.fields,
            j,
        );
        before.len() + m
    }
}

/// A parent is joined to its child: where one entry claims a span, and another of the same
/// run names that span as its parent's, the graph says that the first invoked the second. No
/// span is to be claimed twice within a run.
pub proof fn law_parent_invoked_child(
    text: Seq<char>,
    v: VocabularyView,
    parent: int,
    child: int,
    span: Seq<char>,
)
    requires
        graph_of(text, v, whole()) is Ok,
        0 <= parent < entries_of(text).len(),
        0 <= child < entries_of(text).len(),
        has_value(
            entries_of(text)[parent],
            v,
            "https://ikigai-rs.dev/ns/log#span"@,
            span,
        ),
        has_value(
            entries_of(text)[child],
            v,
            "https://ikigai-rs.dev/ns/log#parentSpan"@,
            span,
        ),
        starts(entries_of(text).take(parent + 1), v) == starts(entries_of(text).take(child + 1), v),
        node_of(text, parent) != node_of(text, child),
        spans_are_unique(
            mentions(
                header_read(text)->Ok_0.0,
                v,
                whole(),
                LOG_SPAN@,
                everything(text, v).rows,
            ),
        ),
    ensures
        graph_of(text, v, whole())->Ok_0.contains(
            stating(
                node_of(text, parent),
                "https://ikigai-rs.dev/ns/log#invoked"@,
                TermView::Iri(node_of(text, child)),
            ),
        ),
{
    let h = header_read(text)->Ok_0.0;
    let w = everything(text, v);
    let es = entries_of(text);
    law_graph_is_made_of_the_lines(text, v, parent);
    law_graph_is_made_of_the_lines(text, v, child);
    lemma_node(text, v, parent);
    lemma_node(text, v, child);
    let spans = mentions(h, v, whole(), LOG_SPAN@, w.rows);
    let parents = mentions(h, v, whole(), LOG_PARENT_SPAN@, w.rows);
    let a = choose|j: int|
        0 <= j < es[parent].fields.len() && (#[trigger] es[parent].fields[j]).1 == span && (lookup(
            v.keys,
            es[parent].fields[j].0,
        ) matches Some(def) && def.property == LOG_SPAN@);
    let b = choose|j: int|
        0 <= j < es[child].fields.len() && (#[trigger] es[child].fields[j]).1 == span && (lookup(
            v.keys,
            es[child].fields[j].0,
        ) matches Some(def) && def.property == LOG_PARENT_SPAN@);
    let m = lemma_mentioned(h, v, whole(), LOG_SPAN@, w.rows, parent, a);
    let n = lemma_mentioned(h, v, whole(), LOG_PARENT_SPAN@, w.rows, child, b);
    lemma_claims(spans, spans, m);
    lemma_invoked_holds(spans, parents, n);
    let edges = invoked_triples(spans, parents);
    let t = stating(node_of(text, parent), LOG_INVOKED@, TermView::Iri(node_of(text, child)));
    let k = choose|k: int| 0 <= k < edges.len() && edges[k] == t;
    let before = header_triples(h) + rows_triples(h, v, whole(), w.rows)->Ok_0;
    assert(stated(text, v, whole())[before.len() + k] == t);
    law_graph_states_each_fact_once(text, v, whole());
}

// =====================================================================================
// Nothing else
// =====================================================================================

/// Whether a fact is one that an entry under `node` states: one of its columns, or one of
/// its fields.
pub open spec fn of_entry(
    h: HeaderView,
    v: VocabularyView,
    node: Seq<char>,
    e: EntryView,
    q: TripleView,
) -> bool {
    &&& q.subject == node
    &&& {
        ||| q.predicate == "http://www.w3.org/1999/02/22-rdf-syntax-ns#type"@ && q.object
            == TermView::Iri(e.class)
        ||| q.predicate == "https://ikigai-rs.dev/ns/log#segment"@ && q.object == TermView::Iri(
            h.name,
        )
        ||| q.predicate == "http://www.w3.org/ns/prov#startedAtTime"@ && q.object
            == TermView::Typed(time_text(e.time), "http://www.w3.org/2001/XMLSchema#dateTime"@)
        ||| q.predicate == "http://www.w3.org/ns/prov#wasAssociatedWith"@ && q.object
            == TermView::Iri(h.instance)
        ||| q.predicate == "https://ikigai-rs.dev/ns/log#subject"@ && q.object == TermView::Iri(
            e.subject,
        )
        ||| predicate_of(v, e.class) is Some && q.predicate == usable_predicate(
            predicate_of(v, e.class)->0,
        ) && q.object == TermView::Iri(e.subject)
        ||| exists|j: int| 0 <= j < e.fields.len() && of_field(v, #[trigger] e.fields[j], q)
    }
}

/// Whether a fact is one that a field states.
pub open spec fn of_field(
    v: VocabularyView,
    field: (Seq<char>, Seq<char>),
    q: TripleView,
) -> bool {
    match lookup(v.keys, field.0) {
        Some(def) => q.predicate == usable_predicate(def.property) && q.object == ranged(
            field.1,
            def.range,
        ),
        None => {
            ||| q.predicate == usable_predicate("https://ikigai-rs.dev/ns/log#"@ + field.0)
                && q.object == TermView::Simple(field.1)
            ||| q.predicate == "https://ikigai-rs.dev/ns/log#undeclaredKey"@ && q.object
                == TermView::Simple(field.0)
        },
    }
}

proof fn lemma_fields_from(
    v: VocabularyView,
    node: Seq<char>,
    columns: Seq<TripleView>,
    fields: Seq<(Seq<char>, Seq<char>)>,
    q: TripleView,
)
    requires
        field_triples(v, node, columns, fields).contains(q),
    ensures
        columns.contains(q) || (q.subject == node && exists|j: int|
            0 <= j < fields.len() && of_field(v, #[trigger] fields[j], q)),
    decreases fields.len(),
{
    if fields.len() > 0 {
        let front = fields.drop_last();
        let before = field_triples(v, node, columns, front);
        let all = field_triples(v, node, columns, fields);
        let k = choose|k: int| 0 <= k < all.len() && all[k] == q;
        if k < before.len() {
            assert(all[k] == before[k]);
            lemma_fields_from(v, node, columns, front, q);
            if !columns.contains(q) {
                let j = choose|j: int| 0 <= j < front.len() && of_field(v, #[trigger] front[j], q);
                assert(fields[j] == front[j]);
            }
        } else {
            assert(of_field(v, fields[fields.len() - 1], q));
        }
    }
}

proof fn lemma_entry_from(h: HeaderView, v: VocabularyView, row: RowView, q: TripleView)
    requires
        entry_triples(h, v, row) is Ok,
        entry_triples(h, v, row)->Ok_0.contains(q),
    ensures
        of_entry(h, v, entry_iri(h.name, row.seq), row.entry, q),
{
    let node = entry_iri(h.name, row.seq);
    let columns = column_triples(h, v, node, row.entry);
    lemma_fields_from(v, node, columns, row.entry.fields, q);
    if columns.contains(q) {
        let k = choose|k: int| 0 <= k < columns.len() && columns[k] == q;
    }
}

proof fn lemma_rows_from(
    h: HeaderView,
    v: VocabularyView,
    o: Options,
    rows: Seq<RowView>,
    q: TripleView,
) -> (i: int)
    requires
        rows_triples(h, v, o, rows) is Ok,
        rows_triples(h, v, o, rows)->Ok_0.contains(q),
    ensures
        0 <= i < rows.len(),
        takes_in(o, rows[i].entry.time, rows[i].seq),
        of_entry(h, v, entry_iri(h.name, rows[i].seq), rows[i].entry, q),
    decreases rows.len(),
{
    let front = rows.drop_last();
    let row = rows.last();
    let all = rows_triples(h, v, o, rows)->Ok_0;
    let before = rows_triples(h, v, o, front)->Ok_0;
    let k = choose|k: int| 0 <= k < all.len() && all[k] == q;
    if k < before.len() {
        assert(before[k] == q);
        let i = lemma_rows_from(h, v, o, front, q);
        assert(front[i] == rows[i]);
        i
    } else {
        let more = entry_triples(h, v, row)->Ok_0;
        assert(more[k - before.len()] == q);
        lemma_entry_from(h, v, row, q);
        rows.len() - 1
    }
}

/// Whether a fact is one that a seal states.
pub open spec fn of_seal(h: HeaderView, s: SealView, q: TripleView) -> bool {
    &&& q.subject == h.name + ":seal:"@ + decimal(s.first) + "-"@ + decimal(s.last)
    &&& {
        ||| q.predicate == "http://www.w3.org/1999/02/22-rdf-syntax-ns#type"@ && q.object
            == TermView::Iri("https://ikigai-rs.dev/ns/log#Seal"@)
        ||| q.predicate == "https://ikigai-rs.dev/ns/log#segment"@ && q.object == TermView::Iri(
            h.name,
        )
        ||| q.predicate == "https://ikigai-rs.dev/ns/log#firstSequence"@ && q.object
            == whole_number(s.first)
        ||| q.predicate == "https://ikigai-rs.dev/ns/log#lastSequence"@ && q.object == whole_number(
            s.last,
        )
        ||| q.predicate == "https://ikigai-rs.dev/ns/sign#contentHash"@ && q.object
            == TermView::Simple(s.hash)
        ||| q.predicate == "https://ikigai-rs.dev/ns/sign#algorithm"@ && s.signature is Some
            && token_parts(s.signature->0) is Some && q.object == TermView::Simple(
            token_parts(s.signature->0)->Some_0.0,
        )
        ||| q.predicate == "https://ikigai-rs.dev/ns/sign#value"@ && s.signature is Some
            && q.object == TermView::Simple(
            match token_parts(s.signature->0) {
                Some((_, value)) => value,
                None => s.signature->0,
            },
        )
    }
}

proof fn lemma_seal_from(segment: Seq<char>, seals: Seq<SealView>, q: TripleView) -> (i: int)
    requires
        seals_triples(segment, seals) is Ok,
        seals_triples(segment, seals)->Ok_0.contains(q),
    ensures
        0 <= i < seals.len(),
        seal_triples(segment, seals[i]).contains(q),
    decreases seals.len(),
{
    let front = seals.drop_last();
    let all = seals_triples(segment, seals)->Ok_0;
    let before = seals_triples(segment, front)->Ok_0;
    let k = choose|k: int| 0 <= k < all.len() && all[k] == q;
    if k < before.len() {
        assert(before[k] == q);
        let i = lemma_seal_from(segment, front, q);
        assert(front[i] == seals[i]);
        i
    } else {
        let more = seal_triples(segment, seals.last());
        assert(more[k - before.len()] == q);
        seals.len() - 1
    }
}

/// Nothing is guessed: every fact of a graph that is not said of the segment or of its
/// instance is one that an entry states, or one that a seal states, or it joins two entries
/// of one run.
pub proof fn law_graph_states_nothing_else(text: Seq<char>, v: VocabularyView, q: TripleView)
    requires
        graph_of(text, v, whole()) is Ok,
        graph_of(text, v, whole())->Ok_0.contains(q),
        q.subject != header_read(text)->Ok_0.0.name,
        q.subject != header_read(text)->Ok_0.0.instance,
    ensures
        ({
            let h = header_read(text)->Ok_0.0;
            let es = entries_of(text);
            ||| exists|i: int|
                0 <= i < es.len() && of_entry(h, v, node_of(text, i), #[trigger] es[i], q)
            ||| exists|i: int|
                0 <= i < seals_of(text).len() && of_seal(h, (#[trigger] seals_of(text)[i]).1, q)
            ||| q.predicate == "https://ikigai-rs.dev/ns/log#invoked"@ && q.object is Iri
        }),
{
    let h = header_read(text)->Ok_0.0;
    let w = everything(text, v);
    law_graph_states_each_fact_once(text, v, whole());
    let all = stated(text, v, whole());
    let k = choose|k: int| 0 <= k < all.len() && all[k] == q;
    let top = header_triples(h);
    let rows = rows_triples(h, v, whole(), w.rows)->Ok_0;
    let spans = mentions(h, v, whole(), LOG_SPAN@, w.rows);
    let parents = mentions(h, v, whole(), LOG_PARENT_SPAN@, w.rows);
    let edges = invoked_triples(spans, parents);
    let seals = seals_triples(h.name, w.seals)->Ok_0;
    let a = top.len() as int;
    let b = a + rows.len();
    let c = b + edges.len();
    if k < a {
        assert(top[k] == q);
    } else if k < b {
        assert(rows[k - a] == q);
        let i = lemma_rows_from(h, v, whole(), w.rows, q);
        law_graph_is_made_of_the_lines(text, v, i);
        lemma_node(text, v, i);
        assert(of_entry(h, v, node_of(text, i), entries_of(text)[i], q));
    } else if k < c {
        assert(edges[k - b] == q);
        law_invoked_stays_in_a_run(spans, parents, k - b);
        let (i, j) = choose|i: int, j: int| #[trigger] joins(spans, parents, edges[k - b], i, j);
    } else {
        assert(seals[k - c] == q);
        let i = lemma_seal_from(h.name, w.seals, q);
        law_graph_is_made_of_the_lines(text, v, i);
        let s = seals_of(text)[i].1;
        let t = seal_triples(h.name, s);
        let m = choose|m: int| 0 <= m < t.len() && t[m] == q;
        reveal_strlit("-");
        assert("-"@ =~= seq!['-']);
        assert(of_seal(h, s, q));
    }
}

// =====================================================================================
// Windows
// =====================================================================================

/// A window takes in what lies between its bounds, the bounds themselves among it; a bound
/// that is not stated leaves nothing out.
pub proof fn law_window_lies_between_its_bounds(o: Options, time: nat, seq: nat)
    ensures
        o.since matches Some(t) ==> time < t.0 ==> !takes_in(o, time, seq),
        o.until matches Some(t) ==> time > t.0 ==> !takes_in(o, time, seq),
        o.from_seq matches Some(n) ==> seq < n ==> !takes_in(o, time, seq),
        o.to_seq matches Some(n) ==> seq > n ==> !takes_in(o, time, seq),
        (o.since is None || o.since->Some_0.0 <= time) && (o.until is None || time <= o.until->Some_0.0) && (
        o.from_seq is None || o.from_seq->0 <= seq) && (o.to_seq is None || seq <= o.to_seq->0)
            ==> takes_in(o, time, seq),
{
}

// =====================================================================================
// What has a graph
// =====================================================================================

proof fn lemma_walks(
    v: VocabularyView,
    h: HeaderView,
    skipped: nat,
    ls: Seq<Seq<char>>,
)
    ensures
        walked(v, h.prefixes, whole(), skipped, ls) is Ok <==> readable(h, ls),
        walked(v, h.prefixes, whole(), skipped, ls) matches Err(e) ==> exists|k: int|
            0 <= k < ls.len() && readable(h, #[trigger] ls.take(k)) && !readable(h, ls.take(k + 1))
                && (e matches GraphErrorView::Parse { line, .. } && line == skipped + k + 1),
    decreases ls.len(),
{
    if ls.len() > 0 {
        let front = ls.drop_last();
        let n = front.len() as int;
        lemma_walks(v, h, skipped, front);
        assert(ls.take(n) =~= front);
        assert(ls.take(n + 1) =~= ls);
        assert(ls[n] == ls.last());
        if walked(v, h.prefixes, whole(), skipped, front) is Err {
            let e = walked(v, h.prefixes, whole(), skipped, front)->Err_0;
            let k = choose|k: int|
                0 <= k < front.len() && readable(h, #[trigger] front.take(k)) && !readable(
                    h,
                    front.take(k + 1),
                ) && (e matches GraphErrorView::Parse { line, .. } && line == skipped + k + 1);
            assert(front.take(k) =~= ls.take(k));
            assert(front.take(k + 1) =~= ls.take(k + 1));
            if readable(h, ls) {
                assert forall|i: int| 0 <= i < front.len() implies (line_read(
                    #[trigger] front[i],
                    h.prefixes,
                ) matches Ok(l) && !(l is Directive)) by {
                    assert(ls[i] == front[i]);
                }
            }
        } else {
            assert forall|i: int| 0 <= i < n implies (line_read(
                #[trigger] ls[i],
                h.prefixes,
            ) matches Ok(l) && !(l is Directive)) by {
                assert(front[i] == ls[i]);
            }
            assert(readable(h, ls.take(n)));
        }
    }
}

spec fn nameable(h: HeaderView, row: RowView) -> bool {
    rdf_iri(entry_iri(h.name, row.seq)) && rdf_iri(row.entry.class) && rdf_iri(row.entry.subject)
}

proof fn lemma_rows_stand(h: HeaderView, v: VocabularyView, rows: Seq<RowView>)
    ensures
        rows_triples(h, v, whole(), rows) is Ok <==> forall|i: int|
            0 <= i < rows.len() ==> nameable(h, #[trigger] rows[i]),
    decreases rows.len(),
{
    if rows.len() > 0 {
        let front = rows.drop_last();
        lemma_rows_stand(h, v, front);
        if forall|i: int| 0 <= i < rows.len() ==> nameable(h, #[trigger] rows[i]) {
            assert forall|i: int| 0 <= i < front.len() implies nameable(h, #[trigger] front[i]) by {
                assert(rows[i] == front[i]);
            }
            assert(nameable(h, rows[rows.len() - 1]));
        }
        if rows_triples(h, v, whole(), rows) is Ok {
            assert forall|i: int| 0 <= i < rows.len() implies nameable(h, #[trigger] rows[i]) by {
                if i < front.len() {
                    assert(front[i] == rows[i]);
                }
            }
        }
    }
}

proof fn lemma_seals_stand(segment: Seq<char>, seals: Seq<SealView>)
    ensures
        seals_triples(segment, seals) is Ok <==> forall|i: int|
            0 <= i < seals.len() ==> rdf_iri(seal_iri(segment, #[trigger] seals[i])),
    decreases seals.len(),
{
    if seals.len() > 0 {
        let front = seals.drop_last();
        lemma_seals_stand(segment, front);
        if forall|i: int| 0 <= i < seals.len() ==> rdf_iri(seal_iri(segment, #[trigger] seals[i])) {
            assert forall|i: int| 0 <= i < front.len() implies rdf_iri(
                seal_iri(segment, #[trigger] front[i]),
            ) by {
                assert(seals[i] == front[i]);
            }
            assert(rdf_iri(seal_iri(segment, seals[seals.len() - 1])));
        }
        if seals_triples(segment, seals) is Ok {
            assert forall|i: int| 0 <= i < seals.len() implies rdf_iri(
                seal_iri(segment, #[trigger] seals[i]),
            ) by {
                if i < front.len() {
                    assert(front[i] == seals[i]);
                }
            }
        }
    }
}

/// A segment has a graph exactly where it has a header, every line after it is one that
/// stands there, and what the graph is about can be named in RDF: the segment, its instance,
/// its level, every entry with its class and its subject, and every seal.
pub proof fn law_what_has_a_graph(text: Seq<char>, v: VocabularyView)
    ensures
        graph_of(text, v, whole()) is Ok <==> {
            let h = header_read(text)->Ok_0.0;
            &&& header_read(text) is Ok
            &&& rdf_iri(h.name) && rdf_iri(h.instance) && rdf_iri(h.level)
            &&& readable(h, body(text))
            &&& forall|i: int|
                0 <= i < entries_of(text).len() ==> {
                    &&& rdf_iri(node_of(text, i))
                    &&& rdf_iri((#[trigger] entries_of(text)[i]).class)
                    &&& rdf_iri(entries_of(text)[i].subject)
                }
            &&& forall|i: int|
                0 <= i < seals_of(text).len() ==> {
                    let s = (#[trigger] seals_of(text)[i]).1;
                    rdf_iri(h.name + ":seal:"@ + decimal(s.first) + "-"@ + decimal(s.last))
                }
        },
{
    if header_read(text) is Ok {
        let h = header_read(text)->Ok_0.0;
        let skipped = body_start(lines(text)) as nat;
        lemma_walks(v, h, skipped, body(text));
        if readable(h, body(text)) {
            let w = walked(v, h.prefixes, whole(), skipped, body(text))->Ok_0;
            let es = entries_of(text);
            let ss = seals_of(text);
            lemma_rows_tell(v, h.prefixes, skipped, body(text));
            lemma_rows_stand(h, v, w.rows);
            lemma_seals_stand(h.name, w.seals);
            reveal_strlit(":");
            reveal_strlit("-");
            assert(":"@ =~= seq![':']);
            assert("-"@ =~= seq!['-']);
            assert forall|i: int| 0 <= i < es.len() implies (nameable(h, #[trigger] w.rows[i])
                <==> rdf_iri(node_of(text, i)) && rdf_iri(es[i].class) && rdf_iri(
                es[i].subject,
            )) by {}
            assert forall|i: int| 0 <= i < ss.len() implies #[trigger] w.seals[i] == ss[i].1 by {
                assert(ss[i] == seals_of(text)[i]);
            }
            assert forall|i: int| 0 <= i < ss.len() implies seal_iri(h.name, #[trigger] w.seals[i])
                == h.name + ":seal:"@ + decimal(ss[i].1.first) + "-"@ + decimal(ss[i].1.last) by {}
            if graph_of(text, v, whole()) is Ok {
                assert forall|i: int| 0 <= i < es.len() implies {
                    &&& rdf_iri(node_of(text, i))
                    &&& rdf_iri((#[trigger] es[i]).class)
                    &&& rdf_iri(es[i].subject)
                } by {
                    assert(nameable(h, w.rows[i]));
                }
                assert forall|i: int| 0 <= i < ss.len() implies rdf_iri(
                    h.name + ":seal:"@ + decimal((#[trigger] ss[i]).1.first) + "-"@ + decimal(
                        ss[i].1.last,
                    ),
                ) by {
                    assert(rdf_iri(seal_iri(h.name, w.seals[i])));
                }
            } else if forall|i: int|
                0 <= i < es.len() ==> {
                    &&& rdf_iri(node_of(text, i))
                    &&& rdf_iri((#[trigger] es[i]).class)
                    &&& rdf_iri(es[i].subject)
                } {
                assert forall|i: int| 0 <= i < w.rows.len() implies nameable(
                    h,
                    #[trigger] w.rows[i],
                ) by {
                    assert(rdf_iri(es[i].class));
                }
                assert(rows_triples(h, v, whole(), w.rows) is Ok);
                if forall|i: int|
                    0 <= i < ss.len() ==> {
                        let s = (#[trigger] ss[i]).1;
                        rdf_iri(h.name + ":seal:"@ + decimal(s.first) + "-"@ + decimal(s.last))
                    } {
                    assert forall|i: int| 0 <= i < w.seals.len() implies rdf_iri(
                        seal_iri(h.name, #[trigger] w.seals[i]),
                    ) by {
                        assert(ss[i].1 == w.seals[i]);
                    }
                }
            }
        }
    }
}

/// Where a line cannot be read the graph is refused, and the line is named by its place in
/// the file.
pub proof fn law_unreadable_line_refuses_the_graph(text: Seq<char>, v: VocabularyView, k: int)
    requires
        header_read(text) is Ok,
        rdf_iri(header_read(text)->Ok_0.0.name),
        rdf_iri(header_read(text)->Ok_0.0.instance),
        rdf_iri(header_read(text)->Ok_0.0.level),
        0 <= k < body(text).len(),
        readable(header_read(text)->Ok_0.0, body(text).take(k)),
        !readable(header_read(text)->Ok_0.0, body(text).take(k + 1)),
    ensures
        graph_of(text, v, whole()) matches Err(e) && (e matches GraphErrorView::Parse { line, .. }
            && line == body_start(lines(text)) + k + 1),
{
    let h = header_read(text)->Ok_0.0;
    lemma_body_start(lines(text));
    lemma_first_unreadable(v, h, body_start(lines(text)) as nat, body(text), k);
    let w = walk(text, h, v, whole());
    assert(w is Err);
    lemma_unwalkable(text, h, v);
}

proof fn lemma_body_start(ls: Seq<Seq<char>>)
    ensures
        0 <= body_start(ls) <= ls.len(),
    decreases ls.len(),
{
    if ls.len() > 0 {
        lemma_body_start(ls.drop_first());
    }
}

proof fn lemma_unwalkable(text: Seq<char>, h: HeaderView, v: VocabularyView)
    requires
        header_read(text) is Ok,
        h == header_read(text)->Ok_0.0,
        rdf_iri(h.name),
        rdf_iri(h.instance),
        rdf_iri(h.level),
        walk(text, h, v, whole()) is Err,
    ensures
        graph_of(text, v, whole()) is Err,
        graph_of(text, v, whole())->Err_0 == walk(text, h, v, whole())->Err_0,
{
}

proof fn lemma_first_unreadable(
    v: VocabularyView,
    h: HeaderView,
    skipped: nat,
    ls: Seq<Seq<char>>,
    k: int,
)
    requires
        0 <= k < ls.len(),
        readable(h, ls.take(k)),
        !readable(h, ls.take(k + 1)),
    ensures
        walked(v, h.prefixes, whole(), skipped, ls) matches Err(e) && (e matches
            GraphErrorView::Parse { line, .. } && line == skipped + k + 1),
{
    lemma_walks(v, h, skipped, ls);
    assert(ls.take(ls.len() as int) =~= ls);
    lemma_readable_part(h, ls, k + 1, ls.len() as int);
    assert(!readable(h, ls));
    let e = walked(v, h.prefixes, whole(), skipped, ls)->Err_0;
    let j = choose|j: int|
        0 <= j < ls.len() && readable(h, #[trigger] ls.take(j)) && !readable(h, ls.take(j + 1))
            && (e matches GraphErrorView::Parse { line, .. } && line == skipped + j + 1);
    if j < k {
        lemma_readable_part(h, ls, j + 1, k);
    } else if k < j {
        lemma_readable_part(h, ls, k + 1, j);
    }
}

proof fn lemma_readable_part(h: HeaderView, ls: Seq<Seq<char>>, i: int, j: int)
    requires
        0 <= i <= j <= ls.len(),
    ensures
        readable(h, ls.take(j)) ==> readable(h, ls.take(i)),
{
    if readable(h, ls.take(j)) {
        assert forall|m: int| 0 <= m < i implies (line_read(
            #[trigger] ls.take(i)[m],
            h.prefixes,
        ) matches Ok(l) && !(l is Directive)) by {
            assert(ls.take(j)[m] == ls.take(i)[m]);
        }
    }
}

/// Where more than one entry of a run claims a span, the last of them has it.
pub proof fn law_last_claim_stands(spans: Seq<MentionView>, run: nat, span: Seq<char>, i: int)
    requires
        0 <= i < spans.len(),
        spans[i].run == run,
        spans[i].span == span,
        forall|j: int|
            i < j < spans.len() ==> !((#[trigger] spans[j]).run == run && spans[j].span == span),
    ensures
        claimed(spans, run, span) == Some(spans[i].node),
    decreases spans.len(),
{
    if i < spans.len() - 1 {
        let front = spans.drop_last();
        let n = front.len() as int;
        assert(!(spans[n].run == run && spans[n].span == span));
        assert forall|j: int| i < j < front.len() implies !((#[trigger] front[j]).run == run
            && front[j].span == span) by {
            assert(spans[j] == front[j]);
        }
        law_last_claim_stands(front, run, span, i);
    }
}

} // verus!
