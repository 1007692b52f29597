//! What holds of every graph that a segment becomes.

use vstd::prelude::*;

use crate::entry::{entry_text, EntryView};
use crate::finding::report_ok;
use crate::graph::{
    claimed, column_triples, date_time, entry_iri, entry_triples, field_mentions, field_triples,
    graph_of, has_key, header_triples, invoked_triples, mentions, ranged, rows_triples, seal_iri,
    seal_triples, seals_triples, usable_predicate, MentionView, LOG_INVOKED, LOG_PARENT_SPAN,
    LOG_INSTANCE_CLASS, LOG_LEVEL, LOG_PREV_SEAL, LOG_SEGMENT, LOG_SEGMENT_CLASS, LOG_SPAN,
    LOG_SUBJECT, LOG_UNDECLARED_KEY, PROV_SOFTWARE_AGENT, PROV_STARTED_AT_TIME,
    PROV_WAS_ASSOCIATED_WITH, PROV_WAS_ATTRIBUTED_TO,
};
use crate::header::{header_read, HeaderView};
use crate::line::SealView;
use crate::lineage::predicate_of;
use crate::table::lookup;
use crate::text::{lemma_precedes_total, lines, precedes};
use crate::time::{
    law_time_text_order, lemma_time_ascii, lemma_time_len, lemma_time_unbroken, time_text,
    WIDE_FROM,
};
use crate::triple::{
    law_unrepeated, law_unrepeated_front, once, rdf_iri, stating, unrepeated, TermView, TripleView,
};
use crate::verify::{after_lines, body_start, verified};
use crate::verify_law::{in_order, law_verified_segment};
use crate::vocabulary::{VocabularyView, LOG_NS, RDF_TYPE};
use crate::window::{byte_prefix, out_of_window, takes_in, walk, walked, Options, RowView};

verus! {

// =====================================================================================
// What lands
// =====================================================================================

/// The header always lands, first and whole, whatever the window.
pub proof fn law_header_always_lands(text: Seq<char>, v: VocabularyView, o: Options)
    requires
        graph_of(text, v, o) is Ok,
    ensures
        header_read(text) is Ok,
        graph_of(text, v, o)->Ok_0.len() >= 7,
        graph_of(text, v, o)->Ok_0.take(7) == header_triples(header_read(text)->Ok_0.0),
{
    let g = graph_of(text, v, o)->Ok_0;
    let h = header_read(text)->Ok_0.0;
    let top = header_triples(h);
    assert(top.len() == 7);
    lemma_header_distinct(h);
    let all = stated(text, v, o);
    assert(all =~= top + all.skip(7));
    law_unrepeated_front(top, all.skip(7));
    assert(g.take(7) =~= top);
}

/// Everything that a graph states, in order, as often as it is stated.
pub open spec fn stated(text: Seq<char>, v: VocabularyView, o: Options) -> Seq<TripleView> {
    let h = header_read(text)->Ok_0.0;
    let w = walk(text, h, v, o)->Ok_0;
    header_triples(h) + rows_triples(h, v, o, w.rows)->Ok_0 + invoked_triples(
        mentions(h, v, o, LOG_SPAN@, w.rows),
        mentions(h, v, o, LOG_PARENT_SPAN@, w.rows),
    ) + seals_triples(h.name, w.seals)->Ok_0
}

proof fn lemma_header_distinct(h: HeaderView)
    ensures
        header_triples(h).no_duplicates(),
{
    reveal_strlit("http://www.w3.org/1999/02/22-rdf-syntax-ns#type");
    reveal_strlit("https://ikigai-rs.dev/ns/log#Segment");
    reveal_strlit("https://ikigai-rs.dev/ns/log#Instance");
    reveal_strlit("http://www.w3.org/ns/prov#SoftwareAgent");
    reveal_strlit("https://ikigai-rs.dev/ns/log#level");
    reveal_strlit("https://ikigai-rs.dev/ns/log#prevSeal");
    reveal_strlit("http://www.w3.org/ns/prov#startedAtTime");
    reveal_strlit("http://www.w3.org/ns/prov#wasAttributedTo");
    assert(RDF_TYPE@.len() == 47);
    assert(LOG_LEVEL@.len() == 34 && LOG_PREV_SEAL@.len() == 37);
    assert(PROV_STARTED_AT_TIME@.len() == 39 && PROV_WAS_ATTRIBUTED_TO@.len() == 41);
    assert(LOG_SEGMENT_CLASS@.len() == 36 && LOG_INSTANCE_CLASS@.len() == 37
        && PROV_SOFTWARE_AGENT@.len() == 39);
}

/// A graph states each fact once, whatever its lines repeat.
pub proof fn law_graph_states_each_fact_once(text: Seq<char>, v: VocabularyView, o: Options)
    requires
        graph_of(text, v, o) is Ok,
    ensures
        graph_of(text, v, o)->Ok_0.no_duplicates(),
        forall|q: TripleView|
            #![trigger graph_of(text, v, o)->Ok_0.contains(q)]
            #![trigger stated(text, v, o).contains(q)]
            graph_of(text, v, o)->Ok_0.contains(q) <==> stated(text, v, o).contains(q),
{
    let all = stated(text, v, o);
    assert forall|q: TripleView| unrepeated(all).contains(q) <==> all.contains(q) by {
        law_unrepeated(all, q);
    }
    law_unrepeated(all, all[0]);
}

/// What was stated stays stated when one more triple is added.
proof fn lemma_once(s: Seq<TripleView>, t: TripleView, q: TripleView)
    ensures
        once(s, t).contains(t),
        s.contains(q) ==> once(s, t).contains(q),
        s.push(t).contains(t),
        s.contains(q) ==> s.push(t).contains(q),
{
    assert(s.push(t)[s.len() as int] == t);
    if s.contains(q) {
        let i = choose|i: int| 0 <= i < s.len() && s[i] == q;
        assert(s.push(t)[i] == q);
    }
}

/// What an entry's columns state stays stated beside its fields.
proof fn lemma_columns_stay(
    v: VocabularyView,
    node: Seq<char>,
    columns: Seq<TripleView>,
    fields: Seq<(Seq<char>, Seq<char>)>,
    q: TripleView,
)
    requires
        columns.contains(q),
    ensures
        field_triples(v, node, columns, fields).contains(q),
    decreases fields.len(),
{
    if fields.len() > 0 {
        let before = field_triples(v, node, columns, fields.drop_last());
        let (key, value) = fields.last();
        lemma_columns_stay(v, node, columns, fields.drop_last(), q);
        lemma_step_keeps(v, node, columns, fields, q);
    }
}

/// One more field takes nothing away.
proof fn lemma_step_keeps(
    v: VocabularyView,
    node: Seq<char>,
    columns: Seq<TripleView>,
    fields: Seq<(Seq<char>, Seq<char>)>,
    q: TripleView,
)
    requires
        fields.len() > 0,
        field_triples(v, node, columns, fields.drop_last()).contains(q),
    ensures
        field_triples(v, node, columns, fields).contains(q),
{
    let before = field_triples(v, node, columns, fields.drop_last());
    let (key, value) = fields.last();
    match lookup(v.keys, key) {
        Some(def) => {
            lemma_once(
                before,
                stating(node, usable_predicate(def.property), ranged(value, def.range)),
                q,
            );
        },
        None => {
            let t = stating(node, usable_predicate(LOG_NS@ + key), TermView::Simple(value));
            lemma_once(before, t, q);
            lemma_once(
                once(before, t),
                stating(node, LOG_UNDECLARED_KEY@, TermView::Simple(key)),
                q,
            );
        },
    }
}

/// What a field states, whether the vocabulary claims its key or not.
pub open spec fn field_stated(
    v: VocabularyView,
    node: Seq<char>,
    t: Seq<TripleView>,
    key: Seq<char>,
    value: Seq<char>,
) -> bool {
    match lookup(v.keys, key) {
        Some(def) => t.contains(
            stating(node, usable_predicate(def.property), ranged(value, def.range)),
        ),
        None => t.contains(
            stating(node, usable_predicate(LOG_NS@ + key), TermView::Simple(value)),
        ) && t.contains(stating(node, LOG_UNDECLARED_KEY@, TermView::Simple(key))),
    }
}

/// Nothing is dropped: every field of an entry is stated, and a key that the vocabulary
/// does not claim is flagged as well.
pub proof fn law_fields_are_lossless(
    v: VocabularyView,
    node: Seq<char>,
    columns: Seq<TripleView>,
    fields: Seq<(Seq<char>, Seq<char>)>,
    i: int,
)
    requires
        0 <= i < fields.len(),
    ensures
        field_stated(
            v,
            node,
            field_triples(v, node, columns, fields),
            fields[i].0,
            fields[i].1,
        ),
    decreases fields.len(),
{
    let front = fields.drop_last();
    let before = field_triples(v, node, columns, front);
    let all = field_triples(v, node, columns, fields);
    let (key, value) = fields.last();
    if i < front.len() {
        law_fields_are_lossless(v, node, columns, front, i);
        assert(front[i] == fields[i]);
        let (k, x) = fields[i];
        match lookup(v.keys, k) {
            Some(def) => {
                lemma_step_keeps(
                    v,
                    node,
                    columns,
                    fields,
                    stating(node, usable_predicate(def.property), ranged(x, def.range)),
                );
            },
            None => {
                lemma_step_keeps(
                    v,
                    node,
                    columns,
                    fields,
                    stating(node, usable_predicate(LOG_NS@ + k), TermView::Simple(x)),
                );
                lemma_step_keeps(
                    v,
                    node,
                    columns,
                    fields,
                    stating(node, LOG_UNDECLARED_KEY@, TermView::Simple(k)),
                );
            },
        }
    } else {
        match lookup(v.keys, key) {
            Some(def) => {
                let t = stating(node, usable_predicate(def.property), ranged(value, def.range));
                lemma_once(before, t, t);
            },
            None => {
                let t = stating(node, usable_predicate(LOG_NS@ + key), TermView::Simple(value));
                let flag = stating(node, LOG_UNDECLARED_KEY@, TermView::Simple(key));
                lemma_once(before, t, t);
                lemma_once(once(before, t), flag, t);
                if has_key(front, key) {
                    let j = choose|j: int| 0 <= j < front.len() && (#[trigger] front[j]).0 == key;
                    law_fields_are_lossless(v, node, columns, front, j);
                    lemma_once(before, t, flag);
                }
            },
        }
    }
}

/// Every entry states its class, its segment, its time, the instance that wrote it and its
/// subject.
pub proof fn law_entry_states_its_columns(h: HeaderView, v: VocabularyView, row: RowView)
    requires
        entry_triples(h, v, row) is Ok,
    ensures
        ({
            let t = entry_triples(h, v, row)->Ok_0;
            let node = entry_iri(h.name, row.seq);
            &&& t.contains(stating(node, RDF_TYPE@, TermView::Iri(row.entry.class)))
            &&& t.contains(stating(node, LOG_SEGMENT@, TermView::Iri(h.name)))
            &&& t.contains(stating(node, PROV_STARTED_AT_TIME@, date_time(row.entry.time)))
            &&& t.contains(stating(node, PROV_WAS_ASSOCIATED_WITH@, TermView::Iri(h.instance)))
            &&& t.contains(stating(node, LOG_SUBJECT@, TermView::Iri(row.entry.subject)))
            &&& predicate_of(v, row.entry.class) matches Some(p) ==> t.contains(
                stating(node, usable_predicate(p), TermView::Iri(row.entry.subject)),
            )
        }),
{
    let node = entry_iri(h.name, row.seq);
    let e = row.entry;
    let plain = seq![
        stating(node, RDF_TYPE@, TermView::Iri(e.class)),
        stating(node, LOG_SEGMENT@, TermView::Iri(h.name)),
        stating(node, PROV_STARTED_AT_TIME@, date_time(e.time)),
        stating(node, PROV_WAS_ASSOCIATED_WITH@, TermView::Iri(h.instance)),
        stating(node, LOG_SUBJECT@, TermView::Iri(e.subject)),
    ];
    let columns = column_triples(h, v, node, e);
    assert forall|i: int| 0 <= i < 5 implies columns.contains(#[trigger] plain[i]) by {
        assert(plain.contains(plain[i]));
        if let Some(p) = predicate_of(v, e.class) {
            lemma_once(
                plain,
                stating(node, usable_predicate(p), TermView::Iri(e.subject)),
                plain[i],
            );
        }
    }
    lemma_columns_stay(v, node, columns, e.fields, plain[0]);
    lemma_columns_stay(v, node, columns, e.fields, plain[1]);
    lemma_columns_stay(v, node, columns, e.fields, plain[2]);
    lemma_columns_stay(v, node, columns, e.fields, plain[3]);
    lemma_columns_stay(v, node, columns, e.fields, plain[4]);
    if let Some(p) = predicate_of(v, e.class) {
        let t = stating(node, usable_predicate(p), TermView::Iri(e.subject));
        lemma_once(plain, t, t);
        lemma_columns_stay(v, node, columns, e.fields, t);
    }
}

/// What an entry that the window takes in states is in the graph, together.
pub proof fn lemma_rows_hold(
    h: HeaderView,
    v: VocabularyView,
    o: Options,
    rows: Seq<RowView>,
    i: int,
    q: TripleView,
)
    requires
        rows_triples(h, v, o, rows) is Ok,
        0 <= i < rows.len(),
        takes_in(o, rows[i].entry.time, rows[i].seq),
    ensures
        entry_triples(h, v, rows[i]) is Ok,
        entry_triples(h, v, rows[i])->Ok_0.contains(q) ==> rows_triples(
            h,
            v,
            o,
            rows,
        )->Ok_0.contains(q),
    decreases rows.len(),
{
    let before = rows_triples(h, v, o, rows.drop_last())->Ok_0;
    let all = rows_triples(h, v, o, rows)->Ok_0;
    if i < rows.len() - 1 {
        assert(rows.drop_last()[i] == rows[i]);
        lemma_rows_hold(h, v, o, rows.drop_last(), i, q);
        if before.contains(q) {
            let k = choose|k: int| 0 <= k < before.len() && before[k] == q;
            assert(all[k] == q);
        }
    } else {
        let more = entry_triples(h, v, rows[i])->Ok_0;
        if more.contains(q) {
            let k = choose|k: int| 0 <= k < more.len() && more[k] == q;
            assert(all[before.len() + k] == q);
        }
    }
}

/// Everything that an entry within the window states is in the graph.
pub proof fn law_entry_lands(
    text: Seq<char>,
    v: VocabularyView,
    o: Options,
    i: int,
    q: TripleView,
)
    requires
        graph_of(text, v, o) is Ok,
        ({
            let h = header_read(text)->Ok_0.0;
            let rows = walk(text, h, v, o)->Ok_0.rows;
            &&& 0 <= i < rows.len()
            &&& takes_in(o, rows[i].entry.time, rows[i].seq)
            &&& entry_triples(h, v, rows[i]) is Ok ==> entry_triples(
                h,
                v,
                rows[i],
            )->Ok_0.contains(q)
        }),
    ensures
        graph_of(text, v, o)->Ok_0.contains(q),
{
    let h = header_read(text)->Ok_0.0;
    let rows = walk(text, h, v, o)->Ok_0.rows;
    lemma_rows_hold(h, v, o, rows, i, q);
    let entries = rows_triples(h, v, o, rows)->Ok_0;
    let k = choose|k: int| 0 <= k < entries.len() && entries[k] == q;
    assert(stated(text, v, o)[7 + k] == q);
    law_graph_states_each_fact_once(text, v, o);
}

// =====================================================================================
// Each fact once
// =====================================================================================

/// Whether a vocabulary states everything under predicates that RDF takes, none of which
/// is the flag for undeclared keys.
pub open spec fn plain_predicate(p: Seq<char>) -> bool {
    rdf_iri(p) && p != LOG_UNDECLARED_KEY@
}

/// Whether every property of an entry's fields is stated under a plain predicate.
pub open spec fn plain_fields(v: VocabularyView, fields: Seq<(Seq<char>, Seq<char>)>) -> bool {
    forall|i: int|
        0 <= i < fields.len() ==> plain_predicate(
            match lookup(v.keys, (#[trigger] fields[i]).0) {
                Some(def) => def.property,
                None => LOG_NS@ + fields[i].0,
            },
        )
}

/// No triple occurs twice, and the flags are those of keys among `fields`.
spec fn tidy_entry(t: Seq<TripleView>, fields: Seq<(Seq<char>, Seq<char>)>) -> bool {
    &&& t.no_duplicates()
    &&& forall|i: int|
        0 <= i < t.len() && (#[trigger] t[i]).predicate == LOG_UNDECLARED_KEY@ ==> (
        t[i].object matches TermView::Simple(key) && has_key(fields, key))
}

proof fn lemma_once_tidy(
    t: Seq<TripleView>,
    fields: Seq<(Seq<char>, Seq<char>)>,
    q: TripleView,
)
    requires
        tidy_entry(t, fields),
        q.predicate != LOG_UNDECLARED_KEY@,
    ensures
        tidy_entry(once(t, q), fields),
{
    let r = once(t, q);
    if !t.contains(q) {
        assert forall|i: int, j: int| 0 <= i < r.len() && 0 <= j < r.len() && i != j implies r[i]
            != r[j] by {
            if i < t.len() && j < t.len() {
                assert(t[i] != t[j]);
            } else if i < t.len() {
                assert(t.contains(t[i]));
            } else {
                assert(t.contains(t[j]));
            }
        }
        assert forall|i: int|
            0 <= i < r.len() && (#[trigger] r[i]).predicate == LOG_UNDECLARED_KEY@ implies (
        r[i].object matches TermView::Simple(key) && has_key(fields, key)) by {
            assert(r[i] == t[i]);
        }
    }
}

proof fn lemma_fields_tidy(
    v: VocabularyView,
    node: Seq<char>,
    columns: Seq<TripleView>,
    fields: Seq<(Seq<char>, Seq<char>)>,
)
    requires
        plain_fields(v, fields),
        tidy_entry(columns, Seq::empty()),
    ensures
        tidy_entry(field_triples(v, node, columns, fields), fields),
    decreases fields.len(),
{
    if fields.len() == 0 {
        assert(fields =~= Seq::empty());
    } else {
        let front = fields.drop_last();
        let before = field_triples(v, node, columns, front);
        let (key, value) = fields.last();
        assert forall|i: int| 0 <= i < front.len() implies plain_predicate(
            match lookup(v.keys, (#[trigger] front[i]).0) {
                Some(def) => def.property,
                None => LOG_NS@ + front[i].0,
            },
        ) by {
            assert(front[i] == fields[i]);
        }
        assert(fields[fields.len() - 1].0 == key);
        lemma_fields_tidy(v, node, columns, front);
        match lookup(v.keys, key) {
            Some(def) => {
                let t = stating(node, usable_predicate(def.property), ranged(value, def.range));
                lemma_once_tidy(before, front, t);
                lemma_tidy_grows(once(before, t), front, fields);
            },
            None => {
                let t = stating(node, usable_predicate(LOG_NS@ + key), TermView::Simple(value));
                let stated = once(before, t);
                lemma_once_tidy(before, front, t);
                lemma_tidy_grows(stated, front, fields);
                if !has_key(front, key) {
                    let flag = stating(node, LOG_UNDECLARED_KEY@, TermView::Simple(key));
                    let all = stated.push(flag);
                    assert(!stated.contains(flag));
                    assert forall|i: int, j: int|
                        0 <= i < all.len() && 0 <= j < all.len() && i != j implies all[i]
                        != all[j] by {
                        if i < stated.len() && j < stated.len() {
                            assert(stated[i] != stated[j]);
                        } else if i < stated.len() {
                            assert(stated.contains(stated[i]));
                        } else {
                            assert(stated.contains(stated[j]));
                        }
                    }
                    assert(has_key(fields, key)) by {
                        assert(fields[fields.len() - 1].0 == key);
                    }
                    assert forall|i: int|
                        0 <= i < all.len() && (#[trigger] all[i]).predicate
                            == LOG_UNDECLARED_KEY@ implies (all[i].object matches TermView::Simple(
                        k,
                    ) && has_key(fields, k)) by {
                        if i < stated.len() {
                            assert(all[i] == stated[i]);
                        }
                    }
                }
            },
        }
    }
}

proof fn lemma_tidy_grows(
    t: Seq<TripleView>,
    front: Seq<(Seq<char>, Seq<char>)>,
    fields: Seq<(Seq<char>, Seq<char>)>,
)
    requires
        tidy_entry(t, front),
        fields.len() > 0,
        front == fields.drop_last(),
    ensures
        tidy_entry(t, fields),
{
    assert forall|i: int|
        0 <= i < t.len() && (#[trigger] t[i]).predicate == LOG_UNDECLARED_KEY@ implies (
    t[i].object matches TermView::Simple(key) && has_key(fields, key)) by {
        let key = t[i].object->Simple_0;
        let j = choose|j: int| 0 <= j < front.len() && (#[trigger] front[j]).0 == key;
        assert(fields[j].0 == key);
    }
}

/// An entry states each fact once, however often its line says it, where everything is
/// stated under predicates that RDF takes.
pub proof fn law_entry_states_each_fact_once(h: HeaderView, v: VocabularyView, row: RowView)
    requires
        entry_triples(h, v, row) is Ok,
        plain_fields(v, row.entry.fields),
        predicate_of(v, row.entry.class) matches Some(p) ==> plain_predicate(p),
    ensures
        entry_triples(h, v, row)->Ok_0.no_duplicates(),
{
    let node = entry_iri(h.name, row.seq);
    let e = row.entry;
    let plain = seq![
        stating(node, RDF_TYPE@, TermView::Iri(e.class)),
        stating(node, LOG_SEGMENT@, TermView::Iri(h.name)),
        stating(node, PROV_STARTED_AT_TIME@, date_time(e.time)),
        stating(node, PROV_WAS_ASSOCIATED_WITH@, TermView::Iri(h.instance)),
        stating(node, LOG_SUBJECT@, TermView::Iri(e.subject)),
    ];
    lemma_column_predicates();
    assert(tidy_entry(plain, Seq::empty()));
    let columns = column_triples(h, v, node, e);
    if let Some(p) = predicate_of(v, e.class) {
        lemma_once_tidy(
            plain,
            Seq::empty(),
            stating(node, usable_predicate(p), TermView::Iri(e.subject)),
        );
    }
    assert(tidy_entry(columns, Seq::empty()));
    lemma_fields_tidy(v, node, columns, e.fields);
}

/// The predicates of an entry's columns are all different.
proof fn lemma_column_predicates()
    ensures
        RDF_TYPE@ != LOG_SEGMENT@ && RDF_TYPE@ != PROV_STARTED_AT_TIME@ && RDF_TYPE@
            != PROV_WAS_ASSOCIATED_WITH@ && RDF_TYPE@ != LOG_SUBJECT@ && RDF_TYPE@
            != LOG_UNDECLARED_KEY@,
        LOG_SEGMENT@ != PROV_STARTED_AT_TIME@ && LOG_SEGMENT@ != PROV_WAS_ASSOCIATED_WITH@
            && LOG_SEGMENT@ != LOG_SUBJECT@ && LOG_SEGMENT@ != LOG_UNDECLARED_KEY@,
        PROV_STARTED_AT_TIME@ != PROV_WAS_ASSOCIATED_WITH@ && PROV_STARTED_AT_TIME@
            != LOG_SUBJECT@ && PROV_STARTED_AT_TIME@ != LOG_UNDECLARED_KEY@,
        PROV_WAS_ASSOCIATED_WITH@ != LOG_SUBJECT@ && PROV_WAS_ASSOCIATED_WITH@
            != LOG_UNDECLARED_KEY@,
        LOG_SUBJECT@ != LOG_UNDECLARED_KEY@,
{
    reveal_strlit("http://www.w3.org/1999/02/22-rdf-syntax-ns#type");
    reveal_strlit("https://ikigai-rs.dev/ns/log#segment");
    reveal_strlit("https://ikigai-rs.dev/ns/log#subject");
    reveal_strlit("https://ikigai-rs.dev/ns/log#undeclaredKey");
    reveal_strlit("http://www.w3.org/ns/prov#startedAtTime");
    reveal_strlit("http://www.w3.org/ns/prov#wasAssociatedWith");
    assert(RDF_TYPE@.len() == 47);
    assert(LOG_SEGMENT@.len() == 36 && LOG_SUBJECT@.len() == 36);
    assert(LOG_SEGMENT@[30] == 'e' && LOG_SUBJECT@[30] == 'u');
    assert(LOG_UNDECLARED_KEY@.len() == 42);
    assert(PROV_STARTED_AT_TIME@.len() == 39);
    assert(PROV_WAS_ASSOCIATED_WITH@.len() == 43);
}

// =====================================================================================
// Nodes
// =====================================================================================

/// Whether every subject among `t` is an IRI.
pub open spec fn subjects_are_iris(t: Seq<TripleView>) -> bool {
    forall|i: int| 0 <= i < t.len() ==> rdf_iri((#[trigger] t[i]).subject)
}

pub proof fn lemma_entry_subjects(h: HeaderView, v: VocabularyView, row: RowView)
    requires
        entry_triples(h, v, row) is Ok,
    ensures
        subjects_are_iris(entry_triples(h, v, row)->Ok_0),
        forall|i: int|
            0 <= i < entry_triples(h, v, row)->Ok_0.len() ==> (#[trigger] entry_triples(
                h,
                v,
                row,
            )->Ok_0[i]).subject == entry_iri(h.name, row.seq),
{
    let node = entry_iri(h.name, row.seq);
    let columns = column_triples(h, v, node, row.entry);
    assert(forall|i: int| 0 <= i < columns.len() ==> (#[trigger] columns[i]).subject == node);
    lemma_field_subjects(v, node, columns, row.entry.fields);
}

proof fn lemma_field_subjects(
    v: VocabularyView,
    node: Seq<char>,
    columns: Seq<TripleView>,
    fields: Seq<(Seq<char>, Seq<char>)>,
)
    requires
        forall|i: int| 0 <= i < columns.len() ==> (#[trigger] columns[i]).subject == node,
    ensures
        forall|i: int|
            0 <= i < field_triples(v, node, columns, fields).len() ==> (#[trigger] field_triples(
                v,
                node,
                columns,
                fields,
            )[i]).subject == node,
    decreases fields.len(),
{
    if fields.len() > 0 {
        lemma_field_subjects(v, node, columns, fields.drop_last());
    }
}

proof fn lemma_rows_subjects(h: HeaderView, v: VocabularyView, o: Options, rows: Seq<RowView>)
    requires
        rows_triples(h, v, o, rows) is Ok,
    ensures
        subjects_are_iris(rows_triples(h, v, o, rows)->Ok_0),
    decreases rows.len(),
{
    if rows.len() > 0 {
        lemma_rows_subjects(h, v, o, rows.drop_last());
        if takes_in(o, rows.last().entry.time, rows.last().seq) {
            lemma_entry_subjects(h, v, rows.last());
        }
    }
}

/// Every mention is of an entry that is in the graph.
proof fn lemma_mentions_nodes(
    h: HeaderView,
    v: VocabularyView,
    o: Options,
    property: Seq<char>,
    rows: Seq<RowView>,
)
    requires
        rows_triples(h, v, o, rows) is Ok,
    ensures
        forall|i: int|
            0 <= i < mentions(h, v, o, property, rows).len() ==> rdf_iri(
                (#[trigger] mentions(h, v, o, property, rows)[i]).node,
            ),
    decreases rows.len(),
{
    if rows.len() > 0 {
        let row = rows.last();
        let before = mentions(h, v, o, property, rows.drop_last());
        let all = mentions(h, v, o, property, rows);
        lemma_mentions_nodes(h, v, o, property, rows.drop_last());
        if takes_in(o, row.entry.time, row.seq) {
            let node = entry_iri(h.name, row.seq);
            lemma_field_mentions(v, property, row.run, node, row.entry.fields);
            assert forall|i: int| 0 <= i < all.len() implies rdf_iri((#[trigger] all[i]).node) by {
                if i < before.len() {
                    assert(all[i] == before[i]);
                }
            }
        }
    }
}

pub proof fn lemma_field_mentions(
    v: VocabularyView,
    property: Seq<char>,
    run: nat,
    node: Seq<char>,
    fields: Seq<(Seq<char>, Seq<char>)>,
)
    ensures
        forall|i: int|
            0 <= i < field_mentions(v, property, run, node, fields).len() ==> (
            #[trigger] field_mentions(v, property, run, node, fields)[i]).node == node
                && field_mentions(v, property, run, node, fields)[i].run == run,
    decreases fields.len(),
{
    if fields.len() > 0 {
        let before = field_mentions(v, property, run, node, fields.drop_last());
        let all = field_mentions(v, property, run, node, fields);
        lemma_field_mentions(v, property, run, node, fields.drop_last());
        assert forall|i: int| 0 <= i < all.len() implies (#[trigger] all[i]).node == node
            && all[i].run == run by {
            if i < before.len() {
                assert(all[i] == before[i]);
            }
        }
    }
}

/// A span that was claimed was claimed by one of the entries, in that run.
proof fn lemma_claimed(spans: Seq<MentionView>, run: nat, span: Seq<char>)
    requires
        claimed(spans, run, span) is Some,
    ensures
        exists|i: int|
            0 <= i < spans.len() && (#[trigger] spans[i]).run == run && spans[i].span == span
                && spans[i].node == claimed(spans, run, span)->Some_0,
    decreases spans.len(),
{
    if !(spans.last().run == run && spans.last().span == span) {
        lemma_claimed(spans.drop_last(), run, span);
        let i = choose|i: int|
            0 <= i < spans.drop_last().len() && (#[trigger] spans.drop_last()[i]).run == run
                && spans.drop_last()[i].span == span && spans.drop_last()[i].node == claimed(
                spans.drop_last(),
                run,
                span,
            )->Some_0;
        assert(spans[i].run == run);
    } else {
        assert(spans[spans.len() - 1].run == run);
    }
}

/// Whether `t` states that the entry which claims a span invoked another one, of the same
/// run, that names the span as its parent's.
pub open spec fn joins(
    spans: Seq<MentionView>,
    parents: Seq<MentionView>,
    t: TripleView,
    i: int,
    j: int,
) -> bool {
    &&& 0 <= i < spans.len()
    &&& 0 <= j < parents.len()
    &&& spans[i].run == parents[j].run
    &&& spans[i].span == parents[j].span
    &&& spans[i].node != parents[j].node
    &&& t == stating(spans[i].node, LOG_INVOKED@, TermView::Iri(parents[j].node))
}

/// No edge is invented: every `log:invoked` joins two entries of one run by a span that
/// the one claims and the other names as its parent's.
pub proof fn law_invoked_stays_in_a_run(
    spans: Seq<MentionView>,
    parents: Seq<MentionView>,
    k: int,
)
    requires
        0 <= k < invoked_triples(spans, parents).len(),
    ensures
        exists|i: int, j: int| #[trigger]
            joins(spans, parents, invoked_triples(spans, parents)[k], i, j),
    decreases parents.len(),
{
    let front = parents.drop_last();
    let before = invoked_triples(spans, front);
    let t = invoked_triples(spans, parents)[k];
    if k < before.len() {
        law_invoked_stays_in_a_run(spans, front, k);
        let (i, j) = choose|i: int, j: int| #[trigger] joins(spans, front, before[k], i, j);
        assert(front[j] == parents[j]);
        assert(joins(spans, parents, t, i, j));
    } else {
        let child = parents.last();
        lemma_claimed(spans, child.run, child.span);
        let i = choose|i: int|
            0 <= i < spans.len() && (#[trigger] spans[i]).run == child.run && spans[i].span
                == child.span && spans[i].node == claimed(spans, child.run, child.span)->Some_0;
        assert(joins(spans, parents, t, i, parents.len() - 1));
    }
}

proof fn lemma_seals_subjects(segment: Seq<char>, seals: Seq<SealView>)
    requires
        seals_triples(segment, seals) is Ok,
    ensures
        subjects_are_iris(seals_triples(segment, seals)->Ok_0),
    decreases seals.len(),
{
    if seals.len() > 0 {
        lemma_seals_subjects(segment, seals.drop_last());
        let t = seal_triples(segment, seals.last());
        let node = seal_iri(segment, seals.last());
        assert(forall|i: int| 0 <= i < t.len() ==> (#[trigger] t[i]).subject == node);
    }
}

/// Every node that a graph speaks of is an IRI: there is no blank node in it.
pub proof fn law_never_blank(text: Seq<char>, v: VocabularyView, o: Options)
    requires
        graph_of(text, v, o) is Ok,
    ensures
        subjects_are_iris(graph_of(text, v, o)->Ok_0),
{
    let h = header_read(text)->Ok_0.0;
    let w = walk(text, h, v, o)->Ok_0;
    let top = header_triples(h);
    let entries = rows_triples(h, v, o, w.rows)->Ok_0;
    let spans = mentions(h, v, o, LOG_SPAN@, w.rows);
    let parents = mentions(h, v, o, LOG_PARENT_SPAN@, w.rows);
    let edges = invoked_triples(spans, parents);
    let seals = seals_triples(h.name, w.seals)->Ok_0;
    lemma_rows_subjects(h, v, o, w.rows);
    lemma_mentions_nodes(h, v, o, LOG_SPAN@, w.rows);
    lemma_seals_subjects(h.name, w.seals);
    assert forall|k: int| 0 <= k < edges.len() implies rdf_iri((#[trigger] edges[k]).subject) by {
        law_invoked_stays_in_a_run(spans, parents, k);
        let (i, j) = choose|i: int, j: int| #[trigger] joins(spans, parents, edges[k], i, j);
        assert(rdf_iri(spans[i].node));
    }
    let g = stated(text, v, o);
    assert(subjects_are_iris(top));
    assert forall|k: int| 0 <= k < g.len() implies rdf_iri((#[trigger] g[k]).subject) by {
        let a = top.len();
        let b = a + entries.len();
        let c = b + edges.len();
        if k < a {
            assert(g[k] == top[k]);
        } else if k < b {
            assert(g[k] == entries[k - a]);
        } else if k < c {
            assert(g[k] == edges[k - b]);
        } else {
            assert(g[k] == seals[k - c]);
        }
    }
    law_graph_states_each_fact_once(text, v, o);
    let once_each = graph_of(text, v, o)->Ok_0;
    assert forall|k: int| 0 <= k < once_each.len() implies rdf_iri(
        (#[trigger] once_each[k]).subject,
    ) by {
        assert(once_each.contains(once_each[k]));
        let i = choose|i: int| 0 <= i < g.len() && g[i] == once_each[k];
        assert(rdf_iri(g[i].subject));
    }
}

// =====================================================================================
// The window
// =====================================================================================

/// The leading bytes of ASCII text are its leading characters.
pub proof fn lemma_ascii_prefix(s: Seq<char>, rest: Seq<char>)
    requires
        forall|i: int| 0 <= i < s.len() ==> (#[trigger] s[i]) as u32 <= 0x7f,
    ensures
        byte_prefix(s + rest, s.len()) == Some(s),
    decreases s.len(),
{
    let all = s + rest;
    if s.len() == 0 {
        assert(s =~= Seq::empty());
    } else {
        let t = s.drop_first();
        assert forall|i: int| 0 <= i < t.len() implies (#[trigger] t[i]) as u32 <= 0x7f by {
            assert(t[i] == s[i + 1]);
        }
        lemma_ascii_prefix(t, rest);
        assert(all.drop_first() =~= t + rest);
        assert(all[0] == s[0]);
        assert(seq![s[0]] + t =~= s);
    }
}

/// Judging a written entry by the text of its leading column is judging it by its time:
/// what the walk passes over is exactly what lies outside the window's times.
pub proof fn law_leading_column_tells(
    e: EntryView,
    prefixes: Seq<(Seq<char>, Seq<char>)>,
    o: Options,
)
    requires
        entry_text(e, prefixes) is Ok,
        e.time < WIDE_FROM,
        o.since matches Some(t) ==> t.0 < WIDE_FROM,
    ensures
        out_of_window(entry_text(e, prefixes)->Ok_0, o) <==> !takes_in(
            (Options { from_seq: None, to_seq: None, ..o }),
            e.time,
            0,
        ),
{
    let line = entry_text(e, prefixes)->Ok_0;
    let column = time_text(e.time);
    lemma_time_unbroken(e.time);
    lemma_time_len(e.time);
    lemma_time_ascii(e.time);
    let rest = line.skip(column.len() as int);
    assert(line =~= column + rest);
    lemma_ascii_prefix(column, rest);
    if let Some(t) = o.since {
        lemma_order(e.time, t.0 as nat);
    }
    if let Some(t) = o.until {
        if t.0 < WIDE_FROM {
            lemma_order(t.0 as nat, e.time);
        }
    }
}

pub proof fn lemma_order(a: nat, b: nat)
    requires
        a < WIDE_FROM,
        b < WIDE_FROM,
    ensures
        precedes(time_text(a), time_text(b)) <==> a < b,
{
    if a < b {
        law_time_text_order(a, b);
    } else if b < a {
        law_time_text_order(b, a);
    }
    lemma_precedes_total(time_text(a), time_text(b));
}

// =====================================================================================
// What verifies becomes a graph
// =====================================================================================

proof fn lemma_walk_goes_on(
    h: HeaderView,
    v: VocabularyView,
    o: Options,
    skipped: nat,
    ls: Seq<Seq<char>>,
)
    requires
        forall|i: int|
            0 <= i < ls.len() ==> in_order(
                after_lines(h, v, skipped, #[trigger] ls.take(i)),
                ls[i],
                h.prefixes,
            ),
    ensures
        walked(v, h.prefixes, o, skipped, ls) is Ok,
    decreases ls.len(),
{
    if ls.len() > 0 {
        let front = ls.drop_last();
        assert forall|i: int| 0 <= i < front.len() implies in_order(
            after_lines(h, v, skipped, #[trigger] front.take(i)),
            front[i],
            h.prefixes,
        ) by {
            assert(front.take(i) =~= ls.take(i));
            assert(front[i] == ls[i]);
        }
        lemma_walk_goes_on(h, v, o, skipped, front);
        assert(in_order(
            after_lines(h, v, skipped, ls.take(ls.len() - 1)),
            ls[ls.len() - 1],
            h.prefixes,
        ));
    }
}

/// A segment that verifies can be walked, whatever the window.
pub proof fn law_verified_segment_walks(
    text: Seq<char>,
    v: VocabularyView,
    predecessor: Option<(Seq<char>, Seq<char>)>,
    o: Options,
)
    requires
        report_ok(verified(text, v, predecessor)),
    ensures
        header_read(text) is Ok,
        walk(text, header_read(text)->Ok_0.0, v, o) is Ok,
{
    law_verified_segment(text, v, predecessor);
    let h = header_read(text)->Ok_0.0;
    let skipped = body_start(lines(text));
    lemma_walk_goes_on(h, v, o, skipped as nat, lines(text).skip(skipped));
}

} // verus!
