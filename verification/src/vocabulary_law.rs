//! What holds of a vocabulary that is extended.

use vstd::prelude::*;
use vstd::string::*;

use crate::number::read_signed;
use crate::rdf::{
    grounded, law_grounded_reading, may_read, turtle_document, DocumentView, ObjectView,
    StatementView,
};
use crate::table::{
    ascending, law_lookup_stored, law_placed_contains, law_placed_sorted, law_stored_ascending,
    lemma_lookup_from, lemma_stored_keys, lookup, placed, sorted, stored,
};
use crate::text::{precedes, strip_angles};
use crate::vocabulary::{
    class_so_far, empty_vocabulary, extended, extends, load_statement, load_statements, with_keys,
    with_range, with_ranges, ClassDefView, KeyDefView, LoadView, VocabularyView, LOG_MIN_LEVEL,
    LOG_SUBJECT_PREDICATE, RDFS_RANGE, RDFS_SUBCLASS_OF, RDF_TYPE,
};

verus! {

/// Whether everything `before` says of superclasses, `after` says too.
pub open spec fn accumulates(before: VocabularyView, after: VocabularyView) -> bool {
    forall|iri: Seq<char>|
        #![trigger lookup(before.classes, iri)]
        #![trigger lookup(after.classes, iri)]
        lookup(before.classes, iri) matches Some(c) ==> {
            &&& lookup(after.classes, iri) matches Some(d)
            &&& includes(d.super_classes, c.super_classes)
        }
}

/// Whether every text of `part` is one of `whole`.
pub open spec fn includes(whole: Seq<Seq<char>>, part: Seq<Seq<char>>) -> bool {
    forall|x: Seq<char>| #[trigger] part.contains(x) ==> whole.contains(x)
}

proof fn lemma_statement_accumulates(d: LoadView, s: StatementView)
    ensures
        accumulates(d.vocabulary, load_statement(d, s).0.vocabulary),
{
    let before = d.vocabulary;
    let after = load_statement(d, s).0.vocabulary;
    let subject = strip_angles(s.subject);
    assert forall|iri: Seq<char>| lookup(before.classes, iri) is Some implies {
        &&& lookup(after.classes, iri) is Some
        &&& includes(
            lookup(after.classes, iri)->0.super_classes,
            lookup(before.classes, iri)->0.super_classes,
        )
    } by {
        if let ObjectView::Iri(o) = s.object {
            let c = class_so_far(before, subject);
            let more = placed(c.super_classes, o);
            assert forall|x: Seq<char>| #[trigger] c.super_classes.contains(x) implies more.contains(
                x,
            ) by {
                law_placed_contains(c.super_classes, o, x);
            }
            law_lookup_stored(before.classes, subject, c, iri);
            law_lookup_stored(
                before.classes,
                subject,
                ClassDefView { super_classes: more, ..c },
                iri,
            );
            law_lookup_stored(
                before.classes,
                subject,
                ClassDefView { min_level: Some(o), ..c },
                iri,
            );
            law_lookup_stored(
                before.classes,
                subject,
                ClassDefView { subject_predicate: Some(o), ..c },
                iri,
            );
        }
    }
}

proof fn lemma_statements_accumulate(d: LoadView, s: Seq<StatementView>)
    ensures
        accumulates(d.vocabulary, load_statements(d, s).0.vocabulary),
    decreases s.len(),
{
    if s.len() > 0 {
        lemma_statements_accumulate(d, s.drop_last());
        let (before, error) = load_statements(d, s.drop_last());
        if error is None {
            lemma_statement_accumulates(before, s.last());
            let a = d.vocabulary;
            let b = before.vocabulary;
            let c = load_statements(d, s).0.vocabulary;
            assert forall|iri: Seq<char>| lookup(a.classes, iri) is Some implies {
                &&& lookup(c.classes, iri) is Some
                &&& includes(
                    lookup(c.classes, iri)->0.super_classes,
                    lookup(a.classes, iri)->0.super_classes,
                )
            } by {
                let x = lookup(a.classes, iri)->0.super_classes;
                let y = lookup(b.classes, iri)->0.super_classes;
                assert(includes(y, x));
            }
        }
    }
}

/// An extension takes nothing away: every class stays described, and its superclasses
/// accumulate, even where the extension fails part-way.
pub proof fn law_extension_accumulates(v: VocabularyView, doc: DocumentView)
    ensures
        accumulates(v, extended(v, doc).0),
{
    let start = LoadView { vocabulary: v, ranges: Seq::empty(), key_of: Seq::empty() };
    lemma_statements_accumulate(start, doc.statements);
    let done = load_statements(start, doc.statements).0.vocabulary;
    assert(extended(v, doc).0.classes == done.classes);
}

// =====================================================================================
// Order
// =====================================================================================

/// Whether every class stands under its own IRI, with its superclasses in IRI order.
pub open spec fn classes_in_order(classes: Seq<(Seq<char>, ClassDefView)>) -> bool {
    &&& ascending(classes)
    &&& forall|i: int|
        0 <= i < classes.len() ==> (#[trigger] classes[i]).1.iri == classes[i].0 && sorted(
            classes[i].1.super_classes,
        )
}

/// Whether every key stands under its own name.
pub open spec fn keys_in_order(keys: Seq<(Seq<char>, KeyDefView)>) -> bool {
    &&& ascending(keys)
    &&& forall|i: int| 0 <= i < keys.len() ==> (#[trigger] keys[i]).1.key == keys[i].0
}

proof fn lemma_class_stored(
    classes: Seq<(Seq<char>, ClassDefView)>,
    iri: Seq<char>,
    c: ClassDefView,
)
    requires
        classes_in_order(classes),
        c.iri == iri,
        sorted(c.super_classes),
    ensures
        classes_in_order(stored(classes, iri, c)),
{
    let r = stored(classes, iri, c);
    law_stored_ascending(classes, iri, c);
    assert forall|j: int| 0 <= j < r.len() implies (#[trigger] r[j]).1.iri == r[j].0 && sorted(
        r[j].1.super_classes,
    ) by {
        lemma_stored_keys(classes, iri, c, j);
    }
}

proof fn lemma_statement_keeps_order(d: LoadView, s: StatementView)
    requires
        classes_in_order(d.vocabulary.classes),
    ensures
        classes_in_order(load_statement(d, s).0.vocabulary.classes),
        load_statement(d, s).0.vocabulary.keys == d.vocabulary.keys,
{
    let v = d.vocabulary;
    let subject = strip_angles(s.subject);
    if let ObjectView::Iri(o) = s.object {
        let c = class_so_far(v, subject);
        lemma_lookup_from(v.classes, subject);
        law_placed_sorted(c.super_classes, o);
        lemma_class_stored(v.classes, subject, c);
        lemma_class_stored(
            v.classes,
            subject,
            ClassDefView { super_classes: placed(c.super_classes, o), ..c },
        );
        lemma_class_stored(v.classes, subject, ClassDefView { min_level: Some(o), ..c });
        lemma_class_stored(v.classes, subject, ClassDefView { subject_predicate: Some(o), ..c });
    }
}

proof fn lemma_statements_keep_order(d: LoadView, s: Seq<StatementView>)
    requires
        classes_in_order(d.vocabulary.classes),
    ensures
        classes_in_order(load_statements(d, s).0.vocabulary.classes),
        load_statements(d, s).0.vocabulary.keys == d.vocabulary.keys,
    decreases s.len(),
{
    if s.len() > 0 {
        lemma_statements_keep_order(d, s.drop_last());
        let (before, error) = load_statements(d, s.drop_last());
        if error is None {
            lemma_statement_keeps_order(before, s.last());
        }
    }
}

proof fn lemma_keys_keep_order(
    keys: Seq<(Seq<char>, KeyDefView)>,
    ranges: Seq<(Seq<char>, Seq<char>)>,
    key_of: Seq<(Seq<char>, Seq<char>)>,
)
    requires
        keys_in_order(keys),
    ensures
        keys_in_order(with_keys(keys, ranges, key_of)),
        keys_in_order(with_ranges(keys, ranges)),
    decreases key_of.len(),
{
    if key_of.len() > 0 {
        lemma_keys_keep_order(keys, ranges, key_of.drop_last());
        let before = with_keys(keys, ranges, key_of.drop_last());
        let (property, key) = key_of.last();
        let r = with_keys(keys, ranges, key_of);
        let range = match lookup(ranges, property) {
            Some(r) => Some(r),
            None => match lookup(before, key) {
                Some(k) => k.range,
                None => None,
            },
        };
        let made = KeyDefView { key, property, range };
        law_stored_ascending(before, key, made);
        assert forall|j: int| 0 <= j < r.len() implies (#[trigger] r[j]).1.key == r[j].0 by {
            lemma_stored_keys(before, key, made, j);
        }
    }
    let r = with_ranges(keys, ranges);
    assert forall|i: int, j: int| 0 <= i < j < r.len() implies precedes(
        #[trigger] r[i].0,
        #[trigger] r[j].0,
    ) by {
        assert(r[i].0 == keys[i].0 && r[j].0 == keys[j].0);
    }
}

/// An extension keeps a vocabulary in order: classes by IRI, their superclasses by IRI,
/// keys by name, each under what it is called.
pub proof fn law_extension_keeps_order(v: VocabularyView, doc: DocumentView)
    requires
        classes_in_order(v.classes),
        keys_in_order(v.keys),
    ensures
        classes_in_order(extended(v, doc).0.classes),
        keys_in_order(extended(v, doc).0.keys),
{
    let start = LoadView { vocabulary: v, ranges: Seq::empty(), key_of: Seq::empty() };
    lemma_statements_keep_order(start, doc.statements);
    let d = load_statements(start, doc.statements).0;
    lemma_keys_keep_order(v.keys, d.ranges, d.key_of);
    lemma_keys_keep_order(with_keys(v.keys, d.ranges, d.key_of), d.ranges, d.key_of);
}

/// A vocabulary that declares nothing is in order.
pub proof fn law_empty_vocabulary_is_in_order()
    ensures
        classes_in_order(empty_vocabulary().classes),
        keys_in_order(empty_vocabulary().keys),
{
}

// =====================================================================================
// Later declarations
// =====================================================================================

proof fn lemma_ranged(
    keys: Seq<(Seq<char>, KeyDefView)>,
    ranges: Seq<(Seq<char>, Seq<char>)>,
    name: Seq<char>,
)
    ensures
        lookup(with_ranges(keys, ranges), name) == match lookup(keys, name) {
            Some(k) => Some(with_range(k, ranges)),
            None => None,
        },
    decreases keys.len(),
{
    let r = with_ranges(keys, ranges);
    if keys.len() > 0 && keys[0].0 != name {
        lemma_ranged(keys.drop_first(), ranges, name);
        assert(r.drop_first() =~= with_ranges(keys.drop_first(), ranges));
    }
}

/// A range that a document declares for the property of a key is the range of the key
/// after it, whether the key was bound before or by the same document, and whatever its
/// range was.
pub proof fn law_later_range(
    v: VocabularyView,
    doc: DocumentView,
    name: Seq<char>,
    range: Seq<char>,
)
    requires
        extended(v, doc).1 is None,
        lookup(extended(v, doc).0.keys, name) matches Some(k) && lookup(
            load_statements(
                (LoadView { vocabulary: v, ranges: Seq::empty(), key_of: Seq::empty() }),
                doc.statements,
            ).0.ranges,
            k.property,
        ) == Some(range),
    ensures
        lookup(extended(v, doc).0.keys, name)->0.range == Some(range),
{
    let start = LoadView { vocabulary: v, ranges: Seq::empty(), key_of: Seq::empty() };
    let d = load_statements(start, doc.statements).0;
    lemma_ranged(with_keys(d.vocabulary.keys, d.ranges, d.key_of), d.ranges, name);
}

/// A later declaration of a single-valued fact wins, and a superclass once declared
/// is there.
pub proof fn law_later_declaration(d: LoadView, s: StatementView, object: Seq<char>)
    requires
        s.object == ObjectView::Iri(object),
    ensures
        ({
            let after = lookup(load_statement(d, s).0.vocabulary.classes, strip_angles(s.subject));
            &&& s.predicate == LOG_MIN_LEVEL@ ==> after is Some && after->0.min_level == Some(object)
            &&& s.predicate == LOG_SUBJECT_PREDICATE@ ==> after is Some
                && after->0.subject_predicate == Some(object)
            &&& s.predicate == RDFS_SUBCLASS_OF@ ==> after is Some
                && after->0.super_classes.contains(object)
            &&& s.predicate == RDFS_RANGE@ ==> lookup(
                load_statement(d, s).0.ranges,
                strip_angles(s.subject),
            ) == Some(object)
        }),
{
    let subject = strip_angles(s.subject);
    let v = d.vocabulary;
    let c = class_so_far(v, subject);
    let more = placed(c.super_classes, object);
    law_placed_contains(c.super_classes, object, object);
    law_lookup_stored(d.ranges, subject, object, subject);
    law_lookup_stored(v.classes, subject, ClassDefView { super_classes: more, ..c }, subject);
    law_lookup_stored(v.classes, subject, ClassDefView { min_level: Some(object), ..c }, subject);
    law_lookup_stored(
        v.classes,
        subject,
        ClassDefView { subject_predicate: Some(object), ..c },
        subject,
    );
    reveal_strlit("http://www.w3.org/1999/02/22-rdf-syntax-ns#type");
    reveal_strlit("http://www.w3.org/2000/01/rdf-schema#subClassOf");
    reveal_strlit("http://www.w3.org/2000/01/rdf-schema#range");
    reveal_strlit("https://ikigai-rs.dev/ns/log#minLevel");
    reveal_strlit("https://ikigai-rs.dev/ns/log#subjectPredicate");
    assert(RDF_TYPE@.len() != RDFS_SUBCLASS_OF@.len() || RDF_TYPE@[4] != RDFS_SUBCLASS_OF@[4]
        || RDF_TYPE@[18] != RDFS_SUBCLASS_OF@[18]);
    assert(LOG_MIN_LEVEL@[4] == 's' && RDF_TYPE@[4] == ':' && RDFS_SUBCLASS_OF@[4] == ':');
    assert(RDFS_RANGE@.len() != RDFS_SUBCLASS_OF@.len() && RDFS_RANGE@.len() != RDF_TYPE@.len());
    assert(RDFS_RANGE@[4] == ':' && LOG_SUBJECT_PREDICATE@[4] == 's');
    assert(LOG_MIN_LEVEL@.len() != LOG_SUBJECT_PREDICATE@.len());
}

/// Merging a text is no matter of chance where its document speaks of no blank node: what
/// the vocabulary comes to, and whether and why it fails, is the text's alone.
pub proof fn law_extension_is_the_texts(
    before: VocabularyView,
    ttl: Seq<char>,
    after: VocabularyView,
    error: Option<Seq<char>>,
)
    requires
        grounded(turtle_document(ttl)),
        extends(before, ttl, after, error),
    ensures
        (after, error) == extended(before, turtle_document(ttl)),
{
    let doc = choose|doc: DocumentView|
        may_read(ttl, doc) && #[trigger] extended(before, doc) == (after, error);
    law_grounded_reading(ttl, doc);
}

// =====================================================================================
// What a statement declares
// =====================================================================================

/// A rank places a level on the dial, and a key name binds a property to its key; a rank
/// that is no number stops the reading.
pub proof fn law_literal_declarations(d: LoadView, s: StatementView, value: Seq<char>, kind: Seq<char>)
    requires
        s.object == ObjectView::Literal(value, kind),
    ensures
        ({
            let subject = strip_angles(s.subject);
            let (after, error) = load_statement(d, s);
            &&& s.predicate == "https://ikigai-rs.dev/ns/log#rank"@ ==> match read_signed(value) {
                Some(rank) => error is None && lookup(after.vocabulary.levels, subject) == Some(
                    rank as i64,
                ),
                None => error == Some("log:rank on "@ + subject + " is not an integer"@) && after
                    == d,
            }
            &&& s.predicate == "https://ikigai-rs.dev/ns/log#keyName"@ ==> error is None && lookup(
                after.key_of,
                subject,
            ) == Some(value)
        }),
{
    let subject = strip_angles(s.subject);
    lemma_literal_predicates();
    law_lookup_stored(d.key_of, subject, value, subject);
    if let Some(rank) = read_signed(value) {
        law_lookup_stored(d.vocabulary.levels, subject, rank as i64, subject);
    }
}

proof fn lemma_literal_predicates()
    ensures
        "https://ikigai-rs.dev/ns/log#rank"@ != "https://ikigai-rs.dev/ns/log#keyName"@,
{
    reveal_strlit("https://ikigai-rs.dev/ns/log#rank");
    reveal_strlit("https://ikigai-rs.dev/ns/log#keyName");
    assert("https://ikigai-rs.dev/ns/log#rank"@.len() == 33);
    assert("https://ikigai-rs.dev/ns/log#keyName"@.len() == 36);
}

/// A class that is declared is known; a level that is declared is on the dial, at nought
/// unless a rank was declared for it.
pub proof fn law_type_declarations(d: LoadView, s: StatementView)
    requires
        s.predicate == "http://www.w3.org/1999/02/22-rdf-syntax-ns#type"@,
    ensures
        ({
            let subject = strip_angles(s.subject);
            let after = load_statement(d, s).0.vocabulary;
            &&& s.object == ObjectView::Iri("http://www.w3.org/2000/01/rdf-schema#Class"@)
                ==> lookup(after.classes, subject) is Some
            &&& s.object == ObjectView::Iri("https://ikigai-rs.dev/ns/log#Level"@) ==> lookup(
                after.levels,
                subject,
            ) == (match lookup(d.vocabulary.levels, subject) {
                Some(rank) => Some(rank),
                None => Some(0i64),
            })
        }),
{
    let subject = strip_angles(s.subject);
    reveal_strlit("http://www.w3.org/2000/01/rdf-schema#Class");
    reveal_strlit("https://ikigai-rs.dev/ns/log#Level");
    assert("http://www.w3.org/2000/01/rdf-schema#Class"@.len() == 42);
    assert("https://ikigai-rs.dev/ns/log#Level"@.len() == 34);
    law_lookup_stored(
        d.vocabulary.classes,
        subject,
        class_so_far(d.vocabulary, subject),
        subject,
    );
    law_lookup_stored(d.vocabulary.levels, subject, 0i64, subject);
}

/// A statement is about its subject alone: what is known of anything else stays as it was,
/// and a statement that leads to a blank node changes nothing at all.
pub proof fn law_statement_is_about_its_subject(d: LoadView, s: StatementView, other: Seq<char>)
    requires
        other != strip_angles(s.subject),
    ensures
        ({
            let after = load_statement(d, s).0;
            &&& lookup(after.vocabulary.classes, other) == lookup(d.vocabulary.classes, other)
            &&& lookup(after.vocabulary.levels, other) == lookup(d.vocabulary.levels, other)
            &&& lookup(after.ranges, other) == lookup(d.ranges, other)
            &&& lookup(after.key_of, other) == lookup(d.key_of, other)
            &&& after.vocabulary.keys == d.vocabulary.keys
        }),
        s.object is Blank ==> load_statement(d, s) == (d, None::<Seq<char>>),
{
    let subject = strip_angles(s.subject);
    match s.object {
        ObjectView::Iri(object) => {
            let class = class_so_far(d.vocabulary, subject);
            law_lookup_stored(d.vocabulary.classes, subject, class, other);
            law_lookup_stored(
                d.vocabulary.classes,
                subject,
                ClassDefView { super_classes: placed(class.super_classes, object), ..class },
                other,
            );
            law_lookup_stored(
                d.vocabulary.classes,
                subject,
                ClassDefView { min_level: Some(object), ..class },
                other,
            );
            law_lookup_stored(
                d.vocabulary.classes,
                subject,
                ClassDefView { subject_predicate: Some(object), ..class },
                other,
            );
            law_lookup_stored(d.vocabulary.levels, subject, 0i64, other);
            law_lookup_stored(d.ranges, subject, object, other);
        },
        ObjectView::Literal(value, _) => {
            law_lookup_stored(d.key_of, subject, value, other);
            if let Some(rank) = read_signed(value) {
                law_lookup_stored(d.vocabulary.levels, subject, rank as i64, other);
            }
        },
        ObjectView::Blank(_) => {},
    }
}

proof fn lemma_key_bound(
    keys: Seq<(Seq<char>, KeyDefView)>,
    ranges: Seq<(Seq<char>, Seq<char>)>,
    key_of: Seq<(Seq<char>, Seq<char>)>,
    i: int,
)
    requires
        0 <= i < key_of.len(),
        forall|j: int|
            0 <= j < key_of.len() && j != i ==> (#[trigger] key_of[j]).1 != key_of[i].1,
    ensures
        lookup(with_keys(keys, ranges, key_of), key_of[i].1) matches Some(def) && def.property
            == key_of[i].0 && def.key == key_of[i].1,
    decreases key_of.len(),
{
    let front = key_of.drop_last();
    let (property, key) = key_of.last();
    let before = with_keys(keys, ranges, front);
    let range = match lookup(ranges, property) {
        Some(r) => Some(r),
        None => match lookup(before, key) {
            Some(k) => k.range,
            None => None,
        },
    };
    let def = KeyDefView { key, property, range };
    law_lookup_stored(before, key, def, key_of[i].1);
    if i < front.len() {
        assert(key_of[key_of.len() - 1].1 != key_of[i].1);
        assert forall|j: int| 0 <= j < front.len() && j != i implies (#[trigger] front[j]).1
            != front[i].1 by {
            assert(front[j] == key_of[j]);
        }
        lemma_key_bound(keys, ranges, front, i);
    }
}

/// A key is bound to the property that declares it, where no other property declares it too.
pub proof fn law_declared_key_is_bound(v: VocabularyView, doc: DocumentView, i: int)
    requires
        extended(v, doc).1 is None,
        ({
            let start = LoadView { vocabulary: v, ranges: Seq::empty(), key_of: Seq::empty() };
            let key_of = load_statements(start, doc.statements).0.key_of;
            &&& 0 <= i < key_of.len()
            &&& forall|j: int|
                0 <= j < key_of.len() && j != i ==> (#[trigger] key_of[j]).1 != key_of[i].1
        }),
    ensures
        ({
            let start = LoadView { vocabulary: v, ranges: Seq::empty(), key_of: Seq::empty() };
            let (property, key) = load_statements(start, doc.statements).0.key_of[i];
            lookup(extended(v, doc).0.keys, key) matches Some(def) && def.property == property
                && def.key == key
        }),
{
    let start = LoadView { vocabulary: v, ranges: Seq::empty(), key_of: Seq::empty() };
    let d = load_statements(start, doc.statements).0;
    lemma_key_bound(d.vocabulary.keys, d.ranges, d.key_of, i);
    lemma_ranged(
        with_keys(d.vocabulary.keys, d.ranges, d.key_of),
        d.ranges,
        d.key_of[i].1,
    );
}

/// Whether a statement gives a rank that is no number.
pub open spec fn bad_rank(s: StatementView) -> bool {
    s.predicate == "https://ikigai-rs.dev/ns/log#rank"@ && (s.object matches ObjectView::Literal(
        value,
        _,
    ) && read_signed(value) is None)
}

proof fn lemma_statement_outcome(d: LoadView, s: StatementView)
    ensures
        load_statement(d, s).1 is Some <==> bad_rank(s),
        load_statement(d, s).0.vocabulary.keys == d.vocabulary.keys,
{
}

proof fn lemma_statements_outcome(d: LoadView, ss: Seq<StatementView>)
    ensures
        load_statements(d, ss).1 is Some <==> exists|i: int|
            0 <= i < ss.len() && bad_rank(#[trigger] ss[i]),
        load_statements(d, ss).0.vocabulary.keys == d.vocabulary.keys,
    decreases ss.len(),
{
    if ss.len() > 0 {
        let front = ss.drop_last();
        lemma_statements_outcome(d, front);
        lemma_statement_outcome(load_statements(d, front).0, ss.last());
        if load_statements(d, front).1 is Some {
            let i = choose|i: int| 0 <= i < front.len() && bad_rank(#[trigger] front[i]);
            assert(bad_rank(ss[i]));
        }
        if load_statements(d, ss).1 is Some && load_statements(d, front).1 is None {
            assert(bad_rank(ss[ss.len() - 1]));
        }
        if exists|i: int| 0 <= i < ss.len() && bad_rank(#[trigger] ss[i]) {
            let i = choose|i: int| 0 <= i < ss.len() && bad_rank(#[trigger] ss[i]);
            if i < front.len() {
                assert(bad_rank(front[i]));
            }
        }
    }
}

/// A document is taken in whole exactly where it was read to its end and every rank in it is
/// a number; and where it was not, no key is bound.
pub proof fn law_document_is_taken_in_whole(v: VocabularyView, doc: DocumentView)
    ensures
        extended(v, doc).1 is None <==> doc.error is None && forall|i: int|
            0 <= i < doc.statements.len() ==> !bad_rank(#[trigger] doc.statements[i]),
        extended(v, doc).1 is Some ==> extended(v, doc).0.keys == v.keys,
        doc.error is Some && (forall|i: int|
            0 <= i < doc.statements.len() ==> !bad_rank(#[trigger] doc.statements[i])) ==> extended(
            v,
            doc,
        ).1 == doc.error,
{
    let start = LoadView { vocabulary: v, ranges: Seq::empty(), key_of: Seq::empty() };
    lemma_statements_outcome(start, doc.statements);
}

} // verus!
