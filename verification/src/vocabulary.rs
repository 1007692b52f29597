//! The vocabulary, which is also the graph's term table and the level dial's
//! threshold table.
//!
//! Three things are declared as RDF here rather than written as Rust:
//!
//!   * **what a key means**: `log:keyName` binds a line's bare `key=` column to
//!     a property, and that property's `rdfs:range` decides whether the value
//!     becomes an IRI, an integer, a boolean or a plain literal;
//!   * **what a class is about**: `log:subjectPredicate` refines the subject
//!     column per class (`log:resolved` for a resolution,
//!     `prov:wasAssociatedWith` for a liveness event);
//!   * **when a class is written**: `log:minLevel` per class, `log:rank` per
//!     level, so the emit test is one integer comparison over this graph.
//!
//! The consequence is the extension story: a module introduces entry types with
//! `rdfs:subClassOf` plus its own `log:minLevel` and `log:keyName` bindings,
//! loads them with [`Vocabulary::extend`], and neither the writer nor the
//! graph changes.

use std::sync::Arc;
use vstd::prelude::*;
use vstd::string::*;

use crate::layer::over;
use crate::number::{read_signed, signed_of};
use crate::rdf::{
    may_read, read_turtle, statements, Document, DocumentView, Object, ObjectView, Statement,
    StatementView,
};
use crate::table::{
    ascending, law_table_ascending, lookup, place_text, placed, stored, Prefixes, Table,
};
use crate::text::{
    chars_of, copy_maybe, copy_texts, joined, maybe, same_text, strip_angles, text_of,
    texts, without_angles,
};
use crate::vocabulary_source::VOCABULARY_TTL;

verus! {

/// The log vocabulary namespace.
pub const LOG_NS: &'static str = "https://ikigai-rs.dev/ns/log#";

/// The PROV-O namespace, bound in every segment header alongside `log:`.
pub const PROV_NS: &'static str = "http://www.w3.org/ns/prov#";

/// RDF's own namespace.
pub const RDF_NS: &'static str = "http://www.w3.org/1999/02/22-rdf-syntax-ns#";

pub const RDF_TYPE: &'static str = "http://www.w3.org/1999/02/22-rdf-syntax-ns#type";

pub const RDFS_CLASS: &'static str = "http://www.w3.org/2000/01/rdf-schema#Class";

pub const RDFS_SUBCLASS_OF: &'static str = "http://www.w3.org/2000/01/rdf-schema#subClassOf";

pub const RDFS_RANGE: &'static str = "http://www.w3.org/2000/01/rdf-schema#range";

pub const LOG_KEY_NAME: &'static str = "https://ikigai-rs.dev/ns/log#keyName";

pub const LOG_MIN_LEVEL: &'static str = "https://ikigai-rs.dev/ns/log#minLevel";

pub const LOG_RANK: &'static str = "https://ikigai-rs.dev/ns/log#rank";

pub const LOG_SUBJECT_PREDICATE: &'static str = "https://ikigai-rs.dev/ns/log#subjectPredicate";

pub const LOG_LEVEL_CLASS: &'static str = "https://ikigai-rs.dev/ns/log#Level";

/// `log:Entry`: the root of the entry hierarchy.
pub const ENTRY_CLASS: &'static str = "https://ikigai-rs.dev/ns/log#Entry";

/// `log:Message`: the convenience write's class, and the root of the prose
/// hierarchy whose subclasses carry severity.
pub const MESSAGE_CLASS: &'static str = "https://ikigai-rs.dev/ns/log#Message";

/// `log:Warning`.
pub const WARNING_CLASS: &'static str = "https://ikigai-rs.dev/ns/log#Warning";

/// `log:Error`.
pub const ERROR_CLASS: &'static str = "https://ikigai-rs.dev/ns/log#Error";

/// `log:Resolution`: one resolution, traced.
pub const RESOLUTION_CLASS: &'static str = "https://ikigai-rs.dev/ns/log#Resolution";

/// `log:CacheHit`: a resolution that was served from the cache.
pub const CACHE_HIT_CLASS: &'static str = "https://ikigai-rs.dev/ns/log#CacheHit";

/// `log:Dropped`: always-land, how many entries could not be written.
pub const DROPPED_CLASS: &'static str = "https://ikigai-rs.dev/ns/log#Dropped";

/// `log:ProcessStart`: always-land liveness, first entry of every segment.
pub const PROCESS_START_CLASS: &'static str = "https://ikigai-rs.dev/ns/log#ProcessStart";

/// `log:ProcessStop`: always-land, written only by an orderly close.
pub const PROCESS_STOP_CLASS: &'static str = "https://ikigai-rs.dev/ns/log#ProcessStop";

/// `log:ConfigChange`: always-land.
pub const CONFIG_CHANGE_CLASS: &'static str = "https://ikigai-rs.dev/ns/log#ConfigChange";

/// `log:LevelChange`: always-land.
pub const LEVEL_CHANGE_CLASS: &'static str = "https://ikigai-rs.dev/ns/log#LevelChange";

/// `log:LevelChangeRejected`: always-land.
pub const LEVEL_CHANGE_REJECTED_CLASS: &'static str =
    "https://ikigai-rs.dev/ns/log#LevelChangeRejected";

/// `log:CapabilityDenied`: always-land.
pub const CAPABILITY_DENIED_CLASS: &'static str = "https://ikigai-rs.dev/ns/log#CapabilityDenied";

/// `log:Rotation`: always-land, and the other way a segment ends finally.
///
/// A rotated segment is as immutable as a stopped one, so this class is half of
/// what "finished" asks.
pub const ROTATION_CLASS: &'static str = "https://ikigai-rs.dev/ns/log#Rotation";

/// `log:ChainBroken`: always-land. A rotation that could not verify its
/// predecessor lands one of these: an entry, not an exception, because the
/// failure belongs in the record it is a failure of.
pub const CHAIN_BROKEN_CLASS: &'static str = "https://ikigai-rs.dev/ns/log#ChainBroken";

/// The level a class is written at when neither it nor any of its superclasses
/// declares one: the day-to-day default, so an undeclared extension is visible
/// rather than silently invisible.
pub const DEFAULT_MIN_LEVEL: &'static str = "https://ikigai-rs.dev/ns/log#info";

/// A vocabulary that will not parse.
#[derive(Clone, Debug, PartialEq, Eq)]
pub struct VocabError(pub String);

impl VocabError {
    /// What is wrong, in words.
    pub fn message(&self) -> (r: String)
        ensures
            r@ == "vocabulary: "@ + self.0@,
    {
        joined("vocabulary: ", &self.0)
    }
}

/// What the graph says about one entry class.
#[derive(Debug, PartialEq, Eq)]
pub struct ClassDef {
    /// The class IRI.
    pub iri: String,
    /// Its declared superclasses, in IRI order.
    pub super_classes: Vec<String>,
    /// Its own `log:minLevel`, if it declares one; otherwise inherited.
    pub min_level: Option<String>,
    /// The precise predicate its subject column means, if declared.
    pub subject_predicate: Option<String>,
}

/// A [`ClassDef`], with its texts as characters.
#[verifier::ext_equal]
pub struct ClassDefView {
    pub iri: Seq<char>,
    pub super_classes: Seq<Seq<char>>,
    pub min_level: Option<Seq<char>>,
    pub subject_predicate: Option<Seq<char>>,
}

impl View for ClassDef {
    type V = ClassDefView;

    open spec fn view(&self) -> ClassDefView {
        ClassDefView {
            iri: self.iri@,
            super_classes: texts(self.super_classes@),
            min_level: maybe(self.min_level),
            subject_predicate: maybe(self.subject_predicate),
        }
    }
}

impl ClassDef {
    /// A class of which only the IRI is known.
    fn named(iri: &str) -> (r: ClassDef)
        ensures
            r@ == bare_class(iri@),
    {
        let r = ClassDef {
            iri: iri.to_owned(),
            super_classes: Vec::new(),
            min_level: None,
            subject_predicate: None,
        };
        assert(r@.super_classes =~= Seq::empty());
        r
    }

    fn copy(&self) -> (r: ClassDef)
        ensures
            r@ == self@,
    {
        ClassDef {
            iri: self.iri.clone(),
            super_classes: copy_texts(&self.super_classes),
            min_level: copy_maybe(&self.min_level),
            subject_predicate: copy_maybe(&self.subject_predicate),
        }
    }
}

/// What the graph says about one `key=` column.
#[derive(Debug, PartialEq, Eq)]
pub struct KeyDef {
    /// The bare key, as written in a line.
    pub key: String,
    /// The property the key binds to.
    pub property: String,
    /// The property's `rdfs:range`: what the value becomes in the graph.
    pub range: Option<String>,
}

/// A [`KeyDef`], with its texts as characters.
#[verifier::ext_equal]
pub struct KeyDefView {
    pub key: Seq<char>,
    pub property: Seq<char>,
    pub range: Option<Seq<char>>,
}

impl View for KeyDef {
    type V = KeyDefView;

    open spec fn view(&self) -> KeyDefView {
        KeyDefView { key: self.key@, property: self.property@, range: maybe(self.range) }
    }
}

/// The parsed vocabulary graph, indexed for the three questions the writer and
/// the graph ask of it.
#[derive(Debug)]
pub struct Vocabulary {
    classes: Table<ClassDef>,
    keys: Table<KeyDef>,
    levels: Table<i64>,
}

/// A [`Vocabulary`], with its texts as characters: the classes by IRI, the keys by
/// name, and the rank of each level by IRI.
#[verifier::ext_equal]
pub struct VocabularyView {
    pub classes: Seq<(Seq<char>, ClassDefView)>,
    pub keys: Seq<(Seq<char>, KeyDefView)>,
    pub levels: Seq<(Seq<char>, i64)>,
}

impl View for Vocabulary {
    type V = VocabularyView;

    closed spec fn view(&self) -> VocabularyView {
        VocabularyView { classes: self.classes@, keys: self.keys@, levels: self.levels@ }
    }
}

/// A vocabulary that declares nothing.
pub open spec fn empty_vocabulary() -> VocabularyView {
    VocabularyView { classes: Seq::empty(), keys: Seq::empty(), levels: Seq::empty() }
}

// =====================================================================================
// Loading
// =====================================================================================

/// A class of which only the IRI is known.
pub open spec fn bare_class(iri: Seq<char>) -> ClassDefView {
    ClassDefView { iri, super_classes: Seq::empty(), min_level: None, subject_predicate: None }
}

/// What is known of the class `iri` so far.
pub open spec fn class_so_far(v: VocabularyView, iri: Seq<char>) -> ClassDefView {
    match lookup(v.classes, iri) {
        Some(c) => c,
        None => bare_class(iri),
    }
}

/// `v` with the class `iri` described by `c`.
pub open spec fn with_class(v: VocabularyView, iri: Seq<char>, c: ClassDefView) -> VocabularyView {
    VocabularyView { classes: stored(v.classes, iri, c), ..v }
}

/// A vocabulary while Turtle is being merged into it. A property's range and the key
/// bound to it can arrive in either order, so both are collected first.
#[verifier::ext_equal]
pub struct LoadView {
    pub vocabulary: VocabularyView,
    /// Ranges, by property.
    pub ranges: Seq<(Seq<char>, Seq<char>)>,
    /// Keys, by property.
    pub key_of: Seq<(Seq<char>, Seq<char>)>,
}

/// What one statement about `subject` with an IRI as its object adds.
pub open spec fn load_iri(
    d: LoadView,
    subject: Seq<char>,
    predicate: Seq<char>,
    object: Seq<char>,
) -> LoadView {
    let v = d.vocabulary;
    let class = class_so_far(v, subject);
    if predicate == RDF_TYPE@ {
        if object == RDFS_CLASS@ {
            LoadView { vocabulary: with_class(v, subject, class), ..d }
        } else if object == LOG_LEVEL_CLASS@ && lookup(v.levels, subject) is None {
            LoadView {
                vocabulary: VocabularyView { levels: stored(v.levels, subject, 0), ..v },
                ..d
            }
        } else {
            d
        }
    } else if predicate == RDFS_SUBCLASS_OF@ {
        let super_classes = placed(class.super_classes, object);
        LoadView {
            vocabulary: with_class(v, subject, ClassDefView { super_classes, ..class }),
            ..d
        }
    } else if predicate == LOG_MIN_LEVEL@ {
        LoadView {
            vocabulary: with_class(
                v,
                subject,
                ClassDefView { min_level: Some(object), ..class },
            ),
            ..d
        }
    } else if predicate == LOG_SUBJECT_PREDICATE@ {
        LoadView {
            vocabulary: with_class(
                v,
                subject,
                ClassDefView { subject_predicate: Some(object), ..class },
            ),
            ..d
        }
    } else if predicate == RDFS_RANGE@ {
        LoadView { ranges: stored(d.ranges, subject, object), ..d }
    } else {
        d
    }
}

/// What one statement about `subject` with a literal as its object adds, or why it
/// cannot.
pub open spec fn load_literal(
    d: LoadView,
    subject: Seq<char>,
    predicate: Seq<char>,
    value: Seq<char>,
) -> (LoadView, Option<Seq<char>>) {
    let v = d.vocabulary;
    if predicate == LOG_RANK@ {
        match read_signed(value) {
            Some(rank) => (
                LoadView {
                    vocabulary: VocabularyView {
                        levels: stored(v.levels, subject, rank as i64),
                        ..v
                    },
                    ..d
                },
                None,
            ),
            None => (d, Some("log:rank on "@ + subject + " is not an integer"@)),
        }
    } else if predicate == LOG_KEY_NAME@ {
        (LoadView { key_of: stored(d.key_of, subject, value), ..d }, None)
    } else {
        (d, None)
    }
}

/// What one statement adds, or why it cannot.
pub open spec fn load_statement(
    d: LoadView,
    s: StatementView,
) -> (LoadView, Option<Seq<char>>) {
    let subject = strip_angles(s.subject);
    match s.object {
        ObjectView::Iri(o) => (load_iri(d, subject, s.predicate, o), None),
        ObjectView::Literal(value, _) => load_literal(d, subject, s.predicate, value),
        ObjectView::Blank(_) => (d, None),
    }
}

/// What statements add, in order, up to the first that cannot be taken in.
pub open spec fn load_statements(
    d: LoadView,
    s: Seq<StatementView>,
) -> (LoadView, Option<Seq<char>>)
    decreases s.len(),
{
    if s.len() == 0 {
        (d, None)
    } else {
        let (before, error) = load_statements(d, s.drop_last());
        match error {
            Some(e) => (before, Some(e)),
            None => load_statement(before, s.last()),
        }
    }
}

/// The keys with one more property bound to its key: the range just declared for the
/// property, or the one the key had.
pub open spec fn with_key(
    keys: Seq<(Seq<char>, KeyDefView)>,
    ranges: Seq<(Seq<char>, Seq<char>)>,
    property: Seq<char>,
    key: Seq<char>,
) -> Seq<(Seq<char>, KeyDefView)> {
    let range = match lookup(ranges, property) {
        Some(r) => Some(r),
        None => match lookup(keys, key) {
            Some(k) => k.range,
            None => None,
        },
    };
    stored(keys, key, KeyDefView { key, property, range })
}

/// The keys with every collected binding taken in.
pub open spec fn with_keys(
    keys: Seq<(Seq<char>, KeyDefView)>,
    ranges: Seq<(Seq<char>, Seq<char>)>,
    key_of: Seq<(Seq<char>, Seq<char>)>,
) -> Seq<(Seq<char>, KeyDefView)>
    decreases key_of.len(),
{
    if key_of.len() == 0 {
        keys
    } else {
        with_key(
            with_keys(keys, ranges, key_of.drop_last()),
            ranges,
            key_of.last().0,
            key_of.last().1,
        )
    }
}

/// A key with the range declared for its property now, or else the one it had.
pub open spec fn with_range(
    k: KeyDefView,
    ranges: Seq<(Seq<char>, Seq<char>)>,
) -> KeyDefView {
    KeyDefView { range: over(lookup(ranges, k.property), k.range), ..k }
}

/// The keys with the ranges declared now, also for keys that were bound before.
pub open spec fn with_ranges(
    keys: Seq<(Seq<char>, KeyDefView)>,
    ranges: Seq<(Seq<char>, Seq<char>)>,
) -> Seq<(Seq<char>, KeyDefView)> {
    keys.map_values(|p: (Seq<char>, KeyDefView)| (p.0, with_range(p.1, ranges)))
}

/// What a vocabulary becomes with a document merged into it, and why it could not be
/// taken in whole. Later declarations win over earlier ones for the single-valued
/// facts; superclasses accumulate. After an error the classes and levels read before
/// it stay, and no key is bound.
pub open spec fn extended(
    v: VocabularyView,
    doc: DocumentView,
) -> (VocabularyView, Option<Seq<char>>) {
    let start = LoadView { vocabulary: v, ranges: Seq::empty(), key_of: Seq::empty() };
    let (d, error) = load_statements(start, doc.statements);
    let failure = if error is Some {
        error
    } else {
        doc.error
    };
    if failure is Some {
        (d.vocabulary, failure)
    } else {
        (
            VocabularyView {
                keys: with_ranges(with_keys(d.vocabulary.keys, d.ranges, d.key_of), d.ranges),
                ..d.vocabulary
            },
            None,
        )
    }
}

/// Whether `after` and `error` are what merging `ttl` into `before` comes to.
pub open spec fn extends(
    before: VocabularyView,
    ttl: Seq<char>,
    after: VocabularyView,
    error: Option<Seq<char>>,
) -> bool {
    exists|doc: DocumentView|
        may_read(ttl, doc) && #[trigger] extended(before, doc) == (after, error)
}

/// Whether `r` is what parsing `ttl` as a vocabulary of its own comes to.
pub open spec fn parses(ttl: Seq<char>, r: Result<Vocabulary, VocabError>) -> bool {
    exists|doc: DocumentView|
        {
            &&& may_read(ttl, doc)
            &&& #[trigger] extended(empty_vocabulary(), doc) == match r {
                Ok(v) => (v@, None),
                Err(e) => (extended(empty_vocabulary(), doc).0, Some(e.0@)),
            }
        }
}

/// The error of a result.
pub open spec fn outcome(r: Result<(), VocabError>) -> Option<Seq<char>> {
    match r {
        Ok(_) => None,
        Err(e) => Some(e.0@),
    }
}

/// What is collected while Turtle is merged.
struct Collected {
    ranges: Prefixes,
    key_of: Prefixes,
}

impl Vocabulary {
    spec fn loading(&self, c: Collected) -> LoadView {
        LoadView { vocabulary: self@, ranges: c.ranges@, key_of: c.key_of@ }
    }

    /// A vocabulary that declares nothing.
    pub fn empty() -> (r: Vocabulary)
        ensures
            r@ == empty_vocabulary(),
    {
        Vocabulary { classes: Table::new(), keys: Table::new(), levels: Table::new() }
    }

    /// The built-in vocabulary.
    pub fn builtin() -> (r: Result<Vocabulary, VocabError>)
        ensures
            parses(VOCABULARY_TTL@, r),
    {
        Vocabulary::parse(VOCABULARY_TTL)
    }

    /// The built-in vocabulary as a shared handle: what a writer that has no
    /// module extensions to load takes.
    pub fn shared_builtin() -> (r: Result<Arc<Vocabulary>, VocabError>)
        ensures
            match r {
                Ok(v) => parses(VOCABULARY_TTL@, Ok(*v)),
                Err(e) => parses(VOCABULARY_TTL@, Err(e)),
            },
    {
        match Vocabulary::builtin() {
            Ok(v) => Ok(Arc::new(v)),
            Err(e) => Err(e),
        }
    }

    /// Parse a vocabulary from Turtle.
    pub fn parse(ttl: &str) -> (r: Result<Vocabulary, VocabError>)
        ensures
            parses(ttl@, r),
    {
        let mut vocab = Vocabulary::empty();
        match vocab.extend(ttl) {
            Ok(()) => Ok(vocab),
            Err(e) => Err(e),
        }
    }

    /// Merge further Turtle into this vocabulary: a module's own
    /// `rdfs:subClassOf` extension, loaded at runtime.
    ///
    /// Later declarations win over earlier ones for the single-valued facts
    /// (`log:minLevel`, `log:subjectPredicate`, `rdfs:range`), so an extension
    /// can refine a class it did not declare; superclasses accumulate.
    pub fn extend(&mut self, ttl: &str) -> (r: Result<(), VocabError>)
        ensures
            extends(old(self)@, ttl@, final(self)@, outcome(r)),
    {
        let doc = read_turtle(ttl);
        let r = self.extend_with(&doc);
        assert(may_read(ttl@, doc@));
        r
    }

    /// Merge a document that has been read into this vocabulary.
    pub fn extend_with(&mut self, doc: &Document) -> (r: Result<(), VocabError>)
        ensures
            extended(old(self)@, doc@) == (final(self)@, outcome(r)),
    {
        let mut collected = Collected { ranges: Table::new(), key_of: Table::new() };
        let ghost start = self.loading(collected);
        let ghost all = statements(doc.statements@);
        let mut i: usize = 0;
        assert(all.take(0) =~= Seq::empty());
        while i < doc.statements.len()
            invariant
                i <= doc.statements.len(),
                all == statements(doc.statements@),
                start == (LoadView {
                    vocabulary: old(self)@,
                    ranges: Seq::empty(),
                    key_of: Seq::empty(),
                }),
                load_statements(start, all.take(i as int)) == (
                    self.loading(collected),
                    None::<Seq<char>>,
                ),
            decreases doc.statements.len() - i,
        {
            proof {
                assert(all.take(i + 1).drop_last() =~= all.take(i as int));
                assert(all.take(i + 1).last() == doc.statements@[i as int]@);
            }
            match self.take_statement(&mut collected, &doc.statements[i]) {
                Ok(()) => {},
                Err(e) => {
                    proof {
                        lemma_stops(start, all, i + 1);
                        assert(all.take(all.len() as int) =~= all);
                    }
                    return Err(e);
                },
            }
            i = i + 1;
        }
        assert(all.take(i as int) =~= all);
        if let Some(message) = &doc.error {
            return Err(VocabError(message.clone()));
        }
        self.bind_keys(&collected);
        Ok(())
    }

    /// Take in one statement.
    fn take_statement(&mut self, collected: &mut Collected, s: &Statement) -> (r: Result<
        (),
        VocabError,
    >)
        ensures
            load_statement(old(self).loading(*old(collected)), s@) == (
                final(self).loading(*final(collected)),
                outcome(r),
            ),
    {
        let subject = text_of(without_angles(&chars_of(&s.subject)));
        match &s.object {
            Object::Iri(object) => {
                self.take_iri(collected, subject, &s.predicate, object);
                Ok(())
            },
            Object::Literal(value, _) => {
                if same_text(&s.predicate, LOG_RANK) {
                    match signed_of(&chars_of(value)) {
                        Some(rank) => {
                            self.levels.insert(subject, rank);
                            Ok(())
                        },
                        None => {
                            let mut message = joined("log:rank on ", &subject);
                            message.append(" is not an integer");
                            Err(VocabError(message))
                        },
                    }
                } else if same_text(&s.predicate, LOG_KEY_NAME) {
                    collected.key_of.insert(subject, value.clone());
                    Ok(())
                } else {
                    Ok(())
                }
            },
            Object::Blank(_) => Ok(()),
        }
    }

    /// Take in one statement with an IRI as its object.
    fn take_iri(
        &mut self,
        collected: &mut Collected,
        subject: String,
        predicate: &str,
        object: &String,
    )
        ensures
            load_iri(old(self).loading(*old(collected)), subject@, predicate@, object@)
                == final(self).loading(*final(collected)),
    {
        if same_text(predicate, RDF_TYPE) {
            if same_text(object, RDFS_CLASS) {
                let class = self.class_or_new(&subject);
                self.classes.insert(subject, class);
            } else if same_text(object, LOG_LEVEL_CLASS) {
                if self.levels.get(&subject).is_none() {
                    self.levels.insert(subject, 0);
                }
            }
        } else if same_text(predicate, RDFS_SUBCLASS_OF) {
            let mut class = self.class_or_new(&subject);
            place_text(&mut class.super_classes, object);
            self.classes.insert(subject, class);
        } else if same_text(predicate, LOG_MIN_LEVEL) {
            let mut class = self.class_or_new(&subject);
            class.min_level = Some(object.clone());
            self.classes.insert(subject, class);
        } else if same_text(predicate, LOG_SUBJECT_PREDICATE) {
            let mut class = self.class_or_new(&subject);
            class.subject_predicate = Some(object.clone());
            self.classes.insert(subject, class);
        } else if same_text(predicate, RDFS_RANGE) {
            collected.ranges.insert(subject, object.clone());
        }
    }

    /// What is known of a class so far.
    fn class_or_new(&self, iri: &str) -> (r: ClassDef)
        ensures
            r@ == class_so_far(self@, iri@),
    {
        match self.classes.get(iri) {
            Some(c) => c.copy(),
            None => ClassDef::named(iri),
        }
    }

    /// Bind the collected keys, then take in the ranges of keys that were bound before.
    fn bind_keys(&mut self, collected: &Collected)
        ensures
            final(self)@ == (VocabularyView {
                keys: with_ranges(
                    with_keys(old(self)@.keys, collected.ranges@, collected.key_of@),
                    collected.ranges@,
                ),
                ..old(self)@
            }),
    {
        let ghost ranges = collected.ranges@;
        let ghost key_of = collected.key_of@;
        let ghost before = self@;
        let mut i: usize = 0;
        assert(key_of.take(0) =~= Seq::empty());
        while i < collected.key_of.len()
            invariant
                i <= key_of.len(),
                ranges == collected.ranges@,
                key_of == collected.key_of@,
                before == old(self)@,
                self@.classes == before.classes,
                self@.levels == before.levels,
                self@.keys == with_keys(before.keys, ranges, key_of.take(i as int)),
            decreases key_of.len() - i,
        {
            let (property, key) = collected.key_of.at(i);
            let range = match collected.ranges.get(property) {
                Some(r) => Some(r.clone()),
                None => match self.keys.get(key) {
                    Some(k) => copy_maybe(&k.range),
                    None => None,
                },
            };
            let def = KeyDef { key: key.clone(), property: property.clone(), range };
            self.keys.insert(key.clone(), def);
            proof {
                assert(key_of.take(i + 1).drop_last() =~= key_of.take(i as int));
                assert(key_of.take(i + 1).last() == key_of[i as int]);
            }
            i = i + 1;
        }
        assert(key_of.take(i as int) =~= key_of);
        let ghost bound = self@.keys;
        let ghost done = with_ranges(bound, ranges);
        let mut j: usize = 0;
        while j < self.keys.len()
            invariant
                j <= self@.keys.len(),
                ranges == collected.ranges@,
                self@.classes == before.classes,
                self@.levels == before.levels,
                self@.keys.len() == bound.len(),
                done == with_ranges(bound, ranges),
                forall|k: int| 0 <= k < j ==> self@.keys[k] == done[k],
                forall|k: int| j <= k < bound.len() ==> self@.keys[k] == bound[k],
            decreases bound.len() - j,
        {
            let def = self.keys.at(j).1;
            if let Some(r) = collected.ranges.get(&def.property) {
                let range = Some(r.clone());
                let filled = KeyDef { key: def.key.clone(), property: def.property.clone(), range };
                self.keys.set_at(j, filled);
            }
            j = j + 1;
        }
        assert(self@.keys =~= done);
    }

    // =================================================================================
    // Questions
    // =================================================================================

    /// What the graph says about a class, if it says anything.
    pub fn class(&self, iri: &str) -> (r: Option<&ClassDef>)
        ensures
            match r {
                Some(c) => lookup(self@.classes, iri@) == Some(c@),
                None => lookup(self@.classes, iri@) is None,
            },
    {
        self.classes.get(iri)
    }

    /// What the graph says about a `key=` column, if it says anything. `None`
    /// is not an error: an unclaimed key still lands losslessly, flagged
    /// `log:undeclaredKey`, so drift is measurable rather than silent.
    pub fn key(&self, name: &str) -> (r: Option<&KeyDef>)
        ensures
            match r {
                Some(k) => lookup(self@.keys, name@) == Some(k@),
                None => lookup(self@.keys, name@) is None,
            },
    {
        self.keys.get(name)
    }

    /// A level's rank, or `None` for a level this graph does not know. Resolve
    /// a segment's level through this once, at segment start, where a bad level
    /// can fail loudly; never per entry.
    pub fn rank(&self, level_iri: &str) -> (r: Option<i64>)
        ensures
            r == lookup(self@.levels, level_iri@),
    {
        match self.levels.get(level_iri) {
            Some(rank) => Some(*rank),
            None => None,
        }
    }

    /// Every level, IRI and rank, in the order of the IRIs.
    pub fn levels(&self) -> (r: Vec<(&str, i64)>)
        ensures
            ascending(self@.levels),
            r.len() == self@.levels.len(),
            forall|i: int|
                0 <= i < r.len() ==> (#[trigger] r[i]).0@ == self@.levels[i].0 && r[i].1
                    == self@.levels[i].1,
    {
        proof {
            use_type_invariant(&self.levels);
            law_table_ascending(self.levels);
        }
        let mut r: Vec<(&str, i64)> = Vec::new();
        let mut i: usize = 0;
        while i < self.levels.len()
            invariant
                i <= self@.levels.len(),
                r.len() == i,
                forall|k: int|
                    0 <= k < i ==> (#[trigger] r[k]).0@ == self@.levels[k].0 && r[k].1
                        == self@.levels[k].1,
            decreases self@.levels.len() - i,
        {
            let (iri, rank) = self.levels.at(i);
            r.push((iri.as_str(), *rank));
            i = i + 1;
        }
        r
    }

    /// Every class the graph describes, in the order of the IRIs.
    pub fn classes(&self) -> (r: Vec<&ClassDef>)
        ensures
            ascending(self@.classes),
            r.len() == self@.classes.len(),
            forall|i: int| 0 <= i < r.len() ==> (#[trigger] r[i])@ == self@.classes[i].1,
    {
        proof {
            use_type_invariant(&self.classes);
            law_table_ascending(self.classes);
        }
        let mut r: Vec<&ClassDef> = Vec::new();
        let mut i: usize = 0;
        while i < self.classes.len()
            invariant
                i <= self@.classes.len(),
                r.len() == i,
                forall|k: int| 0 <= k < i ==> (#[trigger] r[k])@ == self@.classes[k].1,
            decreases self@.classes.len() - i,
        {
            r.push(self.classes.at(i).1);
            i = i + 1;
        }
        r
    }

    /// Every declared key, in the order of the names.
    pub fn keys(&self) -> (r: Vec<&KeyDef>)
        ensures
            ascending(self@.keys),
            r.len() == self@.keys.len(),
            forall|i: int| 0 <= i < r.len() ==> (#[trigger] r[i])@ == self@.keys[i].1,
    {
        proof {
            use_type_invariant(&self.keys);
            law_table_ascending(self.keys);
        }
        let mut r: Vec<&KeyDef> = Vec::new();
        let mut i: usize = 0;
        while i < self.keys.len()
            invariant
                i <= self@.keys.len(),
                r.len() == i,
                forall|k: int| 0 <= k < i ==> (#[trigger] r[k])@ == self@.keys[k].1,
            decreases self@.keys.len() - i,
        {
            r.push(self.keys.at(i).1);
            i = i + 1;
        }
        r
    }
}

/// Once a statement could not be taken in, none after it is.
proof fn lemma_stops(d: LoadView, s: Seq<StatementView>, n: int)
    requires
        0 <= n <= s.len(),
        load_statements(d, s.take(n)).1 is Some,
    ensures
        load_statements(d, s.take(s.len() as int)) == load_statements(d, s.take(n)),
    decreases s.len() - n,
{
    if n < s.len() {
        assert(s.take(n + 1).drop_last() =~= s.take(n));
        lemma_stops(d, s, n + 1);
    }
}

} // verus!
