//! Triples as plain values, and the RDF library that judges and writes them.

use oxrdf::{LiteralRef, NamedNode, NamedNodeRef, TermRef, TripleRef};
use oxrdfio::{RdfFormat, RdfSerializer};
use std::collections::HashMap;
use std::io::{read_to_string, Error};
use vstd::prelude::*;
use vstd::string::*;
use vstd::utf8::encode_utf8;

use crate::graph::{SIG_NS, XSD_NS, XSD_STRING};
use crate::rdf::{turtle_document, DocumentView, ObjectView, StatementView};
use crate::text::{chars_of, same_text, starts_with};
use crate::triple::Term::{Iri, Simple, Typed};
use crate::vocabulary::{LOG_NS, PROV_NS, RDF_NS};

verus! {

/// What a triple states of its subject.
#[derive(Debug, PartialEq, Eq)]
pub enum Term {
    /// An IRI.
    Iri(String),
    /// A plain string.
    Simple(String),
    /// A value and the IRI of its datatype.
    Typed(String, String),
}

/// A [`Term`], with its texts as characters.
#[verifier::ext_equal]
pub enum TermView {
    Iri(Seq<char>),
    Simple(Seq<char>),
    Typed(Seq<char>, Seq<char>),
}

impl View for Term {
    type V = TermView;

    open spec fn view(&self) -> TermView {
        match self {
            Term::Iri(s) => TermView::Iri(s@),
            Term::Simple(s) => TermView::Simple(s@),
            Term::Typed(s, d) => TermView::Typed(s@, d@),
        }
    }
}

/// One triple. Its subject is an IRI: there is no blank node to be had.
#[derive(Debug, PartialEq, Eq)]
pub struct Triple {
    /// The IRI it is about.
    pub subject: String,
    /// The IRI of what it states.
    pub predicate: String,
    /// What it states.
    pub object: Term,
}

/// A [`Triple`], with its texts as characters.
#[verifier::ext_equal]
pub struct TripleView {
    pub subject: Seq<char>,
    pub predicate: Seq<char>,
    pub object: TermView,
}

impl View for Triple {
    type V = TripleView;

    open spec fn view(&self) -> TripleView {
        TripleView {
            subject: self.subject@,
            predicate: self.predicate@,
            object: self.object@,
        }
    }
}

/// Triples, with their texts as characters.
pub open spec fn triples(v: Seq<Triple>) -> Seq<TripleView> {
    v.map_values(|t: Triple| t@)
}

/// The triple of a subject, a predicate and an object.
pub open spec fn stating(subject: Seq<char>, predicate: Seq<char>, object: TermView) -> TripleView {
    TripleView { subject, predicate, object }
}

/// The triple of a subject, a predicate and an object.
pub fn triple(subject: &str, predicate: &str, object: Term) -> (r: Triple)
    ensures
        r@ == stating(subject@, predicate@, object@),
{
    Triple { subject: subject.to_owned(), predicate: predicate.to_owned(), object }
}

fn same_term(a: &Term, b: &Term) -> (r: bool)
    ensures
        r == (a@ == b@),
{
    match (a, b) {
        (Term::Iri(a), Term::Iri(b)) => same_text(a, b),
        (Term::Simple(a), Term::Simple(b)) => same_text(a, b),
        (Term::Typed(a, d), Term::Typed(b, e)) => same_text(a, b) && same_text(d, e),
        _ => false,
    }
}

fn same_triple(a: &Triple, b: &Triple) -> (r: bool)
    ensures
        r == (a@ == b@),
{
    same_term(&a.object, &b.object) && same_text(&a.predicate, &b.predicate) && same_text(
        &a.subject,
        &b.subject,
    )
}

/// Triples with one more, unless it is among them already.
pub open spec fn once(s: Seq<TripleView>, t: TripleView) -> Seq<TripleView> {
    if s.contains(t) {
        s
    } else {
        s.push(t)
    }
}

/// Append `candidate` unless the triples already state it.
pub fn push_unique(out: &mut Vec<Triple>, candidate: Triple)
    ensures
        triples(final(out)@) == once(triples(old(out)@), candidate@),
{
    let ghost s = triples(out@);
    let mut i: usize = 0;
    while i < out.len()
        invariant
            i <= out.len(),
            out@ == old(out)@,
            s == triples(out@),
            forall|j: int| 0 <= j < i ==> s[j] != candidate@,
        decreases out.len() - i,
    {
        if same_triple(&out[i], &candidate) {
            assert(s[i as int] == candidate@);
            return;
        }
        i = i + 1;
    }
    assert(!s.contains(candidate@));
    out.push(candidate);
    assert(triples(out@) =~= s.push(candidate@));
}

// =====================================================================================
// Each fact once
// =====================================================================================

/// Triples with each of them once, where it is first stated.
pub open spec fn unrepeated(s: Seq<TripleView>) -> Seq<TripleView>
    decreases s.len(),
{
    if s.len() == 0 {
        Seq::empty()
    } else {
        once(unrepeated(s.drop_last()), s.last())
    }
}

/// Stating each triple once leaves no duplicate, and takes no fact away.
pub proof fn law_unrepeated(s: Seq<TripleView>, q: TripleView)
    ensures
        unrepeated(s).no_duplicates(),
        unrepeated(s).contains(q) <==> s.contains(q),
    decreases s.len(),
{
    if s.len() > 0 {
        let front = s.drop_last();
        let before = unrepeated(front);
        let t = s.last();
        let after = unrepeated(s);
        law_unrepeated(front, q);
        law_unrepeated(front, t);
        assert(s[s.len() - 1] == t);
        if front.contains(q) {
            let i = choose|i: int| 0 <= i < front.len() && front[i] == q;
            assert(s[i] == q);
        }
        if s.contains(q) && q != t {
            let i = choose|i: int| 0 <= i < s.len() && s[i] == q;
            assert(front[i] == q);
        }
        if !before.contains(t) {
            assert(after[before.len() as int] == t);
            if before.contains(q) {
                let i = choose|i: int| 0 <= i < before.len() && before[i] == q;
                assert(after[i] == q);
            }
            if after.contains(q) && q != t {
                let i = choose|i: int| 0 <= i < after.len() && after[i] == q;
                assert(before[i] == q);
            }
            assert forall|i: int, j: int|
                0 <= i < after.len() && 0 <= j < after.len() && i != j implies after[i]
                != after[j] by {
                if i < before.len() && j < before.len() {
                    assert(before[i] != before[j]);
                } else if i < before.len() {
                    assert(before.contains(before[i]));
                } else {
                    assert(before.contains(before[j]));
                }
            }
        }
    }
}

/// What has no duplicate stays as it is, and stays in front of what follows.
pub proof fn law_unrepeated_front(a: Seq<TripleView>, b: Seq<TripleView>)
    requires
        a.no_duplicates(),
    ensures
        unrepeated(a) == a,
        a.is_prefix_of(unrepeated(a + b)),
    decreases a.len() + b.len(),
{
    let all = a + b;
    if b.len() > 0 {
        law_unrepeated_front(a, b.drop_last());
        assert(all.drop_last() =~= a + b.drop_last());
        let before = unrepeated(all.drop_last());
        let after = unrepeated(all);
        assert(a =~= after.subrange(0, a.len() as int)) by {
            assert(a =~= before.subrange(0, a.len() as int));
        }
    } else {
        assert(all =~= a);
        if a.len() > 0 {
            let front = a.drop_last();
            assert forall|i: int, j: int| 0 <= i < front.len() && 0 <= j < front.len() && i
                != j implies front[i] != front[j] by {
                assert(a[i] != a[j]);
            }
            law_unrepeated_front(front, Seq::empty());
            assert(!front.contains(a.last())) by {
                if front.contains(a.last()) {
                    let i = choose|i: int| 0 <= i < front.len() && front[i] == a.last();
                    assert(a[i] != a[a.len() - 1]);
                }
            }
            assert(front.push(a.last()) =~= a);
        } else {
            assert(unrepeated(a) =~= a);
        }
        assert(a =~= a.subrange(0, a.len() as int));
    }
}

/// The bucket that a text falls into.
spec fn bucket(s: Seq<char>) -> nat
    decreases s.len(),
{
    if s.len() == 0 {
        0
    } else {
        (bucket(s.drop_last()) * 131 + s.last() as u32 as nat) % 1_000_003
    }
}

fn bucket_of(s: &str) -> (k: u64)
    ensures
        k == bucket(s@),
{
    let c = chars_of(s);
    let mut k: u64 = 0;
    let mut i: usize = 0;
    assert(c@.take(0) =~= Seq::empty());
    while i < c.len()
        invariant
            i <= c.len(),
            k < 1_000_003,
            k == bucket(c@.take(i as int)),
        decreases c.len() - i,
    {
        assert(c@.take(i + 1).drop_last() =~= c@.take(i as int));
        let code = c[i] as u32;
        k = (k * 131 + code as u64) % 1_000_003;
        i = i + 1;
    }
    assert(c@.take(i as int) =~= c@);
    k
}

/// Whether the place `i` is on record under the bucket `k`.
spec fn recorded(places: Map<u64, Vec<usize>>, k: u64, i: int) -> bool {
    places.contains_key(k) && exists|j: int|
        0 <= j < places[k]@.len() && #[trigger] places[k]@[j] as int == i
}

/// Whether the place of every triple is on record under the bucket of its subject.
spec fn indexed(s: Seq<TripleView>, places: Map<u64, Vec<usize>>) -> bool {
    &&& forall|i: int|
        0 <= i < s.len() ==> recorded(places, bucket((#[trigger] s[i]).subject) as u64, i)
    &&& forall|k: u64, j: int|
        places.contains_key(k) && 0 <= j < places[k]@.len() ==> (#[trigger] places[k]@[j])
            < s.len()
}

/// Append `t` unless the triples already state it. Only those in the bucket of its subject
/// are held against it.
fn add_unique(out: &mut Vec<Triple>, places: &mut HashMap<u64, Vec<usize>>, t: Triple)
    requires
        indexed(triples(old(out)@), old(places)@),
    ensures
        triples(final(out)@) == once(triples(old(out)@), t@),
        indexed(triples(final(out)@), final(places)@),
{
    broadcast use vstd::std_specs::hash::group_hash_axioms;

    let ghost s = triples(out@);
    let ghost before = places@;
    let k = bucket_of(&t.subject);
    let mut here: Vec<usize> = match places.remove(&k) {
        Some(v) => v,
        None => Vec::new(),
    };
    let ghost listed = here@;
    assert(forall|j: int| 0 <= j < here@.len() ==> (#[trigger] here@[j]) < s.len()) by {
        if before.contains_key(k) {
            assert(here == before[k]);
        }
    }
    let mut found = false;
    let mut j: usize = 0;
    while j < here.len() && !found
        invariant
            j <= here.len(),
            s == triples(out@),
            forall|i: int| 0 <= i < here@.len() ==> (#[trigger] here@[i]) < s.len(),
            found ==> s.contains(t@),
            forall|i: int| 0 <= i < j && !found ==> s[(#[trigger] here@[i]) as int] != t@,
        decreases here.len() - j,
    {
        if same_triple(&out[here[j]], &t) {
            assert(s[here@[j as int] as int] == t@);
            found = true;
        }
        j = j + 1;
    }
    proof {
        if !found && s.contains(t@) {
            let i = choose|i: int| 0 <= i < s.len() && s[i] == t@;
            assert(recorded(before, bucket(s[i].subject) as u64, i));
            assert(here@ == before[k]@);
            let m = choose|m: int|
                0 <= m < before[k]@.len() && #[trigger] before[k]@[m] as int == i;
            assert(here@[m] as int == i);
        }
    }
    if !found {
        here.push(out.len());
        push_triple(out, t);
    }
    places.insert(k, here);
    proof {
        let after = triples(out@);
        let now = places@;
        assert forall|i: int| 0 <= i < after.len() implies recorded(
            now,
            bucket((#[trigger] after[i]).subject) as u64,
            i,
        ) by {
            let b = bucket(after[i].subject) as u64;
            if i < s.len() {
                assert(after[i] == s[i]);
                assert(recorded(before, b, i));
                let m = choose|m: int|
                    0 <= m < before[b]@.len() && #[trigger] before[b]@[m] as int == i;
                if b == k {
                    assert(now[b]@[m] as int == i);
                } else {
                    assert(now[b] == before[b]);
                    assert(now[b]@[m] as int == i);
                }
            } else {
                assert(now[b]@[listed.len() as int] as int == i);
            }
        }
        assert forall|b: u64, m: int|
            now.contains_key(b) && 0 <= m < now[b]@.len() implies (#[trigger] now[b]@[m])
            < after.len() by {
            if b == k {
                if m < listed.len() {
                    assert(now[b]@[m] == listed[m]);
                }
            } else {
                assert(now[b] == before[b]);
                assert(before[b]@[m] < s.len());
            }
        }
    }
}

/// The triples of `all`, each of them once.
pub fn each_once(all: Vec<Triple>) -> (out: Vec<Triple>)
    ensures
        triples(out@) == unrepeated(triples(all@)),
{
    let ghost s = triples(all@);
    let mut rest = all;
    let mut turned: Vec<Triple> = Vec::new();
    let ghost n = rest@.len();
    while rest.len() > 0
        invariant
            rest@.len() + turned@.len() == n,
            rest@ == all@.take(rest@.len() as int),
            n == all@.len(),
            forall|i: int| 0 <= i < turned@.len() ==> turned@[i] == all@[n - 1 - i],
        decreases rest.len(),
    {
        match rest.pop() {
            Some(t) => {
                turned.push(t);
            },
            None => {},
        }
        assert(rest@ =~= all@.take(rest@.len() as int));
    }
    let mut out: Vec<Triple> = Vec::new();
    let mut places: HashMap<u64, Vec<usize>> = HashMap::new();
    proof {
        assert(s.take(0) =~= Seq::empty());
        assert(triples(out@) =~= Seq::empty());
    }
    while turned.len() > 0
        invariant
            turned@.len() <= n,
            n == all@.len(),
            s == triples(all@),
            forall|i: int| 0 <= i < turned@.len() ==> turned@[i] == all@[n - 1 - i],
            triples(out@) == unrepeated(s.take(n - turned@.len())),
            indexed(triples(out@), places@),
        decreases turned.len(),
    {
        let ghost k = n - turned@.len();
        match turned.pop() {
            Some(t) => {
                proof {
                    assert(s.take(k + 1).drop_last() =~= s.take(k));
                    assert(s.take(k + 1).last() == t@);
                }
                add_unique(&mut out, &mut places, t);
            },
            None => {},
        }
    }
    assert(s.take(n as int) =~= s);
    out
}

/// Append a triple.
pub fn push_triple(out: &mut Vec<Triple>, t: Triple)
    ensures
        triples(final(out)@) == triples(old(out)@).push(t@),
{
    let ghost s = triples(out@);
    out.push(t);
    assert(triples(out@) =~= s.push(t@));
}

// =====================================================================================
// The RDF library
// =====================================================================================

/// Whether the RDF library takes `token` for an IRI.
pub uninterp spec fn rdf_iri(token: Seq<char>) -> bool;

/// `oxrdf::NamedNode::new`, which keeps the text of what it takes for an IRI as it is:
/// whether it does, which depends on the text alone.
#[verifier::external_body]
pub(crate) fn is_rdf_iri(token: &str) -> (r: bool)
    ensures
        r == rdf_iri(token@),
{
    NamedNode::new(token).is_ok()
}

/// Pairs of texts, as characters.
pub open spec fn namespaces(v: Seq<(&str, &str)>) -> Seq<(Seq<char>, Seq<char>)> {
    v.map_values(|p: (&str, &str)| (p.0@, p.1@))
}

/// The Turtle that triples are written as under the given prefixes, or what went wrong.
pub uninterp spec fn turtle_text(
    prefixes: Seq<(Seq<char>, Seq<char>)>,
    triples: Seq<TripleView>,
) -> Result<Seq<char>, Seq<char>>;

/// Whether no two namespaces are equally long, in bytes.
pub open spec fn lengths_differ(prefixes: Seq<(Seq<char>, Seq<char>)>) -> bool {
    forall|i: int, j: int|
        0 <= i < j < prefixes.len() ==> encode_utf8((#[trigger] prefixes[i]).1).len()
            != encode_utf8((#[trigger] prefixes[j]).1).len()
}

/// A text that was written, or what went wrong.
pub open spec fn turtle_seen(r: Result<String, String>) -> Result<Seq<char>, Seq<char>> {
    match r {
        Ok(s) => Ok(s@),
        Err(e) => Err(e@),
    }
}

/// Whether a text is made of ASCII letters.
pub open spec fn letters(s: Seq<char>) -> bool {
    forall|i: int|
        0 <= i < s.len() ==> 'a' <= #[trigger] s[i] <= 'z' || 'A' <= s[i] <= 'Z'
}

/// Whether an IRI is a namespace, or a term of it that is made of letters.
pub open spec fn term_of(iri: Seq<char>, ns: Seq<char>) -> bool {
    starts_with(iri, ns) && letters(iri.skip(ns.len() as int))
}

/// Whether an IRI is a namespace that a graph draws on, or a term of one.
pub open spec fn well_known(iri: Seq<char>) -> bool {
    ||| term_of(iri, LOG_NS@)
    ||| term_of(iri, PROV_NS@)
    ||| term_of(iri, SIG_NS@)
    ||| term_of(iri, XSD_NS@)
    ||| term_of(iri, RDF_NS@)
}

/// Whether a text is an IRI: one that the RDF library takes, or one that a graph is known
/// to draw on.
pub open spec fn sound_iri(iri: Seq<char>) -> bool {
    rdf_iri(iri) || well_known(iri)
}

/// Whether a triple is one that can be read where it is written. A datatype of RDF's own
/// namespace is left out: its language strings are no literal without a language.
pub open spec fn sound_triple(t: TripleView) -> bool {
    &&& sound_iri(t.subject)
    &&& sound_iri(t.predicate)
    &&& match t.object {
        TermView::Iri(i) => sound_iri(i),
        TermView::Simple(_) => true,
        TermView::Typed(_, d) => sound_iri(d) && !starts_with(d, RDF_NS@),
    }
}

/// Whether triples are ones that can be read where they are written.
pub open spec fn sound_triples(s: Seq<TripleView>) -> bool {
    forall|i: int| 0 <= i < s.len() ==> sound_triple(#[trigger] s[i])
}

/// Whether prefixes are named by letters, and stand for namespaces that a graph draws on.
pub open spec fn sound_prefixes(prefixes: Seq<(Seq<char>, Seq<char>)>) -> bool {
    forall|i: int|
        0 <= i < prefixes.len() ==> {
            &&& (#[trigger] prefixes[i]).0.len() > 0
            &&& letters(prefixes[i].0)
            &&& well_known(prefixes[i].1)
        }
}

/// A triple as the statement that it is read as. A plain string has the datatype of
/// strings.
pub open spec fn statement_of(t: TripleView) -> StatementView {
    StatementView {
        subject: seq!['<'] + t.subject + seq!['>'],
        predicate: t.predicate,
        object: match t.object {
            TermView::Iri(i) => ObjectView::Iri(i),
            TermView::Simple(s) => ObjectView::Literal(s, XSD_STRING@),
            TermView::Typed(s, d) => ObjectView::Literal(s, d),
        },
    }
}

/// The document that states exactly the given triples, in order.
pub open spec fn document_of(s: Seq<TripleView>) -> DocumentView {
    DocumentView { statements: s.map_values(|t: TripleView| statement_of(t)), error: None }
}

/// Write triples in their order with `oxrdfio::RdfSerializer` as Turtle, under the
/// prefixes given.
///
/// What it writes depends on these alone, as long as no two namespaces are equally long:
/// it tries the longest one first, and in no stated order where two are. Writing to memory
/// does not fail, so only a prefix could make it. And where every IRI is one, the Turtle
/// reader of the same library reads the triples back, each as it is and in their order.
#[verifier::external_body]
pub(crate) fn write_turtle(prefixes: &[(&str, &str)], triples: &[Triple]) -> (r: Result<
    String,
    String,
>)
    requires
        lengths_differ(namespaces(prefixes@)),
    ensures
        turtle_seen(r) == turtle_text(namespaces(prefixes@), self::triples(triples@)),
        sound_prefixes(namespaces(prefixes@)) ==> r is Ok,
        sound_prefixes(namespaces(prefixes@)) && sound_triples(self::triples(triples@))
            ==> turtle_document(r->Ok_0@) == document_of(self::triples(triples@)),
{
    (|| {
        let node = NamedNodeRef::new_unchecked;
        let mut turtle = RdfSerializer::from_format(RdfFormat::Turtle);
        for &(name, ns) in prefixes { turtle = turtle.with_prefix(name, ns).map_err(Error::other)?; }
        let mut out = turtle.for_writer(Vec::new());
        for Triple { subject, predicate, object } in triples {
            let object = match object {
                Iri(i) => TermRef::from(node(i)),
                Simple(v) => LiteralRef::new_simple_literal(v).into(),
                Typed(v, d) => LiteralRef::new_typed_literal(v, node(d)).into(),
            };
            out.serialize_triple(TripleRef::new(node(subject), node(predicate), object))?;
        }
        read_to_string(&out.finish()?[..])
    })().map_err(|e| e.to_string())
}

} // verus!
