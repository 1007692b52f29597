//! What a class inherits: its superclasses, nearest first, and the questions that
//! are answered by walking them.

use vstd::prelude::*;
use vstd::string::*;

use crate::table::lookup;
use crate::text::{copy_texts, has_text, texts};
use crate::vocabulary::{ClassDefView, Vocabulary, VocabularyView, DEFAULT_MIN_LEVEL};

verus! {

/// The declared superclasses of `iri`.
pub open spec fn supers(v: VocabularyView, iri: Seq<char>) -> Seq<Seq<char>> {
    match lookup(v.classes, iri) {
        Some(c) => c.super_classes,
        None => Seq::empty(),
    }
}

/// How many of the described classes are not among `seen`.
pub open spec fn unseen(
    classes: Seq<(Seq<char>, ClassDefView)>,
    seen: Seq<Seq<char>>,
) -> nat
    decreases classes.len(),
{
    if classes.len() == 0 {
        0
    } else {
        let rest = unseen(classes.drop_first(), seen);
        if seen.contains(classes[0].0) {
            rest
        } else {
            rest + 1
        }
    }
}

/// Seeing a class leaves fewer unseen.
pub proof fn lemma_unseen(
    classes: Seq<(Seq<char>, ClassDefView)>,
    seen: Seq<Seq<char>>,
    iri: Seq<char>,
)
    ensures
        unseen(classes, seen.push(iri)) <= unseen(classes, seen),
        lookup(classes, iri) is Some && !seen.contains(iri) ==> unseen(classes, seen.push(iri))
            < unseen(classes, seen),
    decreases classes.len(),
{
    if classes.len() > 0 {
        lemma_unseen(classes.drop_first(), seen, iri);
        let k = classes[0].0;
        let more = seen.push(iri);
        if seen.contains(k) {
            let i = choose|i: int| 0 <= i < seen.len() && seen[i] == k;
            assert(more[i] == k);
        }
        if more.contains(k) && k != iri {
            let i = choose|i: int| 0 <= i < more.len() && more[i] == k;
            assert(seen[i] == k);
        }
        assert(more[seen.len() as int] == iri);
    }
}

/// The classes reached from `queue`, after those in `seen`, breadth first: each class
/// once, and its superclasses after every class that was waiting before them.
pub open spec fn walk(
    v: VocabularyView,
    seen: Seq<Seq<char>>,
    queue: Seq<Seq<char>>,
) -> Seq<Seq<char>>
    decreases unseen(v.classes, seen), queue.len(),
{
    if queue.len() == 0 {
        seen
    } else if seen.contains(queue[0]) {
        walk(v, seen, queue.drop_first())
    } else {
        proof {
            lemma_unseen(v.classes, seen, queue[0]);
        }
        walk(v, seen.push(queue[0]), queue.drop_first() + supers(v, queue[0]))
    }
}

/// A class and everything it descends from, nearest first.
pub open spec fn lineage(v: VocabularyView, class: Seq<char>) -> Seq<Seq<char>> {
    walk(v, Seq::empty(), seq![class])
}

/// The first thing that a class of `line` declares, where `declares` says what a class
/// declares.
pub open spec fn first_declared(
    v: VocabularyView,
    line: Seq<Seq<char>>,
    declares: spec_fn(ClassDefView) -> Option<Seq<char>>,
) -> Option<Seq<char>>
    decreases line.len(),
{
    if line.len() == 0 {
        None
    } else {
        match lookup(v.classes, line[0]) {
            Some(c) if declares(c) is Some => declares(c),
            _ => first_declared(v, line.drop_first(), declares),
        }
    }
}

/// The level a class declares.
pub open spec fn own_level() -> spec_fn(ClassDefView) -> Option<Seq<char>> {
    |c: ClassDefView| c.min_level
}

/// The predicate a class declares for its subject.
pub open spec fn own_predicate() -> spec_fn(ClassDefView) -> Option<Seq<char>> {
    |c: ClassDefView| c.subject_predicate
}

/// The level a class is written at: its own `log:minLevel`, else the nearest
/// superclass's that declares one, else the default.
pub open spec fn level_of(v: VocabularyView, class: Seq<char>) -> Seq<char> {
    match first_declared(v, lineage(v, class), own_level()) {
        Some(level) => level,
        None => DEFAULT_MIN_LEVEL@,
    }
}

/// The predicate a class's subject column means, where one is declared.
pub open spec fn predicate_of(v: VocabularyView, class: Seq<char>) -> Option<Seq<char>> {
    first_declared(v, lineage(v, class), own_predicate())
}

/// Whether `class` is `ancestor`, or descends from it.
pub open spec fn descends(v: VocabularyView, class: Seq<char>, ancestor: Seq<char>) -> bool {
    lineage(v, class).contains(ancestor)
}

/// Whether a class is written into a segment running at `rank`: its level is placed
/// no higher on the dial, or is not placed on it at all.
pub open spec fn emitted(v: VocabularyView, class: Seq<char>, rank: int) -> bool {
    match lookup(v.levels, level_of(v, class)) {
        Some(min) => min <= rank,
        None => true,
    }
}

impl Vocabulary {
    /// A class and everything it descends from, nearest first.
    ///
    /// Breadth-first, so the closest declaration wins, and cycle-safe, because
    /// nothing stops an extension from writing one.
    fn lineage(&self, class_iri: &str) -> (r: Vec<String>)
        ensures
            texts(r@) == lineage(self@, class_iri@),
    {
        let ghost v = self@;
        let mut seen: Vec<String> = Vec::new();
        let mut queue: Vec<String> = Vec::new();
        queue.push(class_iri.to_owned());
        let mut i: usize = 0;
        assert(texts(queue@).skip(0) =~= seq![class_iri@]);
        assert(texts(seen@) =~= Seq::empty());
        while i < queue.len()
            invariant
                i <= queue.len(),
                v == self@,
                walk(v, texts(seen@), texts(queue@).skip(i as int)) == lineage(v, class_iri@),
            decreases unseen(v.classes, texts(seen@)), queue.len() - i,
        {
            let ghost before = texts(seen@);
            let ghost rest = texts(queue@).skip(i as int);
            let iri = queue[i].clone();
            assert(rest[0] == iri@);
            assert(rest.drop_first() =~= texts(queue@).skip(i + 1));
            i = i + 1;
            if !has_text(&seen, &iri) {
                proof {
                    lemma_unseen(v.classes, before, iri@);
                }
                if let Some(class) = self.class(&iri) {
                    let ghost waiting = queue@;
                    let mut more = copy_texts(&class.super_classes);
                    let ghost added = texts(more@);
                    queue.append(&mut more);
                    proof {
                        assert(texts(queue@) =~= texts(waiting) + added);
                        assert(texts(queue@).skip(i as int) =~= rest.drop_first() + added);
                        assert(added == supers(v, iri@));
                    }
                } else {
                    assert(rest.drop_first() + supers(v, iri@) =~= rest.drop_first());
                }
                seen.push(iri);
                assert(texts(seen@) =~= before.push(iri@));
            }
        }
        assert(texts(queue@).skip(i as int) =~= Seq::empty());
        seen
    }

    /// The level a class is written at: its own `log:minLevel`, else the
    /// nearest superclass that declares one, else [`DEFAULT_MIN_LEVEL`].
    pub fn min_level<'a>(&'a self, class_iri: &str) -> (r: &'a str)
        ensures
            r@ == level_of(self@, class_iri@),
    {
        let line = self.lineage(class_iri);
        let ghost ls = texts(line@);
        let mut i: usize = 0;
        assert(ls.skip(0) =~= ls);
        while i < line.len()
            invariant
                i <= line.len(),
                ls == texts(line@),
                ls == lineage(self@, class_iri@),
                first_declared(self@, ls, own_level()) == first_declared(
                    self@,
                    ls.skip(i as int),
                    own_level(),
                ),
            decreases line.len() - i,
        {
            assert(ls.skip(i as int)[0] == line@[i as int]@);
            assert(ls.skip(i as int).drop_first() =~= ls.skip(i + 1));
            if let Some(class) = self.class(&line[i]) {
                if let Some(level) = &class.min_level {
                    return level.as_str();
                }
            }
            i = i + 1;
        }
        assert(ls.skip(i as int) =~= Seq::empty());
        DEFAULT_MIN_LEVEL
    }

    /// The predicate a class's subject column means, walking superclasses the
    /// same way `min_level` does.
    pub fn subject_predicate<'a>(&'a self, class_iri: &str) -> (r: Option<&'a str>)
        ensures
            match r {
                Some(p) => predicate_of(self@, class_iri@) == Some(p@),
                None => predicate_of(self@, class_iri@) is None,
            },
    {
        let line = self.lineage(class_iri);
        let ghost ls = texts(line@);
        let mut i: usize = 0;
        assert(ls.skip(0) =~= ls);
        while i < line.len()
            invariant
                i <= line.len(),
                ls == texts(line@),
                ls == lineage(self@, class_iri@),
                first_declared(self@, ls, own_predicate()) == first_declared(
                    self@,
                    ls.skip(i as int),
                    own_predicate(),
                ),
            decreases line.len() - i,
        {
            assert(ls.skip(i as int)[0] == line@[i as int]@);
            assert(ls.skip(i as int).drop_first() =~= ls.skip(i + 1));
            if let Some(class) = self.class(&line[i]) {
                if let Some(predicate) = &class.subject_predicate {
                    return Some(predicate.as_str());
                }
            }
            i = i + 1;
        }
        assert(ls.skip(i as int) =~= Seq::empty());
        None
    }

    /// Whether a class is written into a segment running at `segment_rank`.
    ///
    /// One comparison, and `log:always` (rank -1) needs no special case: it
    /// sorts below every settable level, which is the whole always-land set
    /// implemented by arithmetic instead of by a list in code.
    ///
    /// A class whose declared minimum is a level nothing defines cannot be placed
    /// on the dial. Writing it is the safe failure: a spurious entry is visible, a
    /// silently dropped one is exactly the hole the whole design exists to prevent.
    pub fn emits(&self, class_iri: &str, segment_rank: i64) -> (r: bool)
        ensures
            r == emitted(self@, class_iri@, segment_rank as int),
    {
        match self.rank(self.min_level(class_iri)) {
            Some(min) => min <= segment_rank,
            None => true,
        }
    }

    /// Whether `class_iri` is `ancestor`, or descends from it.
    pub fn is_a(&self, class_iri: &str, ancestor: &str) -> (r: bool)
        ensures
            r == descends(self@, class_iri@, ancestor@),
    {
        has_text(&self.lineage(class_iri), ancestor)
    }
}

} // verus!
