//! What holds of inheritance.

use vstd::prelude::*;
use vstd::string::*;

use crate::lineage::{
    descends, emitted, first_declared, lemma_unseen, level_of, lineage, own_level, own_predicate,
    predicate_of, supers, unseen, walk,
};
use crate::table::lookup;
use crate::vocabulary::{ClassDefView, VocabularyView, DEFAULT_MIN_LEVEL};

verus! {

/// Whether the step from place `i` of `p` to the next is one from a class to a
/// superclass that it declares.
pub open spec fn steps(v: VocabularyView, p: Seq<Seq<char>>, i: int) -> bool {
    supers(v, p[i]).contains(p[i + 1])
}

/// Whether `p` leads from `class` to `to`, each time from a class to a superclass.
pub open spec fn leads(
    v: VocabularyView,
    class: Seq<char>,
    to: Seq<char>,
    p: Seq<Seq<char>>,
) -> bool {
    &&& p.len() > 0
    &&& p[0] == class
    &&& p.last() == to
    &&& forall|i: int| 0 <= i < p.len() - 1 ==> #[trigger] steps(v, p, i)
}

/// Whether `n` steps from class to superclass lead from `class` to `to`.
pub open spec fn path(v: VocabularyView, class: Seq<char>, to: Seq<char>, n: nat) -> bool {
    exists|p: Seq<Seq<char>>| #[trigger] leads(v, class, to, p) && p.len() == n + 1
}

/// No step leads to the class itself, and a longer path has a last step.
proof fn lemma_last_step(v: VocabularyView, class: Seq<char>, to: Seq<char>, n: nat) -> (mid: Seq<char>)
    requires
        path(v, class, to, n),
    ensures
        n == 0 ==> class == to,
        n > 0 ==> path(v, class, mid, (n - 1) as nat) && supers(v, mid).contains(to),
{
    let p = choose|p: Seq<Seq<char>>| #[trigger] leads(v, class, to, p) && p.len() == n + 1;
    if n > 0 {
        let q = p.drop_last();
        assert(steps(v, p, n - 1));
        assert forall|i: int| 0 <= i < q.len() - 1 implies #[trigger] steps(v, q, i) by {
            assert(steps(v, p, i));
        }
        assert(leads(v, class, q.last(), q));
        q.last()
    } else {
        class
    }
}

/// No step at all leads to the class itself.
proof fn lemma_no_step(v: VocabularyView, class: Seq<char>)
    ensures
        path(v, class, class, 0),
{
    let p = seq![class];
    assert(leads(v, class, class, p));
}

/// Whether `n` is the least number of steps from `class` to `to`.
pub open spec fn distance(v: VocabularyView, class: Seq<char>, to: Seq<char>, n: nat) -> bool {
    path(v, class, to, n) && forall|m: nat| #[trigger] path(v, class, to, m) ==> n <= m
}

/// One more step on a path.
proof fn lemma_step(
    v: VocabularyView,
    class: Seq<char>,
    mid: Seq<char>,
    to: Seq<char>,
    n: nat,
)
    requires
        path(v, class, mid, n),
        supers(v, mid).contains(to),
    ensures
        path(v, class, to, n + 1),
{
    let p = choose|p: Seq<Seq<char>>| #[trigger] leads(v, class, mid, p) && p.len() == n + 1;
    let q = p.push(to);
    assert forall|i: int| 0 <= i < q.len() - 1 implies #[trigger] steps(v, q, i) by {
        if i < p.len() - 1 {
            assert(steps(v, p, i));
        }
    }
    assert(leads(v, class, to, q));
}

/// Two paths make one.
proof fn lemma_path_join(
    v: VocabularyView,
    a: Seq<char>,
    b: Seq<char>,
    c: Seq<char>,
    m: nat,
    n: nat,
)
    requires
        path(v, a, b, m),
        path(v, b, c, n),
    ensures
        path(v, a, c, m + n),
    decreases n,
{
    let mid = lemma_last_step(v, b, c, n);
    if n > 0 {
        lemma_path_join(v, a, b, mid, m, (n - 1) as nat);
        lemma_step(v, a, mid, c, (m + n - 1) as nat);
    }
}

// =====================================================================================
// The walk, with the distance of each class
// =====================================================================================

/// What the walk keeps: `ds` and `dq` are the distances of what has been seen and of
/// what is waiting, in order, and nothing nearer has been missed.
spec fn in_order(
    v: VocabularyView,
    class: Seq<char>,
    seen: Seq<Seq<char>>,
    ds: Seq<nat>,
    queue: Seq<Seq<char>>,
    dq: Seq<nat>,
) -> bool {
    &&& ds.len() == seen.len()
    &&& dq.len() == queue.len()
    &&& forall|i: int| 0 <= i < seen.len() ==> distance(v, class, #[trigger] seen[i], ds[i])
    &&& forall|j: int| 0 <= j < queue.len() ==> path(v, class, #[trigger] queue[j], dq[j])
    &&& forall|i: int, j: int| 0 <= i <= j < ds.len() ==> ds[i] <= ds[j]
    &&& forall|i: int, j: int|
        0 <= i <= j < dq.len() ==> #[trigger] dq[i] <= #[trigger] dq[j] && dq[j] <= dq[i] + 1
    &&& forall|i: int, j: int|
        0 <= i < ds.len() && 0 <= j < dq.len() ==> #[trigger] ds[i] <= #[trigger] dq[j]
    &&& forall|i: int, to: Seq<char>|
        0 <= i < seen.len() && #[trigger] supers(v, seen[i]).contains(to) ==> seen.contains(to)
            || waits(queue, dq, to, ds[i] + 1)
}

/// Whether `to` is waiting at a distance of at most `n`.
spec fn waits(queue: Seq<Seq<char>>, dq: Seq<nat>, to: Seq<char>, n: nat) -> bool {
    exists|j: int| 0 <= j < queue.len() && #[trigger] queue[j] == to && dq[j] <= n
}

/// Whether everything nearer than what waits first has been seen, and everything as
/// near has been seen or waits.
spec fn complete(
    v: VocabularyView,
    class: Seq<char>,
    seen: Seq<Seq<char>>,
    queue: Seq<Seq<char>>,
    dq: Seq<nat>,
) -> bool {
    forall|to: Seq<char>, n: nat| #[trigger]
        path(v, class, to, n) && n <= dq[0] ==> seen.contains(to) || (n == dq[0] && waits(
            queue,
            dq,
            to,
            n,
        ))
}

/// Once what was waiting first has been seen, the walk goes on in order.
proof fn lemma_complete(
    v: VocabularyView,
    class: Seq<char>,
    seen: Seq<Seq<char>>,
    ds: Seq<nat>,
    queue: Seq<Seq<char>>,
    dq: Seq<nat>,
    f: nat,
    head: Seq<char>,
)
    requires
        in_order(v, class, seen, ds, queue, dq),
        queue.len() > 0,
        f <= dq[0] <= f + 1,
        seen.contains(head),
        forall|to: Seq<char>, n: nat| #[trigger]
            path(v, class, to, n) && n <= f ==> seen.contains(to) || (n == f && (to == head
                || waits(queue, dq, to, n))),
    ensures
        complete(v, class, seen, queue, dq),
{
    assert forall|to: Seq<char>, n: nat| #[trigger] path(v, class, to, n) && n <= dq[0] implies (
    seen.contains(to) || (n == dq[0] && waits(queue, dq, to, n))) by {
        if n <= f {
            if !seen.contains(to) {
                assert(waits(queue, dq, to, n));
                let j = choose|j: int| 0 <= j < queue.len() && #[trigger] queue[j] == to && dq[j] <= n;
                assert(dq[0] <= dq[j]);
            }
        } else {
            let mid = lemma_last_step(v, class, to, n);
            assert(path(v, class, mid, f));
            if !seen.contains(mid) {
                assert(waits(queue, dq, mid, f));
                let j = choose|j: int|
                    0 <= j < queue.len() && #[trigger] queue[j] == mid && dq[j] <= f;
                assert(dq[0] <= dq[j]);
            }
            let i = choose|i: int| 0 <= i < seen.len() && seen[i] == mid;
            assert(distance(v, class, seen[i], ds[i]));
            assert(ds[i] <= f);
            assert(supers(v, seen[i]).contains(to));
            if !seen.contains(to) {
                let j = choose|j: int|
                    0 <= j < queue.len() && #[trigger] queue[j] == to && dq[j] <= ds[i] + 1;
                assert(dq[0] <= dq[j]);
                assert(waits(queue, dq, to, n));
            }
        }
    }
}

/// The walk ends with everything that can be reached, in order of distance.
proof fn lemma_walk(
    v: VocabularyView,
    class: Seq<char>,
    seen: Seq<Seq<char>>,
    ds: Seq<nat>,
    queue: Seq<Seq<char>>,
    dq: Seq<nat>,
) -> (d: Seq<nat>)
    requires
        in_order(v, class, seen, ds, queue, dq),
        queue.len() > 0 ==> complete(v, class, seen, queue, dq),
    ensures
        in_order(v, class, walk(v, seen, queue), d, Seq::empty(), Seq::empty()),
        seen.len() <= walk(v, seen, queue).len(),
        walk(v, seen, queue).take(seen.len() as int) == seen,
        forall|j: int| 0 <= j < queue.len() ==> walk(v, seen, queue).contains(#[trigger] queue[j]),
    decreases unseen(v.classes, seen), queue.len(),
{
    if queue.len() == 0 {
        assert(seen.take(seen.len() as int) =~= seen);
        assert(queue =~= Seq::empty());
        assert(dq =~= Seq::empty());
        ds
    } else {
        let head = queue[0];
        let f = dq[0];
        let rest = queue.drop_first();
        let dr = dq.drop_first();
        assert(forall|j: int| 0 <= j < rest.len() ==> rest[j] == #[trigger] queue[j + 1]);
        assert(forall|j: int| 0 <= j < dr.len() ==> dr[j] == #[trigger] dq[j + 1]);
        assert forall|to: Seq<char>, n: nat| waits(queue, dq, to, n) && to != head implies waits(
            rest,
            dr,
            to,
            n,
        ) by {
            let j = choose|j: int| 0 <= j < queue.len() && #[trigger] queue[j] == to && dq[j] <= n;
            assert(rest[j - 1] == to && dr[j - 1] <= n);
        }
        if seen.contains(head) {
            assert(in_order(v, class, seen, ds, rest, dr));
            if rest.len() > 0 {
                assert(rest[0] == queue[1] && dr[0] == dq[1]);
                lemma_complete(v, class, seen, ds, rest, dr, f, head);
            }
            let d = lemma_walk(v, class, seen, ds, rest, dr);
            let all = walk(v, seen, queue);
            assert forall|j: int| 0 <= j < queue.len() implies all.contains(#[trigger] queue[j]) by {
                if j == 0 {
                    let i = choose|i: int| 0 <= i < seen.len() && seen[i] == head;
                    assert(all.take(seen.len() as int)[i] == all[i]);
                } else {
                    assert(rest[j - 1] == queue[j]);
                }
            }
            d
        } else {
            lemma_unseen(v.classes, seen, head);
            let up = supers(v, head);
            let more = seen.push(head);
            let dm = ds.push(f);
            let next = rest + up;
            let du = Seq::new(up.len(), |i: int| f + 1);
            let dn = dr + du;
            lemma_visit(v, class, seen, ds, queue, dq);
            if next.len() > 0 {
                lemma_complete(v, class, more, dm, next, dn, f, head);
            }
            let d = lemma_walk(v, class, more, dm, next, dn);
            let all = walk(v, seen, queue);
            assert(all == walk(v, more, next));
            assert(all.take(seen.len() as int) =~= seen) by {
                assert(all.take(more.len() as int) == more);
                assert forall|i: int| 0 <= i < seen.len() implies all[i] == seen[i] by {
                    assert(all.take(more.len() as int)[i] == more[i]);
                }
            }
            assert forall|j: int| 0 <= j < queue.len() implies all.contains(#[trigger] queue[j]) by {
                if j == 0 {
                    assert(all.take(more.len() as int)[seen.len() as int] == head);
                    assert(all[seen.len() as int] == head);
                } else {
                    assert(next[j - 1] == queue[j]);
                }
            }
            d
        }
    }
}

/// Visiting what waits first keeps the walk in order.
proof fn lemma_visit(
    v: VocabularyView,
    class: Seq<char>,
    seen: Seq<Seq<char>>,
    ds: Seq<nat>,
    queue: Seq<Seq<char>>,
    dq: Seq<nat>,
)
    requires
        in_order(v, class, seen, ds, queue, dq),
        queue.len() > 0,
        complete(v, class, seen, queue, dq),
        !seen.contains(queue[0]),
    ensures
        ({
            let head = queue[0];
            let f = dq[0];
            let up = supers(v, head);
            let next = queue.drop_first() + up;
            let dn = dq.drop_first() + Seq::new(up.len(), |i: int| f + 1);
            &&& in_order(v, class, seen.push(head), ds.push(f), next, dn)
            &&& next.len() > 0 ==> f <= dn[0] <= f + 1
            &&& seen.push(head).contains(head)
            &&& forall|to: Seq<char>, n: nat| #[trigger]
                path(v, class, to, n) && n <= f ==> seen.push(head).contains(to) || (n == f && (to
                    == head || waits(next, dn, to, n)))
        }),
{
    let head = queue[0];
    let f = dq[0];
    let up = supers(v, head);
    let rest = queue.drop_first();
    let dr = dq.drop_first();
    let next = rest + up;
    let dn = dr + Seq::new(up.len(), |i: int| f + 1);
    let more = seen.push(head);
    let dm = ds.push(f);
    assert(more[seen.len() as int] == head);
    assert(path(v, class, head, f));
    assert(distance(v, class, head, f)) by {
        assert forall|m: nat| #[trigger] path(v, class, head, m) implies f <= m by {
            if m < f {
                assert(seen.contains(head) || (m == dq[0] && waits(queue, dq, head, m)));
            }
        }
    }
    assert forall|x: Seq<char>| seen.contains(x) implies more.contains(x) by {
        let i = choose|i: int| 0 <= i < seen.len() && seen[i] == x;
        assert(more[i] == x);
    }
    assert forall|to: Seq<char>, n: nat| waits(queue, dq, to, n) implies to == head || waits(
        next,
        dn,
        to,
        n,
    ) by {
        let j = choose|j: int| 0 <= j < queue.len() && #[trigger] queue[j] == to && dq[j] <= n;
        if j > 0 {
            assert(next[j - 1] == to && dn[j - 1] == dq[j]);
        }
    }
    assert forall|i: int| 0 <= i < more.len() implies distance(
        v,
        class,
        #[trigger] more[i],
        dm[i],
    ) by {
        if i < seen.len() {
            assert(more[i] == seen[i]);
        }
    }
    assert forall|j: int| 0 <= j < next.len() implies path(v, class, #[trigger] next[j], dn[j]) by {
        if j < rest.len() {
            assert(next[j] == queue[j + 1] && dn[j] == dq[j + 1]);
        } else {
            assert(next[j] == up[j - rest.len()]);
            assert(up.contains(up[j - rest.len()]));
            lemma_step(v, class, head, next[j], f);
        }
    }
    assert forall|i: int, j: int| 0 <= i <= j < dm.len() implies dm[i] <= dm[j] by {
        if j == ds.len() && i < ds.len() {
            assert(ds[i] <= dq[0]);
        }
    }
    assert forall|i: int| 0 <= i < dn.len() implies f <= #[trigger] dn[i] <= f + 1 by {
        if i < dr.len() {
            assert(dn[i] == dq[i + 1]);
            assert(dq[0] <= dq[i + 1] <= dq[0] + 1);
        }
    }
    assert forall|i: int, j: int| 0 <= i <= j < dn.len() implies #[trigger] dn[i] <= #[trigger] dn[j]
        && dn[j] <= dn[i] + 1 by {
        if j < dr.len() {
            assert(dn[i] == dq[i + 1] && dn[j] == dq[j + 1]);
        }
    }
    assert forall|i: int, j: int| 0 <= i < dm.len() && 0 <= j < dn.len() implies #[trigger] dm[i]
        <= #[trigger] dn[j] by {
        if i < ds.len() {
            assert(ds[i] <= dq[0]);
        }
    }
    assert forall|i: int, to: Seq<char>|
        0 <= i < more.len() && #[trigger] supers(v, more[i]).contains(to) implies more.contains(to)
        || waits(next, dn, to, dm[i] + 1) by {
        if i < seen.len() {
            assert(more[i] == seen[i]);
            assert(supers(v, seen[i]).contains(to));
        } else {
            let k = choose|k: int| 0 <= k < up.len() && up[k] == to;
            assert(next[rest.len() + k] == to);
            assert(dn[rest.len() + k] == f + 1);
        }
    }
}

/// A lineage holds its classes in order of their distance, and nothing that can be
/// reached is missing from it.
proof fn lemma_lineage(v: VocabularyView, class: Seq<char>) -> (d: Seq<nat>)
    ensures
        in_order(v, class, lineage(v, class), d, Seq::empty(), Seq::empty()),
        lineage(v, class).len() > 0,
        lineage(v, class)[0] == class,
{
    let queue = seq![class];
    let dq = seq![0nat];
    let none = Seq::<Seq<char>>::empty();
    lemma_no_step(v, class);
    assert forall|to: Seq<char>, n: nat| #[trigger] path(v, class, to, n) && n <= dq[0] implies (
    none.contains(to) || (n == dq[0] && waits(queue, dq, to, n))) by {
        let mid = lemma_last_step(v, class, to, n);
        assert(queue[0] == to && dq[0] <= n);
    }
    let d = lemma_walk(v, class, none, Seq::empty(), queue, dq);
    let all = lineage(v, class);
    assert(all.contains(queue[0]));
    let one = none.push(class);
    let rest = queue.drop_first() + supers(v, class);
    assert(all == walk(v, one, rest)) by {
        assert(!none.contains(class));
    }
    lemma_walk_keeps(v, one, rest);
    assert(all[0] == one[0]);
    d
}

/// The walk keeps what has been seen, in its place.
proof fn lemma_walk_keeps(v: VocabularyView, seen: Seq<Seq<char>>, queue: Seq<Seq<char>>)
    ensures
        seen.len() <= walk(v, seen, queue).len(),
        forall|i: int| 0 <= i < seen.len() ==> walk(v, seen, queue)[i] == #[trigger] seen[i],
    decreases unseen(v.classes, seen), queue.len(),
{
    if queue.len() > 0 {
        if seen.contains(queue[0]) {
            lemma_walk_keeps(v, seen, queue.drop_first());
        } else {
            lemma_unseen(v.classes, seen, queue[0]);
            let more = seen.push(queue[0]);
            lemma_walk_keeps(v, more, queue.drop_first() + supers(v, queue[0]));
            assert forall|i: int| 0 <= i < seen.len() implies walk(v, seen, queue)[i]
                == #[trigger] seen[i] by {
                assert(more[i] == seen[i]);
            }
        }
    }
}

// =====================================================================================
// Laws
// =====================================================================================

/// A class descends from exactly what steps from class to superclass lead to.
pub proof fn law_descends(v: VocabularyView, class: Seq<char>, ancestor: Seq<char>)
    ensures
        descends(v, class, ancestor) <==> exists|n: nat| path(v, class, ancestor, n),
{
    let line = lineage(v, class);
    let d = lemma_lineage(v, class);
    if line.contains(ancestor) {
        let i = choose|i: int| 0 <= i < line.len() && line[i] == ancestor;
        assert(distance(v, class, line[i], d[i]));
        assert(path(v, class, ancestor, d[i]));
    }
    if exists|n: nat| path(v, class, ancestor, n) {
        let n = choose|n: nat| path(v, class, ancestor, n);
        lemma_reached(v, class, line, d, ancestor, n);
    }
}

proof fn lemma_reached(
    v: VocabularyView,
    class: Seq<char>,
    line: Seq<Seq<char>>,
    d: Seq<nat>,
    to: Seq<char>,
    n: nat,
)
    requires
        in_order(v, class, line, d, Seq::empty(), Seq::empty()),
        line.contains(class),
        path(v, class, to, n),
    ensures
        line.contains(to),
    decreases n,
{
    let mid = lemma_last_step(v, class, to, n);
    if n > 0 {
        lemma_reached(v, class, line, d, mid, (n - 1) as nat);
        let i = choose|i: int| 0 <= i < line.len() && line[i] == mid;
        assert(supers(v, line[i]).contains(to));
    }
}

/// A class descends from itself.
pub proof fn law_descends_reflexive(v: VocabularyView, class: Seq<char>)
    ensures
        descends(v, class, class),
{
    lemma_no_step(v, class);
    law_descends(v, class, class);
}

/// A class descends from what its ancestors descend from.
pub proof fn law_descends_transitive(
    v: VocabularyView,
    a: Seq<char>,
    b: Seq<char>,
    c: Seq<char>,
)
    requires
        descends(v, a, b),
        descends(v, b, c),
    ensures
        descends(v, a, c),
{
    law_descends(v, a, b);
    law_descends(v, b, c);
    law_descends(v, a, c);
    let m = choose|m: nat| path(v, a, b, m);
    let n = choose|n: nat| path(v, b, c, n);
    lemma_path_join(v, a, b, c, m, n);
}

/// What `iri` declares itself.
pub open spec fn declared(
    v: VocabularyView,
    iri: Seq<char>,
    declares: spec_fn(ClassDefView) -> Option<Seq<char>>,
) -> Option<Seq<char>> {
    match lookup(v.classes, iri) {
        Some(c) => declares(c),
        None => None,
    }
}

proof fn lemma_first_declared(
    v: VocabularyView,
    line: Seq<Seq<char>>,
    declares: spec_fn(ClassDefView) -> Option<Seq<char>>,
)
    ensures
        match first_declared(v, line, declares) {
            Some(x) => exists|i: int|
                0 <= i < line.len() && declared(v, #[trigger] line[i], declares) == Some(x)
                    && forall|j: int| 0 <= j < i ==> declared(v, #[trigger] line[j], declares) is None,
            None => forall|i: int|
                0 <= i < line.len() ==> declared(v, #[trigger] line[i], declares) is None,
        },
    decreases line.len(),
{
    if line.len() > 0 {
        let rest = line.drop_first();
        if declared(v, line[0], declares) is Some {
            assert(declared(v, line[0], declares) == first_declared(v, line, declares));
        } else {
            lemma_first_declared(v, rest, declares);
            match first_declared(v, rest, declares) {
                Some(x) => {
                    let i = choose|i: int|
                        0 <= i < rest.len() && declared(v, #[trigger] rest[i], declares) == Some(x)
                            && forall|j: int|
                            0 <= j < i ==> declared(v, #[trigger] rest[j], declares) is None;
                    assert(line[i + 1] == rest[i]);
                    assert forall|j: int| 0 <= j < i + 1 implies declared(
                        v,
                        #[trigger] line[j],
                        declares,
                    ) is None by {
                        if j > 0 {
                            assert(line[j] == rest[j - 1]);
                        }
                    }
                },
                None => {
                    assert forall|i: int| 0 <= i < line.len() implies declared(
                        v,
                        #[trigger] line[i],
                        declares,
                    ) is None by {
                        if i > 0 {
                            assert(line[i] == rest[i - 1]);
                        }
                    }
                },
            }
        }
    }
}

/// The nearest declaration wins: what a class inherits is declared by a class at some
/// distance, and no class nearer than that declares anything.
pub proof fn law_nearest_declaration(
    v: VocabularyView,
    class: Seq<char>,
    declares: spec_fn(ClassDefView) -> Option<Seq<char>>,
)
    ensures
        match first_declared(v, lineage(v, class), declares) {
            Some(x) => exists|from: Seq<char>, n: nat| #[trigger]
                distance(v, class, from, n) && declared(v, from, declares) == Some(x) && forall|
                    other: Seq<char>,
                    m: nat,
                | #[trigger]
                    path(v, class, other, m) && declared(v, other, declares) is Some ==> n <= m,
            None => forall|other: Seq<char>, m: nat| #[trigger]
                path(v, class, other, m) ==> declared(v, other, declares) is None,
        },
{
    let line = lineage(v, class);
    let d = lemma_lineage(v, class);
    lemma_first_declared(v, line, declares);
    assert forall|other: Seq<char>, m: nat| #[trigger] path(v, class, other, m) implies line.contains(
        other,
    ) by {
        lemma_reached(v, class, line, d, other, m);
    }
    match first_declared(v, line, declares) {
        Some(x) => {
            let i = choose|i: int|
                0 <= i < line.len() && declared(v, #[trigger] line[i], declares) == Some(x)
                    && forall|j: int| 0 <= j < i ==> declared(v, #[trigger] line[j], declares) is None;
            assert(distance(v, class, line[i], d[i]));
            assert forall|other: Seq<char>, m: nat| #[trigger]
                path(v, class, other, m) && declared(v, other, declares) is Some implies d[i] <= m by {
                let j = choose|j: int| 0 <= j < line.len() && line[j] == other;
                assert(distance(v, class, line[j], d[j]));
                assert(declared(v, line[j], declares) is Some);
                assert(i <= j);
            }
        },
        None => {
            assert forall|other: Seq<char>, m: nat| #[trigger]
                path(v, class, other, m) implies declared(v, other, declares) is None by {
                let j = choose|j: int| 0 <= j < line.len() && line[j] == other;
                assert(declared(v, line[j], declares) is None);
            }
        },
    }
}

/// A class's own declaration wins over all it inherits.
pub proof fn law_own_declaration(v: VocabularyView, class: Seq<char>)
    ensures
        declared(v, class, own_level()) matches Some(level) ==> level_of(v, class) == level,
        declared(v, class, own_predicate()) matches Some(p) ==> predicate_of(v, class) == Some(p),
{
    let d = lemma_lineage(v, class);
    let line = lineage(v, class);
    assert(line[0] == class);
}

/// What is written at one setting of the dial is written at every higher one.
pub proof fn law_dial_grows(v: VocabularyView, class: Seq<char>, low: int, high: int)
    requires
        low <= high,
        emitted(v, class, low),
    ensures
        emitted(v, class, high),
{
}

/// A class whose level ranks below every settable one always lands.
pub proof fn law_always_lands(v: VocabularyView, class: Seq<char>, rank: int)
    requires
        lookup(v.levels, level_of(v, class)) == Some(-1i64),
        rank >= -1,
    ensures
        emitted(v, class, rank),
{
}

/// A class that nothing describes is written at the default level, and means nothing
/// more precise by its subject.
pub proof fn law_undeclared_class(v: VocabularyView, class: Seq<char>)
    requires
        lookup(v.classes, class) is None,
    ensures
        level_of(v, class) == DEFAULT_MIN_LEVEL@,
        predicate_of(v, class) is None,
        lineage(v, class) == seq![class],
{
    let none = Seq::<Seq<char>>::empty();
    let queue = seq![class];
    assert(supers(v, class) =~= none);
    assert(queue.drop_first() + supers(v, class) =~= none);
    assert(none.push(class) =~= seq![class]);
    lemma_unseen(v.classes, none, class);
    assert(walk(v, seq![class], none) == seq![class]);
    assert(lineage(v, class) == seq![class]);
    let line = seq![class];
    assert(line.drop_first() =~= none);
    assert(first_declared(v, none, own_level()) is None);
    assert(first_declared(v, none, own_predicate()) is None);
}

/// The level of a class is the one that the nearest of the classes it descends from
/// declares, itself among them; and the default one where none declares any.
pub proof fn law_level_is_the_nearest(v: VocabularyView, class: Seq<char>)
    ensures
        (exists|from: Seq<char>, n: nat| #[trigger]
            distance(v, class, from, n) && lookup(v.classes, from) is Some && lookup(
                v.classes,
                from,
            )->0.min_level == Some(level_of(v, class)) && forall|other: Seq<char>, m: nat|
                #[trigger]
                path(v, class, other, m) && lookup(v.classes, other) is Some && lookup(
                    v.classes,
                    other,
                )->0.min_level is Some ==> n <= m) || (level_of(v, class)
            == "https://ikigai-rs.dev/ns/log#info"@ && forall|other: Seq<char>, m: nat| #[trigger]
            path(v, class, other, m) ==> lookup(v.classes, other) is None || lookup(
                v.classes,
                other,
            )->0.min_level is None),
{
    law_nearest_declaration(v, class, own_level());
    match first_declared(v, lineage(v, class), own_level()) {
        Some(x) => {
            let (from, n) = choose|from: Seq<char>, n: nat| #[trigger]
                distance(v, class, from, n) && declared(v, from, own_level()) == Some(x) && forall|
                    other: Seq<char>,
                    m: nat,
                | #[trigger]
                    path(v, class, other, m) && declared(v, other, own_level()) is Some ==> n <= m;
            assert forall|other: Seq<char>, m: nat| #[trigger]
                path(v, class, other, m) && lookup(v.classes, other) is Some && lookup(
                    v.classes,
                    other,
                )->0.min_level is Some implies n <= m by {
                assert(declared(v, other, own_level()) is Some);
            }
        },
        None => {
            assert forall|other: Seq<char>, m: nat| #[trigger]
                path(v, class, other, m) implies lookup(v.classes, other) is None || lookup(
                v.classes,
                other,
            )->0.min_level is None by {
                assert(declared(v, other, own_level()) is None);
            }
        },
    }
}

/// The predicate of a class's subject is the one that the nearest of the classes it descends
/// from declares, itself among them; and there is none where none declares any.
pub proof fn law_predicate_is_the_nearest(v: VocabularyView, class: Seq<char>)
    ensures
        predicate_of(v, class) matches Some(p) ==> exists|from: Seq<char>, n: nat| #[trigger]
            distance(v, class, from, n) && lookup(v.classes, from) is Some && lookup(
                v.classes,
                from,
            )->0.subject_predicate == Some(p) && forall|other: Seq<char>, m: nat| #[trigger]
                path(v, class, other, m) && lookup(v.classes, other) is Some && lookup(
                    v.classes,
                    other,
                )->0.subject_predicate is Some ==> n <= m,
        predicate_of(v, class) is None ==> forall|other: Seq<char>, m: nat| #[trigger]
            path(v, class, other, m) ==> lookup(v.classes, other) is None || lookup(
                v.classes,
                other,
            )->0.subject_predicate is None,
{
    law_nearest_declaration(v, class, own_predicate());
    match predicate_of(v, class) {
        Some(p) => {
            let (from, n) = choose|from: Seq<char>, n: nat| #[trigger]
                distance(v, class, from, n) && declared(v, from, own_predicate()) == Some(p)
                    && forall|other: Seq<char>, m: nat| #[trigger]
                    path(v, class, other, m) && declared(v, other, own_predicate()) is Some ==> n
                        <= m;
            assert forall|other: Seq<char>, m: nat| #[trigger]
                path(v, class, other, m) && lookup(v.classes, other) is Some && lookup(
                    v.classes,
                    other,
                )->0.subject_predicate is Some implies n <= m by {
                assert(declared(v, other, own_predicate()) is Some);
            }
        },
        None => {
            assert forall|other: Seq<char>, m: nat| #[trigger]
                path(v, class, other, m) implies lookup(v.classes, other) is None || lookup(
                v.classes,
                other,
            )->0.subject_predicate is None by {
                assert(declared(v, other, own_predicate()) is None);
            }
        },
    }
}

/// A class is written into a segment exactly where its level is placed no higher on the dial
/// than the segment, or is not placed on it.
pub proof fn law_dial_compares_ranks(v: VocabularyView, class: Seq<char>, rank: int)
    ensures
        lookup(v.levels, level_of(v, class)) is None ==> emitted(v, class, rank),
        lookup(v.levels, level_of(v, class)) matches Some(own) ==> (emitted(v, class, rank) <==> own
            <= rank),
{
}

} // verus!
