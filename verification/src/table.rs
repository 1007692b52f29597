//! A map from texts to values, kept in the order of its keys.

use vstd::prelude::*;
use vstd::string::*;

use crate::text::{
    chars_of, comes_before, lemma_precedes_total, lemma_precedes_transitive, precedes, same, texts,
};

verus! {

/// A map from texts to values, kept in the order of its keys.
#[derive(Debug, PartialEq, Eq)]
pub struct Table<V> {
    entries: Vec<(String, V)>,
}

/// Namespaces by the prefix that stands for each.
pub type Prefixes = Table<String>;

impl<V: View> View for Table<V> {
    type V = Seq<(Seq<char>, V::V)>;

    closed spec fn view(&self) -> Seq<(Seq<char>, V::V)> {
        self.entries@.map_values(|e: (String, V)| (e.0@, e.1@))
    }
}

/// The value stored under `k`.
pub open spec fn lookup<T>(s: Seq<(Seq<char>, T)>, k: Seq<char>) -> Option<T>
    decreases s.len(),
{
    if s.len() == 0 {
        None
    } else if s[0].0 == k {
        Some(s[0].1)
    } else {
        lookup(s.drop_first(), k)
    }
}

/// `s` with `v` stored under `k`, in the place of what was stored there before.
pub open spec fn stored<T>(s: Seq<(Seq<char>, T)>, k: Seq<char>, v: T) -> Seq<(Seq<char>, T)>
    decreases s.len(),
{
    if s.len() == 0 {
        seq![(k, v)]
    } else if s[0].0 == k {
        seq![(k, v)] + s.drop_first()
    } else if precedes(k, s[0].0) {
        seq![(k, v)] + s
    } else {
        seq![s[0]] + stored(s.drop_first(), k, v)
    }
}

/// Whether the keys stand in order, no key twice.
pub open spec fn ascending<T>(s: Seq<(Seq<char>, T)>) -> bool {
    forall|i: int, j: int|
        0 <= i < j < s.len() ==> precedes(#[trigger] s[i].0, #[trigger] s[j].0)
}

/// What is stored is what a lookup finds, and nothing else changes.
pub proof fn law_lookup_stored<T>(s: Seq<(Seq<char>, T)>, k: Seq<char>, v: T, q: Seq<char>)
    ensures
        lookup(stored(s, k, v), q) == (if q == k {
            Some(v)
        } else {
            lookup(s, q)
        }),
    decreases s.len(),
{
    let r = stored(s, k, v);
    if s.len() > 0 {
        let t = s.drop_first();
        law_lookup_stored(t, k, v, q);
        if s[0].0 == k {
            assert(r.drop_first() =~= t);
        } else if precedes(k, s[0].0) {
            assert(r.drop_first() =~= s);
        } else {
            assert(r.drop_first() =~= stored(t, k, v));
        }
    } else {
        assert(r.drop_first() =~= s);
    }
}

/// Storing keeps the keys in order, no key twice.
pub proof fn law_stored_ascending<T>(s: Seq<(Seq<char>, T)>, k: Seq<char>, v: T)
    requires
        ascending(s),
    ensures
        ascending(stored(s, k, v)),
    decreases s.len(),
{
    let r = stored(s, k, v);
    if s.len() > 0 {
        let t = s.drop_first();
        assert forall|i: int, j: int| 0 <= i < j < t.len() implies precedes(
            #[trigger] t[i].0,
            #[trigger] t[j].0,
        ) by {
            assert(t[i] == s[i + 1] && t[j] == s[j + 1]);
        }
        if s[0].0 == k {
            assert forall|i: int, j: int| 0 <= i < j < r.len() implies precedes(
                #[trigger] r[i].0,
                #[trigger] r[j].0,
            ) by {
                assert(r[i].0 == s[i].0 && r[j].0 == s[j].0);
            }
        } else if precedes(k, s[0].0) {
            assert forall|i: int, j: int| 0 <= i < j < r.len() implies precedes(
                #[trigger] r[i].0,
                #[trigger] r[j].0,
            ) by {
                assert(r[j] == s[j - 1]);
                if i == 0 {
                    if j > 1 {
                        assert(precedes(s[0].0, s[j - 1].0));
                        lemma_precedes_transitive(k, s[0].0, s[j - 1].0);
                    }
                } else {
                    assert(r[i] == s[i - 1]);
                }
            }
        } else {
            law_stored_ascending(t, k, v);
            lemma_precedes_total(k, s[0].0);
            let u = stored(t, k, v);
            assert forall|j: int| 0 <= j < u.len() implies precedes(s[0].0, #[trigger] u[j].0) by {
                lemma_stored_keys(t, k, v, j);
                if u[j].0 != k {
                    let i = choose|i: int| 0 <= i < t.len() && t[i] == u[j];
                    assert(t[i] == s[i + 1]);
                    assert(precedes(s[0].0, s[i + 1].0));
                }
            }
            assert forall|i: int, j: int| 0 <= i < j < r.len() implies precedes(
                #[trigger] r[i].0,
                #[trigger] r[j].0,
            ) by {
                assert(r[j] == u[j - 1]);
                if i > 0 {
                    assert(r[i] == u[i - 1]);
                }
            }
        }
    }
}

/// What stands in a table after storing is the stored pair or stood there before.
pub proof fn lemma_stored_keys<T>(s: Seq<(Seq<char>, T)>, k: Seq<char>, v: T, j: int)
    requires
        0 <= j < stored(s, k, v).len(),
    ensures
        stored(s, k, v)[j] == (k, v) || exists|i: int|
            0 <= i < s.len() && #[trigger] s[i] == stored(s, k, v)[j],
    decreases s.len(),
{
    if s.len() > 0 {
        let t = s.drop_first();
        let r = stored(s, k, v);
        if s[0].0 == k {
            if j > 0 {
                assert(s[j] == r[j]);
            }
        } else if precedes(k, s[0].0) {
            if j > 0 {
                assert(s[j - 1] == r[j]);
            }
        } else if j > 0 {
            lemma_stored_keys(t, k, v, j - 1);
            if r[j] != (k, v) {
                let i = choose|i: int| 0 <= i < t.len() && t[i] == stored(t, k, v)[j - 1];
                assert(s[i + 1] == r[j]);
            }
        } else {
            assert(s[0] == r[j]);
        }
    }
}

/// What stands under a key that no pair before it has is what the key looks up.
pub proof fn lemma_lookup_first<T>(s: Seq<(Seq<char>, T)>, i: int)
    requires
        0 <= i < s.len(),
        forall|j: int| 0 <= j < i ==> (#[trigger] s[j]).0 != s[i].0,
    ensures
        lookup(s, s[i].0) == Some(s[i].1),
    decreases i,
{
    if i > 0 {
        let t = s.drop_first();
        assert(s[0].0 != s[i].0);
        assert forall|j: int| 0 <= j < i - 1 implies (#[trigger] t[j]).0 != t[i - 1].0 by {
            assert(t[j] == s[j + 1]);
        }
        lemma_lookup_first(t, i - 1);
    }
}

/// A key that none of the first `n` pairs has is looked up in the rest.
pub proof fn lemma_lookup_past<T>(s: Seq<(Seq<char>, T)>, k: Seq<char>, n: int)
    requires
        0 <= n <= s.len(),
        forall|j: int| 0 <= j < n ==> (#[trigger] s[j]).0 != k,
    ensures
        lookup(s, k) == lookup(s.skip(n), k),
    decreases n,
{
    if n == 0 {
        assert(s.skip(0) =~= s);
    } else {
        let t = s.drop_first();
        assert(s[0].0 != k);
        assert forall|j: int| 0 <= j < n - 1 implies (#[trigger] t[j]).0 != k by {
            assert(t[j] == s[j + 1]);
        }
        lemma_lookup_past(t, k, n - 1);
        assert(t.skip(n - 1) =~= s.skip(n));
    }
}

/// What a lookup finds stands in the table.
pub proof fn lemma_lookup_from<T>(s: Seq<(Seq<char>, T)>, k: Seq<char>)
    ensures
        lookup(s, k) matches Some(v) ==> exists|i: int|
            0 <= i < s.len() && #[trigger] s[i] == (k, v),
    decreases s.len(),
{
    if s.len() > 0 {
        let t = s.drop_first();
        if s[0].0 == k {
            assert(s[0] == (k, s[0].1));
        } else {
            lemma_lookup_from(t, k);
            if let Some(v) = lookup(t, k) {
                let i = choose|i: int| 0 <= i < t.len() && t[i] == (k, v);
                assert(s[i + 1] == (k, v));
            }
        }
    }
}

/// In a table whose keys stand in order, a lookup finds any pair that is there.
pub proof fn lemma_lookup_at<T>(s: Seq<(Seq<char>, T)>, i: int)
    requires
        ascending(s),
        0 <= i < s.len(),
    ensures
        lookup(s, s[i].0) == Some(s[i].1),
    decreases s.len(),
{
    if i > 0 {
        let t = s.drop_first();
        lemma_precedes_total(s[0].0, s[i].0);
        assert(precedes(s[0].0, s[i].0));
        assert forall|a: int, b: int| 0 <= a < b < t.len() implies precedes(
            #[trigger] t[a].0,
            #[trigger] t[b].0,
        ) by {
            assert(t[a] == s[a + 1] && t[b] == s[b + 1]);
        }
        assert(t[i - 1] == s[i]);
        lemma_lookup_at(t, i - 1);
    }
}

impl<V> Table<V> {
    /// The keys stand in order, no key twice.
    #[verifier::type_invariant]
    pub closed spec fn in_order(self) -> bool {
        forall|i: int, j: int|
            0 <= i < j < self.entries@.len() ==> precedes(
                (#[trigger] self.entries@[i]).0@,
                (#[trigger] self.entries@[j]).0@,
            )
    }
}

/// The pairs of a table, as they are seen.
spec fn pairs<V: View>(entries: Seq<(String, V)>) -> Seq<(Seq<char>, V::V)> {
    entries.map_values(|e: (String, V)| (e.0@, e.1@))
}

proof fn lemma_pairs_in_order<V: View>(entries: Seq<(String, V)>)
    requires
        ascending(pairs(entries)),
    ensures
        forall|i: int, j: int|
            0 <= i < j < entries.len() ==> precedes(
                (#[trigger] entries[i]).0@,
                (#[trigger] entries[j]).0@,
            ),
{
    let s = pairs(entries);
    assert forall|i: int, j: int| 0 <= i < j < entries.len() implies precedes(
        (#[trigger] entries[i]).0@,
        (#[trigger] entries[j]).0@,
    ) by {
        assert(s[i].0 == entries[i].0@ && s[j].0 == entries[j].0@);
    }
}

/// The keys of every table stand in order, no key twice.
pub proof fn law_table_ascending<V: View>(t: Table<V>)
    requires
        t.in_order(),
    ensures
        ascending(t@),
{
    assert forall|i: int, j: int| 0 <= i < j < t@.len() implies precedes(
        #[trigger] t@[i].0,
        #[trigger] t@[j].0,
    ) by {
        assert(t@[i].0 == t.entries@[i].0@ && t@[j].0 == t.entries@[j].0@);
    }
}

impl<V: View> Table<V> {
    /// An empty table.
    pub fn new() -> (r: Self)
        ensures
            r@ == Seq::<(Seq<char>, V::V)>::empty(),
    {
        let r: Self = Table { entries: Vec::new() };
        assert(r@ =~= Seq::<(Seq<char>, V::V)>::empty());
        r
    }

    /// How many pairs there are.
    pub fn len(&self) -> (n: usize)
        ensures
            n == self@.len(),
    {
        self.entries.len()
    }

    /// The pair at place `i`.
    pub fn at(&self, i: usize) -> (r: (&String, &V))
        requires
            i < self@.len(),
        ensures
            (r.0@, r.1@) == self@[i as int],
    {
        let e = &self.entries[i];
        (&e.0, &e.1)
    }

    /// The value stored under `key`.
    pub fn get(&self, key: &str) -> (r: Option<&V>)
        ensures
            match r {
                Some(v) => lookup(self@, key@) == Some(v@),
                None => lookup(self@, key@) is None,
            },
    {
        let k = chars_of(key);
        let mut i: usize = 0;
        assert(self@.skip(0) =~= self@);
        while i < self.entries.len()
            invariant
                i <= self.entries.len(),
                self@.len() == self.entries.len(),
                k@ == key@,
                lookup(self@, key@) == lookup(self@.skip(i as int), key@),
            decreases self.entries.len() - i,
        {
            let here = chars_of(&self.entries[i].0);
            assert(self@.skip(i as int)[0] == self@[i as int]);
            if same(&here, &k) {
                return Some(&self.entries[i].1);
            }
            assert(self@.skip(i as int).drop_first() =~= self@.skip(i + 1));
            i = i + 1;
        }
        None
    }

    /// Store `value` under `key`.
    pub fn insert(&mut self, key: String, value: V)
        ensures
            final(self)@ == stored(old(self)@, key@, value@),
    {
        proof {
            use_type_invariant(&*self);
            law_table_ascending(*self);
        }
        let ghost s = self@;
        let ghost v = value@;
        let mut entries: Vec<(String, V)> = Vec::new();
        std::mem::swap(&mut entries, &mut self.entries);
        let k = chars_of(&key);
        let mut i: usize = 0;
        let mut found = false;
        let mut passed = true;
        proof {
            assert(s.skip(0) =~= s);
            assert(s.take(0) + stored(s, key@, v) =~= stored(s, key@, v));
            law_stored_ascending(s, key@, v);
        }
        while passed && i < entries.len()
            invariant
                i <= entries.len(),
                pairs(entries@) == s,
                s.len() == entries.len(),
                k@ == key@,
                stored(s, key@, v) == s.take(i as int) + stored(s.skip(i as int), key@, v),
                !passed ==> i < s.len() && (found ==> s[i as int].0 == key@) && (!found
                    ==> s[i as int].0 != key@ && precedes(key@, s[i as int].0)),
                passed ==> !found,
            decreases entries.len() - i + (if passed {
                1int
            } else {
                0
            }),
        {
            let here = chars_of(&entries[i].0);
            let ghost rest = s.skip(i as int);
            assert(rest[0] == s[i as int] && s[i as int].0 == entries@[i as int].0@);
            if same(&here, &k) {
                found = true;
                passed = false;
            } else if comes_before(&k, &here) {
                passed = false;
            } else {
                proof {
                    assert(rest.drop_first() =~= s.skip(i + 1));
                    assert(s.take(i as int) + (seq![rest[0]] + stored(s.skip(i + 1), key@, v))
                        =~= s.take(i + 1) + stored(s.skip(i + 1), key@, v));
                }
                i = i + 1;
            }
        }
        let ghost rest = s.skip(i as int);
        if found {
            entries.set(i, (key, value));
            proof {
                assert(pairs(entries@) =~= s.update(i as int, (key@, v)));
                assert(rest.drop_first() =~= s.skip(i + 1));
                assert(s.update(i as int, (key@, v)) =~= s.take(i as int) + (seq![(key@, v)]
                    + s.skip(i + 1)));
            }
        } else {
            entries.insert(i, (key, value));
            proof {
                assert(pairs(entries@) =~= s.insert(i as int, (key@, v)));
                assert(s.insert(i as int, (key@, v)) =~= s.take(i as int) + (seq![(key@, v)]
                    + rest));
                if passed {
                    assert(rest =~= Seq::empty());
                    assert(seq![(key@, v)] + rest =~= seq![(key@, v)]);
                }
            }
        }
        proof {
            lemma_pairs_in_order(entries@);
        }
        self.entries = entries;
    }
}

/// `s` with the value at place `i` replaced.
pub open spec fn replaced<T>(s: Seq<(Seq<char>, T)>, i: int, v: T) -> Seq<(Seq<char>, T)> {
    s.update(i, (s[i].0, v))
}

impl<V: View> Table<V> {
    /// Replace the value at place `i`.
    pub fn set_at(&mut self, i: usize, value: V)
        requires
            i < old(self)@.len(),
        ensures
            final(self)@ == replaced(old(self)@, i as int, value@),
    {
        proof {
            use_type_invariant(&*self);
            law_table_ascending(*self);
        }
        let ghost before = self@;
        let mut entries: Vec<(String, V)> = Vec::new();
        std::mem::swap(&mut entries, &mut self.entries);
        let key = entries[i].0.clone();
        entries.set(i, (key, value));
        proof {
            let after = replaced(before, i as int, value@);
            assert(pairs(entries@) =~= after);
            assert forall|a: int, b: int| 0 <= a < b < after.len() implies precedes(
                #[trigger] after[a].0,
                #[trigger] after[b].0,
            ) by {
                assert(after[a].0 == before[a].0 && after[b].0 == before[b].0);
            }
            lemma_pairs_in_order(entries@);
        }
        self.entries = entries;
    }
}

impl Table<String> {
    /// A table with the same pairs.
    pub fn copy(&self) -> (r: Table<String>)
        ensures
            r@ == self@,
    {
        let mut entries: Vec<(String, String)> = Vec::new();
        let mut i: usize = 0;
        while i < self.entries.len()
            invariant
                i <= self.entries.len(),
                self@.len() == self.entries.len(),
                pairs(entries@) == self@.take(i as int),
            decreases self.entries.len() - i,
        {
            let ghost before = entries@;
            let pair = (self.entries[i].0.clone(), self.entries[i].1.clone());
            entries.push(pair);
            i = i + 1;
            assert(pairs(entries@) =~= pairs(before).push(self@[i - 1]));
            assert(self@.take(i as int) =~= self@.take(i - 1).push(self@[i - 1]));
        }
        assert(self@.take(i as int) =~= self@);
        proof {
            use_type_invariant(self);
            law_table_ascending(*self);
            lemma_pairs_in_order(entries@);
        }
        Table { entries }
    }
}

// =====================================================================================
// Texts in order
// =====================================================================================

/// `s` with `x` in its place, in the order of the texts, unless it is there already.
pub open spec fn placed(s: Seq<Seq<char>>, x: Seq<char>) -> Seq<Seq<char>>
    decreases s.len(),
{
    if s.len() == 0 {
        seq![x]
    } else if s[0] == x {
        s
    } else if precedes(x, s[0]) {
        seq![x] + s
    } else {
        seq![s[0]] + placed(s.drop_first(), x)
    }
}

/// Whether texts stand in order, none twice.
pub open spec fn sorted(s: Seq<Seq<char>>) -> bool {
    forall|i: int, j: int| 0 <= i < j < s.len() ==> precedes(#[trigger] s[i], #[trigger] s[j])
}

/// Placing adds the one text and nothing else.
pub proof fn law_placed_contains(s: Seq<Seq<char>>, x: Seq<char>, y: Seq<char>)
    ensures
        placed(s, x).contains(y) <==> (s.contains(y) || y == x),
    decreases s.len(),
{
    let r = placed(s, x);
    if s.len() == 0 {
        assert(r[0] == x);
    } else if s[0] == x {
        assert(s.contains(x));
    } else if precedes(x, s[0]) {
        assert(r[0] == x);
        if s.contains(y) {
            let i = choose|i: int| 0 <= i < s.len() && s[i] == y;
            assert(r[i + 1] == y);
        }
        if r.contains(y) && y != x {
            let i = choose|i: int| 0 <= i < r.len() && r[i] == y;
            assert(s[i - 1] == y);
        }
    } else {
        let t = s.drop_first();
        let u = placed(t, x);
        law_placed_contains(t, x, y);
        assert(r[0] == s[0]);
        if u.contains(y) {
            let i = choose|i: int| 0 <= i < u.len() && u[i] == y;
            assert(r[i + 1] == y);
        }
        if t.contains(y) {
            let i = choose|i: int| 0 <= i < t.len() && t[i] == y;
            assert(s[i + 1] == y);
        }
        if r.contains(y) {
            let i = choose|i: int| 0 <= i < r.len() && r[i] == y;
            if i == 0 {
                assert(s[0] == y);
            } else {
                assert(u[i - 1] == y);
            }
        }
        if s.contains(y) && y != s[0] {
            let i = choose|i: int| 0 <= i < s.len() && s[i] == y;
            assert(t[i - 1] == y);
        }
    }
}

/// Placing keeps texts in order.
pub proof fn law_placed_sorted(s: Seq<Seq<char>>, x: Seq<char>)
    requires
        sorted(s),
    ensures
        sorted(placed(s, x)),
    decreases s.len(),
{
    let r = placed(s, x);
    if s.len() > 0 && s[0] != x {
        let t = s.drop_first();
        if precedes(x, s[0]) {
            assert forall|i: int, j: int| 0 <= i < j < r.len() implies precedes(
                #[trigger] r[i],
                #[trigger] r[j],
            ) by {
                assert(r[j] == s[j - 1]);
                if i > 0 {
                    assert(r[i] == s[i - 1]);
                } else if j > 1 {
                    assert(precedes(s[0], s[j - 1]));
                    lemma_precedes_transitive(x, s[0], s[j - 1]);
                }
            }
        } else {
            assert forall|i: int, j: int| 0 <= i < j < t.len() implies precedes(
                #[trigger] t[i],
                #[trigger] t[j],
            ) by {
                assert(t[i] == s[i + 1] && t[j] == s[j + 1]);
            }
            law_placed_sorted(t, x);
            let u = placed(t, x);
            assert forall|j: int| 0 <= j < u.len() implies precedes(s[0], #[trigger] u[j]) by {
                law_placed_contains(t, x, u[j]);
                assert(u.contains(u[j]));
                if u[j] == x {
                    lemma_precedes_total(x, s[0]);
                } else {
                    let i = choose|i: int| 0 <= i < t.len() && t[i] == u[j];
                    assert(t[i] == s[i + 1]);
                    assert(precedes(s[0], s[i + 1]));
                }
            }
            assert forall|i: int, j: int| 0 <= i < j < r.len() implies precedes(
                #[trigger] r[i],
                #[trigger] r[j],
            ) by {
                assert(r[j] == u[j - 1]);
                if i > 0 {
                    assert(r[i] == u[i - 1]);
                }
            }
        }
    }
}

/// Put `x` in its place among `v`, unless it is there already.
pub fn place_text(v: &mut Vec<String>, x: &String)
    ensures
        texts(final(v)@) == placed(texts(old(v)@), x@),
{
    let ghost s = texts(v@);
    let c = chars_of(x);
    let mut i: usize = 0;
    proof {
        assert(s.skip(0) =~= s);
        assert(s.take(0) + placed(s, x@) =~= placed(s, x@));
    }
    while i < v.len()
        invariant
            i <= v.len(),
            v@ == old(v)@,
            s == texts(v@),
            c@ == x@,
            placed(s, x@) == s.take(i as int) + placed(s.skip(i as int), x@),
        decreases v.len() - i,
    {
        let here = chars_of(&v[i]);
        let ghost rest = s.skip(i as int);
        assert(rest[0] == s[i as int]);
        if same(&here, &c) {
            assert(s.take(i as int) + rest =~= s);
            return;
        }
        if comes_before(&c, &here) {
            v.insert(i, x.clone());
            proof {
                assert(texts(v@) =~= s.insert(i as int, x@));
                assert(s.insert(i as int, x@) =~= s.take(i as int) + (seq![x@] + rest));
            }
            return;
        }
        proof {
            assert(rest.drop_first() =~= s.skip(i + 1));
            assert(s.take(i as int) + (seq![rest[0]] + placed(s.skip(i + 1), x@)) =~= s.take(i + 1)
                + placed(s.skip(i + 1), x@));
        }
        i = i + 1;
    }
    v.push(x.clone());
    proof {
        assert(s.skip(i as int) =~= Seq::empty());
        assert(texts(v@) =~= s.take(i as int) + seq![x@]);
    }
}

} // verus!
