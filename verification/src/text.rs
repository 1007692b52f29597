//! Text as sequences of characters: the searching, trimming and splitting
//! primitives the line format is built from.

use vstd::prelude::*;
use vstd::slice::slice_subrange;
use vstd::string::*;

verus! {

/// `String::push` appends one character.
pub assume_specification[ String::push ](s: &mut String, c: char)
    ensures
        final(s)@ == old(s)@.push(c),
;

// =====================================================================================
// Characters
// =====================================================================================

/// Whether `c` has the Unicode `White_Space` property.
pub open spec fn is_white(c: char) -> bool {
    ||| '\u{9}' <= c && c <= '\u{d}'
    ||| c == '\u{20}'
    ||| c == '\u{85}'
    ||| c == '\u{a0}'
    ||| c == '\u{1680}'
    ||| '\u{2000}' <= c && c <= '\u{200a}'
    ||| c == '\u{2028}'
    ||| c == '\u{2029}'
    ||| c == '\u{202f}'
    ||| c == '\u{205f}'
    ||| c == '\u{3000}'
}

/// Whether `c` is white space.
pub fn white(c: char) -> (b: bool)
    ensures
        b == is_white(c),
{
    ('\u{9}' <= c && c <= '\u{d}') || c == '\u{20}' || c == '\u{85}' || c == '\u{a0}' || c
        == '\u{1680}' || ('\u{2000}' <= c && c <= '\u{200a}') || c == '\u{2028}' || c == '\u{2029}'
        || c == '\u{202f}' || c == '\u{205f}' || c == '\u{3000}'
}

/// Whether `c` is an ASCII letter.
pub open spec fn is_letter(c: char) -> bool {
    ('a' <= c && c <= 'z') || ('A' <= c && c <= 'Z')
}

/// Whether `c` is an ASCII digit.
pub open spec fn is_digit(c: char) -> bool {
    '0' <= c && c <= '9'
}

// =====================================================================================
// Conversions
// =====================================================================================

/// The characters of `s`.
pub fn chars_of(s: &str) -> (v: Vec<char>)
    ensures
        v@ == s@,
{
    let mut v: Vec<char> = Vec::new();
    for c in it: s.chars()
        invariant
            v@ == it.seq().take(it.index() as int),
            it.seq() == s@,
    {
        v.push(c);
    }
    v
}

/// The text made of the characters `cs`.
pub fn text_of(cs: &[char]) -> (s: String)
    ensures
        s@ == cs@,
{
    let mut s = String::new();
    let mut i: usize = 0;
    while i < cs.len()
        invariant
            i <= cs.len(),
            s@ == cs@.take(i as int),
        decreases cs.len() - i,
    {
        s.push(cs[i]);
        i = i + 1;
        assert(cs@.take(i as int) == cs@.take(i - 1).push(cs@[i - 1]));
    }
    assert(cs@.take(i as int) == cs@);
    s
}

/// `a` followed by `b`.
pub fn joined(a: &str, b: &str) -> (s: String)
    ensures
        s@ == a@ + b@,
{
    let mut s = a.to_owned();
    s.append(b);
    s
}

/// Whether two runs of characters are the same.
pub fn same(a: &[char], b: &[char]) -> (r: bool)
    ensures
        r == (a@ == b@),
{
    if a.len() != b.len() {
        return false;
    }
    let mut i: usize = 0;
    while i < a.len()
        invariant
            i <= a.len(),
            a.len() == b.len(),
            forall|j: int| 0 <= j < i ==> a@[j] == b@[j],
        decreases a.len() - i,
    {
        if a[i] != b[i] {
            return false;
        }
        i = i + 1;
    }
    assert(a@ =~= b@);
    true
}

/// Whether two texts are the same.
pub fn same_text(a: &str, b: &str) -> (r: bool)
    ensures
        r == (a@ == b@),
{
    let a = chars_of(a);
    let b = chars_of(b);
    same(&a, &b)
}

/// An optional text, as characters.
pub open spec fn maybe(o: Option<String>) -> Option<Seq<char>> {
    match o {
        Some(s) => Some(s@),
        None => None,
    }
}

/// An optional text, copied.
pub fn copy_maybe(o: &Option<String>) -> (r: Option<String>)
    ensures
        maybe(r) == maybe(*o),
{
    match o {
        Some(s) => Some(s.clone()),
        None => None,
    }
}

/// Every text of `v`, as characters.
pub open spec fn texts(v: Seq<String>) -> Seq<Seq<char>> {
    v.map_values(|s: String| s@)
}

// =====================================================================================
// Searching
// =====================================================================================

/// The test for one given character.
pub open spec fn is_char(c: char) -> spec_fn(char) -> bool {
    |x: char| x == c
}

/// The test for white space.
pub open spec fn whites() -> spec_fn(char) -> bool {
    |x: char| is_white(x)
}

/// The test for anything but white space.
pub open spec fn solids() -> spec_fn(char) -> bool {
    |x: char| !is_white(x)
}

/// The test for anything but a line ending.
pub open spec fn in_line() -> spec_fn(char) -> bool {
    |x: char| x != '\n' && x != '\r'
}

/// The test for anything but one given character.
pub open spec fn not_char(c: char) -> spec_fn(char) -> bool {
    |x: char| x != c
}

/// The test for anything but an angle bracket.
pub open spec fn unangled() -> spec_fn(char) -> bool {
    |x: char| x != '<' && x != '>'
}

/// The index of the first character that passes `p`, or the length where none does.
pub open spec fn first_where(s: Seq<char>, p: spec_fn(char) -> bool) -> int
    decreases s.len(),
{
    if s.len() == 0 {
        0
    } else if p(s[0]) {
        0
    } else {
        1 + first_where(s.drop_first(), p)
    }
}

/// The index just past the last character that passes `p`, or 0 where none does.
pub open spec fn past_last_where(s: Seq<char>, p: spec_fn(char) -> bool) -> int
    decreases s.len(),
{
    if s.len() == 0 {
        0
    } else if p(s.last()) {
        s.len() as int
    } else {
        past_last_where(s.drop_last(), p)
    }
}

/// What [`first_where`] says, as a property of the sequence.
pub proof fn lemma_first_where(s: Seq<char>, p: spec_fn(char) -> bool)
    ensures
        0 <= first_where(s, p) <= s.len(),
        forall|i: int| 0 <= i < first_where(s, p) ==> !p(#[trigger] s[i]),
        first_where(s, p) < s.len() ==> p(s[first_where(s, p)]),
    decreases s.len(),
{
    if s.len() > 0 && !p(s[0]) {
        let t = s.drop_first();
        lemma_first_where(t, p);
        assert forall|i: int| 0 <= i < first_where(s, p) implies !p(#[trigger] s[i]) by {
            if i > 0 {
                assert(s[i] == t[i - 1]);
            }
        }
    }
}

/// An index with the defining property of [`first_where`] is that index.
pub proof fn lemma_first_where_is(s: Seq<char>, p: spec_fn(char) -> bool, n: int)
    requires
        0 <= n <= s.len(),
        forall|i: int| 0 <= i < n ==> !p(#[trigger] s[i]),
        n < s.len() ==> p(s[n]),
    ensures
        first_where(s, p) == n,
{
    lemma_first_where(s, p);
    let m = first_where(s, p);
    if m < n {
        assert(!p(s[m]));
    } else if n < m {
        assert(!p(s[n]));
    }
}

/// What [`past_last_where`] says, as a property of the sequence.
pub proof fn lemma_past_last_where(s: Seq<char>, p: spec_fn(char) -> bool)
    ensures
        0 <= past_last_where(s, p) <= s.len(),
        forall|i: int| past_last_where(s, p) <= i < s.len() ==> !p(#[trigger] s[i]),
        past_last_where(s, p) > 0 ==> p(s[past_last_where(s, p) - 1]),
    decreases s.len(),
{
    if s.len() > 0 && !p(s.last()) {
        let t = s.drop_last();
        lemma_past_last_where(t, p);
        assert forall|i: int| past_last_where(s, p) <= i < s.len() implies !p(#[trigger] s[i]) by {
            if i < t.len() {
                assert(s[i] == t[i]);
            }
        }
    }
}

/// An index with the defining property of [`past_last_where`] is that index.
pub proof fn lemma_past_last_where_is(s: Seq<char>, p: spec_fn(char) -> bool, n: int)
    requires
        0 <= n <= s.len(),
        forall|i: int| n <= i < s.len() ==> !p(#[trigger] s[i]),
        n > 0 ==> p(s[n - 1]),
    ensures
        past_last_where(s, p) == n,
{
    lemma_past_last_where(s, p);
    let m = past_last_where(s, p);
    if m > n {
        assert(!p(s[m - 1]));
    } else if n > m {
        assert(!p(s[n - 1]));
    }
}

/// The index of the first `c` at or after `from`, or the length.
pub fn find_char(s: &[char], from: usize, c: char) -> (n: usize)
    requires
        from <= s.len(),
    ensures
        from <= n <= s.len(),
        n == from + first_where(s@.skip(from as int), is_char(c)),
        forall|i: int| from <= i < n ==> s@[i] != c,
        n < s.len() ==> s@[n as int] == c,
{
    let mut n: usize = from;
    while n < s.len() && s[n] != c
        invariant
            from <= n <= s.len(),
            forall|i: int| from <= i < n ==> s@[i] != c,
        decreases s.len() - n,
    {
        n = n + 1;
    }
    proof {
        let t = s@.skip(from as int);
        assert forall|i: int| 0 <= i < n - from implies !is_char(c)(#[trigger] t[i]) by {
            assert(t[i] == s@[i + from]);
        }
        lemma_first_where_is(t, is_char(c), n - from);
    }
    n
}

/// The index of the first white space at or after `from`, or the length.
pub fn find_white(s: &[char], from: usize) -> (n: usize)
    requires
        from <= s.len(),
    ensures
        from <= n <= s.len(),
        n == from + first_where(s@.skip(from as int), whites()),
        forall|i: int| from <= i < n ==> !is_white(s@[i]),
        n < s.len() ==> is_white(s@[n as int]),
{
    let mut n: usize = from;
    while n < s.len() && !white(s[n])
        invariant
            from <= n <= s.len(),
            forall|i: int| from <= i < n ==> !is_white(s@[i]),
        decreases s.len() - n,
    {
        n = n + 1;
    }
    proof {
        let t = s@.skip(from as int);
        assert forall|i: int| 0 <= i < n - from implies !whites()(#[trigger] t[i]) by {
            assert(t[i] == s@[i + from]);
        }
        lemma_first_where_is(t, whites(), n - from);
    }
    n
}

/// The index of the first character that is no white space, at or after `from`.
pub fn find_solid(s: &[char], from: usize) -> (n: usize)
    requires
        from <= s.len(),
    ensures
        from <= n <= s.len(),
        n == from + first_where(s@.skip(from as int), solids()),
        forall|i: int| from <= i < n ==> is_white(s@[i]),
        n < s.len() ==> !is_white(s@[n as int]),
{
    let mut n: usize = from;
    while n < s.len() && white(s[n])
        invariant
            from <= n <= s.len(),
            forall|i: int| from <= i < n ==> is_white(s@[i]),
        decreases s.len() - n,
    {
        n = n + 1;
    }
    proof {
        let t = s@.skip(from as int);
        assert forall|i: int| 0 <= i < n - from implies !solids()(#[trigger] t[i]) by {
            assert(t[i] == s@[i + from]);
        }
        lemma_first_where_is(t, solids(), n - from);
    }
    n
}

/// Whether `c` occurs in `s`.
pub fn has_char(s: &[char], c: char) -> (b: bool)
    ensures
        b == s@.contains(c),
{
    let n = find_char(s, 0, c);
    if n < s.len() {
        assert(s@[n as int] == c);
    }
    n < s.len()
}

/// Whether white space occurs in `s`.
pub open spec fn has_white(s: Seq<char>) -> bool {
    exists|i: int| 0 <= i < s.len() && is_white(#[trigger] s[i])
}

/// Whether white space occurs in `s`.
pub fn any_white(s: &[char]) -> (b: bool)
    ensures
        b == has_white(s@),
{
    find_white(s, 0) < s.len()
}

/// Whether `s` is free of blanks and double quotes.
pub open spec fn unbroken(s: Seq<char>) -> bool {
    !s.contains('"') && !has_white(s)
}

/// Unbroken runs put together are unbroken.
pub proof fn lemma_unbroken_join(a: Seq<char>, b: Seq<char>)
    requires
        unbroken(a),
        unbroken(b),
    ensures
        unbroken(a + b),
{
    let s = a + b;
    assert forall|i: int| 0 <= i < s.len() implies s[i] != '"' && !is_white(#[trigger] s[i]) by {
        if i < a.len() {
            assert(s[i] == a[i]);
            assert(a.contains(a[i]));
        } else {
            assert(s[i] == b[i - a.len()]);
            assert(b.contains(b[i - a.len()]));
        }
    }
}

/// A run of digits is unbroken.
pub proof fn lemma_unbroken_digits(s: Seq<char>)
    requires
        forall|i: int| 0 <= i < s.len() ==> is_digit(#[trigger] s[i]),
    ensures
        unbroken(s),
{
    assert forall|i: int| 0 <= i < s.len() implies s[i] != '"' && !is_white(#[trigger] s[i]) by {
        assert(is_digit(s[i]));
    }
}

/// Whether `s` begins with `p`.
pub open spec fn starts_with(s: Seq<char>, p: Seq<char>) -> bool {
    p.len() <= s.len() && s.take(p.len() as int) == p
}

/// Whether `s` begins with `p`.
pub fn begins_with(s: &[char], p: &[char]) -> (b: bool)
    ensures
        b == starts_with(s@, p@),
{
    p.len() <= s.len() && same(slice_subrange(s, 0, p.len()), p)
}

// =====================================================================================
// Order
// =====================================================================================

/// Whether `a` comes before `b` in the order of texts: by the first character in
/// which they differ, a prefix before what it begins.
pub open spec fn precedes(a: Seq<char>, b: Seq<char>) -> bool
    decreases b.len(),
{
    if b.len() == 0 {
        false
    } else if a.len() == 0 {
        true
    } else if a[0] != b[0] {
        a[0] < b[0]
    } else {
        precedes(a.drop_first(), b.drop_first())
    }
}

/// Texts that begin alike are ordered by what follows.
pub proof fn lemma_precedes_after(p: Seq<char>, a: Seq<char>, b: Seq<char>)
    ensures
        precedes(p + a, p + b) == precedes(a, b),
    decreases p.len(),
{
    if p.len() == 0 {
        assert(p + a =~= a);
        assert(p + b =~= b);
    } else {
        assert((p + a).drop_first() =~= p.drop_first() + a);
        assert((p + b).drop_first() =~= p.drop_first() + b);
        lemma_precedes_after(p.drop_first(), a, b);
    }
}

/// Beginnings of the same length decide the order where they differ.
pub proof fn lemma_precedes_by_start(p: Seq<char>, q: Seq<char>, a: Seq<char>, b: Seq<char>)
    requires
        p.len() == q.len(),
        precedes(p, q),
    ensures
        precedes(p + a, q + b),
    decreases p.len(),
{
    if p[0] == q[0] {
        assert((p + a).drop_first() =~= p.drop_first() + a);
        assert((q + b).drop_first() =~= q.drop_first() + b);
        lemma_precedes_by_start(p.drop_first(), q.drop_first(), a, b);
    }
}

/// The order is total.
pub proof fn lemma_precedes_total(a: Seq<char>, b: Seq<char>)
    ensures
        precedes(a, b) || precedes(b, a) || a == b,
        precedes(a, b) ==> !precedes(b, a),
        precedes(a, b) ==> a != b,
    decreases b.len(),
{
    if a.len() == 0 {
        if b.len() == 0 {
            assert(a =~= b);
        }
    } else if b.len() > 0 && a[0] == b[0] {
        lemma_precedes_total(a.drop_first(), b.drop_first());
        if a.drop_first() == b.drop_first() {
            assert(a =~= seq![a[0]] + a.drop_first());
            assert(b =~= seq![b[0]] + b.drop_first());
        }
    }
}

/// The order is transitive.
pub proof fn lemma_precedes_transitive(a: Seq<char>, b: Seq<char>, c: Seq<char>)
    requires
        precedes(a, b),
        precedes(b, c),
    ensures
        precedes(a, c),
    decreases c.len(),
{
    if a.len() > 0 && b.len() > 0 && a[0] == b[0] && b[0] == c[0] {
        lemma_precedes_transitive(a.drop_first(), b.drop_first(), c.drop_first());
    }
}

/// Whether `a` comes before `b` in the order of texts.
pub fn comes_before(a: &[char], b: &[char]) -> (r: bool)
    ensures
        r == precedes(a@, b@),
{
    let mut i: usize = 0;
    proof {
        assert(a@.skip(0) =~= a@);
        assert(b@.skip(0) =~= b@);
    }
    while i < a.len() && i < b.len() && a[i] == b[i]
        invariant
            i <= a.len(),
            i <= b.len(),
            precedes(a@, b@) == precedes(a@.skip(i as int), b@.skip(i as int)),
        decreases a.len() - i,
    {
        i = i + 1;
        proof {
            assert(a@.skip(i - 1).drop_first() =~= a@.skip(i as int));
            assert(b@.skip(i - 1).drop_first() =~= b@.skip(i as int));
        }
    }
    if i >= b.len() {
        false
    } else if i >= a.len() {
        true
    } else {
        a[i] < b[i]
    }
}

// =====================================================================================
// Trimming and splitting
// =====================================================================================

/// `s` without its leading white space.
pub open spec fn trim_start(s: Seq<char>) -> Seq<char> {
    s.skip(first_where(s, solids()))
}

/// `s` without its trailing characters that fail `p`.
pub open spec fn keep_to_last(s: Seq<char>, p: spec_fn(char) -> bool) -> Seq<char> {
    s.take(past_last_where(s, p))
}

/// `s` without its leading characters that fail `p`.
pub open spec fn keep_from_first(s: Seq<char>, p: spec_fn(char) -> bool) -> Seq<char> {
    s.skip(first_where(s, p))
}

/// `s` without the white space at either end.
pub open spec fn trim(s: Seq<char>) -> Seq<char> {
    keep_to_last(trim_start(s), solids())
}

/// `s` without the line ending characters at its end.
pub open spec fn chomp(s: Seq<char>) -> Seq<char> {
    keep_to_last(s, in_line())
}

/// What stands before and after the first `c` in `s`.
pub open spec fn split_once(s: Seq<char>, c: char) -> Option<(Seq<char>, Seq<char>)> {
    let n = first_where(s, is_char(c));
    if n < s.len() {
        Some((s.take(n), s.skip(n + 1)))
    } else {
        None
    }
}

/// The runs of characters that white space separates.
pub open spec fn words(s: Seq<char>) -> Seq<Seq<char>>
    decreases s.len(),
{
    let t = trim_start(s);
    if t.len() == 0 {
        Seq::empty()
    } else {
        let n = first_where(t, whites());
        proof {
            lemma_first_where(s, solids());
            lemma_first_where(t, whites());
        }
        seq![t.take(n)] + words(t.skip(n))
    }
}

/// The lines of `s`, each with the newline that ends it.
pub open spec fn lines(s: Seq<char>) -> Seq<Seq<char>>
    decreases s.len(),
{
    if s.len() == 0 {
        Seq::empty()
    } else {
        let n = first_where(s, is_char('\n'));
        if n >= s.len() {
            seq![s]
        } else {
            proof {
                lemma_first_where(s, is_char('\n'));
            }
            seq![s.take(n + 1)] + lines(s.skip(n + 1))
        }
    }
}

/// A line without the newline that ends it, and the carriage return before that.
pub open spec fn unended(line: Seq<char>) -> Seq<char> {
    if line.len() > 0 && line.last() == '\n' {
        let t = line.drop_last();
        if t.len() > 0 && t.last() == '\r' {
            t.drop_last()
        } else {
            t
        }
    } else {
        line
    }
}

/// The lines of `s`, without what ends them.
pub open spec fn text_lines(s: Seq<char>) -> Seq<Seq<char>> {
    lines(s).map_values(|l: Seq<char>| unended(l))
}

/// A line without the newline that ends it, and the carriage return before that.
pub fn unended_of(line: &str) -> (r: String)
    ensures
        r@ == unended(line@),
{
    let c = chars_of(line);
    let n = c.len();
    if n > 0 && c[n - 1] == '\n' {
        let m = if n > 1 && c[n - 2] == '\r' {
            n - 2
        } else {
            n - 1
        };
        let r = text_of(slice_subrange(&c, 0, m));
        assert(r@ =~= unended(line@));
        r
    } else {
        line.to_owned()
    }
}

/// `s` without the white space at either end.
pub fn trimmed<'a>(s: &'a [char]) -> (r: &'a [char])
    ensures
        r@ == trim(s@),
{
    let from = find_solid(s, 0);
    let t = slice_subrange(s, from, s.len());
    proof {
        assert(s@.skip(0) =~= s@);
        assert(t@ =~= trim_start(s@));
    }
    let mut n: usize = t.len();
    while n > 0 && white(t[n - 1])
        invariant
            n <= t.len(),
            forall|i: int| n <= i < t.len() ==> is_white(t@[i]),
        decreases n,
    {
        n = n - 1;
    }
    proof {
        lemma_past_last_where_is(t@, solids(), n as int);
    }
    slice_subrange(t, 0, n)
}

/// `s` without the line ending characters at its end.
pub fn chomped<'a>(s: &'a [char]) -> (r: &'a [char])
    ensures
        r@ == chomp(s@),
{
    let mut n: usize = s.len();
    while n > 0 && (s[n - 1] == '\n' || s[n - 1] == '\r')
        invariant
            n <= s.len(),
            forall|i: int| n <= i < s.len() ==> (s@[i] == '\n' || s@[i] == '\r'),
        decreases n,
    {
        n = n - 1;
    }
    proof {
        lemma_past_last_where_is(s@, in_line(), n as int);
    }
    slice_subrange(s, 0, n)
}

/// `s` without the run of `c` at its end.
pub fn without_trailing<'a>(s: &'a [char], c: char) -> (r: &'a [char])
    ensures
        r@ == keep_to_last(s@, not_char(c)),
{
    let mut n: usize = s.len();
    while n > 0 && s[n - 1] == c
        invariant
            n <= s.len(),
            forall|i: int| n <= i < s.len() ==> s@[i] == c,
        decreases n,
    {
        n = n - 1;
    }
    proof {
        lemma_past_last_where_is(s@, not_char(c), n as int);
    }
    slice_subrange(s, 0, n)
}

/// `s` without the run of `c` at its start.
pub fn without_leading<'a>(s: &'a [char], c: char) -> (r: &'a [char])
    ensures
        r@ == keep_from_first(s@, not_char(c)),
{
    let mut n: usize = 0;
    while n < s.len() && s[n] == c
        invariant
            n <= s.len(),
            forall|i: int| 0 <= i < n ==> s@[i] == c,
        decreases s.len() - n,
    {
        n = n + 1;
    }
    proof {
        lemma_first_where_is(s@, not_char(c), n as int);
    }
    slice_subrange(s, n, s.len())
}

/// `s` without the angle brackets at either end.
pub open spec fn strip_angles(s: Seq<char>) -> Seq<char> {
    keep_to_last(keep_from_first(s, unangled()), unangled())
}

/// `s` without the angle brackets at either end.
pub fn without_angles<'a>(s: &'a [char]) -> (r: &'a [char])
    ensures
        r@ == strip_angles(s@),
{
    let mut from: usize = 0;
    while from < s.len() && (s[from] == '<' || s[from] == '>')
        invariant
            from <= s.len(),
            forall|i: int| 0 <= i < from ==> (s@[i] == '<' || s@[i] == '>'),
        decreases s.len() - from,
    {
        from = from + 1;
    }
    let t = slice_subrange(s, from, s.len());
    let mut n: usize = t.len();
    proof {
        lemma_first_where_is(s@, unangled(), from as int);
        assert(t@ =~= keep_from_first(s@, unangled()));
    }
    while n > 0 && (t[n - 1] == '<' || t[n - 1] == '>')
        invariant
            n <= t.len(),
            forall|i: int| n <= i < t.len() ==> (t@[i] == '<' || t@[i] == '>'),
        decreases n,
    {
        n = n - 1;
    }
    proof {
        lemma_past_last_where_is(t@, unangled(), n as int);
    }
    slice_subrange(t, 0, n)
}

/// The texts of `v`, copied.
pub fn copy_texts(v: &Vec<String>) -> (r: Vec<String>)
    ensures
        texts(r@) == texts(v@),
{
    let mut r: Vec<String> = Vec::new();
    let mut i: usize = 0;
    while i < v.len()
        invariant
            i <= v.len(),
            texts(r@) == texts(v@).take(i as int),
        decreases v.len() - i,
    {
        let ghost before = r@;
        r.push(v[i].clone());
        i = i + 1;
        assert(texts(r@) =~= texts(before).push(v@[i - 1]@));
        assert(texts(v@).take(i as int) =~= texts(v@).take(i - 1).push(v@[i - 1]@));
    }
    assert(texts(v@).take(i as int) =~= texts(v@));
    r
}

/// Whether `s` is among the texts of `v`.
pub fn has_text(v: &Vec<String>, s: &str) -> (b: bool)
    ensures
        b == texts(v@).contains(s@),
{
    let c = chars_of(s);
    let mut i: usize = 0;
    while i < v.len()
        invariant
            i <= v.len(),
            c@ == s@,
            forall|j: int| 0 <= j < i ==> texts(v@)[j] != s@,
        decreases v.len() - i,
    {
        if same(&chars_of(&v[i]), &c) {
            assert(texts(v@)[i as int] == s@);
            return true;
        }
        i = i + 1;
    }
    assert forall|j: int| 0 <= j < texts(v@).len() implies texts(v@)[j] != s@ by {}
    false
}

/// What stands before and after the first `c` in `s`.
pub fn split_first<'a>(s: &'a [char], c: char) -> (r: Option<(&'a [char], &'a [char])>)
    ensures
        match r {
            Some((a, b)) => split_once(s@, c) == Some((a@, b@)),
            None => split_once(s@, c) is None,
        },
{
    let n = find_char(s, 0, c);
    assert(s@.skip(0) =~= s@);
    if n < s.len() {
        let a = slice_subrange(s, 0, n);
        let b = slice_subrange(s, n + 1, s.len());
        assert(a@ =~= s@.take(n as int));
        assert(b@ =~= s@.skip(n + 1));
        Some((a, b))
    } else {
        None
    }
}

/// The runs of characters that white space separates.
pub fn words_of(s: &[char]) -> (r: Vec<String>)
    ensures
        texts(r@) == words(s@),
{
    let mut r: Vec<String> = Vec::new();
    let mut i: usize = find_solid(s, 0);
    proof {
        assert(s@.skip(0) =~= s@);
        lemma_words_unfold(s@, 0, i as int);
    }
    while i < s.len()
        invariant
            i <= s.len(),
            i < s.len() ==> !is_white(s@[i as int]),
            words(s@) == texts(r@) + words(s@.skip(i as int)),
        decreases s.len() - i,
    {
        let n = find_white(s, i);
        let word = text_of(slice_subrange(s, i, n));
        let ghost before = r@;
        r.push(word);
        let next = find_solid(s, n);
        proof {
            let t = s@.skip(i as int);
            lemma_first_where_is(t, solids(), 0);
            assert(trim_start(t) =~= t);
            assert(t.take(n - i) =~= s@.subrange(i as int, n as int));
            assert(t.skip(n - i) =~= s@.skip(n as int));
            lemma_words_unfold(s@, n as int, next as int);
            assert(texts(r@) =~= texts(before) + seq![word@]);
            assert(words(t) == seq![word@] + words(s@.skip(n as int)));
            assert(texts(before) + (seq![word@] + words(s@.skip(next as int))) =~= texts(r@) + words(
                s@.skip(next as int),
            ));
        }
        i = next;
    }
    proof {
        assert(s@.skip(i as int) =~= Seq::<char>::empty());
        assert(trim_start(s@.skip(i as int)) =~= Seq::<char>::empty());
        assert(texts(r@) + Seq::<Seq<char>>::empty() =~= texts(r@));
    }
    r
}

/// Leading white space makes no difference to the words.
proof fn lemma_words_unfold(s: Seq<char>, n: int, next: int)
    requires
        0 <= n <= next <= s.len(),
        next == n + first_where(s.skip(n), solids()),
    ensures
        words(s.skip(n)) == words(s.skip(next)),
{
    let t = s.skip(n);
    let u = s.skip(next);
    lemma_first_where(t, solids());
    assert(trim_start(t) =~= u);
    if u.len() > 0 {
        assert(u[0] == t[next - n]);
    }
    lemma_first_where_is(u, solids(), 0);
    assert(trim_start(u) =~= u);
}

/// The lines of `s`, each with the newline that ends it.
pub fn lines_of(s: &[char]) -> (r: Vec<String>)
    ensures
        texts(r@) == lines(s@),
{
    let mut r: Vec<String> = Vec::new();
    let mut i: usize = 0;
    proof {
        assert(s@.skip(0) =~= s@);
        assert(texts(r@) + lines(s@) =~= lines(s@));
    }
    while i < s.len()
        invariant
            i <= s.len(),
            lines(s@) == texts(r@) + lines(s@.skip(i as int)),
        decreases s.len() - i,
    {
        let n = find_char(s, i, '\n');
        let ghost t = s@.skip(i as int);
        let ghost before = r@;
        let end = if n < s.len() {
            n + 1
        } else {
            n
        };
        let line = text_of(slice_subrange(s, i, end));
        r.push(line);
        proof {
            assert(texts(r@) =~= texts(before) + seq![line@]);
            if n < s.len() {
                assert(t.take(n - i + 1) =~= line@);
                assert(t.skip(n - i + 1) =~= s@.skip(end as int));
            } else {
                assert(t =~= line@);
                assert(lines(s@.skip(end as int)) =~= Seq::empty());
                assert(lines(t) =~= seq![line@] + lines(s@.skip(end as int)));
            }
            assert(texts(before) + (seq![line@] + lines(s@.skip(end as int))) =~= texts(r@) + lines(
                s@.skip(end as int),
            ));
        }
        i = end;
    }
    proof {
        assert(lines(s@.skip(i as int)) =~= Seq::empty());
        assert(texts(r@) + Seq::<Seq<char>>::empty() =~= texts(r@));
    }
    r
}

} // verus!
