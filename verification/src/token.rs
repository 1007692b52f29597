//! The columns of a line: IRIs, CURIEs, keys and values, and the scanner that
//! splits a line into them.

use vstd::prelude::*;
use vstd::slice::slice_subrange;
use vstd::string::*;

use crate::error::{ParseError, ParseErrorView, RenderError, RenderErrorView};
use crate::table::{ascending, lemma_lookup_at, lookup, Prefixes};
use crate::text::{
    any_white, begins_with, chars_of, find_solid, first_where, has_char, has_white, is_char,
    is_digit, is_letter, is_white, joined, lemma_first_where, lemma_first_where_is,
    lemma_unbroken_join, solids, split_first, split_once, starts_with, text_of, texts, trim_start,
    unbroken, white,
};

verus! {

/// A result, with its value and its error as they are seen in contracts.
pub open spec fn seen<T: View, E: View>(r: Result<T, E>) -> Result<T::V, E::V> {
    match r {
        Ok(t) => Ok(t@),
        Err(e) => Err(e@),
    }
}

// =====================================================================================
// IRIs, keys and values
// =====================================================================================

/// Whether `s` can be written bare in an IRI column: absolute (it has a scheme
/// separator), no whitespace to break the column split, no angle brackets to
/// collide with the `<iri>` escape.
pub open spec fn iri_like(s: Seq<char>) -> bool {
    &&& s.contains(':')
    &&& !s.contains('<')
    &&& !s.contains('>')
    &&& !s.contains('"')
    &&& !has_white(s)
}

fn is_iri_chars(s: &[char]) -> (b: bool)
    ensures
        b == iri_like(s@),
{
    has_char(s, ':') && !has_char(s, '<') && !has_char(s, '>') && !has_char(s, '"') && !any_white(s)
}

/// Whether `s` can be written bare in an IRI column.
pub fn is_iri(s: &str) -> (b: bool)
    ensures
        b == iri_like(s@),
{
    is_iri_chars(&chars_of(s))
}

/// Whether `c` may stand in a key after its first character.
pub open spec fn key_char(c: char) -> bool {
    is_letter(c) || is_digit(c) || c == '_' || c == '.' || c == '-'
}

/// Whether `k` is usable as a `key=` column: `[A-Za-z][A-Za-z0-9_.-]*`.
pub open spec fn key_like(k: Seq<char>) -> bool {
    &&& k.len() > 0
    &&& is_letter(k[0])
    &&& forall|i: int| 0 <= i < k.len() ==> key_char(#[trigger] k[i])
}

/// Whether `k` is usable as a `key=` column.
pub fn is_key(k: &[char]) -> (b: bool)
    ensures
        b == key_like(k@),
{
    if k.len() == 0 {
        return false;
    }
    let c = k[0];
    if !(('a' <= c && c <= 'z') || ('A' <= c && c <= 'Z')) {
        return false;
    }
    let mut i: usize = 0;
    while i < k.len()
        invariant
            i <= k.len(),
            forall|j: int| 0 <= j < i ==> key_char(#[trigger] k@[j]),
        decreases k.len() - i,
    {
        let c = k[i];
        if !(('a' <= c && c <= 'z') || ('A' <= c && c <= 'Z') || ('0' <= c && c <= '9') || c == '_'
            || c == '.' || c == '-') {
            assert(!key_char(k@[i as int]));
            return false;
        }
        i = i + 1;
    }
    true
}

/// Whether a value can be written without quotes: non-empty and free of
/// anything the scanner treats as structure.
pub open spec fn bare_value(v: Seq<char>) -> bool {
    &&& v.len() > 0
    &&& !v.contains('"')
    &&& !v.contains('\\')
    &&& !has_white(v)
}

/// One character of a quoted value, as it is written.
pub open spec fn escaped(c: char) -> Seq<char> {
    if c == '"' {
        seq!['\\', '"']
    } else if c == '\\' {
        seq!['\\', '\\']
    } else if c == '\n' {
        seq!['\\', 'n']
    } else if c == '\r' {
        seq!['\\', 'r']
    } else if c == '\t' {
        seq!['\\', 't']
    } else {
        seq![c]
    }
}

/// The inside of a quoted value.
pub open spec fn escapes(v: Seq<char>) -> Seq<char>
    decreases v.len(),
{
    if v.len() == 0 {
        Seq::empty()
    } else {
        escapes(v.drop_last()) + escaped(v.last())
    }
}

/// A value in quotes. Newlines and tabs become escapes rather than characters: one
/// entry is one line, and nothing may break that.
pub open spec fn quoted(v: Seq<char>) -> Seq<char> {
    seq!['"'] + escapes(v) + seq!['"']
}

/// A value as it is written: bare when it can be, quoted when it must be.
pub open spec fn value_text(v: Seq<char>) -> Seq<char> {
    if bare_value(v) {
        v
    } else {
        quoted(v)
    }
}

/// A value in quotes, escaped.
fn quote(v: &[char]) -> (out: String)
    ensures
        out@ == quoted(v@),
{
    let mut out = String::new();
    out.push('"');
    let mut i: usize = 0;
    assert(escapes(v@.take(0)) =~= Seq::empty());
    while i < v.len()
        invariant
            i <= v.len(),
            out@ == seq!['"'] + escapes(v@.take(i as int)),
        decreases v.len() - i,
    {
        let c = v[i];
        let ghost before = out@;
        if c == '"' {
            out.push('\\');
            out.push('"');
        } else if c == '\\' {
            out.push('\\');
            out.push('\\');
        } else if c == '\n' {
            out.push('\\');
            out.push('n');
        } else if c == '\r' {
            out.push('\\');
            out.push('r');
        } else if c == '\t' {
            out.push('\\');
            out.push('t');
        } else {
            out.push(c);
        }
        i = i + 1;
        proof {
            assert(out@ =~= before + escaped(c));
            assert(v@.take(i as int).drop_last() =~= v@.take(i - 1));
            assert(out@ =~= seq!['"'] + escapes(v@.take(i as int)));
        }
    }
    assert(v@.take(i as int) =~= v@);
    out.push('"');
    assert(out@ =~= quoted(v@));
    out
}

/// A value as it is written: bare when it can be, quoted when it must be.
pub fn render_value(v: &str) -> (out: String)
    ensures
        out@ == value_text(v@),
{
    let c = chars_of(v);
    if c.len() > 0 && !has_char(&c, '"') && !has_char(&c, '\\') && !any_white(&c) {
        v.to_owned()
    } else {
        quote(&c)
    }
}

// =====================================================================================
// The class column
// =====================================================================================

/// Whether `iri` can be shortened against the namespace `ns`: what is left over is
/// a plain local name.
pub open spec fn shortens(iri: Seq<char>, ns: Seq<char>) -> bool {
    let local = iri.skip(ns.len() as int);
    &&& starts_with(iri, ns)
    &&& local.len() > 0
    &&& !local.contains(':')
    &&& !local.contains('/')
    &&& !local.contains('#')
}

/// The place of the longest namespace that shortens `iri`; the first one of two that
/// are as long.
pub open spec fn best_prefix(iri: Seq<char>, prefixes: Seq<(Seq<char>, Seq<char>)>) -> Option<int>
    decreases prefixes.len(),
{
    if prefixes.len() == 0 {
        None
    } else {
        let before = best_prefix(iri, prefixes.drop_last());
        let ns = prefixes.last().1;
        if shortens(iri, ns) && (before is None || ns.len() > prefixes[before->0].1.len()) {
            Some(prefixes.len() - 1)
        } else {
            before
        }
    }
}

/// An IRI as it is written in the class column: a CURIE, or `<iri>` where no prefix
/// fits.
pub open spec fn column_text(iri: Seq<char>, prefixes: Seq<(Seq<char>, Seq<char>)>) -> Seq<char> {
    match best_prefix(iri, prefixes) {
        Some(i) => prefixes[i].0 + seq![':'] + iri.skip(prefixes[i].1.len() as int),
        None => seq!['<'] + iri + seq!['>'],
    }
}

/// The IRI that a class column stands for.
pub open spec fn column_iri(
    token: Seq<char>,
    prefixes: Seq<(Seq<char>, Seq<char>)>,
) -> Result<Seq<char>, ParseErrorView> {
    if token.len() >= 2 && token[0] == '<' && token.last() == '>' {
        let inner = token.subrange(1, token.len() - 1);
        if iri_like(inner) {
            Ok(inner)
        } else {
            Err(ParseErrorView::NotAnIri(token))
        }
    } else {
        match split_once(token, ':') {
            None => Err(ParseErrorView::NotAnIri(token)),
            Some((prefix, local)) => match lookup(prefixes, prefix) {
                Some(ns) => Ok(ns + local),
                None => Err(ParseErrorView::UnboundPrefix(token)),
            },
        }
    }
}

/// Shorten an IRI to a CURIE against `prefixes`, or fall back to `<iri>`.
///
/// The fallback exists so that an entry class from a vocabulary the header did
/// not bind is still written correctly rather than refused: the CURIE is a
/// convenience for readers, not a constraint on what can be logged.
pub fn render_iri_column(iri: &str, prefixes: &Prefixes) -> (r: Result<String, RenderError>)
    ensures
        seen(r) == (if iri_like(iri@) {
            Ok(column_text(iri@, prefixes@))
        } else {
            Err(RenderErrorView::NotAnIri(iri@))
        }),
{
    let c = chars_of(iri);
    if !is_iri_chars(&c) {
        return Err(RenderError::NotAnIri(iri.to_owned()));
    }
    let mut best: Option<usize> = None;
    let mut longest: usize = 0;
    let mut i: usize = 0;
    assert(prefixes@.take(0) =~= Seq::empty());
    while i < prefixes.len()
        invariant
            i <= prefixes@.len(),
            c@ == iri@,
            match best {
                Some(b) => best_prefix(iri@, prefixes@.take(i as int)) == Some(b as int) && b < i
                    && longest == prefixes@[b as int].1.len() && shortens(
                    iri@,
                    prefixes@[b as int].1,
                ),
                None => best_prefix(iri@, prefixes@.take(i as int)) is None,
            },
        decreases prefixes@.len() - i,
    {
        let ns = chars_of(prefixes.at(i).1);
        proof {
            let t = prefixes@.take(i + 1);
            assert(t.drop_last() =~= prefixes@.take(i as int));
            assert(t.last() == prefixes@[i as int]);
        }
        if begins_with(&c, &ns) {
            let local = slice_subrange(&c, ns.len(), c.len());
            assert(local@ =~= iri@.skip(ns@.len() as int));
            if local.len() > 0 && !has_char(local, ':') && !has_char(local, '/') && !has_char(
                local,
                '#',
            ) {
                if best.is_none() || ns.len() > longest {
                    best = Some(i);
                    longest = ns.len();
                }
            }
        }
        i = i + 1;
    }
    assert(prefixes@.take(i as int) =~= prefixes@);
    match best {
        Some(b) => {
            let (prefix, ns) = prefixes.at(b);
            let mut out = prefix.clone();
            out.push(':');
            let n = chars_of(ns).len();
            let local = text_of(slice_subrange(&c, n, c.len()));
            assert(local@ =~= iri@.skip(n as int));
            out.append(&local);
            assert(out@ =~= column_text(iri@, prefixes@));
            Ok(out)
        },
        None => {
            let mut out = String::new();
            out.push('<');
            out.append(iri);
            out.push('>');
            assert(out@ =~= column_text(iri@, prefixes@));
            Ok(out)
        },
    }
}

/// Expand a class column (a CURIE, or `<iri>`) to an absolute IRI.
pub fn parse_iri_column(token: &str, prefixes: &Prefixes) -> (r: Result<String, ParseError>)
    ensures
        seen(r) == column_iri(token@, prefixes@),
{
    let c = chars_of(token);
    if c.len() >= 2 && c[0] == '<' && c[c.len() - 1] == '>' {
        let inner = slice_subrange(&c, 1, c.len() - 1);
        return if is_iri_chars(inner) {
            Ok(text_of(inner))
        } else {
            Err(ParseError::NotAnIri(token.to_owned()))
        };
    }
    match split_first(&c, ':') {
        None => Err(ParseError::NotAnIri(token.to_owned())),
        Some((prefix, local)) => match prefixes.get(&text_of(prefix)) {
            Some(ns) => Ok(joined(ns, &text_of(local))),
            None => Err(ParseError::UnboundPrefix(token.to_owned())),
        },
    }
}

// =====================================================================================
// Scanning
// =====================================================================================

/// The character that `\c` stands for inside quotes.
pub open spec fn unescaped(c: char) -> char {
    if c == 'n' {
        '\n'
    } else if c == 'r' {
        '\r'
    } else if c == 't' {
        '\t'
    } else {
        c
    }
}

/// The token that `s` begins with, and what follows it. White space ends a token,
/// but not between quotes; the quotes and the escapes between them are resolved.
/// `None` where the quotes are left open.
pub open spec fn first_token(s: Seq<char>, in_quotes: bool) -> Option<(Seq<char>, Seq<char>)>
    decreases s.len(),
{
    if s.len() == 0 {
        if in_quotes {
            None
        } else {
            Some((Seq::empty(), s))
        }
    } else if is_white(s[0]) && !in_quotes {
        Some((Seq::empty(), s))
    } else if s[0] == '"' {
        first_token(s.skip(1), !in_quotes)
    } else if s[0] == '\\' && in_quotes {
        if s.len() < 2 {
            None
        } else {
            after(seq![unescaped(s[1])], first_token(s.skip(2), in_quotes))
        }
    } else {
        after(seq![s[0]], first_token(s.skip(1), in_quotes))
    }
}

/// `head` put before the token of `r`.
pub open spec fn after(
    head: Seq<char>,
    r: Option<(Seq<char>, Seq<char>)>,
) -> Option<(Seq<char>, Seq<char>)> {
    match r {
        Some((token, rest)) => Some((head + token, rest)),
        None => None,
    }
}

/// The tokens of a line; `None` where the quotes are left open.
pub open spec fn tokens(s: Seq<char>) -> Option<Seq<Seq<char>>>
    decreases s.len(),
{
    let t = trim_start(s);
    if t.len() == 0 {
        Some(Seq::empty())
    } else {
        proof {
            lemma_first_where(s, solids());
            lemma_first_token_shrinks(t);
        }
        match first_token(t, false) {
            None => None,
            Some((token, rest)) => match tokens(rest) {
                None => None,
                Some(more) => Some(seq![token] + more),
            },
        }
    }
}

proof fn lemma_first_token_rest(s: Seq<char>, in_quotes: bool)
    ensures
        first_token(s, in_quotes) matches Some((_, rest)) ==> rest.len() <= s.len(),
    decreases s.len(),
{
    if s.len() > 0 {
        lemma_first_token_rest(s.skip(1), !in_quotes);
        lemma_first_token_rest(s.skip(1), in_quotes);
        if s.len() > 1 {
            lemma_first_token_rest(s.skip(2), in_quotes);
        }
    }
}

/// A token takes at least one character off the line.
pub proof fn lemma_first_token_shrinks(s: Seq<char>)
    requires
        s.len() > 0,
        !is_white(s[0]),
    ensures
        first_token(s, false) matches Some((_, rest)) ==> rest.len() < s.len(),
{
    lemma_first_token_rest(s.skip(1), true);
    lemma_first_token_rest(s.skip(1), false);
}

/// Split a line into whitespace-separated tokens, keeping a quoted run whole
/// (and unescaped). Quoting is only ever needed inside a `key=value` column, so
/// the scanner does not need to know about columns at all.
pub fn scan(line: &str) -> (r: Result<Vec<String>, ParseError>)
    ensures
        match r {
            Ok(v) => tokens(line@) == Some(texts(v@)),
            Err(e) => tokens(line@) is None && e@ == ParseErrorView::Field(line@),
        },
{
    let c = chars_of(line);
    let mut out: Vec<String> = Vec::new();
    let mut i: usize = find_solid(&c, 0);
    proof {
        assert(c@.skip(0) =~= c@);
        lemma_tokens_skip(c@, 0, i as int);
        assert(texts(out@) =~= Seq::empty());
        assert(more_tokens(texts(out@), tokens(c@.skip(i as int))) =~= tokens(c@));
    }
    while i < c.len()
        invariant
            i <= c.len(),
            c@ == line@,
            i < c.len() ==> !is_white(c@[i as int]),
            tokens(c@) == more_tokens(texts(out@), tokens(c@.skip(i as int))),
        decreases c.len() - i,
    {
        let ghost t = c@.skip(i as int);
        let mut token = String::new();
        let mut quotes = false;
        let mut j: usize = i;
        proof {
            lemma_first_where_is(t, solids(), 0);
            assert(trim_start(t) =~= t);
            assert(after(token@, first_token(t, false)) =~= first_token(t, false));
        }
        while j < c.len() && (quotes || !white(c[j]))
            invariant
                i <= j <= c.len(),
                i < c.len(),
                i == j ==> !quotes && !is_white(c@[i as int]),
                c@ == line@,
                t == c@.skip(i as int),
                trim_start(t) == t,
                first_token(t, false) == after(token@, first_token(c@.skip(j as int), quotes)),
                tokens(c@) == more_tokens(texts(out@), tokens(t)),
            decreases c.len() - j,
        {
            let ghost u = c@.skip(j as int);
            let ghost before = token@;
            assert(u.skip(1) =~= c@.skip(j + 1));
            let k = c[j];
            if k == '"' {
                quotes = !quotes;
                j = j + 1;
            } else if k == '\\' && quotes {
                if j + 1 >= c.len() {
                    return Err(ParseError::Field(line.to_owned()));
                }
                assert(u.skip(2) =~= c@.skip(j + 2));
                let e = c[j + 1];
                let d = if e == 'n' {
                    '\n'
                } else if e == 'r' {
                    '\r'
                } else if e == 't' {
                    '\t'
                } else {
                    e
                };
                token.push(d);
                proof {
                    assert(d == unescaped(u[1]));
                    lemma_after(before, d, first_token(u.skip(2), quotes));
                    assert(token@ =~= before.push(d));
                }
                j = j + 2;
            } else {
                token.push(k);
                proof {
                    lemma_after(before, k, first_token(u.skip(1), quotes));
                }
                j = j + 1;
            }
        }
        if quotes {
            assert(c@.skip(j as int) =~= Seq::empty());
            return Err(ParseError::Field(line.to_owned()));
        }
        let next = find_solid(&c, j);
        proof {
            let u = c@.skip(j as int);
            assert(first_token(u, false) == Some((Seq::<char>::empty(), u)));
            assert(token@ + Seq::<char>::empty() =~= token@);
            assert(first_token(t, false) == Some((token@, u)));
            lemma_tokens_skip(c@, j as int, next as int);
            lemma_more_tokens(texts(out@), token@, tokens(u));
            assert(texts(out@.push(token)) =~= texts(out@).push(token@));
        }
        out.push(token);
        i = next;
    }
    proof {
        assert(c@.skip(i as int) =~= Seq::empty());
        assert(trim_start(c@.skip(i as int)) =~= Seq::empty());
        assert(texts(out@) + Seq::<Seq<char>>::empty() =~= texts(out@));
    }
    Ok(out)
}

spec fn more_tokens(
    head: Seq<Seq<char>>,
    tail: Option<Seq<Seq<char>>>,
) -> Option<Seq<Seq<char>>> {
    match tail {
        Some(t) => Some(head + t),
        None => None,
    }
}

proof fn lemma_after(head: Seq<char>, c: char, r: Option<(Seq<char>, Seq<char>)>)
    ensures
        after(head, after(seq![c], r)) == after(head.push(c), r),
{
    if let Some((token, rest)) = r {
        assert(head + (seq![c] + token) =~= head.push(c) + token);
    }
}

proof fn lemma_more_tokens(head: Seq<Seq<char>>, t: Seq<char>, tail: Option<Seq<Seq<char>>>)
    ensures
        more_tokens(head, more_tokens(seq![t], tail)) == more_tokens(head.push(t), tail),
{
    if let Some(more) = tail {
        assert(head + (seq![t] + more) =~= head.push(t) + more);
    }
}

/// Leading white space makes no difference to the tokens.
proof fn lemma_tokens_skip(s: Seq<char>, n: int, next: int)
    requires
        0 <= n <= next <= s.len(),
        next == n + first_where(s.skip(n), solids()),
    ensures
        tokens(s.skip(n)) == tokens(s.skip(next)),
{
    let t = s.skip(n);
    let u = s.skip(next);
    lemma_first_where(t, solids());
    assert(trim_start(t) =~= u);
    if u.len() > 0 {
        assert(u[0] == t[next - n]);
    }
    lemma_first_where_is(u, solids(), 0);
    assert(trim_start(u) =~= u);
}

// =====================================================================================
// What the scanner makes of what is written
// =====================================================================================

/// Whether the scanner reads `s`, where a blank or nothing follows, as the one
/// token `t`.
pub open spec fn reads_as(s: Seq<char>, t: Seq<char>) -> bool {
    &&& s.len() > 0
    &&& !is_white(s[0])
    &&& first_token(s, false) == Some((t, Seq::<char>::empty()))
}

/// An unbroken run is taken as it stands.
proof fn lemma_first_token_plain(a: Seq<char>, tail: Seq<char>)
    requires
        unbroken(a),
    ensures
        first_token(a + tail, false) == after(a, first_token(tail, false)),
    decreases a.len(),
{
    let s = a + tail;
    if a.len() == 0 {
        assert(s =~= tail);
        if let Some((token, rest)) = first_token(tail, false) {
            assert(a + token =~= token);
        }
    } else {
        assert(a.contains(a[0]));
        assert(!is_white(a[0]));
        let b = a.drop_first();
        assert(unbroken(b)) by {
            assert forall|i: int| 0 <= i < b.len() implies b[i] != '"' && !is_white(#[trigger] b[i]) by {
                assert(b[i] == a[i + 1]);
                assert(a.contains(a[i + 1]));
            }
        }
        lemma_first_token_plain(b, tail);
        assert(s.skip(1) =~= b + tail);
        if let Some((token, rest)) = first_token(tail, false) {
            assert(seq![a[0]] + (b + token) =~= a + token);
        }
    }
}

/// An unbroken run is one token.
pub proof fn lemma_reads_plain(a: Seq<char>)
    requires
        unbroken(a),
        a.len() > 0,
    ensures
        reads_as(a, a),
{
    lemma_first_token_plain(a, Seq::empty());
    assert(a + Seq::<char>::empty() =~= a);
}

/// Escapes are resolved to what they were written for.
proof fn lemma_first_token_escapes(v: Seq<char>, tail: Seq<char>)
    ensures
        first_token(escapes(v) + tail, true) == after(v, first_token(tail, true)),
    decreases v.len(),
{
    if v.len() == 0 {
        assert(escapes(v) + tail =~= tail);
        if let Some((token, rest)) = first_token(tail, true) {
            assert(v + token =~= token);
        }
    } else {
        let w = v.drop_last();
        let c = v.last();
        let more = escaped(c) + tail;
        lemma_first_token_escapes(w, more);
        assert(escapes(v) + tail =~= escapes(w) + more);
        if escaped(c).len() == 1 {
            assert(more.skip(1) =~= tail);
        } else {
            assert(more.skip(2) =~= tail);
            assert(unescaped(more[1]) == c);
        }
        assert(first_token(more, true) == after(seq![c], first_token(tail, true)));
        lemma_after(w, c, first_token(tail, true));
        assert(w.push(c) =~= v);
    }
}

/// A written value is read as the value.
proof fn lemma_first_token_value(v: Seq<char>)
    ensures
        first_token(value_text(v), false) == Some((v, Seq::<char>::empty())),
{
    if bare_value(v) {
        lemma_first_token_plain(v, Seq::empty());
        assert(v + Seq::<char>::empty() =~= v);
    } else {
        let end = seq!['"'];
        let s = quoted(v);
        lemma_first_token_escapes(v, end);
        assert(s.skip(1) =~= escapes(v) + end);
        assert(end.skip(1) =~= Seq::<char>::empty());
        assert(first_token(end.skip(1), false) == Some((Seq::<char>::empty(), Seq::<char>::empty())));
        assert(first_token(end, true) == Some((Seq::<char>::empty(), Seq::<char>::empty())));
        assert(v + Seq::<char>::empty() =~= v);
    }
}

/// A written `key=value` column is read as the key, `=` and the value.
pub proof fn lemma_reads_field(k: Seq<char>, v: Seq<char>)
    requires
        key_like(k),
    ensures
        reads_as(k + seq!['='] + value_text(v), k + seq!['='] + v),
{
    let head = k + seq!['='];
    assert(unbroken(head)) by {
        assert forall|i: int| 0 <= i < head.len() implies head[i] != '"' && !is_white(
            #[trigger] head[i],
        ) by {
            if i < k.len() {
                assert(head[i] == k[i]);
                assert(key_char(k[i]));
            }
        }
    }
    lemma_first_token_plain(head, value_text(v));
    lemma_first_token_value(v);
    let s = head + value_text(v);
    assert(s[0] == head[0]);
    assert(!is_white(head[0]));
}

/// What follows a blank does not change the token before it.
proof fn lemma_first_token_before(a: Seq<char>, b: Seq<char>, in_quotes: bool)
    requires
        b.len() == 0 || is_white(b[0]),
        first_token(a, in_quotes) is Some,
    ensures
        match first_token(a, in_quotes) {
            Some((token, rest)) => first_token(a + b, in_quotes) == Some((token, rest + b)),
            None => false,
        },
    decreases a.len(),
{
    let s = a + b;
    if a.len() == 0 {
        assert(s =~= b);
        assert(a + b =~= b);
    } else if is_white(a[0]) && !in_quotes {
    } else if a[0] == '"' {
        assert(s.skip(1) =~= a.skip(1) + b);
        lemma_first_token_before(a.skip(1), b, !in_quotes);
    } else if a[0] == '\\' && in_quotes {
        assert(s.skip(2) =~= a.skip(2) + b);
        lemma_first_token_before(a.skip(2), b, in_quotes);
    } else {
        assert(s.skip(1) =~= a.skip(1) + b);
        lemma_first_token_before(a.skip(1), b, in_quotes);
    }
}

/// A column that stands alone is the one token of its line.
pub proof fn lemma_tokens_one(col: Seq<char>, t: Seq<char>)
    requires
        reads_as(col, t),
    ensures
        tokens(col) == Some(seq![t]),
{
    lemma_first_where_is(col, solids(), 0);
    assert(trim_start(col) =~= col);
    let empty = Seq::<char>::empty();
    assert(trim_start(empty) =~= empty);
    assert(tokens(empty) == Some(Seq::<Seq<char>>::empty()));
    assert(seq![t] + Seq::<Seq<char>>::empty() =~= seq![t]);
}

/// A column after a blank is one token more.
pub proof fn lemma_tokens_push(s: Seq<char>, ts: Seq<Seq<char>>, col: Seq<char>, t: Seq<char>)
    requires
        tokens(s) == Some(ts),
        reads_as(col, t),
    ensures
        tokens(s + seq![' '] + col) == Some(ts.push(t)),
    decreases s.len(),
{
    let x = seq![' '] + col;
    let whole = s + seq![' '] + col;
    assert(whole =~= s + x);
    let n = first_where(s, solids());
    lemma_first_where(s, solids());
    let u = trim_start(s);
    if u.len() == 0 {
        assert forall|i: int| 0 <= i < s.len() + 1 implies !solids()(#[trigger] whole[i]) by {
            if i < s.len() {
                assert(whole[i] == s[i]);
            }
        }
        assert(whole[s.len() as int + 1] == col[0]);
        lemma_first_where_is(whole, solids(), s.len() as int + 1);
        assert(trim_start(whole) =~= col);
        lemma_tokens_one(col, t);
        lemma_first_where_is(col, solids(), 0);
        assert(trim_start(col) =~= col);
        assert(ts =~= Seq::empty());
        assert(seq![t] =~= ts.push(t));
    } else {
        assert forall|i: int| 0 <= i < n implies !solids()(#[trigger] whole[i]) by {
            assert(whole[i] == s[i]);
        }
        assert(whole[n] == s[n]);
        lemma_first_where_is(whole, solids(), n);
        assert(trim_start(whole) =~= u + x);
        lemma_first_token_shrinks(u);
        lemma_first_token_before(u, x, false);
        if let Some((token, rest)) = first_token(u, false) {
            if let Some(more) = tokens(rest) {
                lemma_tokens_push(rest, more, col, t);
                assert(rest + seq![' '] + col =~= rest + x);
                assert((u + x)[0] == u[0]);
                lemma_first_token_shrinks(u + x);
                assert(ts == seq![token] + more);
                assert(seq![token] + more.push(t) =~= ts.push(t));
            }
        }
    }
}

/// An IRI without what the scanner treats as structure is unbroken in its column.
pub proof fn lemma_column_unbroken(iri: Seq<char>, prefixes: Seq<(Seq<char>, Seq<char>)>)
    requires
        iri_like(iri),
        forall|i: int| 0 <= i < prefixes.len() ==> unbroken(#[trigger] prefixes[i].0),
    ensures
        unbroken(column_text(iri, prefixes)),
        column_text(iri, prefixes).len() > 0,
{
    lemma_best_prefix(iri, prefixes);
    match best_prefix(iri, prefixes) {
        Some(i) => {
            let local = iri.skip(prefixes[i].1.len() as int);
            assert(unbroken(local)) by {
                assert forall|j: int| 0 <= j < local.len() implies local[j] != '"' && !is_white(
                    #[trigger] local[j],
                ) by {
                    assert(local[j] == iri[j + prefixes[i].1.len()]);
                    assert(iri.contains(local[j]));
                }
            }
            lemma_unbroken_join(prefixes[i].0, seq![':']);
            lemma_unbroken_join(prefixes[i].0 + seq![':'], local);
        },
        None => {
            lemma_unbroken_join(seq!['<'], iri);
            lemma_unbroken_join(seq!['<'] + iri, seq!['>']);
        },
    }
}

/// What [`best_prefix`] says of the place it gives.
pub proof fn lemma_best_prefix(iri: Seq<char>, prefixes: Seq<(Seq<char>, Seq<char>)>)
    ensures
        match best_prefix(iri, prefixes) {
            Some(b) => {
                &&& 0 <= b < prefixes.len()
                &&& shortens(iri, prefixes[b].1)
                &&& forall|i: int|
                    0 <= i < prefixes.len() && shortens(iri, #[trigger] prefixes[i].1)
                        ==> prefixes[i].1.len() <= prefixes[b].1.len() && (prefixes[i].1.len()
                        == prefixes[b].1.len() ==> b <= i)
            },
            None => forall|i: int|
                0 <= i < prefixes.len() ==> !shortens(iri, #[trigger] prefixes[i].1),
        },
    decreases prefixes.len(),
{
    if prefixes.len() > 0 {
        let p = prefixes.drop_last();
        lemma_best_prefix(iri, p);
        assert forall|i: int| 0 <= i < p.len() implies p[i] == #[trigger] prefixes[i] by {}
    }
}

/// The class column is read back as the IRI it was written for.
pub proof fn law_column_round_trip(iri: Seq<char>, prefixes: Seq<(Seq<char>, Seq<char>)>)
    requires
        iri_like(iri),
        ascending(prefixes),
        forall|i: int| 0 <= i < prefixes.len() ==> !(#[trigger] prefixes[i]).0.contains(':'),
    ensures
        column_iri(column_text(iri, prefixes), prefixes) == Ok::<_, ParseErrorView>(iri),
{
    lemma_best_prefix(iri, prefixes);
    let token = column_text(iri, prefixes);
    match best_prefix(iri, prefixes) {
        Some(i) => {
            let name = prefixes[i].0;
            let ns = prefixes[i].1;
            let local = iri.skip(ns.len() as int);
            assert(token.last() == iri.last());
            assert(iri.contains(iri.last()));
            assert forall|j: int| 0 <= j < name.len() implies !is_char(':')(#[trigger] token[j]) by {
                assert(token[j] == name[j]);
                assert(name.contains(name[j]));
            }
            assert(token[name.len() as int] == ':');
            lemma_first_where_is(token, is_char(':'), name.len() as int);
            assert(token.take(name.len() as int) =~= name);
            assert(token.skip(name.len() as int + 1) =~= local);
            lemma_lookup_at(prefixes, i);
            assert(ns + local =~= iri);
        },
        None => {
            assert(token.subrange(1, token.len() - 1) =~= iri);
        },
    }
}

} // verus!
