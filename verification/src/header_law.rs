//! What holds between writing a header and reading it.

use vstd::prelude::*;
use vstd::string::*;
use vstd::utf8::encode_utf8;

use crate::entry::{lemma_one_line_join, lemma_one_line_unbroken, one_line};
use crate::error::ParseErrorView;
use crate::header::{
    blanks, directive_lines, empty_draft, header_block, header_read, header_text, lemma_utf8_join,
    prefix_line, prefix_lines, prefix_read, prefix_width, prev_text, with_directive, with_line,
    with_lines, DraftView, HeaderView, PrevView, FORMAT_VERSION,
};
use crate::line::{lemma_words_one, lemma_words_push, line_read, one_word, LineView};
use crate::number::{decimal, lemma_decimal, lemma_read_decimal};
use crate::table::{ascending, stored};
use crate::text::{
    chomp, first_where, has_white, in_line, is_char, is_digit, is_white, lemma_first_where_is,
    lemma_past_last_where_is, lemma_precedes_total, lines, not_char, precedes, solids, starts_with,
    trim, trim_start, whites, words,
};
use crate::time::{law_time_round_trip, lemma_time_unbroken, time_text, WIDE_FROM};
use crate::token::{best_prefix, column_text, iri_like, law_column_round_trip, lemma_best_prefix};

verus! {

/// Whether the text `s` neither begins nor ends with a blank, and is not empty.
pub open spec fn is_trimmed(s: Seq<char>) -> bool {
    s.len() > 0 && !is_white(s[0]) && !is_white(s.last())
}

/// Whether a namespace survives being written between angle brackets.
pub open spec fn usable_namespace(ns: Seq<char>) -> bool {
    one_word(ns) && ns[0] != '<' && ns.last() != '>'
}

/// Whether every prefix is a name that a directive can bind: no colon, no white space.
pub open spec fn bindable_prefixes(prefixes: Seq<(Seq<char>, Seq<char>)>) -> bool {
    &&& ascending(prefixes)
    &&& forall|i: int|
        0 <= i < prefixes.len() ==> !(#[trigger] prefixes[i]).0.contains(':') && !has_white(
            prefixes[i].0,
        )
}

/// Whether a header can be read back from what it is written as.
pub open spec fn rereadable(h: HeaderView) -> bool {
    &&& h.version == FORMAT_VERSION
    &&& h.started < WIDE_FROM
    &&& bindable_prefixes(h.prefixes)
    &&& forall|i: int|
        0 <= i < h.prefixes.len() ==> (#[trigger] h.prefixes[i]).0.len() > 0 && usable_namespace(
            h.prefixes[i].1,
        )
    &&& h.prev matches PrevView::Seal(hash) ==> is_trimmed(hash) && one_line(hash) && hash
        != "genesis"@
}

// =====================================================================================
// Trimming what needs none
// =====================================================================================

pub proof fn lemma_trim_trimmed(s: Seq<char>)
    requires
        is_trimmed(s),
    ensures
        trim(s) == s,
        trim_start(s) == s,
        chomp(s) == s,
{
    lemma_first_where_is(s, solids(), 0);
    assert(trim_start(s) =~= s);
    lemma_past_last_where_is(s, solids(), s.len() as int);
    assert(trim(s) =~= s);
    lemma_past_last_where_is(s, in_line(), s.len() as int);
    assert(chomp(s) =~= s);
}

pub proof fn lemma_chomp_newline(s: Seq<char>)
    requires
        s.len() > 0,
        !is_white(s.last()),
    ensures
        chomp(s + seq!['\n']) == s,
{
    let t = s + seq!['\n'];
    assert(t[s.len() - 1] == s.last());
    lemma_past_last_where_is(t, in_line(), s.len() as int);
    assert(t.take(s.len() as int) =~= s);
}

/// Blanks before a value make no difference to it.
proof fn lemma_trim_blanks(k: nat, s: Seq<char>)
    requires
        is_trimmed(s),
    ensures
        trim(blanks(k as int) + s) == s,
{
    let t = blanks(k as int) + s;
    assert forall|i: int| 0 <= i < k implies !solids()(#[trigger] t[i]) by {
        assert(t[i] == ' ');
    }
    assert(t[k as int] == s[0]);
    lemma_first_where_is(t, solids(), k as int);
    assert(trim_start(t) =~= s);
    lemma_past_last_where_is(s, solids(), s.len() as int);
    assert(s.take(s.len() as int) =~= s);
}

// =====================================================================================
// Lines
// =====================================================================================

/// A result of reading lines, with the bytes of the lines before counted in.
spec fn counted(
    bytes: nat,
    r: Result<(DraftView, nat), ParseErrorView>,
) -> Result<(DraftView, nat), ParseErrorView> {
    match r {
        Err(e) => Err(e),
        Ok((d, more)) => Ok((d, bytes + more)),
    }
}

/// The first line of a text, and the rest.
pub proof fn lemma_lines_cons(a: Seq<char>, rest: Seq<char>)
    requires
        one_line(a),
    ensures
        lines(a + seq!['\n'] + rest) == seq![a + seq!['\n']] + lines(rest),
{
    let s = a + seq!['\n'] + rest;
    let n = a.len() as int;
    assert forall|i: int| 0 <= i < n implies !is_char('\n')(#[trigger] s[i]) by {
        assert(s[i] == a[i]);
        assert(a.contains(a[i]));
    }
    assert(s[n] == '\n');
    lemma_first_where_is(s, is_char('\n'), n);
    assert(s.take(n + 1) =~= a + seq!['\n']);
    assert(s.skip(n + 1) =~= rest);
}

/// Reading goes on with what one line has added.
proof fn lemma_read_line(d: DraftView, a: Seq<char>, rest: Seq<char>, next: DraftView)
    requires
        one_line(a),
        is_trimmed(a),
        with_line(d, a) == Ok::<_, ParseErrorView>(next),
    ensures
        with_lines(d, lines(a + seq!['\n'] + rest)) == counted(
            encode_utf8(a + seq!['\n']).len(),
            with_lines(next, lines(rest)),
        ),
{
    let line = a + seq!['\n'];
    let ls = lines(a + seq!['\n'] + rest);
    lemma_lines_cons(a, rest);
    assert(ls[0] == line);
    assert(ls.drop_first() =~= lines(rest));
    lemma_chomp_newline(a);
    lemma_trim_trimmed(a);
}

/// A directive is read as its name and its value.
pub proof fn lemma_directive_read(
    name: Seq<char>,
    k: nat,
    value: Seq<char>,
    prefixes: Seq<(Seq<char>, Seq<char>)>,
)
    requires
        one_word(name),
        is_trimmed(value),
        k > 0,
    ensures
        line_read(seq!['@'] + name + blanks(k as int) + value, prefixes) == Ok::<_, ParseErrorView>(
            LineView::Directive { name, value },
        ),
        is_trimmed(seq!['@'] + name + blanks(k as int) + value),
        !starts_with(seq!['@'] + name + blanks(k as int) + value, "# ikigai-log v"@),
{
    let a = seq!['@'] + name + blanks(k as int) + value;
    assert(a.last() == value.last());
    lemma_trim_trimmed(a);
    reveal_strlit("#seal");
    reveal_strlit("# ikigai-log v");
    assert(!starts_with(a, "#seal"@)) by {
        if starts_with(a, "#seal"@) {
            assert(a.take(5)[0] == "#seal"@[0]);
        }
    }
    assert(!starts_with(a, "# ikigai-log v"@)) by {
        if starts_with(a, "# ikigai-log v"@) {
            assert(a.take(14)[0] == "# ikigai-log v"@[0]);
        }
    }
    let rest = a.skip(1);
    assert(rest =~= name + blanks(k as int) + value);
    let n = name.len() as int;
    assert forall|i: int| 0 <= i < n implies !whites()(#[trigger] rest[i]) by {
        assert(rest[i] == name[i]);
        assert(!is_white(name[i]));
    }
    assert(rest[n] == ' ');
    lemma_first_where_is(rest, whites(), n);
    assert(rest.take(n) =~= name);
    assert(rest.skip(n + 1) =~= blanks(k - 1) + value);
    lemma_trim_blanks((k - 1) as nat, value);
}

/// A blank at the end adds no word.
proof fn lemma_words_blank(s: Seq<char>)
    ensures
        words(s + seq![' ']) == words(s),
    decreases s.len(),
{
    let t = s + seq![' '];
    let n = first_where(s, solids());
    crate::text::lemma_first_where(s, solids());
    let u = trim_start(s);
    if u.len() == 0 {
        assert forall|i: int| 0 <= i < t.len() implies !solids()(#[trigger] t[i]) by {
            if i < s.len() {
                assert(t[i] == s[i]);
            }
        }
        lemma_first_where_is(t, solids(), t.len() as int);
        assert(trim_start(t) =~= Seq::empty());
        assert(words(t) =~= words(s));
    } else {
        assert forall|i: int| 0 <= i < n implies !solids()(#[trigger] t[i]) by {
            assert(t[i] == s[i]);
        }
        assert(t[n] == s[n]);
        lemma_first_where_is(t, solids(), n);
        let v = u + seq![' '];
        assert(trim_start(t) =~= v);
        let m = first_where(u, whites());
        crate::text::lemma_first_where(u, whites());
        assert forall|i: int| 0 <= i < m implies !whites()(#[trigger] v[i]) by {
            assert(v[i] == u[i]);
        }
        if m < u.len() {
            assert(v[m] == u[m]);
        }
        lemma_first_where_is(v, whites(), m);
        assert(v.take(m) =~= u.take(m));
        assert(v.skip(m) =~= u.skip(m) + seq![' ']);
        assert(m > 0) by {
            assert(u[0] == s[n]);
        }
        lemma_words_blank(u.skip(m));
    }
}

proof fn lemma_words_blanks(s: Seq<char>, k: int)
    ensures
        words(s + blanks(k)) == words(s),
    decreases k,
{
    if k <= 0 {
        assert(s + blanks(k) =~= s);
    } else {
        lemma_words_blanks(s, k - 1);
        lemma_words_blank(s + blanks(k - 1));
        assert(s + blanks(k) =~= s + blanks(k - 1) + seq![' ']);
    }
}

// =====================================================================================
// Prefixes
// =====================================================================================

/// What comes after every key is stored at the end.
pub proof fn lemma_stored_last<T>(s: Seq<(Seq<char>, T)>, k: Seq<char>, v: T)
    requires
        ascending(s.push((k, v))),
    ensures
        stored(s, k, v) == s.push((k, v)),
    decreases s.len(),
{
    let all = s.push((k, v));
    if s.len() > 0 {
        assert(precedes(all[0].0, all[s.len() as int].0));
        lemma_precedes_total(s[0].0, k);
        let t = s.drop_first();
        let rest = t.push((k, v));
        assert forall|i: int, j: int| 0 <= i < j < rest.len() implies precedes(
            #[trigger] rest[i].0,
            #[trigger] rest[j].0,
        ) by {
            assert(rest[i] == all[i + 1] && rest[j] == all[j + 1]);
        }
        lemma_stored_last(t, k, v);
        assert(seq![s[0]] + rest =~= all);
    } else {
        assert(seq![(k, v)] =~= all);
    }
}

spec fn with_prefixes(d: DraftView, p: Seq<(Seq<char>, Seq<char>)>) -> DraftView {
    DraftView { prefixes: p, ..d }
}

/// An `@prefix` directive is read as its prefix and its namespace.
pub proof fn lemma_prefix_read(p: Seq<char>, ns: Seq<char>, k: int)
    requires
        one_word(p),
        !p.contains(':'),
        usable_namespace(ns),
    ensures
        prefix_read(p + seq![':'] + blanks(k) + " <"@ + ns + "> ."@) == Ok::<_, ParseErrorView>(
            (p, ns),
        ),
        is_trimmed(p + seq![':'] + blanks(k) + " <"@ + ns + "> ."@),
        one_line(p + seq![':'] + blanks(k) + " <"@ + ns + "> ."@),
{
    let value = p + seq![':'] + blanks(k) + " <"@ + ns + "> ."@;
    reveal_strlit(" <");
    reveal_strlit("> .");
    let w0 = p + seq![':'];
    let w1 = seq!['<'] + ns + seq!['>'];
    let w2 = seq!['.'];
    assert(value =~= w0 + blanks(k) + seq![' '] + w1 + seq![' '] + w2);
    assert(!has_white(w0)) by {
        assert forall|i: int| 0 <= i < w0.len() implies !is_white(#[trigger] w0[i]) by {
            if i < p.len() {
                assert(w0[i] == p[i]);
            }
        }
    }
    assert(!has_white(w1)) by {
        assert forall|i: int| 0 <= i < w1.len() implies !is_white(#[trigger] w1[i]) by {
            if 1 <= i <= ns.len() {
                assert(w1[i] == ns[i - 1]);
            }
        }
    }
    lemma_words_one(w0);
    lemma_words_blanks(w0, k);
    lemma_words_push(w0 + blanks(k), w1);
    assert(one_word(w2));
    lemma_words_push(w0 + blanks(k) + seq![' '] + w1, w2);
    assert(words(value) =~= seq![w0, w1, w2]);
    assert(p.contains(p.last()));
    lemma_past_last_where_is(w0, not_char(':'), p.len() as int);
    assert(w0.take(p.len() as int) =~= p);
    lemma_first_where_is(w1, not_char('<'), 1);
    let inner = ns + seq!['>'];
    assert(w1.skip(1) =~= inner);
    assert(inner[ns.len() - 1] == ns.last());
    lemma_past_last_where_is(inner, not_char('>'), ns.len() as int);
    assert(inner.take(ns.len() as int) =~= ns);
    assert(value[0] == p[0]);
    assert(!is_white(p[0]));
    assert(value.last() == '.');
    lemma_one_line_unbroken(w0);
    lemma_one_line_unbroken(w1);
    assert(one_line(blanks(k)));
    lemma_one_line_join(w0, blanks(k));
    lemma_one_line_join(w0 + blanks(k), seq![' ']);
    lemma_one_line_join(w0 + blanks(k) + seq![' '], w1);
    lemma_one_line_join(w0 + blanks(k) + seq![' '] + w1, seq![' ']);
    lemma_one_line_join(w0 + blanks(k) + seq![' '] + w1 + seq![' '], w2);
}

/// Reading a directive line, from its parts.
proof fn lemma_read_directive(
    d: DraftView,
    name: Seq<char>,
    k: nat,
    value: Seq<char>,
    rest: Seq<char>,
    next: DraftView,
)
    requires
        one_word(name),
        is_trimmed(value),
        one_line(value),
        k > 0,
        with_directive(d, name, value) == Ok::<_, ParseErrorView>(next),
    ensures
        with_lines(d, lines(seq!['@'] + name + blanks(k as int) + value + seq!['\n'] + rest))
            == counted(
            encode_utf8(seq!['@'] + name + blanks(k as int) + value + seq!['\n']).len(),
            with_lines(next, lines(rest)),
        ),
{
    let a = seq!['@'] + name + blanks(k as int) + value;
    lemma_directive_read(name, k, value, d.prefixes);
    lemma_one_line_unbroken(name);
    assert(one_line(blanks(k as int)));
    lemma_one_line_join(seq!['@'], name);
    lemma_one_line_join(seq!['@'] + name, blanks(k as int));
    lemma_one_line_join(seq!['@'] + name + blanks(k as int), value);
    lemma_read_line(d, a, rest, next);
}

/// Reading one `@prefix` line takes in its prefix.
proof fn lemma_read_prefix(d: DraftView, p: (Seq<char>, Seq<char>), width: nat, rest: Seq<char>)
    requires
        one_word(p.0),
        !p.0.contains(':'),
        usable_namespace(p.1),
        ascending(d.prefixes.push(p)),
    ensures
        with_lines(d, lines(prefix_line(p, width) + rest)) == counted(
            encode_utf8(prefix_line(p, width)).len(),
            with_lines(with_prefixes(d, d.prefixes.push(p)), lines(rest)),
        ),
{
    let (name, ns) = p;
    let last = prefix_line(p, width);
    let k = width - name.len();
    let value = name + seq![':'] + blanks(k) + " <"@ + ns + "> ."@;
    lemma_prefix_read(name, ns, k);
    let line = seq!['@'] + "prefix"@ + blanks(1) + value + seq!['\n'];
    assert(last =~= line) by {
        reveal_strlit("@prefix ");
        reveal_strlit("prefix");
        reveal_strlit("> .\n");
        reveal_strlit("> .");
        assert("@prefix "@ =~= seq!['@'] + "prefix"@ + blanks(1));
        assert("> .\n"@ =~= "> ."@ + seq!['\n']);
    }
    lemma_stored_last(d.prefixes, name, ns);
    lemma_names_differ();
    assert(one_word("prefix"@)) by {
        reveal_strlit("prefix");
    }
    lemma_read_directive(d, "prefix"@, 1, value, rest, with_prefixes(d, d.prefixes.push(p)));
}

/// Reading the `@prefix` lines takes in the prefixes.
proof fn lemma_read_prefixes(
    d: DraftView,
    p: Seq<(Seq<char>, Seq<char>)>,
    width: nat,
    rest: Seq<char>,
)
    requires
        d.prefixes == Seq::<(Seq<char>, Seq<char>)>::empty(),
        bindable_prefixes(p),
        forall|i: int|
            0 <= i < p.len() ==> (#[trigger] p[i]).0.len() > 0 && usable_namespace(p[i].1),
    ensures
        with_lines(d, lines(prefix_lines(p, width) + rest)) == counted(
            encode_utf8(prefix_lines(p, width)).len(),
            with_lines(with_prefixes(d, p), lines(rest)),
        ),
    decreases p.len(),
{
    if p.len() == 0 {
        assert(prefix_lines(p, width) + rest =~= rest);
        assert(with_prefixes(d, p) =~= d) by {
            assert(p =~= d.prefixes);
        }
        assert(encode_utf8(prefix_lines(p, width)) =~= Seq::empty());
    } else {
        let q = p.drop_last();
        let last = prefix_line(p.last(), width);
        assert(forall|i: int| 0 <= i < q.len() ==> q[i] == #[trigger] p[i]);
        assert(p[p.len() - 1] == p.last());
        lemma_read_prefixes(d, q, width, last + rest);
        assert(prefix_lines(q, width) + (last + rest) =~= prefix_lines(p, width) + rest);
        assert(q.push(p.last()) =~= p);
        lemma_read_prefix(with_prefixes(d, q), p.last(), width, rest);
        lemma_utf8_join(prefix_lines(q, width), last);
    }
}

// =====================================================================================
// The law
// =====================================================================================

/// Whether a text that is an IRI column has nothing to trim and no newline.
pub proof fn lemma_iri_value(s: Seq<char>)
    requires
        one_word(s),
    ensures
        is_trimmed(s),
        one_line(s),
{
    assert(!is_white(s[0]));
    assert(!is_white(s[s.len() - 1]));
    lemma_one_line_unbroken(s);
}

proof fn lemma_read_name(d: DraftView, name: Seq<char>, rest: Seq<char>)
    requires
        d.name is None,
        iri_like(name),
    ensures
        with_lines(d, lines(("@name     "@ + name + seq!['\n']) + rest)) == counted(
            encode_utf8("@name     "@ + name + seq!['\n']).len(),
            with_lines((DraftView { name: Some(name), ..d }), lines(rest)),
        ),
{
    let value = name;
    assert("@name     "@ =~= seq!['@'] + "name"@ + blanks(5)) by {
        reveal_strlit("@name     ");
        reveal_strlit("name");
    }
    assert(one_word("name"@)) by {
        reveal_strlit("name");
    }
    lemma_names_differ();
    lemma_iri_value(value);
    lemma_read_directive(d, "name"@, 5, value, rest, (DraftView { name: Some(name), ..d }));
}

proof fn lemma_read_instance(d: DraftView, instance: Seq<char>, rest: Seq<char>)
    requires
        d.instance is None,
        iri_like(instance),
    ensures
        with_lines(d, lines(("@instance "@ + instance + seq!['\n']) + rest)) == counted(
            encode_utf8("@instance "@ + instance + seq!['\n']).len(),
            with_lines((DraftView { instance: Some(instance), ..d }), lines(rest)),
        ),
{
    let value = instance;
    assert("@instance "@ =~= seq!['@'] + "instance"@ + blanks(1)) by {
        reveal_strlit("@instance ");
        reveal_strlit("instance");
    }
    assert(one_word("instance"@)) by {
        reveal_strlit("instance");
    }
    lemma_names_differ();
    lemma_iri_value(value);
    lemma_read_directive(d, "instance"@, 1, value, rest, (DraftView { instance: Some(instance), ..d }));
}

/// The class column is one word.
pub proof fn lemma_column_word(iri: Seq<char>, prefixes: Seq<(Seq<char>, Seq<char>)>)
    requires
        iri_like(iri),
        forall|i: int| 0 <= i < prefixes.len() ==> !has_white((#[trigger] prefixes[i]).0),
    ensures
        one_word(column_text(iri, prefixes)),
{
    let token = column_text(iri, prefixes);
    lemma_best_prefix(iri, prefixes);
    match best_prefix(iri, prefixes) {
        Some(i) => {
            let (name, ns) = prefixes[i];
            assert forall|j: int| 0 <= j < token.len() implies !is_white(#[trigger] token[j]) by {
                if j < name.len() {
                    assert(token[j] == name[j]);
                } else if j > name.len() {
                    assert(token[j] == iri[j - name.len() - 1 + ns.len()]);
                }
            }
        },
        None => {
            assert forall|j: int| 0 <= j < token.len() implies !is_white(#[trigger] token[j]) by {
                if 0 < j < token.len() - 1 {
                    assert(token[j] == iri[j - 1]);
                }
            }
        },
    }
}

proof fn lemma_read_level(d: DraftView, level: Seq<char>, rest: Seq<char>)
    requires
        d.level is None,
        iri_like(level),
        bindable_prefixes(d.prefixes),
    ensures
        with_lines(d, lines(("@level    "@ + column_text(level, d.prefixes) + seq!['\n']) + rest)) == counted(
            encode_utf8("@level    "@ + column_text(level, d.prefixes) + seq!['\n']).len(),
            with_lines((DraftView { level: Some(level), ..d }), lines(rest)),
        ),
{
    let value = column_text(level, d.prefixes);
    assert("@level    "@ =~= seq!['@'] + "level"@ + blanks(4)) by {
        reveal_strlit("@level    ");
        reveal_strlit("level");
    }
    assert(one_word("level"@)) by {
        reveal_strlit("level");
    }
    lemma_names_differ();
    lemma_column_word(level, d.prefixes);
    lemma_iri_value(value);
    law_column_round_trip(level, d.prefixes);
    lemma_read_directive(d, "level"@, 4, value, rest, (DraftView { level: Some(level), ..d }));
}

proof fn lemma_read_started(d: DraftView, started: nat, rest: Seq<char>)
    requires
        d.started is None,
        started < WIDE_FROM,
    ensures
        with_lines(d, lines(("@started  "@ + time_text(started) + seq!['\n']) + rest)) == counted(
            encode_utf8("@started  "@ + time_text(started) + seq!['\n']).len(),
            with_lines((DraftView { started: Some(started), ..d }), lines(rest)),
        ),
{
    let value = time_text(started);
    assert("@started  "@ =~= seq!['@'] + "started"@ + blanks(2)) by {
        reveal_strlit("@started  ");
        reveal_strlit("started");
    }
    assert(one_word("started"@)) by {
        reveal_strlit("started");
    }
    lemma_names_differ();
    law_time_round_trip(started);
    lemma_time_unbroken(started);
    lemma_iri_value(value);
    lemma_read_directive(d, "started"@, 2, value, rest, (DraftView { started: Some(started), ..d }));
}

proof fn lemma_read_prev(d: DraftView, prev: PrevView, rest: Seq<char>)
    requires
        d.prev is None,
        prev matches PrevView::Seal(hash) ==> is_trimmed(hash) && one_line(hash) && hash
            != "genesis"@,
    ensures
        with_lines(d, lines(("@prev     "@ + prev_text(prev) + seq!['\n']) + rest)) == counted(
            encode_utf8("@prev     "@ + prev_text(prev) + seq!['\n']).len(),
            with_lines((DraftView { prev: Some(prev), ..d }), lines(rest)),
        ),
{
    let value = prev_text(prev);
    assert("@prev     "@ =~= seq!['@'] + "prev"@ + blanks(5)) by {
        reveal_strlit("@prev     ");
        reveal_strlit("prev");
    }
    assert(one_word("prev"@)) by {
        reveal_strlit("prev");
    }
    lemma_names_differ();
    reveal_strlit("genesis");
    lemma_read_directive(d, "prev"@, 5, value, rest, (DraftView { prev: Some(prev), ..d }));
}

/// A blank line ends a header.
proof fn lemma_read_blank(d: DraftView, tail: Seq<char>)
    ensures
        with_lines(d, lines(seq!['\n'] + tail)) == Ok::<_, ParseErrorView>(
            (d, encode_utf8(seq!['\n']).len()),
        ),
{
    let none = Seq::<char>::empty();
    let nl = seq!['\n'];
    assert(one_line(none));
    lemma_lines_cons(none, tail);
    assert(none + nl + tail =~= nl + tail);
    assert(none + nl =~= nl);
    assert(lines(nl + tail)[0] == nl);
    assert(chomp(nl) =~= none) by {
        lemma_past_last_where_is(nl, in_line(), 0);
    }
    assert(trim_start(none) =~= none);
    assert(trim(none) =~= none);
}

proof fn lemma_bytes_of_six(
    a: Seq<char>,
    b: Seq<char>,
    c: Seq<char>,
    d: Seq<char>,
    e: Seq<char>,
    f: Seq<char>,
)
    ensures
        encode_utf8(a + b + c + d + e + f).len() == encode_utf8(a).len() + encode_utf8(b).len()
            + encode_utf8(c).len() + encode_utf8(d).len() + encode_utf8(e).len() + encode_utf8(
            f,
        ).len(),
{
    lemma_utf8_join(a, b);
    lemma_utf8_join(a + b, c);
    lemma_utf8_join(a + b + c, d);
    lemma_utf8_join(a + b + c + d, e);
    lemma_utf8_join(a + b + c + d + e, f);
}

/// The directive lines of a header, from `@name` on, are read as what they say.
proof fn lemma_read_directives(d: DraftView, h: HeaderView, tail: Seq<char>)
    requires
        header_text(h) is Ok,
        rereadable(h),
        d == with_prefixes((DraftView { version: d.version, ..empty_draft() }), h.prefixes),
    ensures
        with_lines(d, lines(directive_lines(h) + tail)) == Ok::<_, ParseErrorView>(
            (
                DraftView {
                    version: d.version,
                    prefixes: h.prefixes,
                    name: Some(h.name),
                    instance: Some(h.instance),
                    level: Some(h.level),
                    started: Some(h.started),
                    prev: Some(h.prev),
                },
                encode_utf8(directive_lines(h)).len(),
            ),
        ),
{
    let nl = seq!['\n'];
    let l1 = "@name     "@ + h.name + nl;
    let l2 = "@instance "@ + h.instance + nl;
    let l3 = "@level    "@ + column_text(h.level, h.prefixes) + nl;
    let l4 = "@started  "@ + time_text(h.started) + nl;
    let l5 = "@prev     "@ + prev_text(h.prev) + nl;
    let r5 = nl + tail;
    let r4 = l5 + r5;
    let r3 = l4 + r4;
    let r2 = l3 + r3;
    let r1 = l2 + r2;
    assert(directive_lines(h) + tail =~= l1 + r1);
    let d1 = DraftView { name: Some(h.name), ..d };
    let d2 = DraftView { instance: Some(h.instance), ..d1 };
    let d3 = DraftView { level: Some(h.level), ..d2 };
    let d4 = DraftView { started: Some(h.started), ..d3 };
    let d5 = DraftView { prev: Some(h.prev), ..d4 };
    lemma_read_name(d, h.name, r1);
    lemma_read_instance(d1, h.instance, r2);
    lemma_read_level(d2, h.level, r3);
    lemma_read_started(d3, h.started, r4);
    lemma_read_prev(d4, h.prev, r5);
    lemma_read_blank(d5, tail);
    lemma_bytes_of_six(l1, l2, l3, l4, l5, nl);
}

/// The names of the directives are all different.
pub proof fn lemma_names_differ()
    ensures
        "name"@ != "prefix"@,
        "instance"@ != "prefix"@ && "instance"@ != "name"@,
        "level"@ != "prefix"@ && "level"@ != "name"@ && "level"@ != "instance"@,
        "started"@ != "prefix"@ && "started"@ != "name"@ && "started"@ != "instance"@ && "started"@
            != "level"@,
        "prev"@ != "prefix"@ && "prev"@ != "name"@ && "prev"@ != "instance"@ && "prev"@ != "level"@
            && "prev"@ != "started"@,
{
    reveal_strlit("name");
    reveal_strlit("instance");
    reveal_strlit("level");
    reveal_strlit("started");
    reveal_strlit("prev");
    reveal_strlit("prefix");
    assert("name"@[0] == 'n' && "prev"@[0] == 'p');
    assert("name"@.len() == 4 && "instance"@.len() == 8 && "level"@.len() == 5 && "started"@.len()
        == 7 && "prev"@.len() == 4 && "prefix"@.len() == 6);
}

/// The version line is read as the version.
proof fn lemma_read_version(version: nat, rest: Seq<char>)
    requires
        version <= u32::MAX,
    ensures
        with_lines(
            empty_draft(),
            lines(("# ikigai-log v"@ + decimal(version) + seq!['\n']) + rest),
        ) == counted(
            encode_utf8("# ikigai-log v"@ + decimal(version) + seq!['\n']).len(),
            with_lines((DraftView { version: Some(version), ..empty_draft() }), lines(rest)),
        ),
{
    let marker = "# ikigai-log v"@;
    let digits = decimal(version);
    let line = marker + digits;
    reveal_strlit("# ikigai-log v");
    lemma_decimal(version);
    lemma_read_decimal(version, u32::MAX as nat);
    assert(is_digit(digits[0]));
    assert(is_digit(digits[digits.len() - 1]));
    assert(line.take(marker.len() as int) =~= marker);
    assert(line.skip(marker.len() as int) =~= digits);
    lemma_trim_trimmed(digits);
    assert(is_trimmed(line));
    assert(one_line(line)) by {
        assert forall|i: int| 0 <= i < line.len() implies #[trigger] line[i] != '\n' by {
            if i >= marker.len() {
                assert(line[i] == digits[i - marker.len()]);
                assert(is_digit(digits[i - marker.len()]));
            }
        }
    }
    lemma_read_line(
        empty_draft(),
        line,
        rest,
        (DraftView { version: Some(version), ..empty_draft() }),
    );
}

/// A written header is read back as the header, with the place where the entries
/// begin, whatever follows it.
pub proof fn law_header_round_trip(h: HeaderView, tail: Seq<char>)
    requires
        header_text(h) is Ok,
        rereadable(h),
    ensures
        header_read(header_text(h)->Ok_0 + tail) == Ok::<_, ParseErrorView>(
            (h, encode_utf8(header_text(h)->Ok_0).len()),
        ),
{
    let width = prefix_width(h.prefixes);
    let first = "# ikigai-log v"@ + decimal(h.version) + seq!['\n'];
    let middle = prefix_lines(h.prefixes, width);
    let end = directive_lines(h);
    let d1 = DraftView { version: Some(h.version), ..empty_draft() };
    lemma_read_version(h.version, middle + (end + tail));
    lemma_read_prefixes(d1, h.prefixes, width, end + tail);
    lemma_read_directives(with_prefixes(d1, h.prefixes), h, tail);
    assert(header_block(h) + tail =~= first + (middle + (end + tail)));
    lemma_utf8_join(first, middle);
    lemma_utf8_join(first + middle, end);
}

} // verus!
