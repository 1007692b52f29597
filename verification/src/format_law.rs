//! What a line of a segment stands for, and what a header has to state.

use vstd::prelude::*;
use vstd::string::*;

use crate::entry::{entry_read, fields_read, tail_read, EntryView};
use crate::error::ParseErrorView;
use crate::header::{
    empty_draft, finished, header_read, with_directive, with_line, with_lines, DraftView,
    HeaderView, PrevView,
};
use crate::header_law::lemma_names_differ;
use crate::line::{line_read, seal_read, LineView, SealView};
use crate::number::read_unsigned;
use crate::table::lookup;
use crate::text::{
    chomp, first_where, has_white, is_white, lemma_first_where, lines, split_once, starts_with,
    trim, whites, words,
};
use crate::text_law::{law_chomp, law_numbers, law_split_once, law_trim};
use crate::time::{law_time_is_read_strictly, time_read, time_text};
use crate::token::{column_iri, iri_like, key_char, key_like, tokens};
use crate::verify::body_start;

verus! {

// =====================================================================================
// One line
// =====================================================================================

/// What a line is, its first characters tell: nothing but white space is blank; a `#seal` is
/// a seal; any other `#` begins a comment; an `@` begins a directive, whose name goes up to
/// the first white space; and everything else is an entry.
pub proof fn law_line_kinds(line: Seq<char>, prefixes: Seq<(Seq<char>, Seq<char>)>)
    ensures
        ({
            let t = chomp(line);
            let blank = forall|i: int| 0 <= i < t.len() ==> is_white(#[trigger] t[i]);
            let r = line_read(line, prefixes);
            &&& r == Ok::<LineView, ParseErrorView>(LineView::Blank) <==> blank
            &&& !blank && starts_with(t, "#seal"@) ==> match seal_read(t) {
                Ok(s) => r == Ok::<LineView, ParseErrorView>(LineView::Seal(s)),
                Err(e) => r == Err::<LineView, ParseErrorView>(e),
            }
            &&& !blank && t[0] == '#' && !starts_with(t, "#seal"@) ==> r == Ok::<
                LineView,
                ParseErrorView,
            >(LineView::Comment(trim(t.skip(1))))
            &&& !blank && t[0] == '@' ==> {
                &&& r matches Ok(LineView::Directive { name, value })
                &&& !has_white(name)
                &&& t == seq!['@'] + name && value.len() == 0 || exists|i: int|
                    0 < i < t.len() && is_white(#[trigger] t[i]) && name == t.subrange(1, i)
                        && value == trim(t.skip(i + 1))
            }
            &&& !blank && t[0] != '#' && t[0] != '@' ==> match entry_read(t, prefixes) {
                Ok(e) => r == Ok::<LineView, ParseErrorView>(LineView::Entry(e)),
                Err(e) => r == Err::<LineView, ParseErrorView>(e),
            }
        }),
{
    let t = chomp(line);
    law_trim(t);
    reveal_strlit("#seal");
    if trim(t).len() > 0 {
        if starts_with(t, "#seal"@) {
            assert(t[0] == t.take("#seal"@.len() as int)[0]);
        }
        if t[0] == '@' {
            let rest = t.skip(1);
            let n = first_where(rest, whites());
            lemma_first_where(rest, whites());
            let name = rest.take(n);
            assert forall|i: int| 0 <= i < name.len() implies !is_white(#[trigger] name[i]) by {
                assert(!whites()(rest[i]));
            }
            if n < rest.len() {
                assert(whites()(rest[n]));
                assert(is_white(t[n + 1]));
                assert(name =~= t.subrange(1, n + 1));
                assert(rest.skip(n + 1) =~= t.skip(n + 2));
            } else {
                assert(t =~= seq!['@'] + name);
            }
        }
    }
}

/// Whether `t` is the column of a field: its key, an equals sign and its value.
pub open spec fn is_column(t: Seq<char>, field: (Seq<char>, Seq<char>)) -> bool {
    key_like(field.0) && t == field.0 + seq!['='] + field.1
}

/// Whether `ts` are the columns of `fields`.
pub open spec fn are_columns(ts: Seq<Seq<char>>, fields: Seq<(Seq<char>, Seq<char>)>) -> bool {
    &&& ts.len() == fields.len()
    &&& forall|i: int| 0 <= i < ts.len() ==> is_column(#[trigger] ts[i], fields[i])
}

proof fn lemma_columns_read(ts: Seq<Seq<char>>)
    ensures
        fields_read(ts) matches Ok(fields) ==> are_columns(ts, fields),
    decreases ts.len(),
{
    if ts.len() > 0 && fields_read(ts) is Ok {
        let more = ts.drop_first();
        let (key, value) = split_once(ts[0], '=')->0;
        law_split_once(ts[0], '=', key, value);
        let tail = fields_read(more)->Ok_0;
        lemma_columns_read(more);
        let fields = fields_read(ts)->Ok_0;
        assert(fields == seq![(key, value)] + tail);
        assert forall|i: int| 0 <= i < ts.len() implies is_column(
            #[trigger] ts[i],
            fields[i],
        ) by {
            if i > 0 {
                assert(more[i - 1] == ts[i]);
                assert(fields[i] == tail[i - 1]);
            }
        }
    }
}

proof fn lemma_columns_are_read(ts: Seq<Seq<char>>, fields: Seq<(Seq<char>, Seq<char>)>)
    requires
        are_columns(ts, fields),
    ensures
        fields_read(ts) == Ok::<Seq<(Seq<char>, Seq<char>)>, ParseErrorView>(fields),
    decreases ts.len(),
{
    if ts.len() == 0 {
        assert(fields =~= Seq::empty());
    } else {
        let more = ts.drop_first();
        let rest = fields.drop_first();
        let (key, value) = fields[0];
        assert(is_column(ts[0], fields[0]));
        if key.contains('=') {
            let k = choose|k: int| 0 <= k < key.len() && key[k] == '=';
            assert(key_char(key[k]));
        }
        law_split_once(ts[0], '=', key, value);
        assert forall|i: int| 0 <= i < more.len() implies is_column(
            #[trigger] more[i],
            rest[i],
        ) by {
            assert(more[i] == ts[i + 1]);
            assert(rest[i] == fields[i + 1]);
        }
        lemma_columns_are_read(more, rest);
        assert(seq![(key, value)] + rest =~= fields);
    }
}

/// A line is an entry exactly where its columns are a time, a class, an absolute IRI, and
/// one `key=value` for each field; and then it is the entry of those.
pub proof fn law_entry_is_its_columns(
    line: Seq<char>,
    prefixes: Seq<(Seq<char>, Seq<char>)>,
    e: EntryView,
)
    ensures
        entry_read(line, prefixes) == Ok::<EntryView, ParseErrorView>(e) <==> {
            &&& tokens(line) matches Some(t)
            &&& t.len() >= 3
            &&& time_read(t[0]) == Some(e.time)
            &&& column_iri(t[1], prefixes) == Ok::<Seq<char>, ParseErrorView>(e.class)
            &&& t[2] == e.subject
            &&& iri_like(e.subject)
            &&& are_columns(t.skip(3), e.fields)
        },
        entry_read(line, prefixes) matches Ok(x) ==> tokens(line)->0[0] == time_text(x.time),
{
    if let Some(t) = tokens(line) {
        if t.len() > 0 {
            law_time_is_read_strictly(t[0]);
        }
        if t.len() >= 3 {
            lemma_columns_read(t.skip(3));
            if are_columns(t.skip(3), e.fields) {
                lemma_columns_are_read(t.skip(3), e.fields);
            }
        }
    }
}

/// A line's tail is fields exactly where each of its columns is a `key=value`.
pub proof fn law_tail_is_its_columns(tail: Seq<char>, fields: Seq<(Seq<char>, Seq<char>)>)
    ensures
        tail_read(tail) == Ok::<Seq<(Seq<char>, Seq<char>)>, ParseErrorView>(fields) <==> {
            &&& tokens(tail) matches Some(t)
            &&& are_columns(t, fields)
        },
{
    if let Some(t) = tokens(tail) {
        lemma_columns_read(t);
        if are_columns(t, fields) {
            lemma_columns_are_read(t, fields);
        }
    }
}

/// What cannot be an entry is refused for the first of its columns that is at fault.
pub proof fn law_entry_is_refused_for_cause(line: Seq<char>, prefixes: Seq<(Seq<char>, Seq<char>)>)
    ensures
        ({
            let r = entry_read(line, prefixes);
            match tokens(line) {
                None => r == Err::<EntryView, ParseErrorView>(ParseErrorView::Field(line)),
                Some(t) => {
                    &&& t.len() == 0 ==> r == Err::<EntryView, ParseErrorView>(
                        ParseErrorView::MissingColumn("time"@),
                    )
                    &&& t.len() > 0 && time_read(t[0]) is None ==> r == Err::<
                        EntryView,
                        ParseErrorView,
                    >(ParseErrorView::Timestamp(t[0]))
                    &&& t.len() > 0 && time_read(t[0]) is Some ==> {
                        &&& t.len() == 1 ==> r == Err::<EntryView, ParseErrorView>(
                            ParseErrorView::MissingColumn("class"@),
                        )
                        &&& t.len() > 1 ==> (column_iri(t[1], prefixes) matches Err(e) ==> r
                            == Err::<EntryView, ParseErrorView>(e))
                        &&& t.len() == 2 && column_iri(t[1], prefixes) is Ok ==> r == Err::<
                            EntryView,
                            ParseErrorView,
                        >(ParseErrorView::MissingColumn("subject"@))
                        &&& t.len() > 2 && column_iri(t[1], prefixes) is Ok && !iri_like(t[2])
                            ==> r == Err::<EntryView, ParseErrorView>(
                            ParseErrorView::NotAnIri(t[2]),
                        )
                    }
                },
            }
        }),
{
}

/// A class column stands for the IRI between its angle brackets, or for the namespace that
/// its prefix is bound to with what follows the colon; and for nothing else.
pub proof fn law_column_stands_for(
    token: Seq<char>,
    prefixes: Seq<(Seq<char>, Seq<char>)>,
    prefix: Seq<char>,
    local: Seq<char>,
    iri: Seq<char>,
)
    ensures
        iri_like(iri) ==> column_iri(seq!['<'] + iri + seq!['>'], prefixes) == Ok::<
            Seq<char>,
            ParseErrorView,
        >(iri),
        token == prefix + seq![':'] + local && !prefix.contains(':') && !(token[0] == '<'
            && token.last() == '>') ==> match lookup(prefixes, prefix) {
            Some(ns) => column_iri(token, prefixes) == Ok::<Seq<char>, ParseErrorView>(ns + local),
            None => column_iri(token, prefixes) == Err::<Seq<char>, ParseErrorView>(
                ParseErrorView::UnboundPrefix(token),
            ),
        },
        !token.contains(':') ==> column_iri(token, prefixes) == Err::<Seq<char>, ParseErrorView>(
            ParseErrorView::NotAnIri(token),
        ),
{
    let bracketed = seq!['<'] + iri + seq!['>'];
    assert(bracketed.subrange(1, bracketed.len() - 1) =~= iri);
    law_split_once(token, ':', prefix, local);
    if !token.contains(':') && token.len() >= 2 {
        let inner = token.subrange(1, token.len() - 1);
        if inner.contains(':') {
            let k = choose|k: int| 0 <= k < inner.len() && inner[k] == ':';
            assert(token[k + 1] == ':');
        }
    }
}

/// A line is a seal exactly where its words are `#seal`, a range of numbers with a hyphen
/// between them, a hash, and perhaps a signature.
pub proof fn law_seal_is_its_words(line: Seq<char>, s: SealView)
    ensures
        seal_read(line) == Ok::<SealView, ParseErrorView>(s) <==> {
            let w = words(line);
            &&& w.len() >= 3
            &&& w[0] == "#seal"@
            &&& exists|a: Seq<char>, b: Seq<char>|
                w[1] == #[trigger] (a + seq!['-'] + b) && read_unsigned(a, u64::MAX as nat) == Some(
                    s.first,
                ) && read_unsigned(b, u64::MAX as nat) == Some(s.last)
            &&& w[2] == s.hash
            &&& s.signature == if w.len() > 3 {
                Some(w[3])
            } else {
                None
            }
        },
        seal_read(line) is Err ==> seal_read(line) == Err::<SealView, ParseErrorView>(
            ParseErrorView::Seal(line),
        ),
{
    let w = words(line);
    if w.len() >= 3 && w[0] == "#seal"@ {
        if let Some((a, b)) = split_once(w[1], '-') {
            law_split_once(w[1], '-', a, b);
        }
        if exists|a: Seq<char>, b: Seq<char>|
            w[1] == #[trigger] (a + seq!['-'] + b) && read_unsigned(a, u64::MAX as nat) == Some(
                s.first,
            ) && read_unsigned(b, u64::MAX as nat) == Some(s.last) {
            let (a, b) = choose|a: Seq<char>, b: Seq<char>|
                w[1] == #[trigger] (a + seq!['-'] + b) && read_unsigned(a, u64::MAX as nat) == Some(
                    s.first,
                ) && read_unsigned(b, u64::MAX as nat) == Some(s.last);
            law_numbers(0, u64::MAX as nat, a, '0');
            assert(!a.contains('-')) by {
                if a.contains('-') {
                    let k = choose|k: int| 0 <= k < a.len() && a[k] == '-';
                    assert(k == 0 || 1 <= k);
                }
            }
            law_split_once(w[1], '-', a, b);
        }
    }
}

// =====================================================================================
// The header
// =====================================================================================

/// The name and the value of a directive, where a line is one.
#[verifier::opaque]
pub open spec fn directive_in(line: Seq<char>) -> Option<(Seq<char>, Seq<char>)> {
    match line_read(line, Seq::empty()) {
        Ok(LineView::Directive { name, value }) => Some((name, value)),
        _ => None,
    }
}

/// Whether one line of a header states `value` under `name`, and no other one states
/// anything under it.
pub open spec fn states_once(ls: Seq<Seq<char>>, name: Seq<char>, value: Seq<char>) -> bool {
    exists|k: int|
        0 <= k < body_start(ls) && directive_in(#[trigger] ls[k]) == Some((name, value))
            && forall|j: int|
            0 <= j < body_start(ls) && j != k ==> (directive_in(#[trigger] ls[j]) matches Some(
                (other, _),
            ) ==> other != name)
}

spec fn required(name: Seq<char>) -> bool {
    name == "name"@ || name == "instance"@ || name == "level"@ || name == "started"@ || name
        == "prev"@
}

spec fn held(d: DraftView, name: Seq<char>) -> bool {
    ||| name == "name"@ && d.name is Some
    ||| name == "instance"@ && d.instance is Some
    ||| name == "level"@ && d.level is Some
    ||| name == "started"@ && d.started is Some
    ||| name == "prev"@ && d.prev is Some
}

spec fn agree(a: DraftView, b: DraftView, name: Seq<char>) -> bool {
    &&& name == "name"@ ==> a.name == b.name
    &&& name == "instance"@ ==> a.instance == b.instance
    &&& name == "level"@ ==> a.level == b.level
    &&& name == "started"@ ==> a.started == b.started
    &&& name == "prev"@ ==> a.prev == b.prev
}

/// Whether an IRI is what a class column stands for, under some prefixes.
pub open spec fn column_of(value: Seq<char>, iri: Seq<char>) -> bool {
    exists|prefixes: Seq<(Seq<char>, Seq<char>)>| #[trigger]
        column_iri(value, prefixes) == Ok::<Seq<char>, ParseErrorView>(iri)
}

spec fn fits(d: DraftView, name: Seq<char>, value: Seq<char>) -> bool {
    &&& name == "name"@ ==> d.name == Some(value)
    &&& name == "instance"@ ==> d.instance == Some(value)
    &&& name == "level"@ ==> d.level is Some && column_of(value, d.level->0)
    &&& name == "started"@ ==> d.started is Some && value == time_text(d.started->0)
    &&& name == "prev"@ ==> d.prev == Some(
        if value == "genesis"@ {
            PrevView::Genesis
        } else {
            PrevView::Seal(value)
        },
    ) && value.len() > 0
}

proof fn lemma_directive_line(line: Seq<char>, prefixes: Seq<(Seq<char>, Seq<char>)>)
    ensures
        line_read(line, prefixes) matches Ok(LineView::Directive { name, value }) ==> directive_in(
            line,
        ) == Some((name, value)),
        directive_in(line) matches Some((name, value)) ==> line_read(line, prefixes) == Ok::<
            LineView,
            ParseErrorView,
        >(LineView::Directive { name, value }),
        line_read(chomp(line), prefixes) == line_read(line, prefixes),
        starts_with(chomp(line), "# ikigai-log v"@) ==> directive_in(line) is None,
{
    reveal(directive_in);
    law_chomp(line);
    reveal_strlit("# ikigai-log v");
    let t = chomp(line);
    if starts_with(t, "# ikigai-log v"@) {
        assert(t[0] == t.take("# ikigai-log v"@.len() as int)[0]);
    }
}

proof fn lemma_line_adds(d: DraftView, line: Seq<char>, next: DraftView, name: Seq<char>)
    requires
        with_line(d, chomp(line)) == Ok::<DraftView, ParseErrorView>(next),
        required(name),
    ensures
        directive_in(line) matches Some((n, v)) ==> {
            &&& required(n) || n == "prefix"@
            &&& n == name ==> !held(d, name) && held(next, name) && fits(next, name, v)
            &&& n != name ==> agree(d, next, name)
        },
        directive_in(line) is None ==> agree(d, next, name),
{
    lemma_names_differ();
    lemma_directive_line(line, d.prefixes);
    if let Some((n, v)) = directive_in(line) {
        assert(with_directive(d, n, v) == Ok::<DraftView, ParseErrorView>(next));
        if n == "level"@ {
            assert(column_iri(v, d.prefixes) == Ok::<Seq<char>, ParseErrorView>(next.level->0));
            assert(column_of(v, next.level->0));
        }
        if n == "started"@ {
            law_time_is_read_strictly(v);
        }
        if n == "prev"@ {
            reveal_strlit("genesis");
        }
    }
}

#[verifier::rlimit(60)]
proof fn lemma_lines_add(
    d: DraftView,
    ls: Seq<Seq<char>>,
    done: DraftView,
    bytes: nat,
    name: Seq<char>,
)
    requires
        with_lines(d, ls) == Ok::<(DraftView, nat), ParseErrorView>((done, bytes)),
        required(name),
    ensures
        0 <= body_start(ls) <= ls.len(),
        held(d, name) ==> agree(d, done, name) && forall|k: int|
            0 <= k < body_start(ls) ==> (directive_in(#[trigger] ls[k]) matches Some((n, _)) ==> n
                != name),
        !held(d, name) && held(done, name) ==> exists|value: Seq<char>| #[trigger]
            states_once(ls, name, value) && fits(done, name, value),
        forall|k: int|
            0 <= k < body_start(ls) ==> (directive_in(#[trigger] ls[k]) matches Some((n, _))
                ==> required(n) || n == "prefix"@),
    decreases ls.len(),
{
    if ls.len() > 0 {
        let line = chomp(ls[0]);
        if trim(line).len() > 0 {
            let next = with_line(d, line)->Ok_0;
            let rest = ls.drop_first();
            let more = with_lines(next, rest)->Ok_0.1;
            assert(with_lines(next, rest) == Ok::<(DraftView, nat), ParseErrorView>((done, more)));
            lemma_line_adds(d, ls[0], next, name);
            lemma_lines_add(next, rest, done, more, name);
            assert(body_start(ls) == 1 + body_start(rest));
            assert forall|k: int| 0 <= k < body_start(ls) implies (directive_in(
                #[trigger] ls[k],
            ) matches Some((n, _)) ==> required(n) || n == "prefix"@) by {
                if k > 0 {
                    assert(ls[k] == rest[k - 1]);
                }
            }
            if held(d, name) {
                assert forall|k: int| 0 <= k < body_start(ls) implies (directive_in(
                    #[trigger] ls[k],
                ) matches Some((n, _)) ==> n != name) by {
                    if k > 0 {
                        assert(ls[k] == rest[k - 1]);
                    }
                }
            } else if held(next, name) {
                let value = directive_in(ls[0])->Some_0.1;
                assert(directive_in(ls[0]) == Some((name, value)));
                assert forall|j: int| 0 <= j < body_start(ls) && j != 0 implies (directive_in(
                    #[trigger] ls[j],
                ) matches Some((other, _)) ==> other != name) by {
                    assert(ls[j] == rest[j - 1]);
                }
                assert(states_once(ls, name, value));
                assert(fits(done, name, value));
            } else if held(done, name) {
                let value = choose|value: Seq<char>| #[trigger]
                    states_once(rest, name, value) && fits(done, name, value);
                let k = choose|k: int|
                    0 <= k < body_start(rest) && directive_in(#[trigger] rest[k]) == Some(
                        (name, value),
                    ) && forall|j: int|
                        0 <= j < body_start(rest) && j != k ==> (directive_in(
                            #[trigger] rest[j],
                        ) matches Some((other, _)) ==> other != name);
                assert(ls[k + 1] == rest[k]);
                assert forall|j: int| 0 <= j < body_start(ls) && j != k + 1 implies (directive_in(
                    #[trigger] ls[j],
                ) matches Some((other, _)) ==> other != name) by {
                    if j > 0 {
                        assert(ls[j] == rest[j - 1]);
                    }
                }
                assert(states_once(ls, name, value));
            }
        } else {
            lemma_blank(ls[0]);
        }
    }
}

proof fn lemma_blank(line: Seq<char>)
    requires
        trim(chomp(line)).len() == 0,
    ensures
        directive_in(line) is None,
{
    reveal(directive_in);
}

/// A header states its name, its instance, its level, its start and what it follows, each
/// once; and nothing that is none of these but the prefixes.
pub proof fn law_header_states_each_once(text: Seq<char>)
    requires
        header_read(text) is Ok,
    ensures
        ({
            let h = header_read(text)->Ok_0.0;
            let ls = lines(text);
            &&& h.version == 1
            &&& states_once(ls, "name"@, h.name)
            &&& states_once(ls, "instance"@, h.instance)
            &&& exists|value: Seq<char>| #[trigger]
                states_once(ls, "level"@, value) && column_of(value, h.level)
            &&& states_once(ls, "started"@, time_text(h.started))
            &&& h.prev is Genesis ==> states_once(ls, "prev"@, "genesis"@)
            &&& h.prev matches PrevView::Seal(hash) ==> states_once(ls, "prev"@, hash) && hash
                != "genesis"@ && hash.len() > 0
            &&& forall|k: int|
                0 <= k < body_start(ls) ==> (directive_in(#[trigger] ls[k]) matches Some((n, _))
                    ==> n == "name"@ || n == "instance"@ || n == "level"@ || n == "started"@ || n
                    == "prev"@ || n == "prefix"@)
        }),
{
    let h = header_read(text)->Ok_0.0;
    let ls = lines(text);
    let (done, bytes) = with_lines(empty_draft(), ls)->Ok_0;
    assert(finished(done) == Ok::<HeaderView, ParseErrorView>(h));
    lemma_names_differ();
    lemma_lines_add(empty_draft(), ls, done, bytes, "name"@);
    lemma_lines_add(empty_draft(), ls, done, bytes, "instance"@);
    lemma_lines_add(empty_draft(), ls, done, bytes, "level"@);
    lemma_lines_add(empty_draft(), ls, done, bytes, "started"@);
    lemma_lines_add(empty_draft(), ls, done, bytes, "prev"@);
    let name = choose|value: Seq<char>| #[trigger]
        states_once(ls, "name"@, value) && fits(done, "name"@, value);
    let instance = choose|value: Seq<char>| #[trigger]
        states_once(ls, "instance"@, value) && fits(done, "instance"@, value);
    let level = choose|value: Seq<char>| #[trigger]
        states_once(ls, "level"@, value) && fits(done, "level"@, value);
    let started = choose|value: Seq<char>| #[trigger]
        states_once(ls, "started"@, value) && fits(done, "started"@, value);
    let prev = choose|value: Seq<char>| #[trigger]
        states_once(ls, "prev"@, value) && fits(done, "prev"@, value);
    assert(states_once(ls, "level"@, level) && column_of(level, h.level));
}

} // verus!
