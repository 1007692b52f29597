//! What holds of written lines: each is read back as what was written, and a text made
//! of lines falls apart into them again.

use vstd::prelude::*;

use crate::entry::{
    entry_text, fields_text, law_entry_round_trip, lemma_one_line_join, lemma_one_line_unbroken,
    one_line, usable_prefixes, EntryView,
};
use crate::error::ParseErrorView;
use crate::header::{
    blanks, directive_lines, header_block, header_text, prefix_line, prefix_lines, prefix_width,
    prev_text, HeaderView,
};
use crate::header_law::{
    is_trimmed, lemma_chomp_newline, lemma_column_word, lemma_directive_read, lemma_iri_value,
    lemma_lines_cons, lemma_prefix_read, lemma_trim_trimmed, rereadable,
};
use crate::line::{law_seal_round_trip, line_read, one_word, seal_text, LineView, SealView};
use crate::number::{decimal, lemma_decimal};
use crate::text::{
    chomp, has_white, in_line, is_digit, is_white, lemma_past_last_where_is, lines, starts_with, text_lines,
    trim, trim_start, unended,
};
use crate::time::{lemma_time_unbroken, time_text, WIDE_FROM};
use crate::token::{column_text, value_text};
use crate::verify::body_start;

verus! {

// =====================================================================================
// One line
// =====================================================================================

/// A written entry begins with a digit and does not end with white space.
pub proof fn lemma_entry_ends(e: EntryView, prefixes: Seq<(Seq<char>, Seq<char>)>)
    requires
        entry_text(e, prefixes) is Ok,
    ensures
        is_trimmed(entry_text(e, prefixes)->Ok_0),
        is_digit(entry_text(e, prefixes)->Ok_0[0]),
{
    let line = entry_text(e, prefixes)->Ok_0;
    let time = time_text(e.time);
    let tail = fields_text(e.fields);
    lemma_time_unbroken(e.time);
    assert(line[0] == time[0]);
    if e.fields.len() == 0 {
        let s = e.subject;
        assert(s.len() > 0);
        assert(line[line.len() - 1] == s[s.len() - 1]);
        assert(!is_white(s[s.len() - 1]));
    } else {
        let v = value_text(e.fields.last().1);
        assert(v.len() > 0);
        assert(!is_white(v[v.len() - 1]));
        assert(tail.last() == v.last());
        assert(line.last() == tail.last());
    }
}

/// A written entry, with or without the newline that ends its line, is read back as that
/// entry.
pub proof fn law_entry_line(e: EntryView, prefixes: Seq<(Seq<char>, Seq<char>)>)
    requires
        e.time < WIDE_FROM,
        usable_prefixes(prefixes),
        entry_text(e, prefixes) is Ok,
    ensures
        line_read(entry_text(e, prefixes)->Ok_0, prefixes) == Ok::<_, ParseErrorView>(
            LineView::Entry(e),
        ),
        line_read(entry_text(e, prefixes)->Ok_0 + seq!['\n'], prefixes) == Ok::<_, ParseErrorView>(
            LineView::Entry(e),
        ),
        chomp(entry_text(e, prefixes)->Ok_0 + seq!['\n']) == entry_text(e, prefixes)->Ok_0,
{
    let line = entry_text(e, prefixes)->Ok_0;
    lemma_entry_ends(e, prefixes);
    lemma_trim_trimmed(line);
    lemma_chomp_newline(line);
    law_entry_round_trip(e, prefixes);
    assert(!starts_with(line, "#seal"@)) by {
        reveal_strlit("#seal");
        if starts_with(line, "#seal"@) {
            assert(line.take(5)[0] == line[0]);
            assert("#seal"@[0] == '#');
        }
    }
}

/// A written seal, with or without the newline that ends its line, is read back as that
/// seal, and is one line.
pub proof fn law_seal_line(s: SealView, prefixes: Seq<(Seq<char>, Seq<char>)>)
    requires
        s.first <= u64::MAX,
        s.last <= u64::MAX,
        one_word(s.hash),
        s.signature matches Some(sig) ==> one_word(sig),
    ensures
        line_read(seal_text(s), prefixes) == Ok::<_, ParseErrorView>(LineView::Seal(s)),
        line_read(seal_text(s) + seq!['\n'], prefixes) == Ok::<_, ParseErrorView>(
            LineView::Seal(s),
        ),
        chomp(seal_text(s) + seq!['\n']) == seal_text(s),
        one_line(seal_text(s)),
{
    let line = seal_text(s);
    law_seal_round_trip(s);
    reveal_strlit("#seal");
    let range = decimal(s.first) + seq!['-'] + decimal(s.last);
    let head = "#seal"@ + seq![' '] + range + seq![' '] + s.hash;
    assert(line[0] == '#');
    assert(!is_white(s.hash[s.hash.len() - 1]));
    assert(head.last() == s.hash.last());
    if let Some(sig) = s.signature {
        assert(!is_white(sig[sig.len() - 1]));
        assert(line.last() == sig.last());
    }
    lemma_trim_trimmed(line);
    lemma_chomp_newline(line);
    assert(line.take(5) =~= "#seal"@);
    lemma_decimal(s.first);
    lemma_decimal(s.last);
    assert(one_line(range)) by {
        assert forall|i: int| 0 <= i < range.len() implies #[trigger] range[i] != '\n' by {
            if i < decimal(s.first).len() {
                assert(range[i] == decimal(s.first)[i]);
                assert(is_digit(decimal(s.first)[i]));
            } else if i > decimal(s.first).len() {
                assert(range[i] == decimal(s.last)[i - decimal(s.first).len() - 1]);
                assert(is_digit(decimal(s.last)[i - decimal(s.first).len() - 1]));
            }
        }
    }
    lemma_one_line_unbroken(s.hash);
    assert(one_line("#seal"@ + seq![' ']));
    lemma_one_line_join("#seal"@ + seq![' '], range);
    lemma_one_line_join("#seal"@ + seq![' '] + range, seq![' ']);
    lemma_one_line_join("#seal"@ + seq![' '] + range + seq![' '], s.hash);
    if let Some(sig) = s.signature {
        lemma_one_line_unbroken(sig);
        lemma_one_line_join(head, seq![' ']);
        lemma_one_line_join(head + seq![' '], sig);
    }
}

/// An empty line is blank.
pub proof fn lemma_blank_line(prefixes: Seq<(Seq<char>, Seq<char>)>)
    ensures
        line_read(seq!['\n'], prefixes) == Ok::<_, ParseErrorView>(LineView::Blank),
        trim(chomp(seq!['\n'])).len() == 0,
{
    let none = Seq::<char>::empty();
    let nl = seq!['\n'];
    assert(chomp(nl) =~= none) by {
        lemma_past_last_where_is(nl, in_line(), 0);
    }
    assert(trim_start(none) =~= none);
    assert(trim(none) =~= none);
}

// =====================================================================================
// Texts made of lines
// =====================================================================================

/// Lines, each with the newline that ends it.
pub open spec fn ended_lines(ls: Seq<Seq<char>>) -> Seq<Seq<char>> {
    ls.map_values(|l: Seq<char>| l + seq!['\n'])
}

/// The text that lines make up, each ended by a newline.
pub open spec fn joined_lines(ls: Seq<Seq<char>>) -> Seq<char>
    decreases ls.len(),
{
    if ls.len() == 0 {
        Seq::empty()
    } else {
        joined_lines(ls.drop_last()) + ls.last() + seq!['\n']
    }
}

/// Whether each of `ls` is a single line.
pub open spec fn all_one_line(ls: Seq<Seq<char>>) -> bool {
    forall|i: int| 0 <= i < ls.len() ==> one_line(#[trigger] ls[i])
}

/// A text made of lines is made of its first ones and of the rest.
pub proof fn lemma_joined_lines(a: Seq<Seq<char>>, b: Seq<Seq<char>>)
    ensures
        joined_lines(a + b) == joined_lines(a) + joined_lines(b),
    decreases b.len(),
{
    if b.len() == 0 {
        assert(a + b =~= a);
        assert(joined_lines(a) + joined_lines(b) =~= joined_lines(a));
    } else {
        lemma_joined_lines(a, b.drop_last());
        assert((a + b).drop_last() =~= a + b.drop_last());
        assert((a + b).last() == b.last());
        assert(joined_lines(a + b) =~= joined_lines(a) + joined_lines(b));
    }
}

/// One line makes up itself and its newline.
pub proof fn lemma_joined_one(a: Seq<char>)
    ensures
        joined_lines(seq![a]) == a + seq!['\n'],
{
    let none = Seq::<Seq<char>>::empty();
    assert(seq![a].drop_last() =~= none);
    assert(joined_lines(none) =~= Seq::empty());
    assert(joined_lines(seq![a]) =~= a + seq!['\n']);
}

/// A text made of lines falls apart into those lines, whatever follows.
pub proof fn law_lines_of_joined(ls: Seq<Seq<char>>, rest: Seq<char>)
    requires
        all_one_line(ls),
    ensures
        lines(joined_lines(ls) + rest) == ended_lines(ls) + lines(rest),
    decreases ls.len(),
{
    if ls.len() == 0 {
        assert(joined_lines(ls) + rest =~= rest);
        assert(ended_lines(ls) + lines(rest) =~= lines(rest));
    } else {
        let front = ls.drop_last();
        assert forall|i: int| 0 <= i < front.len() implies one_line(#[trigger] front[i]) by {
            assert(front[i] == ls[i]);
        }
        assert(one_line(ls[ls.len() - 1]));
        let tail = ls.last() + seq!['\n'] + rest;
        law_lines_of_joined(front, tail);
        assert(joined_lines(ls) + rest =~= joined_lines(front) + tail);
        lemma_lines_cons(ls.last(), rest);
        assert(ended_lines(ls) =~= ended_lines(front).push(ls.last() + seq!['\n']));
        assert(ended_lines(front) + (seq![ls.last() + seq!['\n']] + lines(rest)) =~= ended_lines(ls)
            + lines(rest));
    }
}

/// A text made of lines, none of which ends with a carriage return, has exactly those
/// lines.
pub proof fn lemma_text_lines_of_joined(ls: Seq<Seq<char>>)
    requires
        all_one_line(ls),
        forall|i: int|
            0 <= i < ls.len() ==> (#[trigger] ls[i]).len() == 0 || ls[i].last() != '\r',
    ensures
        text_lines(joined_lines(ls)) == ls,
{
    let none = Seq::<char>::empty();
    law_lines_of_joined(ls, none);
    assert(joined_lines(ls) + none =~= joined_lines(ls));
    assert(lines(none) =~= Seq::empty());
    assert(lines(joined_lines(ls)) =~= ended_lines(ls));
    assert forall|i: int| 0 <= i < ls.len() implies unended(#[trigger] ls[i] + seq!['\n'])
        == ls[i] by {
        assert((ls[i] + seq!['\n']).drop_last() =~= ls[i]);
    }
    assert(text_lines(joined_lines(ls)) =~= ls);
}

/// Lines that are not blank before the first blank one are the header block.
pub proof fn lemma_body_start(ls: Seq<Seq<char>>, rest: Seq<Seq<char>>)
    requires
        forall|i: int| 0 <= i < ls.len() ==> is_trimmed(#[trigger] ls[i]),
    ensures
        body_start(ended_lines(ls) + seq![seq!['\n']] + rest) == ls.len() + 1,
    decreases ls.len(),
{
    let all = ended_lines(ls) + seq![seq!['\n']] + rest;
    if ls.len() == 0 {
        lemma_blank_line(Seq::empty());
        assert(all[0] == seq!['\n']);
    } else {
        let tail = ls.drop_first();
        assert forall|i: int| 0 <= i < tail.len() implies is_trimmed(#[trigger] tail[i]) by {
            assert(tail[i] == ls[i + 1]);
        }
        lemma_body_start(tail, rest);
        assert(is_trimmed(ls[0]));
        lemma_chomp_newline(ls[0]);
        lemma_trim_trimmed(ls[0]);
        assert(all[0] == ls[0] + seq!['\n']);
        assert(all.drop_first() =~= ended_lines(tail) + seq![seq!['\n']] + rest);
    }
}

// =====================================================================================
// The lines of a header
// =====================================================================================

/// One `@prefix` line, without its newline.
pub open spec fn prefix_column(p: (Seq<char>, Seq<char>), width: nat) -> Seq<char> {
    prefix_line(p, width).drop_last()
}

/// The lines of a header block, without the blank one that ends it.
pub open spec fn block_lines(h: HeaderView) -> Seq<Seq<char>> {
    seq!["# ikigai-log v"@ + decimal(h.version)] + h.prefixes.map_values(
        |p: (Seq<char>, Seq<char>)| prefix_column(p, prefix_width(h.prefixes)),
    ) + seq![
        "@name     "@ + h.name,
        "@instance "@ + h.instance,
        "@level    "@ + column_text(h.level, h.prefixes),
        "@started  "@ + time_text(h.started),
        "@prev     "@ + prev_text(h.prev),
    ]
}

proof fn lemma_prefix_column(p: (Seq<char>, Seq<char>), width: nat)
    requires
        one_word(p.0),
        !p.0.contains(':'),
        crate::header_law::usable_namespace(p.1),
    ensures
        is_trimmed(prefix_column(p, width)),
        one_line(prefix_column(p, width)),
        prefix_column(p, width) + seq!['\n'] == prefix_line(p, width),
{
    let (name, ns) = p;
    let k = width - name.len();
    let value = name + seq![':'] + blanks(k) + " <"@ + ns + "> ."@;
    lemma_prefix_read(name, ns, k);
    reveal_strlit("@prefix ");
    reveal_strlit("prefix");
    reveal_strlit("> .\n");
    reveal_strlit("> .");
    assert("@prefix "@ =~= seq!['@'] + "prefix"@ + blanks(1));
    assert("> .\n"@ =~= "> ."@ + seq!['\n']);
    let a = seq!['@'] + "prefix"@ + blanks(1) + value;
    assert(prefix_line(p, width) =~= a + seq!['\n']);
    assert(prefix_column(p, width) =~= a);
    assert(one_word("prefix"@));
    lemma_directive_read("prefix"@, 1, value, Seq::empty());
    assert(one_line(seq!['@'] + "prefix"@ + blanks(1)));
    lemma_one_line_join(seq!['@'] + "prefix"@ + blanks(1), value);
}

proof fn lemma_prefix_block(prefixes: Seq<(Seq<char>, Seq<char>)>, width: nat)
    requires
        forall|i: int|
            0 <= i < prefixes.len() ==> one_word((#[trigger] prefixes[i]).0)
                && !prefixes[i].0.contains(':') && crate::header_law::usable_namespace(
                prefixes[i].1,
            ),
    ensures
        joined_lines(
            prefixes.map_values(|p: (Seq<char>, Seq<char>)| prefix_column(p, width)),
        ) == prefix_lines(prefixes, width),
    decreases prefixes.len(),
{
    let f = |p: (Seq<char>, Seq<char>)| prefix_column(p, width);
    let ls = prefixes.map_values(f);
    if prefixes.len() > 0 {
        let q = prefixes.drop_last();
        assert(forall|i: int| 0 <= i < q.len() ==> q[i] == #[trigger] prefixes[i]);
        lemma_prefix_block(q, width);
        assert(ls.drop_last() =~= q.map_values(f));
        assert(one_word(prefixes[prefixes.len() - 1].0));
        lemma_prefix_column(prefixes.last(), width);
        assert(ls.last() == prefix_column(prefixes.last(), width));
        assert(joined_lines(ls) =~= prefix_lines(q, width) + (prefix_column(prefixes.last(), width)
            + seq!['\n']));
    }
}

/// `@name value` lines are single lines with nothing to trim.
proof fn lemma_directive_column(start: Seq<char>, name: Seq<char>, k: nat, value: Seq<char>)
    requires
        start == seq!['@'] + name + blanks(k as int),
        one_word(name),
        k > 0,
        is_trimmed(value),
        one_line(value),
    ensures
        is_trimmed(start + value),
        one_line(start + value),
{
    lemma_directive_read(name, k, value, Seq::empty());
    lemma_one_line_unbroken(name);
    assert(one_line(blanks(k as int)));
    lemma_one_line_join(seq!['@'], name);
    lemma_one_line_join(seq!['@'] + name, blanks(k as int));
    lemma_one_line_join(start, value);
}

proof fn lemma_directive_columns(h: HeaderView)
    requires
        header_text(h) is Ok,
        rereadable(h),
    ensures
        is_trimmed("@name     "@ + h.name) && one_line("@name     "@ + h.name),
        is_trimmed("@instance "@ + h.instance) && one_line("@instance "@ + h.instance),
        is_trimmed("@level    "@ + column_text(h.level, h.prefixes)) && one_line(
            "@level    "@ + column_text(h.level, h.prefixes),
        ),
        is_trimmed("@started  "@ + time_text(h.started)) && one_line(
            "@started  "@ + time_text(h.started),
        ),
        is_trimmed("@prev     "@ + prev_text(h.prev)) && one_line("@prev     "@ + prev_text(h.prev)),
{
    reveal_strlit("@name     ");
    reveal_strlit("name");
    assert("@name     "@ =~= seq!['@'] + "name"@ + blanks(5));
    lemma_iri_value(h.name);
    lemma_directive_column("@name     "@, "name"@, 5, h.name);
    reveal_strlit("@instance ");
    reveal_strlit("instance");
    assert("@instance "@ =~= seq!['@'] + "instance"@ + blanks(1));
    lemma_iri_value(h.instance);
    lemma_directive_column("@instance "@, "instance"@, 1, h.instance);
    reveal_strlit("@level    ");
    reveal_strlit("level");
    assert("@level    "@ =~= seq!['@'] + "level"@ + blanks(4));
    lemma_column_word(h.level, h.prefixes);
    lemma_iri_value(column_text(h.level, h.prefixes));
    lemma_directive_column("@level    "@, "level"@, 4, column_text(h.level, h.prefixes));
    reveal_strlit("@started  ");
    reveal_strlit("started");
    assert("@started  "@ =~= seq!['@'] + "started"@ + blanks(2));
    lemma_time_unbroken(h.started);
    lemma_iri_value(time_text(h.started));
    lemma_directive_column("@started  "@, "started"@, 2, time_text(h.started));
    reveal_strlit("@prev     ");
    reveal_strlit("prev");
    reveal_strlit("genesis");
    assert("@prev     "@ =~= seq!['@'] + "prev"@ + blanks(5));
    lemma_directive_column("@prev     "@, "prev"@, 5, prev_text(h.prev));
}

proof fn lemma_version_column(version: nat)
    ensures
        is_trimmed("# ikigai-log v"@ + decimal(version)),
        one_line("# ikigai-log v"@ + decimal(version)),
{
    reveal_strlit("# ikigai-log v");
    let d = decimal(version);
    lemma_decimal(version);
    assert(is_digit(d[d.len() - 1]));
    assert(one_line(d)) by {
        assert forall|i: int| 0 <= i < d.len() implies #[trigger] d[i] != '\n' by {
            assert(is_digit(d[i]));
        }
    }
    lemma_one_line_join("# ikigai-log v"@, d);
    let s = "# ikigai-log v"@ + d;
    assert(s[0] == '#');
    assert(s.last() == d.last());
}

/// Five lines make up themselves and their newlines.
proof fn lemma_joined_five(
    a: Seq<char>,
    b: Seq<char>,
    c: Seq<char>,
    d: Seq<char>,
    e: Seq<char>,
)
    ensures
        joined_lines(seq![a, b, c, d, e]) == (a + seq!['\n']) + (b + seq!['\n']) + (c + seq![
            '\n',
        ]) + (d + seq!['\n']) + (e + seq!['\n']),
{
    let nl = seq!['\n'];
    lemma_joined_one(a);
    assert(seq![a, b].drop_last() =~= seq![a]);
    assert(joined_lines(seq![a, b]) =~= (a + nl) + (b + nl));
    assert(seq![a, b, c].drop_last() =~= seq![a, b]);
    assert(joined_lines(seq![a, b, c]) =~= (a + nl) + (b + nl) + (c + nl));
    assert(seq![a, b, c, d].drop_last() =~= seq![a, b, c]);
    assert(joined_lines(seq![a, b, c, d]) =~= (a + nl) + (b + nl) + (c + nl) + (d + nl));
    assert(seq![a, b, c, d, e].drop_last() =~= seq![a, b, c, d]);
    assert(joined_lines(seq![a, b, c, d, e]) =~= (a + nl) + (b + nl) + (c + nl) + (d + nl) + (e
        + nl));
}

/// The lines of a header block make up the block, but for the blank line that ends it.
proof fn lemma_block_text(h: HeaderView)
    requires
        forall|i: int|
            0 <= i < h.prefixes.len() ==> one_word((#[trigger] h.prefixes[i]).0)
                && !h.prefixes[i].0.contains(':') && crate::header_law::usable_namespace(
                h.prefixes[i].1,
            ),
    ensures
        joined_lines(block_lines(h)) + seq!['\n'] == header_block(h),
{
    let width = prefix_width(h.prefixes);
    let nl = seq!['\n'];
    let first = "# ikigai-log v"@ + decimal(h.version);
    let middle = h.prefixes.map_values(|p: (Seq<char>, Seq<char>)| prefix_column(p, width));
    let a = "@name     "@ + h.name;
    let b = "@instance "@ + h.instance;
    let c = "@level    "@ + column_text(h.level, h.prefixes);
    let d = "@started  "@ + time_text(h.started);
    let e = "@prev     "@ + prev_text(h.prev);
    let end = seq![a, b, c, d, e];
    lemma_prefix_block(h.prefixes, width);
    lemma_joined_one(first);
    lemma_joined_lines(seq![first], middle);
    lemma_joined_lines(seq![first] + middle, end);
    lemma_joined_five(a, b, c, d, e);
    assert(directive_lines(h) =~= joined_lines(end) + nl);
    assert(header_block(h) =~= joined_lines(block_lines(h)) + nl);
}

/// A header is written as single lines with nothing to trim, and a blank one.
pub proof fn lemma_block_lines(h: HeaderView)
    requires
        header_text(h) is Ok,
        rereadable(h),
    ensures
        header_text(h)->Ok_0 == joined_lines(block_lines(h).push(Seq::empty())),
        all_one_line(block_lines(h)),
        forall|i: int| 0 <= i < block_lines(h).len() ==> is_trimmed(#[trigger] block_lines(h)[i]),
{
    let width = prefix_width(h.prefixes);
    let nl = seq!['\n'];
    let first = "# ikigai-log v"@ + decimal(h.version);
    let middle = h.prefixes.map_values(|p: (Seq<char>, Seq<char>)| prefix_column(p, width));
    let a = "@name     "@ + h.name;
    let b = "@instance "@ + h.instance;
    let c = "@level    "@ + column_text(h.level, h.prefixes);
    let d = "@started  "@ + time_text(h.started);
    let e = "@prev     "@ + prev_text(h.prev);
    let end = seq![a, b, c, d, e];
    let all = block_lines(h);
    assert(all == seq![first] + middle + end);
    lemma_version_column(h.version);
    lemma_directive_columns(h);
    assert forall|i: int| 0 <= i < h.prefixes.len() implies one_word((#[trigger] h.prefixes[i]).0)
        && !h.prefixes[i].0.contains(':') && crate::header_law::usable_namespace(
        h.prefixes[i].1,
    ) by {
        assert(!has_white(h.prefixes[i].0));
    }
    lemma_block_text(h);
    assert forall|i: int| 0 <= i < all.len() implies one_line(#[trigger] all[i]) && is_trimmed(
        all[i],
    ) by {
        if i == 0 {
            assert(all[i] == first);
        } else if i < 1 + middle.len() {
            assert(all[i] == middle[i - 1]);
            assert(one_word(h.prefixes[i - 1].0));
            lemma_prefix_column(h.prefixes[i - 1], width);
        } else {
            assert(all[i] == end[i - 1 - middle.len()]);
        }
    }
    assert(all.push(Seq::empty()).drop_last() =~= all);
    assert(joined_lines(all) + Seq::<char>::empty() + nl =~= joined_lines(all) + nl);
}

} // verus!
