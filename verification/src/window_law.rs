//! What a window leaves of a graph: the same facts, fewer of them, under the same names.

use vstd::prelude::*;

use crate::entry::{entry_text, EntryView};
use crate::graph::{
    claimed, entry_iri, entry_triples, field_mentions, graph_of, header_triples, invoked_triples,
    mentions, rows_triples, seal_iri, seal_triples, seals_triples, MentionView, LOG_INVOKED,
    LOG_PARENT_SPAN, LOG_SPAN,
};
use crate::graph_law::{
    joins, law_graph_states_each_fact_once, law_invoked_stays_in_a_run, lemma_ascii_prefix,
    lemma_entry_subjects, lemma_field_mentions, lemma_order, lemma_rows_hold, stated,
};
use crate::header::{header_read, HeaderView};
use crate::line::{line_read, LineView, SealView};
use crate::line_law::lemma_entry_ends;
use crate::number::{decimal, lemma_decimal, lemma_read_decimal};
use crate::text::{
    chomp, first_where, in_line, is_digit, lemma_first_where, lemma_past_last_where, lines,
    past_last_where, solids, starts_with, trim, trim_start, unended,
};
use crate::time::{lemma_time_ascii, lemma_time_len, time_text, WIDE_FROM};
use crate::triple::{stating, TermView, TripleView};
use crate::verify::body_start;
use crate::vocabulary::VocabularyView;
use crate::window::{
    byte_prefix, out_of_window, takes_in, walk, walked, whole, with_row, with_walked, Options,
    RowView, WalkView,
};

verus! {

// =====================================================================================
// Lines
// =====================================================================================

/// Whether a line that begins with a digit begins with the time of the entry it is read as,
/// as every written one does.
pub open spec fn leads_with_time(raw: Seq<char>, e: EntryView) -> bool {
    &&& e.time < WIDE_FROM
    &&& raw.len() > 0 && is_digit(raw[0]) ==> starts_with(unended(raw), time_text(e.time))
}

/// Whether every entry among `ls` leads with its time.
pub open spec fn lead_with_times(
    ls: Seq<Seq<char>>,
    prefixes: Seq<(Seq<char>, Seq<char>)>,
) -> bool {
    forall|i: int|
        0 <= i < ls.len() ==> (line_read(#[trigger] ls[i], prefixes) matches Ok(LineView::Entry(e))
            ==> leads_with_time(ls[i], e))
}

/// A written entry leads with its time.
pub proof fn law_written_entry_leads_with_time(
    e: EntryView,
    prefixes: Seq<(Seq<char>, Seq<char>)>,
)
    requires
        entry_text(e, prefixes) is Ok,
        e.time < WIDE_FROM,
    ensures
        leads_with_time(entry_text(e, prefixes)->Ok_0 + seq!['\n'], e),
{
    let line = entry_text(e, prefixes)->Ok_0;
    let raw = line + seq!['\n'];
    let text = time_text(e.time);
    lemma_entry_ends(e, prefixes);
    assert(raw.drop_last() =~= line);
    assert(unended(raw) == line);
    assert(line.take(text.len() as int) =~= text);
}

/// Only an entry is passed over, and only one whose time the window does not take in.
proof fn lemma_passed_over(
    raw: Seq<char>,
    prefixes: Seq<(Seq<char>, Seq<char>)>,
    o: Options,
    seq: nat,
)
    requires
        out_of_window(unended(raw), o),
        line_read(raw, prefixes) is Ok,
        line_read(raw, prefixes) matches Ok(LineView::Entry(e)) ==> leads_with_time(raw, e),
    ensures
        line_read(raw, prefixes) matches Ok(LineView::Entry(e)) && !takes_in(o, e.time, seq),
{
    let s = unended(raw);
    assert(s.len() > 0 && raw.len() > 0 && s[0] == raw[0]);
    let column = byte_prefix(s, 24)->Some_0;
    assert(column[0] == s[0]);
    assert(is_digit(raw[0]));
    let t = chomp(raw);
    lemma_past_last_where(raw, in_line());
    assert(in_line()(raw[0]));
    assert(past_last_where(raw, in_line()) > 0);
    assert(t.len() > 0 && t[0] == raw[0]);
    assert(trim(t).len() > 0) by {
        lemma_first_where(t, solids());
        assert(solids()(t[0]));
        assert(first_where(t, solids()) == 0);
        let u = trim_start(t);
        assert(u =~= t);
        lemma_past_last_where(u, solids());
    }
    reveal_strlit("#seal");
    assert(!starts_with(t, "#seal"@)) by {
        if starts_with(t, "#seal"@) {
            assert(t.take(5)[0] == "#seal"@[0]);
        }
    }
    let e = line_read(raw, prefixes)->Ok_0->Entry_0;
    let text = time_text(e.time);
    lemma_time_len(e.time);
    lemma_time_ascii(e.time);
    let rest = s.skip(text.len() as int);
    assert(s =~= text + rest) by {
        assert(s.take(text.len() as int) == text);
    }
    lemma_ascii_prefix(text, rest);
    if let Some(b) = o.since {
        if b.0 < WIDE_FROM {
            lemma_order(e.time, b.0 as nat);
        }
    }
    if let Some(b) = o.until {
        if b.0 < WIDE_FROM {
            lemma_order(b.0 as nat, e.time);
        }
    }
}

// =====================================================================================
// Rows
// =====================================================================================

/// The rows that the window takes in.
pub open spec fn kept(rows: Seq<RowView>, o: Options) -> Seq<RowView>
    decreases rows.len(),
{
    if rows.len() == 0 {
        Seq::empty()
    } else {
        let before = kept(rows.drop_last(), o);
        let row = rows.last();
        if takes_in(o, row.entry.time, row.seq) {
            before.push(row)
        } else {
            before
        }
    }
}

/// Rows with their runs counted from `c`.
pub open spec fn counted_from(rows: Seq<RowView>, c: nat) -> Seq<RowView> {
    rows.map_values(|r: RowView| RowView { run: r.run + c, ..r })
}

/// Whether times never decrease from row to row.
pub open spec fn times_ascend(rows: Seq<RowView>) -> bool {
    forall|i: int, j: int|
        0 <= i <= j < rows.len() ==> (#[trigger] rows[i]).entry.time <= (
        #[trigger] rows[j]).entry.time
}

proof fn lemma_kept_from(rows: Seq<RowView>, o: Options, k: int)
    requires
        0 <= k < kept(rows, o).len(),
    ensures
        exists|i: int|
            0 <= i < rows.len() && #[trigger] rows[i] == kept(rows, o)[k] && takes_in(
                o,
                rows[i].entry.time,
                rows[i].seq,
            ),
    decreases rows.len(),
{
    let front = rows.drop_last();
    let before = kept(front, o);
    if k < before.len() {
        lemma_kept_from(front, o, k);
        let i = choose|i: int|
            0 <= i < front.len() && #[trigger] front[i] == before[k] && takes_in(
                o,
                front[i].entry.time,
                front[i].seq,
            );
        assert(rows[i] == front[i]);
    } else {
        assert(rows[rows.len() - 1] == kept(rows, o)[k]);
    }
}

proof fn lemma_kept_holds(rows: Seq<RowView>, o: Options, i: int)
    requires
        0 <= i < rows.len(),
        takes_in(o, rows[i].entry.time, rows[i].seq),
    ensures
        kept(rows, o).contains(rows[i]),
    decreases rows.len(),
{
    let front = rows.drop_last();
    let before = kept(front, o);
    let all = kept(rows, o);
    if i < front.len() {
        lemma_kept_holds(front, o, i);
        assert(front[i] == rows[i]);
        let k = choose|k: int| 0 <= k < before.len() && before[k] == rows[i];
        assert(all[k] == rows[i]);
    } else {
        assert(all[before.len() as int] == rows[i]);
    }
}

/// Whether `t` lies past the end of the window.
spec fn past(o: Options, t: nat) -> bool {
    o.until matches Some(u) && t > u.0
}

/// How a walk under a window stands beside the walk through everything.
spec fn beside(f: WalkView, w: WalkView, o: Options, c: nat) -> bool {
    &&& w.seals == f.seals
    &&& w.ordinal == f.ordinal
    &&& w.run <= f.run
    &&& counted_from(kept(w.rows, o), c) == kept(f.rows, o)
    &&& kept(f.rows, o).len() > 0 ==> f.rows.len() > 0 && (f.run == w.run + c || past(
        o,
        f.rows.last().entry.time,
    ))
}

/// One more entry, read by both.
proof fn lemma_beside_row(
    f: WalkView,
    w: WalkView,
    o: Options,
    c: nat,
    v: VocabularyView,
    e: EntryView,
) -> (d: nat)
    requires
        beside(f, w, o, c),
        times_ascend(with_row(f, v, e).rows),
    ensures
        beside(with_row(f, v, e), with_row(w, v, e), o, d),
{
    let f2 = with_row(f, v, e);
    let w2 = with_row(w, v, e);
    let rf = f2.rows.last();
    let rw = w2.rows.last();
    assert(f2.rows.drop_last() =~= f.rows);
    assert(w2.rows.drop_last() =~= w.rows);
    assert(rf.seq == rw.seq && rf.entry == rw.entry);
    let none = kept(f.rows, o).len() == 0;
    let d = if none {
        (f2.run - w2.run) as nat
    } else {
        c
    };
    if f.rows.len() > 0 {
        assert(f2.rows[f.rows.len() - 1] == f.rows.last());
        assert(f2.rows[f.rows.len() as int] == rf);
    }
    if none {
        assert(counted_from(kept(w.rows, o), c).len() == kept(w.rows, o).len());
        assert(counted_from(kept(w.rows, o), d) =~= kept(f.rows, o));
    }
    if takes_in(o, e.time, rf.seq) {
        let more = RowView { run: rw.run + d, ..rw };
        assert(more =~= rf);
        assert(counted_from(kept(w2.rows, o), d) =~= counted_from(kept(w.rows, o), d).push(more));
    }
    d
}

/// The walk under a window goes through the same entries, with those left out that lie
/// outside it, and counts runs from somewhere else.
proof fn lemma_beside(
    v: VocabularyView,
    prefixes: Seq<(Seq<char>, Seq<char>)>,
    o: Options,
    skipped: nat,
    ls: Seq<Seq<char>>,
) -> (c: nat)
    requires
        walked(v, prefixes, whole(), skipped, ls) is Ok,
        times_ascend(walked(v, prefixes, whole(), skipped, ls)->Ok_0.rows),
        lead_with_times(ls, prefixes),
    ensures
        walked(v, prefixes, o, skipped, ls) is Ok,
        beside(
            walked(v, prefixes, whole(), skipped, ls)->Ok_0,
            walked(v, prefixes, o, skipped, ls)->Ok_0,
            o,
            c,
        ),
    decreases ls.len(),
{
    if ls.len() == 0 {
        let none = walked(v, prefixes, o, skipped, ls)->Ok_0;
        assert(counted_from(kept(none.rows, o), 0) =~= kept(none.rows, o));
        0
    } else {
        let front = ls.drop_last();
        let raw = ls.last();
        let f = walked(v, prefixes, whole(), skipped, front)->Ok_0;
        let f2 = walked(v, prefixes, whole(), skipped, ls)->Ok_0;
        assert(ls[ls.len() - 1] == raw);
        assert forall|i: int| 0 <= i < front.len() implies (line_read(
            #[trigger] front[i],
            prefixes,
        ) matches Ok(LineView::Entry(e)) ==> leads_with_time(front[i], e)) by {
            assert(front[i] == ls[i]);
        }
        assert(f.rows.len() <= f2.rows.len());
        assert(forall|i: int| 0 <= i < f.rows.len() ==> #[trigger] f.rows[i] == f2.rows[i]);
        assert(times_ascend(f.rows)) by {
            assert forall|i: int, j: int| 0 <= i <= j < f.rows.len() implies (
            #[trigger] f.rows[i]).entry.time <= (#[trigger] f.rows[j]).entry.time by {
                assert(f.rows[i] == f2.rows[i] && f.rows[j] == f2.rows[j]);
            }
        }
        let c = lemma_beside(v, prefixes, o, skipped, front);
        let w = walked(v, prefixes, o, skipped, front)->Ok_0;
        lemma_beside_line(f, w, o, c, v, prefixes, skipped + ls.len(), raw)
    }
}

/// One more line.
proof fn lemma_beside_line(
    f: WalkView,
    w: WalkView,
    o: Options,
    c: nat,
    v: VocabularyView,
    prefixes: Seq<(Seq<char>, Seq<char>)>,
    number: nat,
    raw: Seq<char>,
) -> (d: nat)
    requires
        beside(f, w, o, c),
        with_walked(f, v, prefixes, whole(), number, raw) is Ok,
        times_ascend(with_walked(f, v, prefixes, whole(), number, raw)->Ok_0.rows),
        line_read(raw, prefixes) matches Ok(LineView::Entry(e)) ==> leads_with_time(raw, e),
    ensures
        with_walked(w, v, prefixes, o, number, raw) is Ok,
        beside(
            with_walked(f, v, prefixes, whole(), number, raw)->Ok_0,
            with_walked(w, v, prefixes, o, number, raw)->Ok_0,
            o,
            d,
        ),
{
    assert(!out_of_window(unended(raw), whole()));
    if out_of_window(unended(raw), o) {
        let e = line_read(raw, prefixes)->Ok_0->Entry_0;
        let seq = with_row(f, v, e).rows.last().seq;
        lemma_passed_over(raw, prefixes, (Options { from_seq: None, to_seq: None, ..o }), 0);
        lemma_passed_over(raw, prefixes, o, seq);
        lemma_beside_passed(f, w, o, c, v, e);
        c
    } else {
        match line_read(raw, prefixes) {
            Ok(LineView::Entry(e)) => lemma_beside_row(f, w, o, c, v, e),
            _ => c,
        }
    }
}

/// One more entry, passed over under the window.
proof fn lemma_beside_passed(
    f: WalkView,
    w: WalkView,
    o: Options,
    c: nat,
    v: VocabularyView,
    e: EntryView,
)
    requires
        beside(f, w, o, c),
        times_ascend(with_row(f, v, e).rows),
        !takes_in(o, e.time, with_row(f, v, e).rows.last().seq),
        !takes_in((Options { from_seq: None, to_seq: None, ..o }), e.time, 0),
    ensures
        beside(with_row(f, v, e), (WalkView { ordinal: w.ordinal + 1, ..w }), o, c),
{
    let f2 = with_row(f, v, e);
    assert(f2.rows.drop_last() =~= f.rows);
    if kept(f.rows, o).len() > 0 {
        lemma_kept_from(f.rows, o, 0);
        let i = choose|i: int|
            0 <= i < f.rows.len() && #[trigger] f.rows[i] == kept(f.rows, o)[0] && takes_in(
                o,
                f.rows[i].entry.time,
                f.rows[i].seq,
            );
        assert(f2.rows[i] == f.rows[i]);
        assert(f2.rows[i].entry.time <= f2.rows[f.rows.len() as int].entry.time);
        assert(past(o, e.time));
    }
}

// =====================================================================================
// Entries and mentions
// =====================================================================================

/// What the graph says of entries came from one of those that the window takes in.
proof fn lemma_rows_from(
    h: HeaderView,
    v: VocabularyView,
    o: Options,
    rows: Seq<RowView>,
    q: TripleView,
)
    requires
        rows_triples(h, v, o, rows) is Ok,
        rows_triples(h, v, o, rows)->Ok_0.contains(q),
    ensures
        exists|k: int|
            0 <= k < kept(rows, o).len() && entry_triples(h, v, #[trigger] kept(rows, o)[k]) is Ok
                && entry_triples(h, v, kept(rows, o)[k])->Ok_0.contains(q),
    decreases rows.len(),
{
    let front = rows.drop_last();
    let before = rows_triples(h, v, o, front)->Ok_0;
    let all = rows_triples(h, v, o, rows)->Ok_0;
    let row = rows.last();
    let i = choose|i: int| 0 <= i < all.len() && all[i] == q;
    if i < before.len() {
        assert(before[i] == q);
        lemma_rows_from(h, v, o, front, q);
        let k = choose|k: int|
            0 <= k < kept(front, o).len() && entry_triples(
                h,
                v,
                #[trigger] kept(front, o)[k],
            ) is Ok && entry_triples(h, v, kept(front, o)[k])->Ok_0.contains(q);
        assert(kept(rows, o)[k] == kept(front, o)[k]);
    } else {
        let more = entry_triples(h, v, row)->Ok_0;
        assert(more[i - before.len()] == q);
        assert(kept(rows, o)[kept(front, o).len() as int] == row);
    }
}

/// The mentions of the rows that the window takes in are all there are.
proof fn lemma_mentions_kept(
    h: HeaderView,
    v: VocabularyView,
    o: Options,
    property: Seq<char>,
    rows: Seq<RowView>,
)
    ensures
        mentions(h, v, o, property, rows) == mentions(h, v, whole(), property, kept(rows, o)),
    decreases rows.len(),
{
    if rows.len() > 0 {
        lemma_mentions_kept(h, v, o, property, rows.drop_last());
        let row = rows.last();
        if takes_in(o, row.entry.time, row.seq) {
            assert(kept(rows, o).drop_last() =~= kept(rows.drop_last(), o));
        }
    }
}

/// Mentions with their runs counted from `c`.
spec fn runs_from(m: Seq<MentionView>, c: nat) -> Seq<MentionView> {
    m.map_values(|x: MentionView| MentionView { run: x.run + c, ..x })
}

proof fn lemma_field_mentions_from(
    v: VocabularyView,
    property: Seq<char>,
    run: nat,
    c: nat,
    node: Seq<char>,
    fields: Seq<(Seq<char>, Seq<char>)>,
)
    ensures
        field_mentions(v, property, run + c, node, fields) == runs_from(
            field_mentions(v, property, run, node, fields),
            c,
        ),
    decreases fields.len(),
{
    let a = field_mentions(v, property, run + c, node, fields);
    let b = field_mentions(v, property, run, node, fields);
    if fields.len() > 0 {
        lemma_field_mentions_from(v, property, run, c, node, fields.drop_last());
    }
    assert(a =~= runs_from(b, c));
}

proof fn lemma_mentions_from(
    h: HeaderView,
    v: VocabularyView,
    property: Seq<char>,
    rows: Seq<RowView>,
    c: nat,
)
    ensures
        mentions(h, v, whole(), property, counted_from(rows, c)) == runs_from(
            mentions(h, v, whole(), property, rows),
            c,
        ),
    decreases rows.len(),
{
    let moved = counted_from(rows, c);
    let a = mentions(h, v, whole(), property, moved);
    let b = mentions(h, v, whole(), property, rows);
    if rows.len() > 0 {
        let row = rows.last();
        lemma_mentions_from(h, v, property, rows.drop_last(), c);
        assert(moved.drop_last() =~= counted_from(rows.drop_last(), c));
        lemma_field_mentions_from(
            v,
            property,
            row.run,
            c,
            entry_iri(h.name, row.seq),
            row.entry.fields,
        );
    }
    assert(a =~= runs_from(b, c));
}

/// The mentions of the rows that a window takes in are among those of all rows.
proof fn lemma_mentions_part(
    h: HeaderView,
    v: VocabularyView,
    o: Options,
    property: Seq<char>,
    rows: Seq<RowView>,
    m: MentionView,
)
    requires
        mentions(h, v, o, property, rows).contains(m),
    ensures
        mentions(h, v, whole(), property, rows).contains(m),
    decreases rows.len(),
{
    let front = rows.drop_last();
    let row = rows.last();
    let before = mentions(h, v, o, property, front);
    let all = mentions(h, v, o, property, rows);
    let wide_before = mentions(h, v, whole(), property, front);
    let wide = mentions(h, v, whole(), property, rows);
    let i = choose|i: int| 0 <= i < all.len() && all[i] == m;
    if i < before.len() {
        assert(before[i] == m);
        lemma_mentions_part(h, v, o, property, front, m);
        let k = choose|k: int| 0 <= k < wide_before.len() && wide_before[k] == m;
        assert(wide[k] == m);
    } else {
        assert(wide[wide_before.len() + (i - before.len())] == m);
    }
}

/// Every mention is of a row that the window takes in.
proof fn lemma_mentions_of(
    h: HeaderView,
    v: VocabularyView,
    o: Options,
    property: Seq<char>,
    rows: Seq<RowView>,
    i: int,
)
    requires
        0 <= i < mentions(h, v, o, property, rows).len(),
    ensures
        exists|k: int|
            0 <= k < kept(rows, o).len() && mentions(h, v, o, property, rows)[i].node == entry_iri(
                h.name,
                (#[trigger] kept(rows, o)[k]).seq,
            ),
    decreases rows.len(),
{
    let front = rows.drop_last();
    let before = mentions(h, v, o, property, front);
    let row = rows.last();
    if i < before.len() {
        lemma_mentions_of(h, v, o, property, front, i);
        let k = choose|k: int|
            0 <= k < kept(front, o).len() && before[i].node == entry_iri(
                h.name,
                (#[trigger] kept(front, o)[k]).seq,
            );
        assert(kept(rows, o)[k] == kept(front, o)[k]);
    } else {
        lemma_field_mentions(
            v,
            property,
            row.run,
            entry_iri(h.name, row.seq),
            row.entry.fields,
        );
        assert(kept(rows, o)[kept(front, o).len() as int] == row);
    }
}

/// Whether within a run no span is claimed by two entries.
pub open spec fn spans_are_unique(spans: Seq<MentionView>) -> bool {
    forall|i: int, j: int|
        0 <= i < spans.len() && 0 <= j < spans.len() && (#[trigger] spans[i]).run == (
        #[trigger] spans[j]).run && spans[i].span == spans[j].span ==> spans[i].node
            == spans[j].node
}

/// Who claims a span that is claimed once.
pub proof fn lemma_claims(spans: Seq<MentionView>, all: Seq<MentionView>, i: int)
    requires
        0 <= i < spans.len(),
        spans.len() <= all.len(),
        forall|k: int| 0 <= k < spans.len() ==> #[trigger] spans[k] == all[k],
        spans_are_unique(all),
    ensures
        claimed(spans, spans[i].run, spans[i].span) == Some(spans[i].node),
    decreases spans.len(),
{
    let last = spans.last();
    assert(spans[spans.len() - 1] == all[spans.len() - 1]);
    assert(spans[i] == all[i]);
    if !(last.run == spans[i].run && last.span == spans[i].span) {
        let front = spans.drop_last();
        assert(front[i] == spans[i]);
        assert forall|k: int| 0 <= k < front.len() implies #[trigger] front[k] == all[k] by {
            assert(front[k] == spans[k]);
        }
        lemma_claims(front, all, i);
    }
}

/// An edge is stated for every mention of a parent that another entry claims.
pub proof fn lemma_invoked_holds(spans: Seq<MentionView>, parents: Seq<MentionView>, j: int)
    requires
        0 <= j < parents.len(),
        claimed(spans, parents[j].run, parents[j].span) matches Some(p) && p != parents[j].node,
    ensures
        invoked_triples(spans, parents).contains(
            stating(
                claimed(spans, parents[j].run, parents[j].span)->Some_0,
                LOG_INVOKED@,
                TermView::Iri(parents[j].node),
            ),
        ),
    decreases parents.len(),
{
    let front = parents.drop_last();
    let before = invoked_triples(spans, front);
    let all = invoked_triples(spans, parents);
    let t = stating(
        claimed(spans, parents[j].run, parents[j].span)->Some_0,
        LOG_INVOKED@,
        TermView::Iri(parents[j].node),
    );
    if j < front.len() {
        assert(front[j] == parents[j]);
        lemma_invoked_holds(spans, front, j);
        let k = choose|k: int| 0 <= k < before.len() && before[k] == t;
        assert(all[k] == t);
    } else {
        assert(all[before.len() as int] == t);
    }
}

// =====================================================================================
// The laws
// =====================================================================================

/// Everything that a segment's graph without a window is made of: its header, its rows and
/// its seals.
pub open spec fn everything(text: Seq<char>, v: VocabularyView) -> WalkView {
    walk(text, header_read(text)->Ok_0.0, v, whole())->Ok_0
}

/// Whether the lines of a segment are in the order of time, each leading with its own, and
/// no span is claimed twice within a run.
pub open spec fn orderly(text: Seq<char>, v: VocabularyView) -> bool {
    let h = header_read(text)->Ok_0.0;
    &&& lead_with_times(lines(text).skip(body_start(lines(text))), h.prefixes)
    &&& times_ascend(everything(text, v).rows)
    &&& spans_are_unique(mentions(h, v, whole(), LOG_SPAN@, everything(text, v).rows))
}

/// The rows and seals under a window, beside those of the whole.
proof fn lemma_under(text: Seq<char>, v: VocabularyView, o: Options) -> (c: nat)
    requires
        graph_of(text, v, whole()) is Ok,
        orderly(text, v),
    ensures
        graph_of(text, v, o) is Ok,
        ({
            let h = header_read(text)->Ok_0.0;
            let f = everything(text, v);
            let w = walk(text, h, v, o)->Ok_0;
            &&& w.seals == f.seals
            &&& counted_from(kept(w.rows, o), c) == kept(f.rows, o)
        }),
{
    let h = header_read(text)->Ok_0.0;
    let all = lines(text);
    let skipped = body_start(all);
    let c = lemma_beside(v, h.prefixes, o, skipped as nat, all.skip(skipped));
    let f = everything(text, v);
    let w = walk(text, h, v, o)->Ok_0;
    assert forall|k: int| 0 <= k < kept(w.rows, o).len() implies entry_triples(
        h,
        v,
        #[trigger] kept(w.rows, o)[k],
    ) is Ok by {
        assert(counted_from(kept(w.rows, o), c)[k] == kept(f.rows, o)[k]);
        lemma_kept_from(f.rows, o, k);
        let i = choose|i: int|
            0 <= i < f.rows.len() && #[trigger] f.rows[i] == kept(f.rows, o)[k] && takes_in(
                o,
                f.rows[i].entry.time,
                f.rows[i].seq,
            );
        lemma_rows_hold(h, v, whole(), f.rows, i, header_triples(h)[0]);
        assert(entry_triples(h, v, f.rows[i]) == entry_triples(h, v, kept(w.rows, o)[k]));
    }
    lemma_rows_stand(h, v, o, w.rows);
    c
}

/// Entries are stated where each that the window takes in can be.
proof fn lemma_rows_stand(h: HeaderView, v: VocabularyView, o: Options, rows: Seq<RowView>)
    requires
        forall|k: int|
            0 <= k < kept(rows, o).len() ==> entry_triples(h, v, #[trigger] kept(rows, o)[k]) is Ok,
    ensures
        rows_triples(h, v, o, rows) is Ok,
    decreases rows.len(),
{
    if rows.len() > 0 {
        let front = rows.drop_last();
        assert forall|k: int| 0 <= k < kept(front, o).len() implies entry_triples(
            h,
            v,
            #[trigger] kept(front, o)[k],
        ) is Ok by {
            assert(kept(rows, o)[k] == kept(front, o)[k]);
        }
        lemma_rows_stand(h, v, o, front);
        if takes_in(o, rows.last().entry.time, rows.last().seq) {
            assert(kept(rows, o)[kept(front, o).len() as int] == rows.last());
        }
    }
}

/// A segment that becomes a graph becomes one under every window.
pub proof fn law_window_leaves_a_graph(text: Seq<char>, v: VocabularyView, o: Options)
    requires
        graph_of(text, v, whole()) is Ok,
        orderly(text, v),
    ensures
        graph_of(text, v, o) is Ok,
{
    let c = lemma_under(text, v, o);
}

/// A window takes nothing in that the whole does not state: every fact of the narrowed
/// graph is one of the whole, of the same nodes.
pub proof fn law_window_narrows(text: Seq<char>, v: VocabularyView, o: Options, q: TripleView)
    requires
        graph_of(text, v, whole()) is Ok,
        orderly(text, v),
        graph_of(text, v, o)->Ok_0.contains(q),
    ensures
        graph_of(text, v, whole())->Ok_0.contains(q),
{
    let h = header_read(text)->Ok_0.0;
    let f = everything(text, v);
    let w = walk(text, h, v, o)->Ok_0;
    let c = lemma_under(text, v, o);
    law_graph_states_each_fact_once(text, v, o);
    law_graph_states_each_fact_once(text, v, whole());
    let part = stated(text, v, o);
    let all = stated(text, v, whole());
    let top = header_triples(h);
    let entries = rows_triples(h, v, o, w.rows)->Ok_0;
    let spans = mentions(h, v, o, LOG_SPAN@, w.rows);
    let parents = mentions(h, v, o, LOG_PARENT_SPAN@, w.rows);
    let edges = invoked_triples(spans, parents);
    let all_entries = rows_triples(h, v, whole(), f.rows)->Ok_0;
    let all_edges = invoked_triples(
        mentions(h, v, whole(), LOG_SPAN@, f.rows),
        mentions(h, v, whole(), LOG_PARENT_SPAN@, f.rows),
    );
    let seals = seals_triples(h.name, f.seals)->Ok_0;
    let a = top.len() as int;
    let b = a + entries.len();
    let d = b + edges.len();
    let k = choose|k: int| 0 <= k < part.len() && part[k] == q;
    if k < a {
        assert(all[k] == q);
    } else if k < b {
        assert(entries[k - a] == q);
        lemma_entry_in_whole(h, v, o, w.rows, f.rows, c, q);
        let i = choose|i: int| 0 <= i < all_entries.len() && all_entries[i] == q;
        assert(all[a + i] == q);
    } else if k < d {
        assert(edges[k - b] == q);
        lemma_edge_in_whole(h, v, o, w.rows, f.rows, c, k - b);
        let i = choose|i: int| 0 <= i < all_edges.len() && all_edges[i] == q;
        assert(all[a + all_entries.len() + i] == q);
    } else {
        assert(seals[k - d] == q);
        assert(all[a + all_entries.len() + all_edges.len() + (k - d)] == q);
    }
}

proof fn lemma_entry_in_whole(
    h: HeaderView,
    v: VocabularyView,
    o: Options,
    rows: Seq<RowView>,
    all: Seq<RowView>,
    c: nat,
    q: TripleView,
)
    requires
        rows_triples(h, v, o, rows) is Ok,
        rows_triples(h, v, o, rows)->Ok_0.contains(q),
        rows_triples(h, v, whole(), all) is Ok,
        counted_from(kept(rows, o), c) == kept(all, o),
    ensures
        rows_triples(h, v, whole(), all)->Ok_0.contains(q),
{
    lemma_rows_from(h, v, o, rows, q);
    let k = choose|k: int|
        0 <= k < kept(rows, o).len() && entry_triples(h, v, #[trigger] kept(rows, o)[k]) is Ok
            && entry_triples(h, v, kept(rows, o)[k])->Ok_0.contains(q);
    assert(counted_from(kept(rows, o), c)[k] == kept(all, o)[k]);
    lemma_kept_from(all, o, k);
    let i = choose|i: int|
        0 <= i < all.len() && #[trigger] all[i] == kept(all, o)[k] && takes_in(
            o,
            all[i].entry.time,
            all[i].seq,
        );
    assert(entry_triples(h, v, all[i]) == entry_triples(h, v, kept(rows, o)[k]));
    lemma_rows_hold(h, v, whole(), all, i, q);
}

proof fn lemma_edge_in_whole(
    h: HeaderView,
    v: VocabularyView,
    o: Options,
    rows: Seq<RowView>,
    all: Seq<RowView>,
    c: nat,
    k: int,
)
    requires
        counted_from(kept(rows, o), c) == kept(all, o),
        spans_are_unique(mentions(h, v, whole(), LOG_SPAN@, all)),
        0 <= k < invoked_triples(
            mentions(h, v, o, LOG_SPAN@, rows),
            mentions(h, v, o, LOG_PARENT_SPAN@, rows),
        ).len(),
    ensures
        invoked_triples(
            mentions(h, v, whole(), LOG_SPAN@, all),
            mentions(h, v, whole(), LOG_PARENT_SPAN@, all),
        ).contains(
            invoked_triples(
                mentions(h, v, o, LOG_SPAN@, rows),
                mentions(h, v, o, LOG_PARENT_SPAN@, rows),
            )[k],
        ),
{
    let spans = mentions(h, v, o, LOG_SPAN@, rows);
    let parents = mentions(h, v, o, LOG_PARENT_SPAN@, rows);
    let all_spans = mentions(h, v, whole(), LOG_SPAN@, all);
    let all_parents = mentions(h, v, whole(), LOG_PARENT_SPAN@, all);
    let t = invoked_triples(spans, parents)[k];
    law_invoked_stays_in_a_run(spans, parents, k);
    let (i, j) = choose|i: int, j: int| #[trigger] joins(spans, parents, t, i, j);
    let m = lemma_mention_in_whole(h, v, o, LOG_SPAN@, rows, all, c, i);
    let n = lemma_mention_in_whole(h, v, o, LOG_PARENT_SPAN@, rows, all, c, j);
    assert(all_spans[m].node == spans[i].node && all_parents[n].node == parents[j].node);
    lemma_claims(all_spans, all_spans, m);
    lemma_invoked_holds(all_spans, all_parents, n);
}

/// Where a mention under a window stands among all mentions.
proof fn lemma_mention_in_whole(
    h: HeaderView,
    v: VocabularyView,
    o: Options,
    property: Seq<char>,
    rows: Seq<RowView>,
    all: Seq<RowView>,
    c: nat,
    i: int,
) -> (k: int)
    requires
        counted_from(kept(rows, o), c) == kept(all, o),
        0 <= i < mentions(h, v, o, property, rows).len(),
    ensures
        0 <= k < mentions(h, v, whole(), property, all).len(),
        ({
            let m = mentions(h, v, o, property, rows)[i];
            mentions(h, v, whole(), property, all)[k] == (MentionView { run: m.run + c, ..m })
        }),
{
    let ms = mentions(h, v, o, property, rows);
    let m = MentionView { run: ms[i].run + c, ..ms[i] };
    lemma_mentions_kept(h, v, o, property, rows);
    lemma_mentions_kept(h, v, o, property, all);
    lemma_mentions_from(h, v, property, kept(rows, o), c);
    let narrowed = mentions(h, v, o, property, all);
    assert(narrowed == runs_from(ms, c));
    assert(narrowed[i] == m);
    lemma_mentions_part(h, v, o, property, all, m);
    let wide = mentions(h, v, whole(), property, all);
    choose|k: int| 0 <= k < wide.len() && wide[k] == m
}

/// What the header states and what the seals state is in the graph whatever the window.
pub proof fn law_window_keeps_header_and_seals(
    text: Seq<char>,
    v: VocabularyView,
    o: Options,
    q: TripleView,
)
    requires
        graph_of(text, v, whole()) is Ok,
        orderly(text, v),
        ({
            let h = header_read(text)->Ok_0.0;
            header_triples(h).contains(q) || seals_triples(
                h.name,
                everything(text, v).seals,
            )->Ok_0.contains(q)
        }),
    ensures
        graph_of(text, v, o)->Ok_0.contains(q),
{
    let h = header_read(text)->Ok_0.0;
    let c = lemma_under(text, v, o);
    law_graph_states_each_fact_once(text, v, o);
    let part = stated(text, v, o);
    let top = header_triples(h);
    let seals = seals_triples(h.name, everything(text, v).seals)->Ok_0;
    if top.contains(q) {
        let k = choose|k: int| 0 <= k < top.len() && top[k] == q;
        assert(part[k] == q);
    } else {
        let k = choose|k: int| 0 <= k < seals.len() && seals[k] == q;
        assert(part[part.len() - seals.len() + k] == q);
    }
}

/// An entry of the whole that the window takes in lands in the narrowed graph, with
/// everything it states and under the same number.
pub proof fn law_window_takes_in(
    text: Seq<char>,
    v: VocabularyView,
    o: Options,
    i: int,
    q: TripleView,
)
    requires
        graph_of(text, v, whole()) is Ok,
        orderly(text, v),
        ({
            let h = header_read(text)->Ok_0.0;
            let rows = everything(text, v).rows;
            &&& 0 <= i < rows.len()
            &&& takes_in(o, rows[i].entry.time, rows[i].seq)
            &&& entry_triples(h, v, rows[i])->Ok_0.contains(q)
        }),
    ensures
        graph_of(text, v, o)->Ok_0.contains(q),
{
    let h = header_read(text)->Ok_0.0;
    let f = everything(text, v);
    let w = walk(text, h, v, o)->Ok_0;
    let c = lemma_under(text, v, o);
    law_graph_states_each_fact_once(text, v, o);
    lemma_kept_holds(f.rows, o, i);
    let k = choose|k: int| 0 <= k < kept(f.rows, o).len() && kept(f.rows, o)[k] == f.rows[i];
    assert(counted_from(kept(w.rows, o), c)[k] == f.rows[i]);
    lemma_kept_from(w.rows, o, k);
    let j = choose|j: int|
        0 <= j < w.rows.len() && #[trigger] w.rows[j] == kept(w.rows, o)[k] && takes_in(
            o,
            w.rows[j].entry.time,
            w.rows[j].seq,
        );
    assert(entry_triples(h, v, w.rows[j]) == entry_triples(h, v, f.rows[i]));
    lemma_rows_hold(h, v, o, w.rows, j, q);
    let entries = rows_triples(h, v, o, w.rows)->Ok_0;
    let m = choose|m: int| 0 <= m < entries.len() && entries[m] == q;
    assert(stated(text, v, o)[7 + m] == q);
}

/// The nodes of entries are told apart by their numbers, from the segment, and from the
/// nodes of seals.
proof fn lemma_nodes_differ(segment: Seq<char>, n: nat, m: nat, s: SealView)
    ensures
        entry_iri(segment, n) == entry_iri(segment, m) ==> n == m,
        entry_iri(segment, n) != segment,
        entry_iri(segment, n) != seal_iri(segment, s),
{
    let a = entry_iri(segment, n);
    let b = entry_iri(segment, m);
    let k = segment.len() as int + 1;
    lemma_decimal(n);
    lemma_decimal(m);
    let most = if n < m {
        m
    } else {
        n
    };
    lemma_read_decimal(n, most);
    lemma_read_decimal(m, most);
    assert(a.skip(k) =~= decimal(n));
    assert(b.skip(k) =~= decimal(m));
    assert(a.len() > segment.len());
    reveal_strlit(":seal:");
    let c = seal_iri(segment, s);
    assert(c[k] == 's');
    assert(a[k] == decimal(n)[0]);
    assert(is_digit(decimal(n)[0]));
}

/// An entry that the window does not take in leaves no trace: where no entry of that number
/// is taken in, nothing is said of its node. Only an instance that is named like the node
/// is spoken of all the same.
#[verifier::rlimit(30)]
pub proof fn law_window_leaves_out(
    text: Seq<char>,
    v: VocabularyView,
    o: Options,
    n: nat,
    q: TripleView,
)
    requires
        graph_of(text, v, whole()) is Ok,
        orderly(text, v),
        ({
            let h = header_read(text)->Ok_0.0;
            let rows = everything(text, v).rows;
            &&& forall|i: int|
                0 <= i < rows.len() && (#[trigger] rows[i]).seq == n ==> !takes_in(
                    o,
                    rows[i].entry.time,
                    rows[i].seq,
                )
            &&& entry_iri(h.name, n) != h.instance
            &&& q.subject == entry_iri(h.name, n)
        }),
    ensures
        !graph_of(text, v, o)->Ok_0.contains(q),
{
    let h = header_read(text)->Ok_0.0;
    let f = everything(text, v);
    let w = walk(text, h, v, o)->Ok_0;
    let c = lemma_under(text, v, o);
    law_graph_states_each_fact_once(text, v, o);
    let part = stated(text, v, o);
    if part.contains(q) {
        let top = header_triples(h);
        let entries = rows_triples(h, v, o, w.rows)->Ok_0;
        let spans = mentions(h, v, o, LOG_SPAN@, w.rows);
        let parents = mentions(h, v, o, LOG_PARENT_SPAN@, w.rows);
        let edges = invoked_triples(spans, parents);
        let seals = seals_triples(h.name, f.seals)->Ok_0;
        let a = top.len() as int;
        let b = a + entries.len();
        let d = b + edges.len();
        let k = choose|k: int| 0 <= k < part.len() && part[k] == q;
        if k < a {
            assert(top[k] == q);
            lemma_nodes_differ(h.name, n, n, f.seals[0]);
        } else if k < b {
            assert(entries[k - a] == q);
            lemma_rows_from(h, v, o, w.rows, q);
            let r = choose|r: int|
                0 <= r < kept(w.rows, o).len() && entry_triples(
                    h,
                    v,
                    #[trigger] kept(w.rows, o)[r],
                ) is Ok && entry_triples(h, v, kept(w.rows, o)[r])->Ok_0.contains(q);
            lemma_entry_node(h, v, kept(w.rows, o)[r], q);
            lemma_left_out(h, o, w.rows, f.rows, c, n, r, f.seals[0]);
        } else if k < d {
            assert(edges[k - b] == q);
            law_invoked_stays_in_a_run(spans, parents, k - b);
            let (i, j) = choose|i: int, j: int| #[trigger] joins(spans, parents, q, i, j);
            lemma_mentions_of(h, v, o, LOG_SPAN@, w.rows, i);
            let r = choose|r: int|
                0 <= r < kept(w.rows, o).len() && spans[i].node == entry_iri(
                    h.name,
                    (#[trigger] kept(w.rows, o)[r]).seq,
                );
            lemma_left_out(h, o, w.rows, f.rows, c, n, r, f.seals[0]);
        } else {
            assert(seals[k - d] == q);
            lemma_seals_from(h.name, f.seals, k - d);
            let s = choose|s: SealView| seals[k - d].subject == #[trigger] seal_iri(h.name, s);
            lemma_nodes_differ(h.name, n, n, s);
        }
    }
}

/// A row that the window takes in has another number than one that it leaves out.
proof fn lemma_left_out(
    h: HeaderView,
    o: Options,
    rows: Seq<RowView>,
    all: Seq<RowView>,
    c: nat,
    n: nat,
    r: int,
    s: SealView,
)
    requires
        counted_from(kept(rows, o), c) == kept(all, o),
        0 <= r < kept(rows, o).len(),
        forall|i: int|
            0 <= i < all.len() && (#[trigger] all[i]).seq == n ==> !takes_in(
                o,
                all[i].entry.time,
                all[i].seq,
            ),
    ensures
        entry_iri(h.name, kept(rows, o)[r].seq) != entry_iri(h.name, n),
{
    assert(counted_from(kept(rows, o), c)[r] == kept(all, o)[r]);
    lemma_kept_from(all, o, r);
    let i = choose|i: int|
        0 <= i < all.len() && #[trigger] all[i] == kept(all, o)[r] && takes_in(
            o,
            all[i].entry.time,
            all[i].seq,
        );
    assert(all[i].seq != n);
    lemma_nodes_differ(h.name, kept(rows, o)[r].seq, n, s);
}

proof fn lemma_entry_node(h: HeaderView, v: VocabularyView, row: RowView, q: TripleView)
    requires
        entry_triples(h, v, row) is Ok,
        entry_triples(h, v, row)->Ok_0.contains(q),
    ensures
        q.subject == entry_iri(h.name, row.seq),
{
    lemma_entry_subjects(h, v, row);
    let t = entry_triples(h, v, row)->Ok_0;
    let i = choose|i: int| 0 <= i < t.len() && t[i] == q;
    assert(t[i].subject == entry_iri(h.name, row.seq));
}

/// What seals state is said of seals.
proof fn lemma_seals_from(segment: Seq<char>, seals: Seq<SealView>, k: int)
    requires
        seals_triples(segment, seals) is Ok,
        0 <= k < seals_triples(segment, seals)->Ok_0.len(),
    ensures
        exists|s: SealView|
            seals_triples(segment, seals)->Ok_0[k].subject == #[trigger] seal_iri(segment, s),
    decreases seals.len(),
{
    let front = seals.drop_last();
    let before = seals_triples(segment, front)->Ok_0;
    let t = seal_triples(segment, seals.last());
    if k < before.len() {
        lemma_seals_from(segment, front, k);
    } else {
        assert(t[k - before.len()].subject == seal_iri(segment, seals.last()));
    }
}

} // verus!
