//! What is served of segments: the window that was asked for, the face that was asked for,
//! and the chains that were asked for.

use vstd::prelude::*;
use vstd::string::*;

use crate::entry::one_line;
use crate::evidence_law::{body, entries_in, entries_of};
use crate::finding::{
    broken_count, chain_report_text, comma_joined, finding_line, finding_lines,
    finding_text, indented, report_ok, report_text, FindingView, ReportView,
};
use crate::graph::{graph_of, turtle_of};
use crate::header::{header_read, header_text, HeaderView, PrevView};
use crate::header_law::{law_header_round_trip, rereadable};
use crate::layer_law::{has_line, lemma_has_line};
use crate::line_law::{
    all_one_line, ended_lines, joined_lines, law_lines_of_joined, lemma_text_lines_of_joined,
};
use crate::lineage::descends;
use crate::number::{decimal, read_unsigned};
use crate::request_law::says;
use crate::segments::{
    bounds, chain_of, chains_of, ended, face_of, from_instance, given, in_name_order, instances,
    last_entry_class, listing_text, probed, selected, served, wanted, window_of, Face, ReadView,
    ServeError,
};
use crate::segments_law::law_name_order;
use crate::table::stored;
use crate::text::{lines, starts_with, text_lines, trim};
use crate::time::{is_time_text, time_read, time_text};
use crate::vocabulary::VocabularyView;
use crate::window::{takes_in, whole, Options};
use crate::writer::listed;

verus! {

// =====================================================================================
// The window
// =====================================================================================

/// Whether an argument is the time it stands for.
pub open spec fn is_instant(arg: Option<&str>, t: Option<nat>) -> bool {
    if says(arg) {
        t is Some && trim(arg->0@) == time_text(t->0)
    } else {
        t is None
    }
}

/// Whether an argument is the number it stands for.
pub open spec fn is_number(arg: Option<&str>, n: Option<nat>) -> bool {
    if says(arg) {
        n is Some && read_unsigned(trim(arg->0@), u64::MAX as nat) == n
    } else {
        n is None
    }
}

/// Whether an argument states a time that is none.
pub open spec fn no_instant(arg: Option<&str>) -> bool {
    says(arg) && forall|t: nat| !is_time_text(trim(arg->0@), t)
}

/// Whether an argument states a number that is none.
pub open spec fn no_number(arg: Option<&str>) -> bool {
    says(arg) && read_unsigned(trim(arg->0@), u64::MAX as nat) is None
}

/// The window is the one that was asked for, each bound from its own argument; and it is
/// refused exactly where one of them is no time or no number, the first of which is named.
pub proof fn law_window_is_what_was_asked(
    since: Option<&str>,
    until: Option<&str>,
    from_seq: Option<&str>,
    to_seq: Option<&str>,
)
    ensures
        ({
            let r = window_of(given(since), given(until), given(from_seq), given(to_seq));
            &&& r matches Ok(w) ==> {
                &&& is_instant(since, w.since)
                &&& is_instant(until, w.until)
                &&& is_number(from_seq, w.from_seq)
                &&& is_number(to_seq, w.to_seq)
            }
            &&& r is Err <==> no_instant(since) || no_instant(until) || no_number(from_seq)
                || no_number(to_seq)
            &&& no_instant(since) ==> r->Err_0.name == "since"@
            &&& !no_instant(since) && no_instant(until) ==> r->Err_0.name == "until"@
            &&& !no_instant(since) && !no_instant(until) && no_number(from_seq)
                ==> r->Err_0.name == "from_seq"@
            &&& !no_instant(since) && !no_instant(until) && !no_number(from_seq) && no_number(
                to_seq,
            ) ==> r->Err_0.name == "to_seq"@
        }),
{
    lemma_instant(since);
    lemma_instant(until);
}

proof fn lemma_instant(arg: Option<&str>)
    ensures
        says(arg) ==> (time_read(trim(arg->0@)) is None <==> no_instant(arg)),
        says(arg) ==> (time_read(trim(arg->0@)) matches Some(t) ==> trim(arg->0@) == time_text(t)),
{
    if says(arg) {
        let s = trim(arg->0@);
        if let Some(t) = time_read(s) {
            assert(is_time_text(s, t));
        }
    }
}

/// A window of numbers and times takes in what those numbers and times say.
pub proof fn law_bounds_say_what_is_taken_in(o: Options, time: nat, seq: nat)
    ensures
        takes_in(o, time, seq) <==> {
            let w = bounds(o);
            &&& w.since is None || w.since->0 <= time
            &&& w.until is None || time <= w.until->0
            &&& w.from_seq is None || w.from_seq->0 <= seq
            &&& w.to_seq is None || seq <= w.to_seq->0
        },
{
}

// =====================================================================================
// The face
// =====================================================================================

/// A segment is served as its graph where nothing is asked, and where Turtle is; as itself
/// where its own media type is; and not at all where anything else is.
pub proof fn law_face_is_what_was_asked(arg: Option<&str>)
    ensures
        !says(arg) ==> face_of(given(arg)) is Ok && face_of(given(arg))->Ok_0 == Face::Graph,
        says(arg) ==> ({
            let s = trim(arg->0@);
            &&& s == "text/turtle"@ ==> face_of(given(arg)) is Ok && face_of(given(arg))->Ok_0
                == Face::Graph
            &&& s == "text/x-ikigai-log"@ ==> face_of(given(arg)) is Ok && face_of(
                given(arg),
            )->Ok_0 == Face::Lines
            &&& s != "text/turtle"@ && s != "text/x-ikigai-log"@ ==> face_of(given(arg)) is Err
                && face_of(given(arg))->Err_0.name == "as"@
        }),
{
    reveal_strlit("text/turtle");
    reveal_strlit("text/x-ikigai-log");
    assert("text/turtle"@.len() == 11 && "text/x-ikigai-log"@.len() == 17);
}

/// A segment served as itself is the segment, byte for byte, and is not to be had in part;
/// served as a graph it is the graph of the window, or why there is none.
pub proof fn law_served_is_the_segment(
    text: Seq<char>,
    v: VocabularyView,
    o: Options,
    r: Result<String, ServeError>,
)
    ensures
        served(text, v, Face::Lines, o, r) && o.since is None && o.until is None && o.from_seq
            is None && o.to_seq is None ==> r is Ok && r->Ok_0@ == text,
        served(text, v, Face::Lines, o, r) && !(o.since is None && o.until is None && o.from_seq
            is None && o.to_seq is None) ==> r is Err && r->Err_0 is Argument,
        served(text, v, Face::Graph, o, r) ==> {
            &&& graph_of(text, v, o) matches Err(e) ==> r is Err && r->Err_0 is Graph
                && r->Err_0->Graph_0@ == e
            &&& graph_of(text, v, o) matches Ok(t) ==> (turtle_of(t) matches Ok(s) ==> r is Ok
                && r->Ok_0@ == s)
        },
{
    assert(o.since is None && o.until is None && o.from_seq is None && o.to_seq is None <==> o
        == whole());
}

proof fn lemma_last_class(ls: Seq<Seq<char>>, prefixes: Seq<(Seq<char>, Seq<char>)>)
    ensures
        last_entry_class(ls, prefixes) == (if entries_in(ls, prefixes).len() > 0 {
            Some(entries_in(ls, prefixes).last().class)
        } else {
            None
        }),
    decreases ls.len(),
{
    if ls.len() > 0 {
        lemma_last_class(ls.drop_last(), prefixes);
    }
}

/// A segment is finished exactly where its last entry is a stop or a rotation, or descends
/// from one.
pub proof fn law_finished_is_stopped_or_rotated(text: Seq<char>, v: VocabularyView)
    ensures
        ended(text, v) <==> header_read(text) is Ok && entries_of(text).len() > 0 && (descends(
            v,
            entries_of(text).last().class,
            "https://ikigai-rs.dev/ns/log#ProcessStop"@,
        ) || descends(
            v,
            entries_of(text).last().class,
            "https://ikigai-rs.dev/ns/log#Rotation"@,
        )),
{
    if header_read(text) is Ok {
        lemma_last_class(body(text), header_read(text)->Ok_0.0.prefixes);
    }
}

/// The head of a segment file is enough to tell whose it is, whatever follows in it.
pub proof fn law_probe_finds_the_header(h: HeaderView, tail: Seq<char>)
    requires
        header_text(h) is Ok,
        rereadable(h),
    ensures
        probed(header_text(h)->Ok_0 + tail) == Some(h),
{
    let text = header_text(h)->Ok_0;
    let more = tail + seq!['\n', '\n'];
    law_header_round_trip(h, more);
    assert(text + more =~= text + tail + seq!['\n', '\n']);
}

// =====================================================================================
// Lists and chains
// =====================================================================================

/// The names of segments.
pub open spec fn names_of(s: Seq<(Seq<char>, Seq<char>)>) -> Seq<Seq<char>> {
    s.map_values(|p: (Seq<char>, Seq<char>)| p.0)
}

proof fn lemma_listing(s: Seq<(Seq<char>, Seq<char>)>)
    ensures
        listing_text(s) == joined_lines(names_of(s)),
    decreases s.len(),
{
    if s.len() > 0 {
        lemma_listing(s.drop_last());
        assert(names_of(s).drop_last() =~= names_of(s.drop_last()));
        assert(names_of(s).last() == s.last().0);
    } else {
        assert(listing_text(s) =~= joined_lines(names_of(s)));
    }
}

/// A list names every segment on a line of its own, in the order of the names, and nothing
/// else.
pub proof fn law_list_names_every_segment(s: Seq<(Seq<char>, Seq<char>)>)
    requires
        all_one_line(names_of(in_name_order(s))),
    ensures
        lines(listing_text(in_name_order(s))) == ended_lines(names_of(in_name_order(s))),
        in_name_order(s).to_multiset() == s.to_multiset(),
{
    let all = in_name_order(s);
    lemma_listing(all);
    law_lines_of_joined(names_of(all), Seq::empty());
    assert(joined_lines(names_of(all)) + Seq::<char>::empty() =~= joined_lines(names_of(all)));
    assert(lines(Seq::<char>::empty()) =~= Seq::empty());
    assert(ended_lines(names_of(all)) + lines(Seq::<char>::empty()) =~= ended_lines(
        names_of(all),
    ));
    law_name_order(s);
}

proof fn lemma_from_instance(s: Seq<ReadView>, instance: Seq<char>, p: (Seq<char>, Seq<char>))
    ensures
        from_instance(s, instance).contains(p) <==> exists|k: int|
            0 <= k < s.len() && (#[trigger] s[k]).instance == instance && s[k].name == p.0
                && s[k].text == p.1,
    decreases s.len(),
{
    if s.len() > 0 {
        let front = s.drop_last();
        let before = from_instance(front, instance);
        let all = from_instance(s, instance);
        lemma_from_instance(front, instance, p);
        if before.contains(p) {
            let i = choose|i: int| 0 <= i < before.len() && before[i] == p;
            assert(all[i] == p);
            let k = choose|k: int|
                0 <= k < front.len() && (#[trigger] front[k]).instance == instance && front[k].name
                    == p.0 && front[k].text == p.1;
            assert(s[k] == front[k]);
        }
        if all.contains(p) {
            let i = choose|i: int| 0 <= i < all.len() && all[i] == p;
            if i < before.len() {
                assert(before[i] == p);
            } else {
                assert(s[s.len() - 1].instance == instance);
            }
        }
        if exists|k: int|
            0 <= k < s.len() && (#[trigger] s[k]).instance == instance && s[k].name == p.0
                && s[k].text == p.1 {
            let k = choose|k: int|
                0 <= k < s.len() && (#[trigger] s[k]).instance == instance && s[k].name == p.0
                    && s[k].text == p.1;
            if k < front.len() {
                assert(front[k] == s[k]);
            } else {
                assert(all[before.len() as int] == p);
            }
        }
    }
}

/// The chain of an instance holds every segment of that instance that was read, and no
/// other.
pub proof fn law_chain_holds_the_instances_segments(
    s: Seq<ReadView>,
    instance: Seq<char>,
    p: (Seq<char>, Seq<char>),
)
    ensures
        chain_of(s, instance).contains(p) <==> exists|k: int|
            0 <= k < s.len() && (#[trigger] s[k]).instance == instance && s[k].name == p.0
                && s[k].text == p.1,
{
    let all = from_instance(s, instance);
    let sorted = chain_of(s, instance);
    lemma_from_instance(s, instance, p);
    law_name_order(all);
    broadcast use vstd::seq_lib::group_to_multiset_ensures;
    assert(sorted.contains(p) <==> sorted.to_multiset().count(p) > 0);
    assert(all.contains(p) <==> all.to_multiset().count(p) > 0);
}

proof fn lemma_stored_has<T>(s: Seq<(Seq<char>, T)>, k: Seq<char>, v: T, q: Seq<char>)
    ensures
        (exists|i: int| 0 <= i < stored(s, k, v).len() && (#[trigger] stored(s, k, v)[i]).0 == q)
            <==> q == k || exists|i: int| 0 <= i < s.len() && (#[trigger] s[i]).0 == q,
    decreases s.len(),
{
    let r = stored(s, k, v);
    if s.len() == 0 {
        assert(r[0].0 == k);
    } else if s[0].0 == k {
        assert(r[0].0 == k);
        assert forall|i: int| 0 < i < s.len() implies #[trigger] r[i] == s[i] by {}
        assert forall|i: int| 0 < i < s.len() implies r[i] == #[trigger] s[i] by {}
    } else if crate::text::precedes(k, s[0].0) {
        assert(r[0].0 == k);
        assert forall|i: int| 0 <= i < s.len() implies #[trigger] s[i] == r[i + 1] by {}
        assert forall|i: int| 0 < i < r.len() implies #[trigger] r[i] == s[i - 1] by {}
    } else {
        let t = s.drop_first();
        let u = stored(t, k, v);
        lemma_stored_has(t, k, v, q);
        assert(r[0] == s[0]);
        assert forall|i: int| 0 <= i < t.len() implies #[trigger] t[i] == s[i + 1] by {}
        assert forall|i: int| 0 < i < s.len() implies #[trigger] s[i] == t[i - 1] by {}
        assert forall|i: int| 0 <= i < u.len() implies #[trigger] u[i] == r[i + 1] by {}
        assert forall|i: int| 0 < i < r.len() implies #[trigger] r[i] == u[i - 1] by {}
    }
}

proof fn lemma_instances(s: Seq<ReadView>, q: Seq<char>)
    ensures
        (exists|i: int| 0 <= i < instances(s).len() && (#[trigger] instances(s)[i]).0 == q)
            <==> exists|k: int| 0 <= k < s.len() && (#[trigger] s[k]).instance == q,
    decreases s.len(),
{
    if s.len() > 0 {
        let front = s.drop_last();
        lemma_instances(front, q);
        let before = instances(front);
        let all = instances(s);
        lemma_stored_has(before, s.last().instance, true, q);
        assert(all == stored(before, s.last().instance, true));
        if exists|i: int| 0 <= i < all.len() && (#[trigger] all[i]).0 == q {
            if q == s.last().instance {
                assert(s[s.len() - 1].instance == q);
            } else {
                let k = choose|k: int| 0 <= k < front.len() && (#[trigger] front[k]).instance == q;
                assert(s[k].instance == q);
            }
        }
        if exists|k: int| 0 <= k < s.len() && (#[trigger] s[k]).instance == q {
            let k = choose|k: int| 0 <= k < s.len() && (#[trigger] s[k]).instance == q;
            if k < front.len() {
                assert(front[k].instance == q);
            }
        }
    }
}

/// Every instance that a segment was read of has its chain, and only those have one; and
/// what stands under an instance is its own chain.
pub proof fn law_every_instance_has_its_chain(s: Seq<ReadView>, instance: Seq<char>)
    ensures
        (exists|k: int| 0 <= k < s.len() && (#[trigger] s[k]).instance == instance) <==> exists|i:
            int|
            0 <= i < chains_of(s).len() && (#[trigger] chains_of(s)[i]).0 == instance,
        forall|i: int|
            0 <= i < chains_of(s).len() ==> (#[trigger] chains_of(s)[i]).1 == chain_of(
                s,
                chains_of(s)[i].0,
            ),
{
    lemma_instances(s, instance);
    let all = instances(s);
    assert forall|i: int| 0 <= i < all.len() implies (#[trigger] all[i]).0 == chains_of(s)[i].0 by {}
    assert forall|i: int| 0 <= i < all.len() implies all[i].0 == (
    #[trigger] chains_of(s)[i]).0 by {}
}

/// The chains that are verified are those that were asked for: of the instance, where one is
/// asked for, and with the segment in it, where one is.
pub proof fn law_asked_chains_are_verified(
    chains: Seq<(Seq<char>, Seq<(Seq<char>, Seq<char>)>)>,
    instance: Option<Seq<char>>,
    segment: Option<Seq<char>>,
    c: (Seq<char>, Seq<(Seq<char>, Seq<char>)>),
)
    ensures
        selected(chains, instance, segment).contains(c) <==> {
            &&& chains.contains(c)
            &&& instance is None || instance == Some(c.0)
            &&& segment is None || exists|k: int|
                0 <= k < c.1.len() && Some((#[trigger] c.1[k]).0) == segment
        },
{
    let want = |d: (Seq<char>, Seq<(Seq<char>, Seq<char>)>)| wanted(d.0, d.1, instance, segment);
    lemma_filter(chains, want, c);
    if segment is Some {
        if wanted(c.0, c.1, instance, segment) {
            let k = choose|k: int| 0 <= k < c.1.len() && (#[trigger] c.1[k]).0 == segment->0;
            assert(Some(c.1[k].0) == segment);
        }
    }
}

proof fn lemma_filter<A>(s: Seq<A>, p: spec_fn(A) -> bool, x: A)
    ensures
        s.filter(p).contains(x) <==> s.contains(x) && p(x),
    decreases s.len(),
{
    reveal(Seq::filter);
    if s.len() > 0 {
        let front = s.drop_last();
        let before = front.filter(p);
        let all = s.filter(p);
        lemma_filter(front, p, x);
        if front.contains(x) {
            let i = choose|i: int| 0 <= i < front.len() && front[i] == x;
            assert(s[i] == x);
        }
        if s.contains(x) {
            let i = choose|i: int| 0 <= i < s.len() && s[i] == x;
            if i < front.len() {
                assert(front[i] == x);
            }
        }
        assert(s[s.len() - 1] == s.last());
        if p(s.last()) {
            assert(all == before.push(s.last()));
            assert(all[before.len() as int] == s.last());
            if before.contains(x) {
                let i = choose|i: int| 0 <= i < before.len() && before[i] == x;
                assert(all[i] == x);
            }
            if all.contains(x) {
                let i = choose|i: int| 0 <= i < all.len() && all[i] == x;
                if i < before.len() {
                    assert(before[i] == x);
                }
            }
        }
    }
}

// =====================================================================================
// Reports
// =====================================================================================

/// How many reports are not in order.
pub open spec fn broken_among(rs: Seq<ReportView>) -> nat {
    rs.filter(|r: ReportView| !report_ok(r)).len()
}

proof fn lemma_broken_among(rs: Seq<ReportView>)
    ensures
        broken_count(rs) == broken_among(rs),
    decreases rs.len(),
{
    reveal(Seq::filter);
    if rs.len() > 0 {
        lemma_broken_among(rs.drop_last());
    }
}

/// A report on a chain ends on how many segments there were and how many of them did not
/// verify.
pub proof fn law_report_ends_on_the_total(rs: Seq<ReportView>)
    ensures
        ({
            let total = "verified "@ + decimal(rs.len()) + " segment(s), "@ + decimal(
                broken_among(rs),
            ) + " broken\n"@;
            let text = chain_report_text(rs);
            &&& text.len() >= total.len()
            &&& text.skip(text.len() - total.len()) == total
        }),
{
    lemma_broken_among(rs);
    let total = "verified "@ + decimal(rs.len()) + " segment(s), "@ + decimal(broken_among(rs))
        + " broken\n"@;
    let text = chain_report_text(rs);
    assert(text.skip(text.len() - total.len()) =~= total);
}

/// The report on a segment begins with its name and whether it verified, and what was
/// counted in it and read off its header.
pub proof fn law_report_begins_with_the_verdict(r: ReportView)
    ensures
        starts_with(
            report_text(r),
            "segment "@ + r.name + " "@ + (if report_ok(r) {
                "OK"@
            } else {
                "BROKEN"@
            }) + " entries="@ + decimal(r.entries) + " seals="@ + decimal(r.seals) + " level="@
                + r.level + " prev="@ + (match r.prev {
                PrevView::Genesis => "genesis"@,
                PrevView::Seal(hash) => hash,
            }) + " signed="@ + (if r.signed_with.len() == 0 {
                "none"@
            } else {
                comma_joined(r.signed_with)
            }) + " head="@ + r.head + "\n"@,
        ),
{
    reveal_strlit(" ");
    reveal_strlit("\n");
    reveal_strlit("none");
    reveal_strlit(" signed=");
    reveal_strlit(" signed=none");
    assert(" "@ =~= seq![' ']);
    assert("\n"@ =~= seq!['\n']);
    let start = "segment "@ + r.name + " "@ + (if report_ok(r) {
        "OK"@
    } else {
        "BROKEN"@
    }) + " entries="@ + decimal(r.entries) + " seals="@ + decimal(r.seals) + " level="@ + r.level
        + " prev="@ + (match r.prev {
        PrevView::Genesis => "genesis"@,
        PrevView::Seal(hash) => hash,
    });
    let signed = if r.signed_with.len() == 0 {
        " signed=none"@
    } else {
        " signed="@ + comma_joined(r.signed_with)
    };
    let by = if r.signed_with.len() == 0 {
        "none"@
    } else {
        comma_joined(r.signed_with)
    };
    assert(signed =~= " signed="@ + by);
    let line = start + " signed="@ + by + " head="@ + r.head + "\n"@;
    let below = indented(text_lines(finding_lines(r.findings)));
    assert(report_text(r) =~= line + below);
    assert((line + below).take(line.len() as int) =~= line);
}

/// A finding that breaks the record is told apart from one that does not.
pub proof fn law_finding_says_whether_it_breaks(f: FindingView)
    ensures
        f is UnmarkedEnd || f is UnsealedTail ==> finding_line(f) == "noted "@ + finding_text(f)
            + "\n"@,
        !(f is UnmarkedEnd || f is UnsealedTail) ==> finding_line(f) == "BROKEN "@ + finding_text(f)
            + "\n"@,
{
    reveal_strlit("noted ");
    reveal_strlit("noted");
    reveal_strlit("BROKEN ");
    reveal_strlit("BROKEN");
    reveal_strlit("\n");
    assert("\n"@ =~= seq!['\n']);
    assert("noted "@ =~= "noted"@ + seq![' ']);
    assert("BROKEN "@ =~= "BROKEN"@ + seq![' ']);
}

/// What is said of a finding begins with what was found, and where.
pub proof fn law_finding_names_its_place(f: FindingView)
    ensures
        match f {
            FindingView::Malformed { line, detail } => finding_text(f) == "line "@ + decimal(line)
                + ": "@ + detail,
            FindingView::SealMismatch { first, last, stated, recomputed } => starts_with(
                finding_text(f),
                "seal "@ + decimal(first) + "-"@ + decimal(last) + " states "@ + stated
                    + " but the entries hash to "@ + recomputed,
            ),
            FindingView::SealRangeGap { after, next_first } => starts_with(
                finding_text(f),
                "seal coverage jumps from "@ + decimal(after) + " to "@ + decimal(next_first),
            ),
            FindingView::SequenceGap { after, next } => starts_with(
                finding_text(f),
                "sequence jumps from "@ + decimal(after) + " to "@ + decimal(next),
            ),
            FindingView::PrevMismatch { predecessor, stated, expected } => starts_with(
                finding_text(f),
                "@prev is "@ + stated + " but <"@ + predecessor + "> ends at "@ + expected,
            ),
            FindingView::UnexpectedGenesis { predecessor } => starts_with(
                finding_text(f),
                "@prev is genesis, but <"@ + predecessor + ">"@,
            ),
            FindingView::MissingSuccessor { after, successor } => starts_with(
                finding_text(f),
                "<"@ + after + "> rotated into <"@ + successor + ">"@,
            ),
            FindingView::UnbracketedLevelChange { from_segment, from, to_segment, to } =>
                starts_with(
                finding_text(f),
                "the level went from "@ + from + " (<"@ + from_segment + ">) to "@ + to + " (<"@
                    + to_segment + ">)"@,
            ),
            FindingView::UnmarkedEnd { last_class } => last_class matches Some(class)
                ==> starts_with(finding_text(f), "ends on "@ + class),
            FindingView::UnsealedTail { from, to } => starts_with(
                finding_text(f),
                "sequences "@ + decimal(from) + "-"@ + decimal(to),
            ),
        },
{
    let text = finding_text(f);
    match f {
        FindingView::Malformed { line, detail } => {},
        FindingView::SealMismatch { first, last, stated, recomputed } => {
            let s = "seal "@ + decimal(first) + "-"@ + decimal(last) + " states "@ + stated
                + " but the entries hash to "@ + recomputed;
            assert(text.take(s.len() as int) =~= s);
        },
        FindingView::SealRangeGap { after, next_first } => {
            let s = "seal coverage jumps from "@ + decimal(after) + " to "@ + decimal(next_first);
            assert(text.take(s.len() as int) =~= s);
        },
        FindingView::SequenceGap { after, next } => {
            let s = "sequence jumps from "@ + decimal(after) + " to "@ + decimal(next);
            assert(text.take(s.len() as int) =~= s);
        },
        FindingView::PrevMismatch { predecessor, stated, expected } => {
            let s = "@prev is "@ + stated + " but <"@ + predecessor + "> ends at "@ + expected;
            assert(text.take(s.len() as int) =~= s);
        },
        FindingView::UnexpectedGenesis { predecessor } => {
            reveal_strlit(">");
            reveal_strlit("> precedes this segment: a chain was restarted");
            let s = "@prev is genesis, but <"@ + predecessor + ">"@;
            assert(text.take(s.len() as int) =~= s);
        },
        FindingView::MissingSuccessor { after, successor } => {
            reveal_strlit(">");
            reveal_strlit(
                ">, which is not here: the chain was truncated at its head, where nothing points forward",
            );
            let s = "<"@ + after + "> rotated into <"@ + successor + ">"@;
            assert(text.take(s.len() as int) =~= s);
        },
        FindingView::UnbracketedLevelChange { from_segment, from, to_segment, to } => {
            reveal_strlit(">)");
            reveal_strlit(
                ">) with no log:LevelChange to bracket it: the gap that opened is unexplained",
            );
            let s = "the level went from "@ + from + " (<"@ + from_segment + ">) to "@ + to
                + " (<"@ + to_segment + ">)"@;
            assert(text.take(s.len() as int) =~= s);
        },
        FindingView::UnmarkedEnd { last_class } => {
            if let Some(class) = last_class {
                let s = "ends on "@ + class;
                assert(text.take(s.len() as int) =~= s);
            }
        },
        FindingView::UnsealedTail { from, to } => {
            let s = "sequences "@ + decimal(from) + "-"@ + decimal(to);
            assert(text.take(s.len() as int) =~= s);
        },
    }
}

/// A finding as it stands under its segment's summary.
pub open spec fn listed_finding(f: FindingView) -> Seq<char> {
    (if f is UnmarkedEnd || f is UnsealedTail {
        "noted "@
    } else {
        "BROKEN "@
    }) + finding_text(f)
}

proof fn lemma_finding_lines(fs: Seq<FindingView>)
    ensures
        finding_lines(fs) == joined_lines(fs.map_values(|f: FindingView| listed_finding(f))),
    decreases fs.len(),
{
    let ls = fs.map_values(|f: FindingView| listed_finding(f));
    if fs.len() > 0 {
        lemma_finding_lines(fs.drop_last());
        assert(ls.drop_last() =~= fs.drop_last().map_values(|f: FindingView| listed_finding(f)));
        law_finding_says_whether_it_breaks(fs.last());
        reveal_strlit("\n");
        assert(finding_line(fs.last()) =~= listed_finding(fs.last()) + seq!['\n']);
        assert(finding_lines(fs) =~= joined_lines(ls));
    }
}

proof fn lemma_indented(ls: Seq<Seq<char>>, i: int)
    requires
        0 <= i < ls.len(),
    ensures
        has_line(indented(ls), "  "@ + ls[i] + "\n"@),
        indented(ls).len() > 0 && indented(ls).last() == '\n',
    decreases ls.len(),
{
    reveal_strlit("\n");
    assert("\n"@ =~= seq!['\n']);
    let front = ls.drop_last();
    let line = "  "@ + ls.last() + "\n"@;
    let none = Seq::<char>::empty();
    assert(indented(ls) =~= indented(front) + line + none);
    if i < front.len() {
        lemma_indented(front, i);
        let own = "  "@ + ls[i] + "\n"@;
        let (a, b) = choose|a: Seq<char>, b: Seq<char>|
            indented(front) == #[trigger] (a + own + b) && (a.len() == 0 || a.last() == '\n');
        assert(indented(ls) =~= a + own + (b + line));
        lemma_has_line(indented(ls), a, own, b + line);
    } else {
        if front.len() > 0 {
            lemma_indented(front, 0);
        }
        lemma_has_line(indented(ls), indented(front), line, none);
    }
}

/// Every finding stands under its segment's summary, on a line of its own, with the word for
/// whether it breaks the segment.
pub proof fn law_report_lists_every_finding(r: ReportView, i: int)
    requires
        0 <= i < r.findings.len(),
        forall|k: int|
            0 <= k < r.findings.len() ==> one_line(
                listed_finding(#[trigger] r.findings[k]),
            ) && listed_finding(r.findings[k]).last() != '\r',
    ensures
        has_line(report_text(r), "  "@ + listed_finding(r.findings[i]) + "\n"@),
{
    let ls = r.findings.map_values(|f: FindingView| listed_finding(f));
    lemma_finding_lines(r.findings);
    assert forall|k: int| 0 <= k < ls.len() implies one_line(#[trigger] ls[k]) && (ls[k].len() == 0
        || ls[k].last() != '\r') by {
        assert(ls[k] == listed_finding(r.findings[k]));
    }
    lemma_text_lines_of_joined(ls);
    lemma_indented(ls, i);
    law_report_begins_with_the_verdict(r);
    reveal_strlit("\n");
    let below = indented(ls);
    let text = report_text(r);
    let top = text.take(text.len() - below.len());
    let own = "  "@ + ls[i] + "\n"@;
    lemma_report_parts(r);
    let (a, b) = choose|a: Seq<char>, b: Seq<char>|
        below == #[trigger] (a + own + b) && (a.len() == 0 || a.last() == '\n');
    assert(text =~= (top + a) + own + b);
    lemma_has_line(text, top + a, own, b);
}

proof fn lemma_report_parts(r: ReportView)
    ensures
        ({
            let text = report_text(r);
            let below = indented(text_lines(finding_lines(r.findings)));
            let top = text.take(text.len() - below.len());
            &&& text.len() > below.len()
            &&& text == top + below
            &&& top.last() == '\n'
        }),
{
    let text = report_text(r);
    let below = indented(text_lines(finding_lines(r.findings)));
    let top = text.take(text.len() - below.len());
    assert(text =~= top + below);
}

/// Texts are joined by a comma between each and the next.
pub proof fn law_commas(v: Seq<Seq<char>>, x: Seq<char>)
    ensures
        comma_joined(seq![x]) == x,
        v.len() > 0 ==> comma_joined(v.push(x)) == comma_joined(v) + ","@ + x,
        listed(seq![x]) == x,
        v.len() > 0 ==> listed(v.push(x)) == listed(v) + ", "@ + x,
{
    reveal_strlit(",");
    assert(","@ =~= seq![',']);
    assert(v.push(x).drop_last() =~= v);
}

} // verus!
