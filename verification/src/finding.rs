//! What verification finds, and how it is reported.

use vstd::prelude::*;
use vstd::string::*;

use crate::header::{prev_text, Prev, PrevView};
use crate::number::{decimal, decimal_of};
use crate::text::{chars_of, lines, lines_of, maybe, text_lines, texts, unended_of};

verus! {

/// One thing verification found. Every variant names the range it is about,
/// because localization is the product: "this segment is broken" is not an
/// answer, "between sequence 2001 and 3000 of this segment" is.
#[derive(Debug, PartialEq, Eq)]
pub enum Finding {
    /// The segment's bytes do not parse as a segment.
    Malformed {
        /// The 1-based line the parser stopped on.
        line: usize,
        /// What was wrong with it.
        detail: String,
    },
    /// A seal states a chain hash that recomputation does not agree with.
    /// **This is the localization claim**: the alteration is inside this range.
    SealMismatch {
        /// First sequence the seal covers.
        first: u64,
        /// Last sequence the seal covers.
        last: u64,
        /// What the seal line says.
        stated: String,
        /// What the entries actually hash to.
        recomputed: String,
    },
    /// Seal coverage is not contiguous: a checkpoint line was removed.
    SealRangeGap {
        /// The last sequence the previous seal covered (0 before the first).
        after: u64,
        /// The first sequence the next seal claims.
        next_first: u64,
    },
    /// Entry sequence numbers jump. Emission advances the counter only for
    /// entries that are actually written, so a level-filtered entry consumes no
    /// number and a jump means lines were removed.
    SequenceGap {
        /// The last sequence seen.
        after: u64,
        /// The next one found.
        next: u64,
    },
    /// `@prev` does not name the predecessor's final seal. **This is the
    /// rotation seam**: a forged replacement segment fails exactly here.
    PrevMismatch {
        /// The predecessor this segment follows.
        predecessor: String,
        /// What `@prev` says.
        stated: String,
        /// The predecessor's actual chain head.
        expected: String,
    },
    /// The segment claims to start a chain, but a predecessor exists for this
    /// instance.
    UnexpectedGenesis {
        /// The predecessor it should have chained from.
        predecessor: String,
    },
    /// A segment's rotation marker names a successor that is not in the chain.
    ///
    /// **This closes the hole `@prev` cannot**: nothing points forward at the last
    /// segment, so truncating a chain at its head would otherwise be free.
    MissingSuccessor {
        /// The segment whose rotation named it.
        after: String,
        /// The successor that is not here.
        successor: String,
    },
    /// Two adjacent segments ran at different levels and nothing recorded the
    /// change. **The omission check**: the chain would otherwise bless the hole
    /// as perfectly intact.
    UnbracketedLevelChange {
        /// The earlier segment.
        from_segment: String,
        /// Its level.
        from: String,
        /// The later segment.
        to_segment: String,
        /// Its level.
        to: String,
    },
    /// The segment's last entry is neither an orderly stop nor a rotation, so the
    /// process died. **Noted, not breaking**: a crash is not tampering, and a
    /// file alone cannot tell the two apart.
    UnmarkedEnd {
        /// The class of the last entry, when there was one.
        last_class: Option<String>,
    },
    /// Entries past the final seal are committed to no checkpoint, so nothing
    /// carries them across the rotation boundary. **Noted, not breaking**: an
    /// orderly close or rotation always seals, so this only ever describes a
    /// crashed tail.
    UnsealedTail {
        /// First uncommitted sequence.
        from: u64,
        /// Last uncommitted sequence.
        to: u64,
    },
}

/// A [`Finding`], with its texts as characters.
#[verifier::ext_equal]
pub enum FindingView {
    Malformed { line: nat, detail: Seq<char> },
    SealMismatch { first: nat, last: nat, stated: Seq<char>, recomputed: Seq<char> },
    SealRangeGap { after: nat, next_first: nat },
    SequenceGap { after: nat, next: nat },
    PrevMismatch { predecessor: Seq<char>, stated: Seq<char>, expected: Seq<char> },
    UnexpectedGenesis { predecessor: Seq<char> },
    MissingSuccessor { after: Seq<char>, successor: Seq<char> },
    UnbracketedLevelChange {
        from_segment: Seq<char>,
        from: Seq<char>,
        to_segment: Seq<char>,
        to: Seq<char>,
    },
    UnmarkedEnd { last_class: Option<Seq<char>> },
    UnsealedTail { from: nat, to: nat },
}

impl View for Finding {
    type V = FindingView;

    open spec fn view(&self) -> FindingView {
        match self {
            Finding::Malformed { line, detail } => FindingView::Malformed {
                line: *line as nat,
                detail: detail@,
            },
            Finding::SealMismatch { first, last, stated, recomputed } => FindingView::SealMismatch {
                first: *first as nat,
                last: *last as nat,
                stated: stated@,
                recomputed: recomputed@,
            },
            Finding::SealRangeGap { after, next_first } => FindingView::SealRangeGap {
                after: *after as nat,
                next_first: *next_first as nat,
            },
            Finding::SequenceGap { after, next } => FindingView::SequenceGap {
                after: *after as nat,
                next: *next as nat,
            },
            Finding::PrevMismatch { predecessor, stated, expected } => FindingView::PrevMismatch {
                predecessor: predecessor@,
                stated: stated@,
                expected: expected@,
            },
            Finding::UnexpectedGenesis { predecessor } => FindingView::UnexpectedGenesis {
                predecessor: predecessor@,
            },
            Finding::MissingSuccessor { after, successor } => FindingView::MissingSuccessor {
                after: after@,
                successor: successor@,
            },
            Finding::UnbracketedLevelChange { from_segment, from, to_segment, to } => {
                FindingView::UnbracketedLevelChange {
                    from_segment: from_segment@,
                    from: from@,
                    to_segment: to_segment@,
                    to: to@,
                }
            },
            Finding::UnmarkedEnd { last_class } => FindingView::UnmarkedEnd {
                last_class: maybe(*last_class),
            },
            Finding::UnsealedTail { from, to } => FindingView::UnsealedTail {
                from: *from as nat,
                to: *to as nat,
            },
        }
    }
}

/// Whether a finding means the record cannot be trusted.
pub open spec fn breaks(f: FindingView) -> bool {
    !(f is UnmarkedEnd) && !(f is UnsealedTail)
}

/// What is said of a finding.
pub open spec fn finding_text(f: FindingView) -> Seq<char> {
    match f {
        FindingView::Malformed { line, detail } => "line "@ + decimal(line) + ": "@ + detail,
        FindingView::SealMismatch { first, last, stated, recomputed } => "seal "@ + decimal(first)
            + "-"@ + decimal(last) + " states "@ + stated + " but the entries hash to "@ + recomputed
            + " — the alteration is between sequence "@ + decimal(first) + " and "@ + decimal(last),
        FindingView::SealRangeGap { after, next_first } => "seal coverage jumps from "@ + decimal(
            after,
        ) + " to "@ + decimal(next_first) + ": a checkpoint line is missing"@,
        FindingView::SequenceGap { after, next } => "sequence jumps from "@ + decimal(after)
            + " to "@ + decimal(next)
            + ": entries were removed (filtering consumes no sequence number)"@,
        FindingView::PrevMismatch { predecessor, stated, expected } => "@prev is "@ + stated
            + " but <"@ + predecessor + "> ends at "@ + expected
            + ": this segment does not follow the one before it"@,
        FindingView::UnexpectedGenesis { predecessor } => "@prev is genesis, but <"@ + predecessor
            + "> precedes this segment: a chain was restarted"@,
        FindingView::MissingSuccessor { after, successor } => "<"@ + after + "> rotated into <"@
            + successor
            + ">, which is not here: the chain was truncated at its head, where nothing points forward"@,
        FindingView::UnbracketedLevelChange { from_segment, from, to_segment, to } =>
            "the level went from "@ + from + " (<"@ + from_segment + ">) to "@ + to + " (<"@
            + to_segment
            + ">) with no log:LevelChange to bracket it: the gap that opened is unexplained"@,
        FindingView::UnmarkedEnd { last_class } => match last_class {
            Some(class) => "ends on "@ + class
                + ", not an orderly stop or a rotation: the process died"@,
            None => "has no entries at all"@,
        },
        FindingView::UnsealedTail { from, to } => "sequences "@ + decimal(from) + "-"@ + decimal(to)
            + " are past the final seal and committed to no checkpoint"@,
    }
}

impl Finding {
    /// Whether this finding means the record cannot be trusted, as opposed to
    /// describing something the record honestly says about itself.
    ///
    /// The split is deliberate and it is the difference between a verifier that
    /// gets read and one that gets ignored: a daemon that was killed leaves an
    /// unmarked end on every restart, and a tool that called that "BROKEN" would
    /// train its operator to disregard the word.
    pub fn is_breaking(&self) -> (r: bool)
        ensures
            r == breaks(self@),
    {
        match self {
            Finding::UnmarkedEnd { .. } => false,
            Finding::UnsealedTail { .. } => false,
            _ => true,
        }
    }

    /// The finding, in words.
    pub fn message(&self) -> (r: String)
        ensures
            r@ == finding_text(self@),
    {
        match self {
            Finding::Malformed { line, detail } => {
                let mut s = "line ".to_owned();
                s.append(&decimal_of(*line as u64));
                s.append(": ");
                s.append(detail);
                s
            },
            Finding::SealMismatch { first, last, stated, recomputed } => {
                let mut s = "seal ".to_owned();
                s.append(&decimal_of(*first));
                s.append("-");
                s.append(&decimal_of(*last));
                s.append(" states ");
                s.append(stated);
                s.append(" but the entries hash to ");
                s.append(recomputed);
                s.append(" — the alteration is between sequence ");
                s.append(&decimal_of(*first));
                s.append(" and ");
                s.append(&decimal_of(*last));
                s
            },
            Finding::SealRangeGap { after, next_first } => {
                let mut s = "seal coverage jumps from ".to_owned();
                s.append(&decimal_of(*after));
                s.append(" to ");
                s.append(&decimal_of(*next_first));
                s.append(": a checkpoint line is missing");
                s
            },
            Finding::SequenceGap { after, next } => {
                let mut s = "sequence jumps from ".to_owned();
                s.append(&decimal_of(*after));
                s.append(" to ");
                s.append(&decimal_of(*next));
                s.append(": entries were removed (filtering consumes no sequence number)");
                s
            },
            Finding::PrevMismatch { predecessor, stated, expected } => {
                let mut s = "@prev is ".to_owned();
                s.append(stated);
                s.append(" but <");
                s.append(predecessor);
                s.append("> ends at ");
                s.append(expected);
                s.append(": this segment does not follow the one before it");
                s
            },
            Finding::UnexpectedGenesis { predecessor } => {
                let mut s = "@prev is genesis, but <".to_owned();
                s.append(predecessor);
                s.append("> precedes this segment: a chain was restarted");
                s
            },
            Finding::MissingSuccessor { after, successor } => {
                let mut s = "<".to_owned();
                s.append(after);
                s.append("> rotated into <");
                s.append(successor);
                s.append(
                    ">, which is not here: the chain was truncated at its head, where nothing points forward",
                );
                s
            },
            Finding::UnbracketedLevelChange { from_segment, from, to_segment, to } => {
                let mut s = "the level went from ".to_owned();
                s.append(from);
                s.append(" (<");
                s.append(from_segment);
                s.append(">) to ");
                s.append(to);
                s.append(" (<");
                s.append(to_segment);
                s.append(
                    ">) with no log:LevelChange to bracket it: the gap that opened is unexplained",
                );
                s
            },
            Finding::UnmarkedEnd { last_class } => match last_class {
                Some(class) => {
                    let mut s = "ends on ".to_owned();
                    s.append(class);
                    s.append(", not an orderly stop or a rotation: the process died");
                    s
                },
                None => "has no entries at all".to_owned(),
            },
            Finding::UnsealedTail { from, to } => {
                let mut s = "sequences ".to_owned();
                s.append(&decimal_of(*from));
                s.append("-");
                s.append(&decimal_of(*to));
                s.append(" are past the final seal and committed to no checkpoint");
                s
            },
        }
    }
}

// =====================================================================================
// Reports
// =====================================================================================

/// What verification found in one segment.
#[derive(Debug, PartialEq, Eq)]
pub struct SegmentReport {
    /// The segment's own IRI, from its `@name`.
    pub name: String,
    /// The instance that wrote it.
    pub instance: String,
    /// The one level it ran at.
    pub level: String,
    /// What it chains from.
    pub prev: Prev,
    /// Its chain head: the last seal's hash, or the header's when it never sealed.
    /// This is what a successor's `@prev` must name.
    pub head: String,
    /// How many entries it holds.
    pub entries: u64,
    /// How many seals it holds.
    pub seals: usize,
    /// The algorithms its seals were signed with, in order of first appearance.
    pub signed_with: Vec<String>,
    /// The successor its rotation marker named, when it ended in one. The only
    /// forward link in the chain, and the only thing that can notice a chain
    /// truncated at its head.
    pub successor: Option<String>,
    /// Whether this segment records a level change: the always-land marker that
    /// brackets the gap one opens. Carried on the report rather than checked
    /// inline because the check spans two segments.
    pub records_level_change: bool,
    /// Everything found.
    pub findings: Vec<Finding>,
}

/// A [`SegmentReport`], with its texts as characters.
#[verifier::ext_equal]
pub struct ReportView {
    pub name: Seq<char>,
    pub instance: Seq<char>,
    pub level: Seq<char>,
    pub prev: PrevView,
    pub head: Seq<char>,
    pub entries: nat,
    pub seals: nat,
    pub signed_with: Seq<Seq<char>>,
    pub successor: Option<Seq<char>>,
    pub records_level_change: bool,
    pub findings: Seq<FindingView>,
}

/// Findings, with their texts as characters.
pub open spec fn findings_view(v: Seq<Finding>) -> Seq<FindingView> {
    v.map_values(|f: Finding| f@)
}

impl View for SegmentReport {
    type V = ReportView;

    open spec fn view(&self) -> ReportView {
        ReportView {
            name: self.name@,
            instance: self.instance@,
            level: self.level@,
            prev: self.prev@,
            head: self.head@,
            entries: self.entries as nat,
            seals: self.seals as nat,
            signed_with: texts(self.signed_with@),
            successor: maybe(self.successor),
            records_level_change: self.records_level_change,
            findings: findings_view(self.findings@),
        }
    }
}

/// Whether a segment verified: nothing breaking was found.
pub open spec fn report_ok(r: ReportView) -> bool {
    forall|i: int| 0 <= i < r.findings.len() ==> !breaks(#[trigger] r.findings[i])
}

/// One finding as a line, prefixed `BROKEN` or `noted`.
pub open spec fn finding_line(f: FindingView) -> Seq<char> {
    (if breaks(f) {
        "BROKEN"@
    } else {
        "noted"@
    }) + seq![' '] + finding_text(f) + seq!['\n']
}

/// Findings as lines.
pub open spec fn finding_lines(fs: Seq<FindingView>) -> Seq<char>
    decreases fs.len(),
{
    if fs.len() == 0 {
        Seq::empty()
    } else {
        finding_lines(fs.drop_last()) + finding_line(fs.last())
    }
}

impl SegmentReport {
    /// Whether the segment verified: no breaking finding. See
    /// [`Finding::is_breaking`] for why that is not "no findings".
    pub fn ok(&self) -> (r: bool)
        ensures
            r == report_ok(self@),
    {
        let mut i: usize = 0;
        while i < self.findings.len()
            invariant
                i <= self.findings.len(),
                forall|j: int| 0 <= j < i ==> !breaks(#[trigger] self@.findings[j]),
            decreases self.findings.len() - i,
        {
            if self.findings[i].is_breaking() {
                assert(breaks(self@.findings[i as int]));
                return false;
            }
            assert(self@.findings[i as int] == self.findings@[i as int]@);
            i = i + 1;
        }
        true
    }

    /// The findings as lines, each prefixed `BROKEN` or `noted`.
    pub fn render_findings(&self) -> (out: String)
        ensures
            out@ == finding_lines(self@.findings),
    {
        let ghost fs = self@.findings;
        let mut out = String::new();
        let mut i: usize = 0;
        assert(fs.take(0) =~= Seq::empty());
        while i < self.findings.len()
            invariant
                i <= self.findings.len(),
                fs == self@.findings,
                out@ == finding_lines(fs.take(i as int)),
            decreases self.findings.len() - i,
        {
            let ghost before = out@;
            let f = &self.findings[i];
            if f.is_breaking() {
                out.append("BROKEN");
            } else {
                out.append("noted");
            }
            out.push(' ');
            out.append(&f.message());
            out.push('\n');
            proof {
                assert(fs.take(i + 1).drop_last() =~= fs.take(i as int));
                assert(fs.take(i + 1).last() == self.findings@[i as int]@);
                assert(out@ =~= before + finding_line(fs[i as int]));
            }
            i = i + 1;
        }
        assert(fs.take(i as int) =~= fs);
        out
    }
}

/// What verification found across a chain of segments.
#[derive(Debug, PartialEq, Eq)]
pub struct ChainReport {
    /// One report per segment, in chain order.
    pub segments: Vec<SegmentReport>,
}

/// Reports, with their texts as characters.
pub open spec fn reports_view(v: Seq<SegmentReport>) -> Seq<ReportView> {
    v.map_values(|r: SegmentReport| r@)
}

impl Default for ChainReport {
    fn default() -> (r: ChainReport)
        ensures
            r@ == Seq::<ReportView>::empty(),
    {
        let r = ChainReport { segments: Vec::new() };
        assert(r@ =~= Seq::<ReportView>::empty());
        r
    }
}

impl View for ChainReport {
    type V = Seq<ReportView>;

    open spec fn view(&self) -> Seq<ReportView> {
        reports_view(self.segments@)
    }
}

/// How many segments did not verify.
pub open spec fn broken_count(rs: Seq<ReportView>) -> nat
    decreases rs.len(),
{
    if rs.len() == 0 {
        0
    } else {
        broken_count(rs.drop_last()) + if report_ok(rs.last()) {
            0nat
        } else {
            1nat
        }
    }
}

/// Texts with a comma between each and the next.
pub open spec fn comma_joined(v: Seq<Seq<char>>) -> Seq<char>
    decreases v.len(),
{
    if v.len() == 0 {
        Seq::empty()
    } else if v.len() == 1 {
        v[0]
    } else {
        comma_joined(v.drop_last()) + seq![','] + v.last()
    }
}

/// Lines, each with two blanks before it.
pub open spec fn indented(ls: Seq<Seq<char>>) -> Seq<char>
    decreases ls.len(),
{
    if ls.len() == 0 {
        Seq::empty()
    } else {
        indented(ls.drop_last()) + "  "@ + ls.last() + seq!['\n']
    }
}

/// What is reported of one segment: a summary line, and each line of its findings
/// beneath it.
pub open spec fn report_text(r: ReportView) -> Seq<char> {
    "segment "@ + r.name + seq![' '] + (if report_ok(r) {
        "OK"@
    } else {
        "BROKEN"@
    }) + " entries="@ + decimal(r.entries) + " seals="@ + decimal(r.seals) + " level="@ + r.level
        + " prev="@ + prev_text(r.prev) + (if r.signed_with.len() == 0 {
        " signed=none"@
    } else {
        " signed="@ + comma_joined(r.signed_with)
    }) + " head="@ + r.head + seq!['\n'] + indented(text_lines(finding_lines(r.findings)))
}

/// What is reported of every segment.
pub open spec fn reports_text(rs: Seq<ReportView>) -> Seq<char>
    decreases rs.len(),
{
    if rs.len() == 0 {
        Seq::empty()
    } else {
        reports_text(rs.drop_last()) + report_text(rs.last())
    }
}

/// The whole report: every segment, and a total.
pub open spec fn chain_report_text(rs: Seq<ReportView>) -> Seq<char> {
    reports_text(rs) + "verified "@ + decimal(rs.len()) + " segment(s), "@ + decimal(
        broken_count(rs),
    ) + " broken\n"@
}

/// Texts with a comma between each and the next.
fn join_commas(v: &Vec<String>) -> (out: String)
    ensures
        out@ == comma_joined(texts(v@)),
{
    let ghost t = texts(v@);
    let mut out = String::new();
    let mut i: usize = 0;
    assert(t.take(0) =~= Seq::empty());
    while i < v.len()
        invariant
            i <= v.len(),
            t == texts(v@),
            out@ == comma_joined(t.take(i as int)),
        decreases v.len() - i,
    {
        let ghost before = out@;
        if i > 0 {
            out.push(',');
        }
        out.append(&v[i]);
        proof {
            assert(t.take(i + 1).drop_last() =~= t.take(i as int));
            assert(t.take(i + 1).last() == t[i as int]);
            if i == 0 {
                assert(out@ =~= t[0]);
            } else {
                assert(out@ =~= before + seq![','] + t[i as int]);
            }
        }
        i = i + 1;
    }
    assert(t.take(i as int) =~= t);
    out
}

/// The lines of `s`, each with two blanks before it.
fn indent(s: &str) -> (out: String)
    ensures
        out@ == indented(text_lines(s@)),
{
    let ls = lines_of(&chars_of(s));
    let ghost all = text_lines(s@);
    let mut out = String::new();
    let mut i: usize = 0;
    assert(all.take(0) =~= Seq::empty());
    while i < ls.len()
        invariant
            i <= ls.len(),
            all == text_lines(s@),
            texts(ls@) == lines(s@),
            all.len() == ls.len(),
            out@ == indented(all.take(i as int)),
        decreases ls.len() - i,
    {
        let ghost before = out@;
        let line = unended_of(&ls[i]);
        out.append("  ");
        out.append(&line);
        out.push('\n');
        proof {
            assert(texts(ls@)[i as int] == ls@[i as int]@);
            assert(all[i as int] == line@);
            assert(all.take(i + 1).drop_last() =~= all.take(i as int));
            assert(all.take(i + 1).last() == line@);
            assert(out@ =~= before + "  "@ + line@ + seq!['\n']);
        }
        i = i + 1;
    }
    assert(all.take(i as int) =~= all);
    out
}

/// What is reported of one segment.
fn render_report(r: &SegmentReport) -> (out: String)
    ensures
        out@ == report_text(r@),
{
    let mut out = "segment ".to_owned();
    out.append(&r.name);
    out.push(' ');
    if r.ok() {
        out.append("OK");
    } else {
        out.append("BROKEN");
    }
    out.append(" entries=");
    out.append(&decimal_of(r.entries));
    out.append(" seals=");
    out.append(&decimal_of(r.seals as u64));
    out.append(" level=");
    out.append(&r.level);
    out.append(" prev=");
    match &r.prev {
        Prev::Genesis => {
            out.append("genesis");
        },
        Prev::Seal(hash) => {
            out.append(hash);
        },
    }
    let ghost head = out@;
    if r.signed_with.len() == 0 {
        out.append(" signed=none");
    } else {
        out.append(" signed=");
        out.append(&join_commas(&r.signed_with));
        assert(out@ =~= head + (" signed="@ + comma_joined(r@.signed_with)));
    }
    out.append(" head=");
    out.append(&r.head);
    out.push('\n');
    out.append(&indent(&r.render_findings()));
    assert(out@ =~= report_text(r@));
    out
}

impl ChainReport {
    /// Whether every segment verified.
    pub fn ok(&self) -> (r: bool)
        ensures
            r == forall|i: int| 0 <= i < self@.len() ==> report_ok(#[trigger] self@[i]),
    {
        let mut i: usize = 0;
        while i < self.segments.len()
            invariant
                i <= self.segments.len(),
                forall|j: int| 0 <= j < i ==> report_ok(#[trigger] self@[j]),
            decreases self.segments.len() - i,
        {
            assert(self@[i as int] == self.segments@[i as int]@);
            if !self.segments[i].ok() {
                return false;
            }
            i = i + 1;
        }
        true
    }

    /// How many segments carry a breaking finding.
    pub fn broken(&self) -> (n: usize)
        ensures
            n == broken_count(self@),
    {
        let ghost rs = self@;
        let mut n: usize = 0;
        let mut i: usize = 0;
        assert(rs.take(0) =~= Seq::empty());
        while i < self.segments.len()
            invariant
                i <= self.segments.len(),
                rs == self@,
                n <= i,
                n == broken_count(rs.take(i as int)),
            decreases self.segments.len() - i,
        {
            proof {
                assert(rs.take(i + 1).drop_last() =~= rs.take(i as int));
                assert(rs.take(i + 1).last() == self.segments@[i as int]@);
            }
            if !self.segments[i].ok() {
                n = n + 1;
            }
            i = i + 1;
        }
        assert(rs.take(i as int) =~= rs);
        n
    }

    /// The greppable report: one `segment <iri> OK|BROKEN …` line per segment,
    /// each finding indented beneath the segment it belongs to, and a total.
    ///
    /// Shaped for `grep`, like everything else in this crate: `grep '^segment'`
    /// is the summary and `grep BROKEN` is the alarm.
    pub fn render(&self) -> (out: String)
        ensures
            out@ == chain_report_text(self@),
    {
        let ghost rs = self@;
        let mut out = String::new();
        let mut i: usize = 0;
        assert(rs.take(0) =~= Seq::empty());
        while i < self.segments.len()
            invariant
                i <= self.segments.len(),
                rs == self@,
                out@ == reports_text(rs.take(i as int)),
            decreases self.segments.len() - i,
        {
            proof {
                assert(rs.take(i + 1).drop_last() =~= rs.take(i as int));
                assert(rs.take(i + 1).last() == self.segments@[i as int]@);
            }
            out.append(&render_report(&self.segments[i]));
            i = i + 1;
        }
        assert(rs.take(i as int) =~= rs);
        out.append("verified ");
        out.append(&decimal_of(self.segments.len() as u64));
        out.append(" segment(s), ");
        out.append(&decimal_of(self.broken() as u64));
        out.append(" broken\n");
        out
    }
}

/// A chain verified exactly when no segment of it is broken.
pub proof fn law_ok_none_broken(rs: Seq<ReportView>)
    ensures
        (forall|i: int| 0 <= i < rs.len() ==> report_ok(#[trigger] rs[i])) <==> broken_count(rs)
            == 0,
    decreases rs.len(),
{
    if rs.len() > 0 {
        let t = rs.drop_last();
        law_ok_none_broken(t);
        assert(forall|i: int| 0 <= i < t.len() ==> t[i] == #[trigger] rs[i]);
        assert(rs[rs.len() - 1] == rs.last());
        if broken_count(rs) == 0 {
            assert forall|i: int| 0 <= i < rs.len() implies report_ok(#[trigger] rs[i]) by {
                if i < t.len() {
                    assert(t[i] == rs[i]);
                }
            }
        }
    }
}

/// An unmarked end and an unsealed tail are noted and never called broken.
pub proof fn law_crash_is_not_broken(last_class: Option<Seq<char>>, from: nat, to: nat)
    ensures
        !breaks(FindingView::UnmarkedEnd { last_class }),
        !breaks(FindingView::UnsealedTail { from, to }),
{
}

} // verus!
