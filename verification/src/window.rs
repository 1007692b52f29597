//! Which entries of a segment to take in, and the walk that finds them.

use vstd::prelude::*;
use vstd::slice::slice_subrange;
use vstd::string::*;
use vstd::utf8::encode_scalar;

use crate::entry::{Entry, EntryView};
use crate::error::{parse_error_text, ParseError, ParseErrorView};
use crate::header::{Header, HeaderView};
use crate::line::{line_read, Line, LineView, Seal, SealView};
use crate::lineage::descends;
use crate::number::{decimal, decimal_of};
use crate::table::Prefixes;
use crate::text::{
    chars_of, comes_before, is_digit, joined, lines, lines_of, precedes, texts, unended, unended_of,
};
use crate::time::{time_text, Timestamp, TIMESTAMP_WIDTH, WIDE_FROM};
use crate::verify::{body_start, body_start_of, seq_of, stated_seq};
use crate::vocabulary::{Vocabulary, VocabularyView, PROCESS_START_CLASS};

verus! {

// =====================================================================================
// Errors
// =====================================================================================

/// Why a segment could not be turned into a graph.
#[derive(Debug)]
pub enum GraphError {
    /// A line (or the header) does not parse. The offending line is named, so a
    /// corrupt segment reports where it went wrong rather than "invalid".
    Parse {
        /// The 1-based line number in the segment.
        line: usize,
        /// What was wrong with it.
        error: ParseError,
    },
    /// An IRI the segment supplied is not one RDF will accept: a header `@name`, a
    /// subject column, or an entry class. The line grammar's idea of an IRI is
    /// deliberately looser than RDF's, so this is reachable and says which token
    /// failed.
    Iri(String),
    /// Serialization failed.
    Serialize(String),
}

/// A [`GraphError`], with its texts as characters.
#[verifier::ext_equal]
pub enum GraphErrorView {
    Parse { line: nat, error: ParseErrorView },
    Iri(Seq<char>),
    Serialize(Seq<char>),
}

impl View for GraphError {
    type V = GraphErrorView;

    open spec fn view(&self) -> GraphErrorView {
        match self {
            GraphError::Parse { line, error } => GraphErrorView::Parse {
                line: *line as nat,
                error: error@,
            },
            GraphError::Iri(s) => GraphErrorView::Iri(s@),
            GraphError::Serialize(s) => GraphErrorView::Serialize(s@),
        }
    }
}

/// What is said of an error.
pub open spec fn graph_error_text(e: GraphErrorView) -> Seq<char> {
    match e {
        GraphErrorView::Parse { line, error } => "line "@ + decimal(line) + ": "@
            + parse_error_text(error),
        GraphErrorView::Iri(token) => "not an RDF IRI: "@ + token,
        GraphErrorView::Serialize(message) => "serializing the graph: "@ + message,
    }
}

impl GraphError {
    /// What is wrong, in words.
    pub fn message(&self) -> (r: String)
        ensures
            r@ == graph_error_text(self@),
    {
        match self {
            GraphError::Parse { line, error } => {
                let mut r = joined("line ", &decimal_of(*line as u64));
                r.append(": ");
                r.append(&error.message());
                r
            },
            GraphError::Iri(token) => joined("not an RDF IRI: ", token),
            GraphError::Serialize(message) => joined("serializing the graph: ", message),
        }
    }
}

// =====================================================================================
// The range selector
// =====================================================================================

/// Which entries of a segment to include.
///
/// Building a graph takes time in proportion to the segment, and a day of `trace` is a
/// large segment, so the narrowing belongs before the graph is built rather than in a
/// filter over the whole of it. Bounds are inclusive on both ends.
///
/// The header always lands, whatever the window: a segment node with no level and no
/// start time would be a graph that cannot say what it is a window into.
#[derive(Clone, Copy, Debug, PartialEq, Eq)]
pub struct Options {
    /// Include entries at or after this instant.
    pub since: Option<Timestamp>,
    /// Include entries at or before this instant.
    pub until: Option<Timestamp>,
    /// Include entries with this sequence number or higher.
    pub from_seq: Option<u64>,
    /// Include entries with this sequence number or lower.
    pub to_seq: Option<u64>,
}

/// The window that takes in everything.
pub open spec fn whole() -> Options {
    Options { since: None, until: None, from_seq: None, to_seq: None }
}

impl Default for Options {
    fn default() -> (r: Options)
        ensures
            r == whole(),
    {
        Options { since: None, until: None, from_seq: None, to_seq: None }
    }
}

/// Whether a window takes in an entry written at `time` under the number `seq`.
pub open spec fn takes_in(o: Options, time: nat, seq: nat) -> bool {
    &&& o.since matches Some(since) ==> time >= since.0
    &&& o.until matches Some(until) ==> time <= until.0
    &&& o.from_seq matches Some(from) ==> seq >= from
    &&& o.to_seq matches Some(to) ==> seq <= to
}

impl Options {
    /// The whole segment.
    pub fn all() -> (r: Options)
        ensures
            r == whole(),
    {
        Options::default()
    }

    /// Whether the window admits everything.
    pub fn is_all(&self) -> (r: bool)
        ensures
            r == (*self == whole()),
    {
        self.since.is_none() && self.until.is_none() && self.from_seq.is_none()
            && self.to_seq.is_none()
    }

    /// Whether the window takes in an entry written at `time` under the number `seq`.
    pub fn admits(&self, time: Timestamp, seq: u64) -> (r: bool)
        ensures
            r == takes_in(*self, time.0 as nat, seq as nat),
    {
        let after = match self.since {
            Some(since) => time.0 >= since.0,
            None => true,
        };
        let before = match self.until {
            Some(until) => time.0 <= until.0,
            None => true,
        };
        let from = match self.from_seq {
            Some(from) => seq >= from,
            None => true,
        };
        let to = match self.to_seq {
            Some(to) => seq <= to,
            None => true,
        };
        after && before && from && to
    }
}

// =====================================================================================
// The leading column
// =====================================================================================

/// The characters that the first `n` bytes of `s` hold, where they hold whole ones.
pub open spec fn byte_prefix(s: Seq<char>, n: nat) -> Option<Seq<char>>
    decreases s.len(),
{
    if n == 0 {
        Some(Seq::empty())
    } else if s.len() == 0 {
        None
    } else {
        let w = encode_scalar(s[0] as u32).len();
        if w > n {
            None
        } else {
            match byte_prefix(s.drop_first(), (n - w) as nat) {
                Some(rest) => Some(seq![s[0]] + rest),
                None => None,
            }
        }
    }
}

fn utf8_width(c: char) -> (w: usize)
    ensures
        w == encode_scalar(c as u32).len(),
        1 <= w <= 4,
{
    let v = c as u32;
    if v <= 0x7f {
        1
    } else if v <= 0x7ff {
        2
    } else if v <= 0xffff {
        3
    } else {
        4
    }
}

/// How many characters the first `n` bytes of `s` hold, where they hold whole ones.
fn byte_prefix_len(s: &[char], n: usize) -> (r: Option<usize>)
    ensures
        match r {
            Some(k) => k <= s.len() && byte_prefix(s@, n as nat) == Some(s@.take(k as int)),
            None => byte_prefix(s@, n as nat) is None,
        },
{
    let mut i: usize = 0;
    let mut left: usize = n;
    proof {
        assert(s@.skip(0) =~= s@);
        if let Some(t) = byte_prefix(s@, n as nat) {
            assert(s@.take(0) + t =~= t);
        }
    }
    while left > 0 && i < s.len()
        invariant
            i <= s.len(),
            byte_prefix(s@, n as nat) == (match byte_prefix(s@.skip(i as int), left as nat) {
                Some(t) => Some(s@.take(i as int) + t),
                None => None,
            }),
        decreases s.len() - i,
    {
        let w = utf8_width(s[i]);
        let ghost rest = s@.skip(i as int);
        assert(rest[0] == s@[i as int]);
        assert(rest.drop_first() =~= s@.skip(i + 1));
        if w > left {
            return None;
        }
        proof {
            if let Some(t) = byte_prefix(s@.skip(i + 1), (left - w) as nat) {
                assert(s@.take(i as int) + (seq![rest[0]] + t) =~= s@.take(i + 1) + t);
            }
        }
        left = left - w;
        i = i + 1;
    }
    if left > 0 {
        return None;
    }
    assert(s@.take(i as int) + Seq::<char>::empty() =~= s@.take(i as int));
    Some(i)
}

/// Whether a line is an entry outside a time window, judged from its leading timestamp
/// column alone. Only what begins with a digit is judged, and only where it is long
/// enough to carry a timestamp, and only against a bound of the same width: a wider one
/// does not sort as text.
pub open spec fn out_of_window(line: Seq<char>, o: Options) -> bool {
    match byte_prefix(line, TIMESTAMP_WIDTH as nat) {
        None => false,
        Some(column) => column.len() > 0 && is_digit(column[0]) && (too_early(column, o)
            || too_late(column, o)),
    }
}

/// Whether a timestamp column sorts before the start of a window.
pub open spec fn too_early(column: Seq<char>, o: Options) -> bool {
    o.since matches Some(t) && t.0 < WIDE_FROM && precedes(column, time_text(t.0 as nat))
}

/// Whether a timestamp column sorts after the end of a window.
pub open spec fn too_late(column: Seq<char>, o: Options) -> bool {
    o.until matches Some(t) && t.0 < WIDE_FROM && precedes(time_text(t.0 as nat), column)
}

/// Whether a line is an entry outside `options`' time window, judged from its leading
/// timestamp column alone: no tokenizing.
///
/// The timestamp column is fixed-width UTC, so it sorts lexically, which is what makes
/// `grep '^2026-08-23T09:' segment.log` a legitimate query.
pub fn outside_window(line: &str, options: &Options) -> (r: bool)
    ensures
        r == out_of_window(line@, *options),
{
    if options.since.is_none() && options.until.is_none() {
        return false;
    }
    let c = chars_of(line);
    let n = match byte_prefix_len(&c, TIMESTAMP_WIDTH) {
        Some(n) => n,
        None => {
            return false;
        },
    };
    let column = slice_subrange(&c, 0, n);
    assert(column@ =~= c@.take(n as int));
    if column.len() == 0 || column[0] < '0' || column[0] > '9' {
        return false;
    }
    let early = match options.since {
        Some(since) => since.0 < WIDE_FROM && comes_before(column, &chars_of(&since.render())),
        None => false,
    };
    let late = match options.until {
        Some(until) => until.0 < WIDE_FROM && comes_before(&chars_of(&until.render()), column),
        None => false,
    };
    early || late
}

// =====================================================================================
// The walk
// =====================================================================================

/// One parsed entry, with the sequence number it is named by.
#[derive(Debug)]
pub struct Row {
    /// The number: the one the entry states, or its place in the segment.
    pub seq: u64,
    /// The entry.
    pub entry: Entry,
    /// The index of the process run this entry belongs to. Spans restart with the
    /// process, so a span join is scoped between `log:ProcessStart` markers.
    pub run: usize,
}

/// A [`Row`], with its texts as characters.
#[verifier::ext_equal]
pub struct RowView {
    pub seq: nat,
    pub entry: EntryView,
    pub run: nat,
}

impl View for Row {
    type V = RowView;

    open spec fn view(&self) -> RowView {
        RowView { seq: self.seq as nat, entry: self.entry@, run: self.run as nat }
    }
}

/// Rows, with their texts as characters.
pub open spec fn rows_view(v: Seq<Row>) -> Seq<RowView> {
    v.map_values(|r: Row| r@)
}

/// Seals, with their texts as characters.
pub open spec fn seals_view(v: Seq<Seal>) -> Seq<SealView> {
    v.map_values(|s: Seal| s@)
}

/// What walking the entry region has come to so far.
#[verifier::ext_equal]
pub struct WalkView {
    pub rows: Seq<RowView>,
    pub seals: Seq<SealView>,
    /// The run that the next entry belongs to.
    pub run: nat,
    /// How many entries have been counted, those outside the window with them.
    pub ordinal: nat,
}

/// Nothing walked yet.
pub open spec fn before_walk() -> WalkView {
    WalkView {
        rows: Seq::empty(),
        seals: Seq::empty(),
        run: 0,
        ordinal: 0,
    }
}

/// One more entry. It takes the number it states, or else its place; a process start opens
/// a run, and belongs to the run that it opens.
pub open spec fn with_row(w: WalkView, v: VocabularyView, e: EntryView) -> WalkView {
    let run = if descends(v, e.class, PROCESS_START_CLASS@) {
        w.run + 1
    } else {
        w.run
    };
    WalkView {
        rows: w.rows.push(
            RowView {
                seq: match stated_seq(e) {
                    Some(n) => n,
                    None => w.ordinal + 1,
                },
                entry: e,
                run,
            },
        ),
        run,
        ordinal: w.ordinal + 1,
        ..w
    }
}

/// One more line, the `number`th of the file.
pub open spec fn with_walked(
    w: WalkView,
    v: VocabularyView,
    prefixes: Seq<(Seq<char>, Seq<char>)>,
    o: Options,
    number: nat,
    raw: Seq<char>,
) -> Result<WalkView, GraphErrorView> {
    if out_of_window(unended(raw), o) {
        // The ordinal still advances, so an entry is named by the same IRI whether or not
        // a window was applied.
        Ok(WalkView { ordinal: w.ordinal + 1, ..w })
    } else {
        match line_read(raw, prefixes) {
            Err(error) => Err(GraphErrorView::Parse { line: number, error }),
            Ok(LineView::Entry(e)) => Ok(with_row(w, v, e)),
            Ok(LineView::Seal(s)) => Ok(WalkView { seals: w.seals.push(s), ..w }),
            Ok(LineView::Blank) => Ok(w),
            Ok(LineView::Comment(_)) => Ok(w),
            Ok(LineView::Directive { name, value: _ }) => Err(
                GraphErrorView::Parse {
                    line: number,
                    error: ParseErrorView::Header("@"@ + name + " after the header block"@),
                },
            ),
        }
    }
}

/// The lines `ls` of the entry region, which follow `skipped` header lines.
pub open spec fn walked(
    v: VocabularyView,
    prefixes: Seq<(Seq<char>, Seq<char>)>,
    o: Options,
    skipped: nat,
    ls: Seq<Seq<char>>,
) -> Result<WalkView, GraphErrorView>
    decreases ls.len(),
{
    if ls.len() == 0 {
        Ok(before_walk())
    } else {
        match walked(v, prefixes, o, skipped, ls.drop_last()) {
            Err(e) => Err(e),
            Ok(w) => with_walked(w, v, prefixes, o, skipped + ls.len(), ls.last()),
        }
    }
}

/// The entry region of a segment with the header `h`.
pub open spec fn walk(
    text: Seq<char>,
    h: HeaderView,
    v: VocabularyView,
    o: Options,
) -> Result<WalkView, GraphErrorView> {
    let all = lines(text);
    let skipped = body_start(all);
    walked(v, h.prefixes, o, skipped as nat, all.skip(skipped))
}

/// A walk through the entry region.
pub struct Walk {
    /// The entries, in order.
    pub rows: Vec<Row>,
    /// The seals, in order.
    pub seals: Vec<Seal>,
    /// The run that the next entry belongs to.
    pub run: usize,
    /// How many entries have been counted, those outside the window with them.
    pub ordinal: u64,
}

impl View for Walk {
    type V = WalkView;

    open spec fn view(&self) -> WalkView {
        WalkView {
            rows: rows_view(self.rows@),
            seals: seals_view(self.seals@),
            run: self.run as nat,
            ordinal: self.ordinal as nat,
        }
    }
}

/// What walking came to, with its texts as characters.
pub open spec fn walk_seen(r: Result<Walk, GraphError>) -> Result<WalkView, GraphErrorView> {
    match r {
        Ok(w) => Ok(w@),
        Err(e) => Err(e@),
    }
}

impl Walk {
    /// Take in one entry.
    fn row(&mut self, entry: Entry, vocab: &Vocabulary)
        requires
            old(self)@.ordinal < u64::MAX,
            old(self)@.run < usize::MAX,
        ensures
            final(self)@ == with_row(old(self)@, vocab@, entry@),
    {
        let ghost start = self@;
        if vocab.is_a(&entry.class, PROCESS_START_CLASS) {
            self.run = self.run + 1;
        }
        self.ordinal = self.ordinal + 1;
        let seq = match seq_of(&entry) {
            Some(n) => n,
            None => self.ordinal,
        };
        let ghost before = self.rows@;
        self.rows.push(Row { seq, entry, run: self.run });
        assert(self@.rows =~= with_row(start, vocab@, entry@).rows);
    }

    /// Take in one line, the `number`th of the file.
    fn line(
        &mut self,
        raw: &str,
        number: usize,
        prefixes: &Prefixes,
        vocab: &Vocabulary,
        options: &Options,
    ) -> (r: Result<(), GraphError>)
        requires
            old(self)@.ordinal < u64::MAX,
            old(self)@.run < usize::MAX,
        ensures
            match r {
                Ok(_) => with_walked(
                    old(self)@,
                    vocab@,
                    prefixes@,
                    *options,
                    number as nat,
                    raw@,
                ) == Ok::<_, GraphErrorView>(final(self)@) && final(self)@.ordinal
                    <= old(self)@.ordinal + 1 && final(self)@.run <= old(self)@.run + 1,
                Err(e) => with_walked(
                    old(self)@,
                    vocab@,
                    prefixes@,
                    *options,
                    number as nat,
                    raw@,
                ) == Err::<WalkView, _>(e@),
            },
    {
        if outside_window(&unended_of(raw), options) {
            self.ordinal = self.ordinal + 1;
            return Ok(());
        }
        match Line::parse(raw, prefixes) {
            Err(error) => Err(GraphError::Parse { line: number, error }),
            Ok(Line::Entry(entry)) => {
                self.row(entry, vocab);
                Ok(())
            },
            Ok(Line::Seal(seal)) => {
                let ghost before = self.seals@;
                self.seals.push(seal);
                assert(seals_view(self.seals@) =~= seals_view(before).push(seal@));
                Ok(())
            },
            Ok(Line::Blank) => Ok(()),
            Ok(Line::Comment(_)) => Ok(()),
            // The header ends at the first blank line, so this is a malformed segment.
            Ok(Line::Directive { name, value: _ }) => {
                let mut detail = joined("@", &name);
                detail.append(" after the header block");
                Err(GraphError::Parse { line: number, error: ParseError::Header(detail) })
            },
        }
    }
}

/// Walk the entry region, numbering entries and splitting them into process runs.
pub fn scan(text: &str, header: &Header, vocab: &Vocabulary, options: &Options) -> (r: Result<
    Walk,
    GraphError,
>)
    ensures
        walk_seen(r) == walk(text@, header@, vocab@, *options),
{
    let ls = lines_of(&chars_of(text));
    let ghost all = lines(text@);
    let skipped = body_start_of(&ls);
    let ghost body = all.skip(skipped as int);
    let mut w = Walk {
        rows: Vec::new(),
        seals: Vec::new(),
        run: 0,
        ordinal: 0,
    };
    let mut i: usize = skipped;
    proof {
        assert(body.take(0) =~= Seq::empty());
        assert(w@.rows =~= Seq::empty());
        assert(w@.seals =~= Seq::empty());
    }
    while i < ls.len()
        invariant
            skipped <= i <= ls.len(),
            all == texts(ls@),
            all == lines(text@),
            skipped == body_start(all),
            body == all.skip(skipped as int),
            walked(vocab@, header@.prefixes, *options, skipped as nat, body.take(i - skipped))
                == Ok::<_, GraphErrorView>(w@),
            w@.ordinal <= i,
            w@.run <= i,
        decreases ls.len() - i,
    {
        proof {
            let k = i - skipped;
            assert(body.take(k + 1).drop_last() =~= body.take(k));
            assert(body.take(k + 1).last() == ls@[i as int]@);
        }
        match w.line(&ls[i], i + 1, &header.prefixes, vocab, options) {
            Ok(_) => {},
            Err(e) => {
                proof {
                    lemma_walk_stops(
                        vocab@,
                        header@.prefixes,
                        *options,
                        skipped as nat,
                        body,
                        i - skipped + 1,
                    );
                }
                return Err(e);
            },
        }
        i = i + 1;
    }
    assert(body.take(i - skipped) =~= body);
    Ok(w)
}

/// A walk that cannot go on stays where it is.
proof fn lemma_walk_stops(
    v: VocabularyView,
    prefixes: Seq<(Seq<char>, Seq<char>)>,
    o: Options,
    skipped: nat,
    ls: Seq<Seq<char>>,
    k: int,
)
    requires
        0 <= k <= ls.len(),
        walked(v, prefixes, o, skipped, ls.take(k)) is Err,
    ensures
        walked(v, prefixes, o, skipped, ls) == walked(v, prefixes, o, skipped, ls.take(k)),
    decreases ls.len(),
{
    if k < ls.len() {
        assert(ls.drop_last().take(k) =~= ls.take(k));
        lemma_walk_stops(v, prefixes, o, skipped, ls.drop_last(), k);
    } else {
        assert(ls.take(k) =~= ls);
    }
}

} // verus!
