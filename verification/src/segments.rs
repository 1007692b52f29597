//! Which segments there are, which one an IRI names, and what is asked of them.
//!
//! Everything here decides over what was found in a directory: names, instances, paths
//! and texts. Reading the directory is somebody else's.

use std::sync::Arc;
use vstd::prelude::*;
use vstd::slice::slice_subrange;
use vstd::string::*;

use crate::config::{debug_of, debug_text, instance_of, unprefixed, INSTANCE_NS};
use crate::entry::pairs;
use crate::error::{parse_error_text, ParseErrorView};
use crate::finding::{chain_report_text, ChainReport, ReportView, SegmentReport};
use crate::graph::{graph_of, to_turtle, turtle_of, LOG_MEDIA_TYPE, TURTLE_MEDIA_TYPE};
use crate::header::{header_read, Header, HeaderView};
use crate::line::{line_read, Line, LineView};
use crate::lineage::descends;
use crate::number::{read_unsigned, unsigned_of};
use crate::table::{stored, Table};
use crate::text::{
    chars_of, comes_before, is_char, joined, lemma_past_last_where_is, lines, lines_of, maybe,
    past_last_where, precedes, same_text, text_of, texts, trim, trimmed,
};
use crate::time::{time_read, Timestamp};
use crate::verify::{
    body_start, body_start_of, chain_report, segment_texts, verified, verify_chain,
    verify_segment,
};
use crate::vocabulary::{Vocabulary, VocabularyView, PROCESS_STOP_CLASS, ROTATION_CLASS};
use crate::window::{whole, GraphError, Options};
use crate::writer::{file_name, segment_file, segment_name};

verus! {

/// The conversion of a segment into its graph.
pub const TRANSREPT_IRI: &'static str = "urn:log:transrept";

/// The segments this process can see.
pub const SEGMENTS_IRI: &'static str = "urn:log:segments";

/// The chain walk. Bound above [`SEGMENT_TEMPLATE`]: below it this resolves as a segment
/// named `verify`.
pub const VERIFY_IRI: &'static str = "urn:log:verify";

/// The segment space. A template matches everything under `urn:log:`, so it is bound
/// after every exact IRI.
pub const SEGMENT_TEMPLATE: &'static str = "urn:log:{segment}";

/// The suffix a segment file carries.
pub const SEGMENT_EXTENSION: &'static str = "log";

/// How much of a segment file the listing reads to find its `@name`. The header is a
/// handful of short lines; reading a day of `trace` to list it would make the listing cost
/// more than the query it exists to set up.
pub const HEADER_PROBE_BYTES: usize = 8192;

// =====================================================================================
// Arguments
// =====================================================================================

/// An argument that cannot be used.
#[derive(Debug, PartialEq, Eq)]
pub struct ArgumentError {
    /// The argument.
    pub name: String,
    /// What was wrong with it.
    pub detail: String,
}

/// An [`ArgumentError`], with its texts as characters.
#[verifier::ext_equal]
pub struct ArgumentErrorView {
    pub name: Seq<char>,
    pub detail: Seq<char>,
}

impl View for ArgumentError {
    type V = ArgumentErrorView;

    open spec fn view(&self) -> ArgumentErrorView {
        ArgumentErrorView { name: self.name@, detail: self.detail@ }
    }
}

/// An argument that may be missing, as characters.
pub open spec fn given(arg: Option<&str>) -> Option<Seq<char>> {
    match arg {
        Some(s) => Some(s@),
        None => None,
    }
}

/// An argument without the white space around it, missing where nothing is left.
pub open spec fn stated(arg: Option<Seq<char>>) -> Option<Seq<char>> {
    match arg {
        Some(s) => if trim(s).len() == 0 {
            None
        } else {
            Some(trim(s))
        },
        None => None,
    }
}

/// An argument without the white space around it, missing where nothing is left.
pub fn stated_argument(arg: Option<&str>) -> (r: Option<String>)
    ensures
        maybe(r) == stated(given(arg)),
{
    match arg {
        Some(s) => {
            let c = chars_of(s);
            let t = trimmed(&c);
            if t.len() == 0 {
                None
            } else {
                Some(text_of(t))
            }
        },
        None => None,
    }
}

/// The instant that an argument states.
pub open spec fn instant(name: Seq<char>, arg: Option<Seq<char>>) -> Result<
    Option<nat>,
    ArgumentErrorView,
> {
    match stated(arg) {
        None => Ok(None),
        Some(s) => match time_read(s) {
            Some(t) => Ok(Some(t)),
            None => Err(
                ArgumentErrorView {
                    name,
                    detail: parse_error_text(ParseErrorView::Timestamp(s)),
                },
            ),
        },
    }
}

/// The sequence number that an argument states.
pub open spec fn sequence(name: Seq<char>, arg: Option<Seq<char>>) -> Result<
    Option<nat>,
    ArgumentErrorView,
> {
    match stated(arg) {
        None => Ok(None),
        Some(s) => match read_unsigned(s, u64::MAX as nat) {
            Some(n) => Ok(Some(n)),
            None => Err(
                ArgumentErrorView {
                    name,
                    detail: "expected a sequence number, got "@ + debug_text(s),
                },
            ),
        },
    }
}

/// The window that arguments ask for, with its bounds as numbers.
#[verifier::ext_equal]
pub struct WindowView {
    pub since: Option<nat>,
    pub until: Option<nat>,
    pub from_seq: Option<nat>,
    pub to_seq: Option<nat>,
}

/// The window that arguments ask for, or the first of them that cannot be used.
pub open spec fn window_of(
    since: Option<Seq<char>>,
    until: Option<Seq<char>>,
    from_seq: Option<Seq<char>>,
    to_seq: Option<Seq<char>>,
) -> Result<WindowView, ArgumentErrorView> {
    match instant("since"@, since) {
        Err(e) => Err(e),
        Ok(since) => match instant("until"@, until) {
            Err(e) => Err(e),
            Ok(until) => match sequence("from_seq"@, from_seq) {
                Err(e) => Err(e),
                Ok(from_seq) => match sequence("to_seq"@, to_seq) {
                    Err(e) => Err(e),
                    Ok(to_seq) => Ok(WindowView { since, until, from_seq, to_seq }),
                },
            },
        },
    }
}

/// A window's bounds as numbers.
pub open spec fn bounds(o: Options) -> WindowView {
    WindowView {
        since: match o.since {
            Some(t) => Some(t.0 as nat),
            None => None,
        },
        until: match o.until {
            Some(t) => Some(t.0 as nat),
            None => None,
        },
        from_seq: match o.from_seq {
            Some(n) => Some(n as nat),
            None => None,
        },
        to_seq: match o.to_seq {
            Some(n) => Some(n as nat),
            None => None,
        },
    }
}

fn instant_argument(name: &str, arg: Option<&str>) -> (r: Result<
    Option<Timestamp>,
    ArgumentError,
>)
    ensures
        match r {
            Ok(t) => instant(name@, given(arg)) == Ok::<_, ArgumentErrorView>(
                match t {
                    Some(t) => Some(t.0 as nat),
                    None => None,
                },
            ),
            Err(e) => instant(name@, given(arg)) == Err::<Option<nat>, _>(e@),
        },
{
    match stated_argument(arg) {
        None => Ok(None),
        Some(s) => match Timestamp::parse(&s) {
            Ok(t) => Ok(Some(t)),
            Err(e) => Err(ArgumentError { name: name.to_owned(), detail: e.message() }),
        },
    }
}

fn sequence_argument(name: &str, arg: Option<&str>) -> (r: Result<Option<u64>, ArgumentError>)
    ensures
        match r {
            Ok(n) => sequence(name@, given(arg)) == Ok::<_, ArgumentErrorView>(
                match n {
                    Some(n) => Some(n as nat),
                    None => None,
                },
            ),
            Err(e) => sequence(name@, given(arg)) == Err::<Option<nat>, _>(e@),
        },
{
    match stated_argument(arg) {
        None => Ok(None),
        Some(s) => match unsigned_of(&chars_of(&s), u64::MAX) {
            Some(n) => Ok(Some(n)),
            None => Err(
                ArgumentError {
                    name: name.to_owned(),
                    detail: joined("expected a sequence number, got ", &debug_of(&s)),
                },
            ),
        },
    }
}

/// The window that arguments ask for.
pub fn window(
    since: Option<&str>,
    until: Option<&str>,
    from_seq: Option<&str>,
    to_seq: Option<&str>,
) -> (r: Result<Options, ArgumentError>)
    ensures
        match r {
            Ok(o) => window_of(given(since), given(until), given(from_seq), given(to_seq)) == Ok::<
                _,
                ArgumentErrorView,
            >(bounds(o)),
            Err(e) => window_of(given(since), given(until), given(from_seq), given(to_seq))
                == Err::<WindowView, _>(e@),
        },
{
    let since = match instant_argument("since", since) {
        Ok(t) => t,
        Err(e) => {
            return Err(e);
        },
    };
    let until = match instant_argument("until", until) {
        Ok(t) => t,
        Err(e) => {
            return Err(e);
        },
    };
    let from_seq = match sequence_argument("from_seq", from_seq) {
        Ok(n) => n,
        Err(e) => {
            return Err(e);
        },
    };
    let to_seq = match sequence_argument("to_seq", to_seq) {
        Ok(n) => n,
        Err(e) => {
            return Err(e);
        },
    };
    Ok(Options { since, until, from_seq, to_seq })
}

/// How a segment is served.
#[derive(Clone, Copy, Debug, PartialEq, Eq, Structural)]
pub enum Face {
    /// As its graph.
    Graph,
    /// As itself.
    Lines,
}

/// The face that an `as` argument asks for: the graph where it asks for none, which is
/// what makes a segment a graph source at its own IRI.
pub open spec fn face_of(arg: Option<Seq<char>>) -> Result<Face, ArgumentErrorView> {
    match stated(arg) {
        None => Ok(Face::Graph),
        Some(s) => if s == TURTLE_MEDIA_TYPE@ {
            Ok(Face::Graph)
        } else if s == LOG_MEDIA_TYPE@ {
            Ok(Face::Lines)
        } else {
            Err(
                ArgumentErrorView {
                    name: "as"@,
                    detail: "expected one of text/turtle|text/x-ikigai-log, got "@ + debug_text(s),
                },
            )
        },
    }
}

/// The face that an `as` argument asks for.
pub fn face(arg: Option<&str>) -> (r: Result<Face, ArgumentError>)
    ensures
        match r {
            Ok(f) => face_of(given(arg)) == Ok::<_, ArgumentErrorView>(f),
            Err(e) => face_of(given(arg)) == Err::<Face, _>(e@),
        },
{
    match stated_argument(arg) {
        None => Ok(Face::Graph),
        Some(s) => if same_text(&s, TURTLE_MEDIA_TYPE) {
            Ok(Face::Graph)
        } else if same_text(&s, LOG_MEDIA_TYPE) {
            Ok(Face::Lines)
        } else {
            Err(
                ArgumentError {
                    name: "as".to_owned(),
                    detail: joined(
                        "expected one of text/turtle|text/x-ikigai-log, got ",
                        &debug_of(&s),
                    ),
                },
            )
        },
    }
}

/// Why a segment could not be served.
#[derive(Debug)]
pub enum ServeError {
    /// An argument that cannot be used.
    Argument(ArgumentError),
    /// The segment could not be turned into a graph.
    Graph(GraphError),
}

/// What serving a segment under a face and a window gives.
pub open spec fn served(
    text: Seq<char>,
    v: VocabularyView,
    face: Face,
    o: Options,
    r: Result<String, ServeError>,
) -> bool {
    match face {
        Face::Graph => match graph_of(text, v, o) {
            Err(e) => r matches Err(ServeError::Graph(x)) && x@ == e,
            Ok(t) => match turtle_of(t) {
                Ok(s) => r matches Ok(out) && out@ == s,
                Err(e) => r matches Err(ServeError::Graph(x)) && x@ == e,
            },
        },
        // A window over the raw lines would hand back something that is not a segment.
        Face::Lines => if o == whole() {
            r matches Ok(out) && out@ == text
        } else {
            r matches Err(ServeError::Argument(x)) && x@ == (ArgumentErrorView {
                name: "since|until|from_seq|to_seq"@,
                detail:
                    "a window is only offered on the text/turtle face: a windowed segment file would no longer be a segment"@,
            })
        },
    }
}

/// A segment under a face and a window.
pub fn serve(text: &str, vocab: &Vocabulary, face: Face, options: &Options) -> (r: Result<
    String,
    ServeError,
>)
    ensures
        served(text@, vocab@, face, *options, r),
{
    match face {
        Face::Graph => match to_turtle(text, vocab, options) {
            Ok(s) => Ok(s),
            Err(e) => Err(ServeError::Graph(e)),
        },
        Face::Lines => if options.is_all() {
            Ok(text.to_owned())
        } else {
            Err(
                ServeError::Argument(
                    ArgumentError {
                        name: "since|until|from_seq|to_seq".to_owned(),
                        detail:
                            "a window is only offered on the text/turtle face: a windowed segment file would no longer be a segment".to_owned(),
                    },
                ),
            )
        },
    }
}

/// The conversion of piped segment bytes into Turtle.
///
/// Holds a vocabulary because the term table is data: a host that loaded a module's
/// `rdfs:subClassOf` extension converts that module's entry classes correctly.
#[derive(Debug)]
pub struct TransreptEndpoint {
    vocabulary: Arc<Vocabulary>,
}

impl View for TransreptEndpoint {
    type V = VocabularyView;

    closed spec fn view(&self) -> VocabularyView {
        (*self.vocabulary)@
    }
}

impl TransreptEndpoint {
    /// A conversion reading `vocabulary` as its term table.
    pub fn new(vocabulary: Arc<Vocabulary>) -> (r: TransreptEndpoint)
        ensures
            r@ == (*vocabulary)@,
    {
        TransreptEndpoint { vocabulary }
    }

    /// The graph of `text`, whole, where the `as` argument asks for nothing else.
    ///
    /// `as` is honored rather than ignored: a conversion that accepted `as=text/html` and
    /// returned Turtle would make whatever planned it silently wrong.
    pub fn transrept(&self, as_argument: Option<&str>, text: &str) -> (r: Result<
        String,
        ServeError,
    >)
        ensures
            match stated(given(as_argument)) {
                Some(s) => if s == TURTLE_MEDIA_TYPE@ {
                    served(text@, self@, Face::Graph, whole(), r)
                } else {
                    r matches Err(ServeError::Argument(x)) && x@ == (ArgumentErrorView {
                        name: "as"@,
                        detail: "this transreptor produces text/turtle, not "@ + debug_text(s),
                    })
                },
                None => served(text@, self@, Face::Graph, whole(), r),
            },
    {
        match stated_argument(as_argument) {
            Some(s) => {
                if !same_text(&s, TURTLE_MEDIA_TYPE) {
                    return Err(
                        ServeError::Argument(
                            ArgumentError {
                                name: "as".to_owned(),
                                detail: joined(
                                    "this transreptor produces text/turtle, not ",
                                    &debug_of(&s),
                                ),
                            },
                        ),
                    );
                }
            },
            None => {},
        }
        serve(text, &self.vocabulary, Face::Graph, &Options::all())
    }
}

// =====================================================================================
// Whether a segment is finished
// =====================================================================================

/// The class of the last entry among the lines `ls`.
pub open spec fn last_entry_class(
    ls: Seq<Seq<char>>,
    prefixes: Seq<(Seq<char>, Seq<char>)>,
) -> Option<Seq<char>>
    decreases ls.len(),
{
    if ls.len() == 0 {
        None
    } else {
        match line_read(ls.last(), prefixes) {
            Ok(LineView::Entry(e)) => Some(e.class),
            _ => last_entry_class(ls.drop_last(), prefixes),
        }
    }
}

/// Whether the last entry of a segment ends it for good: a process stop or a rotation, or
/// a class that descends from one.
pub open spec fn ended(text: Seq<char>, v: VocabularyView) -> bool {
    match header_read(text) {
        Err(_) => false,
        Ok((h, _)) => match last_entry_class(
            lines(text).skip(body_start(lines(text))),
            h.prefixes,
        ) {
            Some(class) => descends(v, class, PROCESS_STOP_CLASS@) || descends(
                v,
                class,
                ROTATION_CLASS@,
            ),
            None => false,
        },
    }
}

/// Whether the last entry in `text` ends the segment for good.
///
/// There are two end markers, and forgetting the second one is the expensive mistake: a
/// long-running daemon writes one stop marker in its life and a rotation every day.
///
/// The last entry, not "contains one": a marker is followed by a `#seal` line and nothing
/// else, so a segment whose last entry is anything else still has a live tail.
pub fn ends_finally(text: &str, vocab: &Vocabulary) -> (r: bool)
    ensures
        r == ended(text@, vocab@),
{
    let header = match Header::parse(text) {
        Ok((header, _)) => header,
        Err(_) => {
            return false;
        },
    };
    let ls = lines_of(&chars_of(text));
    let ghost all = lines(text@);
    let skipped = body_start_of(&ls);
    let ghost body = all.skip(skipped as int);
    let mut last: Option<String> = None;
    let mut i: usize = skipped;
    assert(body.take(0) =~= Seq::empty());
    while i < ls.len()
        invariant
            skipped <= i <= ls.len(),
            all == texts(ls@),
            body == all.skip(skipped as int),
            maybe(last) == last_entry_class(body.take(i - skipped), header@.prefixes),
        decreases ls.len() - i,
    {
        proof {
            let k = i - skipped;
            assert(body.take(k + 1).drop_last() =~= body.take(k));
            assert(body.take(k + 1).last() == ls@[i as int]@);
        }
        if let Ok(Line::Entry(entry)) = Line::parse(&ls[i], &header.prefixes) {
            last = Some(entry.class);
        }
        i = i + 1;
    }
    assert(body.take(i - skipped) =~= body);
    match last {
        Some(class) => vocab.is_a(&class, PROCESS_STOP_CLASS) || vocab.is_a(&class, ROTATION_CLASS),
        None => false,
    }
}

/// Whether nothing will ever be appended to a segment again, where `open` is the segment
/// that this process writes.
///
/// Its own open segment is live whatever its bytes currently say. Otherwise the end marker
/// decides: a segment that ends without one ended because the process died, which is
/// indistinguishable from one still running, so it stays live rather than being guessed
/// finished.
pub fn is_finished(iri: &str, open: Option<&str>, text: &str, vocab: &Vocabulary) -> (r: bool)
    ensures
        r == (given(open) != Some(iri@) && ended(text@, vocab@)),
{
    let live = match open {
        Some(open) => same_text(open, iri),
        None => false,
    };
    !live && ends_finally(text, vocab)
}

// =====================================================================================
// What was found
// =====================================================================================

/// The header of a segment file, from the text at its head. A file shorter than the probe
/// has no blank line to end the header on, so it gets one.
pub open spec fn probed(head: Seq<char>) -> Option<HeaderView> {
    match header_read(head + seq!['\n', '\n']) {
        Ok((h, _)) => Some(h),
        Err(_) => None,
    }
}

/// The header of a segment file, from the text at its head.
pub fn probe(head: &str) -> (r: Option<Header>)
    ensures
        match r {
            Some(h) => probed(head@) == Some(h@),
            None => probed(head@) is None,
        },
{
    let mut owned = head.to_owned();
    owned.push('\n');
    owned.push('\n');
    assert(owned@ =~= head@ + seq!['\n', '\n']);
    match Header::parse(&owned) {
        Ok((header, _)) => Some(header),
        Err(_) => None,
    }
}

/// `s` with `v` under `k`, after everything that does not come after it.
pub open spec fn placed<T>(s: Seq<(Seq<char>, T)>, k: Seq<char>, v: T) -> Seq<(Seq<char>, T)>
    decreases s.len(),
{
    if s.len() == 0 {
        seq![(k, v)]
    } else if precedes(k, s.last().0) {
        placed(s.drop_last(), k, v).push(s.last())
    } else {
        s.push((k, v))
    }
}

/// Pairs in the order of what they are found under, those found under the same in the
/// order they came in.
pub open spec fn in_name_order<T>(s: Seq<(Seq<char>, T)>) -> Seq<(Seq<char>, T)>
    decreases s.len(),
{
    if s.len() == 0 {
        Seq::empty()
    } else {
        placed(in_name_order(s.drop_last()), s.last().0, s.last().1)
    }
}

/// Where `k` goes among `s`: after everything that does not come after it.
fn place_of(s: &Vec<(String, String)>, k: &str) -> (n: usize)
    requires
        s.len() < usize::MAX,
    ensures
        n <= s.len(),
        forall|v: Seq<char>| #[trigger]
            placed(pairs(s@), k@, v) == pairs(s@).insert(n as int, (k@, v)),
{
    let c = chars_of(k);
    let ghost all = pairs(s@);
    let mut n: usize = s.len();
    proof {
        assert(all.take(n as int) =~= all);
        assert(all.skip(n as int) =~= Seq::empty());
        assert forall|v: Seq<char>| #[trigger] placed(all, k@, v) == placed(
            all.take(n as int),
            k@,
            v,
        ) + all.skip(n as int) by {
            assert(placed(all, k@, v) + Seq::<(Seq<char>, Seq<char>)>::empty() =~= placed(
                all,
                k@,
                v,
            ));
        }
    }
    while n > 0
        invariant
            n <= s.len(),
            all == pairs(s@),
            c@ == k@,
            forall|v: Seq<char>| #[trigger]
                placed(all, k@, v) == placed(all.take(n as int), k@, v) + all.skip(n as int),
        decreases n,
    {
        let ghost top = all.take(n as int);
        assert(top.last() == all[n - 1]);
        assert(top.drop_last() =~= all.take(n - 1));
        if !comes_before(&c, &chars_of(&s[n - 1].0)) {
            proof {
                assert forall|v: Seq<char>| #[trigger] placed(all, k@, v) == all.insert(
                    n as int,
                    (k@, v),
                ) by {
                    assert(placed(top, k@, v) == top.push((k@, v)));
                    assert(top.push((k@, v)) + all.skip(n as int) =~= all.insert(
                        n as int,
                        (k@, v),
                    ));
                }
            }
            return n;
        }
        proof {
            assert forall|v: Seq<char>| #[trigger] placed(all, k@, v) == placed(
                all.take(n - 1),
                k@,
                v,
            ) + all.skip(n - 1) by {
                assert(placed(top, k@, v) == placed(all.take(n - 1), k@, v).push(all[n - 1]));
                assert(placed(all.take(n - 1), k@, v).push(all[n - 1]) + all.skip(n as int)
                    =~= placed(all.take(n - 1), k@, v) + all.skip(n - 1));
            }
        }
        n = n - 1;
    }
    proof {
        assert(all.take(0) =~= Seq::empty());
        assert forall|v: Seq<char>| #[trigger] placed(all, k@, v) == all.insert(0, (k@, v)) by {
            assert(placed(all.take(0), k@, v) == seq![(k@, v)]);
            assert(seq![(k@, v)] + all.skip(0) =~= all.insert(0, (k@, v)));
        }
    }
    0
}

/// Add a pair where it goes.
fn place(s: &mut Vec<(String, String)>, k: String, v: String)
    requires
        old(s).len() < usize::MAX,
    ensures
        pairs(final(s)@) == placed(pairs(old(s)@), k@, v@),
        final(s).len() == old(s).len() + 1,
{
    let ghost before = s@;
    let n = place_of(s, &k);
    assert(placed(pairs(before), k@, v@) == pairs(before).insert(n as int, (k@, v@)));
    s.insert(n, (k, v));
    assert(pairs(s@) =~= pairs(before).insert(n as int, (k@, v@)));
}

/// Pairs in the order of their names, those of the same name in the order they came in.
pub fn sorted_by_name(found: &Vec<(String, String)>) -> (r: Vec<(String, String)>)
    ensures
        pairs(r@) == in_name_order(pairs(found@)),
{
    let ghost all = pairs(found@);
    let mut r: Vec<(String, String)> = Vec::new();
    let mut i: usize = 0;
    proof {
        assert(all.take(0) =~= Seq::empty());
        assert(pairs(r@) =~= Seq::empty());
    }
    while i < found.len()
        invariant
            i <= found.len(),
            all == pairs(found@),
            r.len() == i,
            pairs(r@) == in_name_order(all.take(i as int)),
        decreases found.len() - i,
    {
        proof {
            assert(all.take(i + 1).drop_last() =~= all.take(i as int));
            assert(all.take(i + 1).last() == all[i as int]);
        }
        place(&mut r, found[i].0.clone(), found[i].1.clone());
        i = i + 1;
    }
    assert(all.take(i as int) =~= all);
    r
}

/// Names, one to a line, each ended. Newline-separated is how a list is mapped over, and a
/// newline at the end is what makes that iterate cleanly.
pub open spec fn listing_text(s: Seq<(Seq<char>, Seq<char>)>) -> Seq<char>
    decreases s.len(),
{
    if s.len() == 0 {
        Seq::empty()
    } else {
        listing_text(s.drop_last()) + s.last().0 + seq!['\n']
    }
}

/// The names of the segments that were found, in order, one to a line.
pub fn listing(found: &Vec<(String, String)>) -> (r: String)
    ensures
        r@ == listing_text(in_name_order(pairs(found@))),
{
    let sorted = sorted_by_name(found);
    let ghost all = pairs(sorted@);
    let mut r = String::new();
    let mut i: usize = 0;
    assert(all.take(0) =~= Seq::empty());
    while i < sorted.len()
        invariant
            i <= sorted.len(),
            all == pairs(sorted@),
            r@ == listing_text(all.take(i as int)),
        decreases sorted.len() - i,
    {
        proof {
            assert(all.take(i + 1).drop_last() =~= all.take(i as int));
            assert(all.take(i + 1).last() == all[i as int]);
        }
        let ghost before = r@;
        r.append(&sorted[i].0);
        r.push('\n');
        assert(r@ =~= before + all[i as int].0 + seq!['\n']);
        i = i + 1;
    }
    assert(all.take(i as int) =~= all);
    r
}

/// A segment file.
#[derive(Debug, PartialEq, Eq)]
pub struct Found {
    /// The segment's IRI, as its header has it.
    pub name: String,
    /// The instance that wrote it.
    pub instance: String,
    /// Where the file is.
    pub path: String,
}

/// A [`Found`], with its texts as characters.
#[verifier::ext_equal]
pub struct FoundView {
    pub name: Seq<char>,
    pub instance: Seq<char>,
    pub path: Seq<char>,
}

impl View for Found {
    type V = FoundView;

    open spec fn view(&self) -> FoundView {
        FoundView { name: self.name@, instance: self.instance@, path: self.path@ }
    }
}

/// Whether one segment file comes before another: by its name, and where they share one,
/// by its path.
pub open spec fn earlier(a: FoundView, b: FoundView) -> bool {
    precedes(a.name, b.name) || (a.name == b.name && precedes(a.path, b.path))
}

fn is_earlier(a: &Found, b: &Found) -> (r: bool)
    ensures
        r == earlier(a@, b@),
{
    comes_before(&chars_of(&a.name), &chars_of(&b.name)) || (same_text(&a.name, &b.name)
        && comes_before(&chars_of(&a.path), &chars_of(&b.path)))
}

/// Whether a segment file is one of `instance` from before `limit`, where there is one.
pub open spec fn eligible(f: FoundView, instance: Seq<char>, limit: Option<Seq<char>>) -> bool {
    f.instance == instance && (limit matches Some(l) ==> precedes(f.name, l))
}

fn latest(found: &Vec<Found>, instance: &str, limit: Option<&str>) -> (r: Option<usize>)
    ensures
        match r {
            Some(i) => i < found.len() && eligible(found[i as int]@, instance@, given(limit))
                && forall|j: int|
                0 <= j < found.len() && eligible((#[trigger] found[j])@, instance@, given(limit))
                    ==> !earlier(found[i as int]@, found[j]@),
            None => forall|j: int|
                0 <= j < found.len() ==> !eligible(
                    (#[trigger] found[j])@,
                    instance@,
                    given(limit),
                ),
        },
{
    let mut best: Option<usize> = None;
    let mut i: usize = 0;
    while i < found.len()
        invariant
            i <= found.len(),
            match best {
                Some(b) => b < i && eligible(found[b as int]@, instance@, given(limit)) && forall|
                    j: int,
                |
                    0 <= j < i && eligible((#[trigger] found[j])@, instance@, given(limit))
                        ==> !earlier(found[b as int]@, found[j]@),
                None => forall|j: int|
                    0 <= j < i ==> !eligible((#[trigger] found[j])@, instance@, given(limit)),
            },
        decreases found.len() - i,
    {
        let in_time = match limit {
            Some(l) => comes_before(&chars_of(&found[i].name), &chars_of(l)),
            None => true,
        };
        if in_time && same_text(&found[i].instance, instance) {
            match best {
                Some(b) => {
                    if is_earlier(&found[b], &found[i]) {
                        proof {
                            assert forall|j: int|
                                0 <= j < i + 1 && eligible(
                                    (#[trigger] found[j])@,
                                    instance@,
                                    given(limit),
                                ) implies !earlier(found[i as int]@, found[j]@) by {
                                lemma_earlier_order(
                                    found[b as int]@,
                                    found[i as int]@,
                                    found[j]@,
                                );
                                lemma_earlier_order(
                                    found[i as int]@,
                                    found[i as int]@,
                                    found[i as int]@,
                                );
                            }
                        }
                        best = Some(i);
                    }
                },
                None => {
                    proof {
                        lemma_earlier_order(
                            found[i as int]@,
                            found[i as int]@,
                            found[i as int]@,
                        );
                    }
                    best = Some(i);
                },
            }
        }
        i = i + 1;
    }
    best
}

/// The order of segment files is one: nothing comes before itself, and what comes before
/// comes before what follows.
pub proof fn lemma_earlier_order(a: FoundView, b: FoundView, c: FoundView)
    ensures
        !earlier(a, a),
        earlier(a, b) && earlier(b, c) ==> earlier(a, c),
{
    crate::text::lemma_precedes_total(a.name, a.name);
    crate::text::lemma_precedes_total(a.path, a.path);
    if precedes(a.name, b.name) && precedes(b.name, c.name) {
        crate::text::lemma_precedes_transitive(a.name, b.name, c.name);
    }
    if precedes(a.path, b.path) && precedes(b.path, c.path) {
        crate::text::lemma_precedes_transitive(a.path, b.path, c.path);
    }
}

/// Whether the file at place `r` is the last of those that are eligible, or there is none.
pub open spec fn is_latest(
    found: Seq<Found>,
    instance: Seq<char>,
    limit: Option<Seq<char>>,
    r: Option<usize>,
) -> bool {
    match r {
        Some(i) => i < found.len() && eligible(found[i as int]@, instance, limit) && forall|j: int|
            0 <= j < found.len() && eligible((#[trigger] found[j])@, instance, limit) ==> !earlier(
                found[i as int]@,
                found[j]@,
            ),
        None => forall|j: int|
            0 <= j < found.len() ==> !eligible((#[trigger] found[j])@, instance, limit),
    }
}

/// The newest segment that `instance` wrote: the one whose IRI comes last, which is the
/// order of time within an instance, since the IRI ends in a fixed-width UTC stamp.
pub fn newest_for_instance(found: &Vec<Found>, instance: &str) -> (r: Option<usize>)
    ensures
        is_latest(found@, instance@, None, r),
{
    latest(found, instance, None)
}

/// The segment that `instance` wrote before `segment`: what a rotation checks its newly
/// sealed segment against.
pub fn predecessor_of(found: &Vec<Found>, instance: &str, segment: &str) -> (r: Option<usize>)
    ensures
        is_latest(found@, instance@, Some(segment@), r),
{
    latest(found, instance, Some(segment))
}

/// The file that the writer would have named a segment's by, from the tail of its IRI.
pub open spec fn candidate(tail: Seq<char>) -> Option<Seq<char>> {
    let n = past_last_where(tail, is_char(':'));
    if n > 0 {
        Some(file_name(tail.take(n - 1), tail.skip(n)))
    } else {
        None
    }
}

/// The file that the writer would have named a segment's by, from the tail of its IRI,
/// `{instance}:{stamp}`. The `@name` in a file is the authority, and the file name is a
/// convenience.
pub fn candidate_file(tail: &str) -> (r: Option<String>)
    ensures
        maybe(r) == candidate(tail@),
{
    let c = chars_of(tail);
    let mut n: usize = c.len();
    while n > 0 && c[n - 1] != ':'
        invariant
            n <= c.len(),
            forall|i: int| n <= i < c.len() ==> !is_char(':')(#[trigger] c[i]),
        decreases n,
    {
        n = n - 1;
    }
    proof {
        lemma_past_last_where_is(c@, is_char(':'), n as int);
    }
    if n == 0 {
        return None;
    }
    let instance = text_of(slice_subrange(&c, 0, n - 1));
    let stamp = text_of(slice_subrange(&c, n, c.len()));
    assert(instance@ =~= c@.take(n - 1));
    assert(stamp@ =~= c@.skip(n as int));
    Some(segment_file(&instance, &stamp))
}

/// The IRI of a segment leads back to its file, where its stamp has no colon.
pub proof fn law_iri_names_its_file(name: Seq<char>, stamp: Seq<char>)
    requires
        !crate::text::starts_with(name, INSTANCE_NS@),
        !stamp.contains(':'),
    ensures
        candidate(segment_name(instance_of(name), stamp).skip(8)) == Some(file_name(name, stamp)),
{
    let instance = instance_of(name);
    let tail = name + seq![':'] + stamp;
    let bare = INSTANCE_NS@ + name;
    assert(bare.take(INSTANCE_NS@.len() as int) =~= INSTANCE_NS@);
    assert(bare.skip(INSTANCE_NS@.len() as int) =~= name);
    assert(unprefixed(instance, INSTANCE_NS@) == name);
    reveal_strlit("urn:log:");
    assert(segment_name(instance, stamp).skip(8) =~= tail);
    let n = name.len() as int + 1;
    assert(tail[n - 1] == ':');
    assert forall|i: int| n <= i < tail.len() implies !is_char(':')(#[trigger] tail[i]) by {
        assert(tail[i] == stamp[i - n]);
        assert(stamp.contains(stamp[i - n]));
    }
    lemma_past_last_where_is(tail, is_char(':'), n);
    assert(tail.take(n - 1) =~= name);
    assert(tail.skip(n) =~= stamp);
}

// =====================================================================================
// Chains
// =====================================================================================

/// A segment that was read.
#[derive(Debug, PartialEq, Eq)]
pub struct ReadSegment {
    /// The instance that wrote it.
    pub instance: String,
    /// Its IRI.
    pub name: String,
    /// Its bytes.
    pub text: String,
}

/// A [`ReadSegment`], with its texts as characters.
#[verifier::ext_equal]
pub struct ReadView {
    pub instance: Seq<char>,
    pub name: Seq<char>,
    pub text: Seq<char>,
}

impl View for ReadSegment {
    type V = ReadView;

    open spec fn view(&self) -> ReadView {
        ReadView { instance: self.instance@, name: self.name@, text: self.text@ }
    }
}

/// Segments, with their texts as characters.
pub open spec fn reads_view(v: Seq<ReadSegment>) -> Seq<ReadView> {
    v.map_values(|r: ReadSegment| r@)
}

/// The instances that segments are from, each once, in order.
pub open spec fn instances(s: Seq<ReadView>) -> Seq<(Seq<char>, bool)>
    decreases s.len(),
{
    if s.len() == 0 {
        Seq::empty()
    } else {
        stored(instances(s.drop_last()), s.last().instance, true)
    }
}

/// The names and texts of the segments that are from `instance`.
pub open spec fn from_instance(s: Seq<ReadView>, instance: Seq<char>) -> Seq<
    (Seq<char>, Seq<char>),
>
    decreases s.len(),
{
    if s.len() == 0 {
        Seq::empty()
    } else {
        let before = from_instance(s.drop_last(), instance);
        if s.last().instance == instance {
            before.push((s.last().name, s.last().text))
        } else {
            before
        }
    }
}

/// The chain of an instance, oldest segment first.
pub open spec fn chain_of(s: Seq<ReadView>, instance: Seq<char>) -> Seq<(Seq<char>, Seq<char>)> {
    in_name_order(from_instance(s, instance))
}

/// Every chain, one for each instance, because the instance is the attribution key: a
/// machine's log directory holds as many chains as it has instances.
pub open spec fn chains_of(s: Seq<ReadView>) -> Seq<(Seq<char>, Seq<(Seq<char>, Seq<char>)>)> {
    instances(s).map_values(|i: (Seq<char>, bool)| (i.0, chain_of(s, i.0)))
}

fn instances_of(read: &Vec<ReadSegment>) -> (r: Table<bool>)
    ensures
        r@ == instances(reads_view(read@)),
{
    let ghost all = reads_view(read@);
    let mut r: Table<bool> = Table::new();
    let mut i: usize = 0;
    assert(all.take(0) =~= Seq::empty());
    while i < read.len()
        invariant
            i <= read.len(),
            all == reads_view(read@),
            r@ == instances(all.take(i as int)),
        decreases read.len() - i,
    {
        proof {
            assert(all.take(i + 1).drop_last() =~= all.take(i as int));
            assert(all.take(i + 1).last() == read@[i as int]@);
        }
        r.insert(read[i].instance.clone(), true);
        i = i + 1;
    }
    assert(all.take(i as int) =~= all);
    r
}

fn chain_in(read: &Vec<ReadSegment>, instance: &str) -> (r: Vec<(String, String)>)
    ensures
        pairs(r@) == chain_of(reads_view(read@), instance@),
{
    let ghost all = reads_view(read@);
    let mut r: Vec<(String, String)> = Vec::new();
    let mut i: usize = 0;
    proof {
        assert(all.take(0) =~= Seq::empty());
        assert(pairs(r@) =~= Seq::empty());
    }
    while i < read.len()
        invariant
            i <= read.len(),
            all == reads_view(read@),
            pairs(r@) == from_instance(all.take(i as int), instance@),
        decreases read.len() - i,
    {
        proof {
            assert(all.take(i + 1).drop_last() =~= all.take(i as int));
            assert(all.take(i + 1).last() == read@[i as int]@);
        }
        if same_text(&read[i].instance, instance) {
            let ghost before = r@;
            r.push((read[i].name.clone(), read[i].text.clone()));
            assert(pairs(r@) =~= pairs(before).push((all[i as int].name, all[i as int].text)));
        }
        i = i + 1;
    }
    assert(all.take(i as int) =~= all);
    sorted_by_name(&r)
}

/// Whether a chain is one that was asked for: of that instance, and with that segment in
/// it.
pub open spec fn wanted(
    instance: Seq<char>,
    chain: Seq<(Seq<char>, Seq<char>)>,
    want_instance: Option<Seq<char>>,
    want_segment: Option<Seq<char>>,
) -> bool {
    &&& want_instance matches Some(i) ==> i == instance
    &&& want_segment matches Some(s) ==> exists|k: int|
        0 <= k < chain.len() && (#[trigger] chain[k]).0 == s
}

fn has_segment(chain: &Vec<(String, String)>, name: &str) -> (r: bool)
    ensures
        r == exists|k: int| 0 <= k < pairs(chain@).len() && (#[trigger] pairs(chain@)[k]).0 == name@,
{
    let ghost all = pairs(chain@);
    let mut i: usize = 0;
    while i < chain.len()
        invariant
            i <= chain.len(),
            all == pairs(chain@),
            forall|k: int| 0 <= k < i ==> (#[trigger] all[k]).0 != name@,
        decreases chain.len() - i,
    {
        if same_text(&chain[i].0, name) {
            assert(all[i as int].0 == name@);
            return true;
        }
        i = i + 1;
    }
    false
}

/// The reports on a chain.
pub open spec fn chain_reports(chain: Seq<(Seq<char>, Seq<char>)>, v: VocabularyView) -> Seq<
    ReportView,
> {
    let found = chain.map_values(|s: (Seq<char>, Seq<char>)| s.1);
    Seq::new(chain.len(), |i: int| chain_report(found, v, i))
}

/// Those of `chains` that were asked for.
pub open spec fn selected(
    chains: Seq<(Seq<char>, Seq<(Seq<char>, Seq<char>)>)>,
    want_instance: Option<Seq<char>>,
    want_segment: Option<Seq<char>>,
) -> Seq<(Seq<char>, Seq<(Seq<char>, Seq<char>)>)> {
    chains.filter(
        |c: (Seq<char>, Seq<(Seq<char>, Seq<char>)>)|
            wanted(c.0, c.1, want_instance, want_segment),
    )
}

/// The reports on chains, one after the other.
pub open spec fn reports_text(
    chains: Seq<(Seq<char>, Seq<(Seq<char>, Seq<char>)>)>,
    v: VocabularyView,
) -> Seq<char>
    decreases chains.len(),
{
    if chains.len() == 0 {
        Seq::empty()
    } else {
        reports_text(chains.drop_last(), v) + chain_report_text(
            chain_reports(chains.last().1, v),
        )
    }
}

fn is_wanted(
    instance: &str,
    chain: &Vec<(String, String)>,
    want_instance: Option<&str>,
    want_segment: Option<&str>,
) -> (r: bool)
    ensures
        r == wanted(instance@, pairs(chain@), given(want_instance), given(want_segment)),
{
    let here = match want_instance {
        Some(want) => same_text(want, instance),
        None => true,
    };
    let holds = match want_segment {
        Some(want) => has_segment(chain, want),
        None => true,
    };
    here && holds
}

/// The report on a chain.
fn report_on(chain: &Vec<(String, String)>, vocab: &Vocabulary) -> (r: String)
    ensures
        r@ == chain_report_text(chain_reports(pairs(chain@), vocab@)),
{
    let report = verify_chain(chain, vocab);
    proof {
        assert(segment_texts(chain@) =~= pairs(chain@).map_values(
            |p: (Seq<char>, Seq<char>)| p.1,
        ));
        assert(report@ =~= chain_reports(pairs(chain@), vocab@));
    }
    report.render()
}

/// One more chain is reported on where it is asked for.
proof fn lemma_selected_push(
    chains: Seq<(Seq<char>, Seq<(Seq<char>, Seq<char>)>)>,
    c: (Seq<char>, Seq<(Seq<char>, Seq<char>)>),
    v: VocabularyView,
    want_instance: Option<Seq<char>>,
    want_segment: Option<Seq<char>>,
)
    ensures
        selected(chains.push(c), want_instance, want_segment) == (if wanted(
            c.0,
            c.1,
            want_instance,
            want_segment,
        ) {
            selected(chains, want_instance, want_segment).push(c)
        } else {
            selected(chains, want_instance, want_segment)
        }),
        reports_text(selected(chains, want_instance, want_segment).push(c), v) == reports_text(
            selected(chains, want_instance, want_segment),
            v,
        ) + chain_report_text(chain_reports(c.1, v)),
{
    reveal(Seq::filter);
    assert(chains.push(c).drop_last() =~= chains);
    let kept = selected(chains, want_instance, want_segment);
    assert(kept.push(c).drop_last() =~= kept);
}

/// Walk every chain that was asked for and report what it shows; nothing where there is
/// none.
///
/// "Nothing to verify" and "verified nothing, all fine" are opposite facts, and a blank
/// report would read as the second.
pub fn verify_chains(
    read: &Vec<ReadSegment>,
    vocab: &Vocabulary,
    want_instance: Option<&str>,
    want_segment: Option<&str>,
) -> (r: Option<String>)
    ensures
        ({
            let chains = selected(
                chains_of(reads_view(read@)),
                given(want_instance),
                given(want_segment),
            );
            maybe(r) == (if chains.len() == 0 {
                None
            } else {
                Some(reports_text(chains, vocab@))
            })
        }),
{
    let ghost all = chains_of(reads_view(read@));
    let ghost want_i = given(want_instance);
    let ghost want_s = given(want_segment);
    let names = instances_of(read);
    let mut body = String::new();
    let mut any = false;
    let mut i: usize = 0;
    proof {
        reveal(Seq::filter);
        assert(all.take(0) =~= Seq::empty());
        assert(selected(all.take(0), want_i, want_s) =~= Seq::empty());
    }
    while i < names.len()
        invariant
            i <= names@.len(),
            names@ == instances(reads_view(read@)),
            all == chains_of(reads_view(read@)),
            want_i == given(want_instance),
            want_s == given(want_segment),
            body@ == reports_text(selected(all.take(i as int), want_i, want_s), vocab@),
            any == (selected(all.take(i as int), want_i, want_s).len() > 0),
        decreases names@.len() - i,
    {
        let (instance, _) = names.at(i);
        let chain = chain_in(read, instance);
        proof {
            assert(all[i as int] == (instance@, pairs(chain@)));
            lemma_selected_push(
                all.take(i as int),
                (instance@, pairs(chain@)),
                vocab@,
                want_i,
                want_s,
            );
            assert(all.take(i + 1) =~= all.take(i as int).push((instance@, pairs(chain@))));
        }
        if is_wanted(instance, &chain, want_instance, want_segment) {
            body.append(&report_on(&chain, vocab));
            any = true;
        }
        i = i + 1;
    }
    assert(all.take(i as int) =~= all);
    if any {
        Some(body)
    } else {
        None
    }
}

/// The report on a segment by itself: everything but its link, because bytes that arrive
/// over a wire have no predecessor to be checked against.
pub fn verify_alone(text: &str, vocab: &Vocabulary) -> (r: String)
    ensures
        r@ == chain_report_text(seq![verified(text@, vocab@, None)]),
{
    let mut segments: Vec<SegmentReport> = Vec::new();
    segments.push(verify_segment(text, vocab, None));
    let report = ChainReport { segments };
    assert(report@ =~= seq![verified(text@, vocab@, None)]);
    report.render()
}

} // verus!
