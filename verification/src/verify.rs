//! Verification: what a segment's bytes, and a run of segments, show about
//! themselves.
//!
//! A hash chain is **tamper-evident, not omission-evident**. It proves nothing
//! was altered; it cannot prove nothing was left out, and a level change is
//! legitimate, sanctioned omission. So verification also checks that every gap is
//! bracketed by an always-land marker.

use vstd::prelude::*;
use vstd::string::*;

use crate::chain::{chain_start, chain_step, split_signature, token_parts, Chain};
use crate::entry::{Entry, EntryView};
use crate::error::parse_error_text;
use crate::finding::{findings_view, ChainReport, Finding, FindingView, ReportView, SegmentReport};
use crate::header::{header_read, Header, HeaderView, Prev, PrevView};
use crate::line::{line_read, Line, LineView, Seal, SealView};
use crate::lineage::descends;
use crate::number::{read_unsigned, unsigned_of};
use crate::table::{lookup, Prefixes};
use crate::text::{
    chars_of, chomp, chomped, copy_maybe, has_text, joined, lines, lines_of, maybe, same_text,
    text_of, texts, trim, trimmed,
};
use crate::token::seen;
use crate::vocabulary::{
    KeyDefView, Vocabulary, VocabularyView, CONFIG_CHANGE_CLASS, LEVEL_CHANGE_CLASS,
    PROCESS_STOP_CLASS, ROTATION_CLASS,
};

verus! {

/// `log:successor`: the forward link a rotation marker writes.
pub const LOG_SUCCESSOR: &'static str = "https://ikigai-rs.dev/ns/log#successor";

// =====================================================================================
// The entry region
// =====================================================================================

/// How many of the lines `ls` the header block takes: those up to and with the first
/// blank one.
pub open spec fn body_start(ls: Seq<Seq<char>>) -> int
    decreases ls.len(),
{
    if ls.len() == 0 {
        0
    } else if trim(chomp(ls[0])).len() == 0 {
        1
    } else {
        1 + body_start(ls.drop_first())
    }
}

/// How many lines the header block takes.
pub fn body_start_of(ls: &Vec<String>) -> (n: usize)
    ensures
        n == body_start(texts(ls@)),
        n <= ls.len(),
{
    let ghost all = texts(ls@);
    let mut i: usize = 0;
    assert(all.skip(0) =~= all);
    while i < ls.len()
        invariant
            i <= ls.len(),
            all == texts(ls@),
            body_start(all) == i + body_start(all.skip(i as int)),
        decreases ls.len() - i,
    {
        assert(all.skip(i as int)[0] == ls@[i as int]@);
        assert(all.skip(i as int).drop_first() =~= all.skip(i + 1));
        if trimmed(chomped(&chars_of(&ls[i]))).len() == 0 {
            return i + 1;
        }
        i = i + 1;
    }
    assert(all.skip(i as int) =~= Seq::empty());
    i
}

// =====================================================================================
// One segment
// =====================================================================================

/// The first key that is bound to the property `property`.
pub open spec fn key_for(
    keys: Seq<(Seq<char>, KeyDefView)>,
    property: Seq<char>,
) -> Option<Seq<char>>
    decreases keys.len(),
{
    if keys.len() == 0 {
        None
    } else if keys[0].1.property == property {
        Some(keys[0].1.key)
    } else {
        key_for(keys.drop_first(), property)
    }
}

/// The first key that is bound to the property `property`.
///
/// By property, not by column name: a module that rebound the column is still
/// understood.
pub fn key_bound_to(vocab: &Vocabulary, property: &str) -> (r: Option<String>)
    ensures
        maybe(r) == key_for(vocab@.keys, property@),
{
    let keys = vocab.keys();
    let ghost all = vocab@.keys;
    let mut i: usize = 0;
    assert(all.skip(0) =~= all);
    while i < keys.len()
        invariant
            i <= keys.len(),
            all == vocab@.keys,
            keys.len() == all.len(),
            forall|j: int| 0 <= j < keys.len() ==> (#[trigger] keys[j])@ == all[j].1,
            key_for(all, property@) == key_for(all.skip(i as int), property@),
        decreases keys.len() - i,
    {
        assert(all.skip(i as int)[0] == all[i as int]);
        assert(all.skip(i as int).drop_first() =~= all.skip(i + 1));
        if same_text(&keys[i].property, property) {
            return Some(keys[i].key.clone());
        }
        i = i + 1;
    }
    assert(all.skip(i as int) =~= Seq::empty());
    None
}

/// Whether an entry is the always-land marker that brackets a level change: a level
/// change, or a config change that names the level.
pub open spec fn brackets(e: EntryView, v: VocabularyView) -> bool {
    descends(v, e.class, LEVEL_CHANGE_CLASS@) || (descends(v, e.class, CONFIG_CHANGE_CLASS@)
        && lookup(e.fields, "key"@) == Some("level"@))
}

/// The sequence number an entry states.
pub open spec fn stated_seq(e: EntryView) -> Option<nat> {
    match lookup(e.fields, "seq"@) {
        Some(s) => read_unsigned(s, u64::MAX as nat),
        None => None,
    }
}

/// The successor an entry names, where it is a rotation.
pub open spec fn named_successor(
    e: EntryView,
    v: VocabularyView,
    key: Option<Seq<char>>,
) -> Option<Seq<char>> {
    match key {
        Some(k) => if descends(v, e.class, ROTATION_CLASS@) {
            lookup(e.fields, k)
        } else {
            None
        },
        None => None,
    }
}

/// What reading a segment has come to so far.
#[verifier::ext_equal]
pub struct ProgressView {
    /// The chain after the last entry.
    pub chain: Seq<char>,
    /// The hash on the last seal, or the header's.
    pub head: Seq<char>,
    pub entries: nat,
    pub seals: nat,
    pub signed_with: Seq<Seq<char>>,
    pub last_seq: Option<nat>,
    pub sealed_through: nat,
    pub last_class: Option<Seq<char>>,
    pub records_level_change: bool,
    pub successor: Option<Seq<char>>,
    pub findings: Seq<FindingView>,
}

/// Nothing read yet.
pub open spec fn at_start(h: HeaderView) -> ProgressView {
    ProgressView {
        chain: chain_start(h),
        head: chain_start(h),
        entries: 0,
        seals: 0,
        signed_with: Seq::empty(),
        last_seq: None,
        sealed_through: 0,
        last_class: None,
        records_level_change: false,
        successor: None,
        findings: Seq::empty(),
    }
}

/// What is found where an entry states `seq` after one that stated `last`.
pub open spec fn sequence_findings(last: Option<nat>, seq: Option<nat>) -> Seq<FindingView> {
    match (last, seq) {
        (Some(after), Some(next)) => if next != after + 1 {
            seq![FindingView::SequenceGap { after, next }]
        } else {
            Seq::empty()
        },
        _ => Seq::empty(),
    }
}

/// One more entry. The chain folds in the line exactly as written, not a re-render of
/// the parsed entry, so whitespace and quoting tampering is caught too.
pub open spec fn after_entry(
    p: ProgressView,
    v: VocabularyView,
    successor_key: Option<Seq<char>>,
    raw: Seq<char>,
    e: EntryView,
) -> ProgressView {
    ProgressView {
        chain: chain_step(p.chain, chomp(raw)),
        entries: p.entries + 1,
        last_seq: if stated_seq(e) is Some {
            stated_seq(e)
        } else {
            p.last_seq
        },
        last_class: Some(e.class),
        records_level_change: p.records_level_change || brackets(e, v),
        successor: named_successor(e, v, successor_key),
        findings: p.findings + sequence_findings(p.last_seq, stated_seq(e)),
        ..p
    }
}

/// What is found where a seal follows `p`: whether its range follows the one before
/// it, and whether its hash is the chain's.
pub open spec fn seal_findings(p: ProgressView, s: SealView) -> Seq<FindingView> {
    (if s.first != p.sealed_through + 1 {
        seq![FindingView::SealRangeGap { after: p.sealed_through, next_first: s.first }]
    } else {
        Seq::empty()
    }) + (if s.hash != p.chain {
        seq![
            FindingView::SealMismatch {
                first: s.first,
                last: s.last,
                stated: s.hash,
                recomputed: p.chain,
            },
        ]
    } else {
        Seq::empty()
    })
}

/// The algorithms seen, with that of one more signature.
pub open spec fn also_signed(
    seen: Seq<Seq<char>>,
    signature: Option<Seq<char>>,
) -> Seq<Seq<char>> {
    match signature {
        Some(token) => match token_parts(token) {
            Some((algorithm, _)) => if seen.contains(algorithm) {
                seen
            } else {
                seen.push(algorithm)
            },
            None => seen,
        },
        None => seen,
    }
}

/// One more seal.
pub open spec fn after_seal(p: ProgressView, s: SealView) -> ProgressView {
    ProgressView {
        head: s.hash,
        seals: p.seals + 1,
        signed_with: also_signed(p.signed_with, s.signature),
        sealed_through: s.last,
        findings: p.findings + seal_findings(p, s),
        ..p
    }
}

/// One more finding.
pub open spec fn with_finding(p: ProgressView, f: FindingView) -> ProgressView {
    ProgressView { findings: p.findings.push(f), ..p }
}

/// One more line, the `number`th of the file.
pub open spec fn after_line(
    p: ProgressView,
    v: VocabularyView,
    successor_key: Option<Seq<char>>,
    prefixes: Seq<(Seq<char>, Seq<char>)>,
    number: nat,
    raw: Seq<char>,
) -> ProgressView {
    match line_read(raw, prefixes) {
        Ok(LineView::Entry(e)) => after_entry(p, v, successor_key, raw, e),
        Ok(LineView::Seal(s)) => after_seal(p, s),
        Ok(LineView::Blank) => p,
        Ok(LineView::Comment(_)) => p,
        Ok(LineView::Directive { name, value: _ }) => with_finding(
            p,
            FindingView::Malformed { line: number, detail: "@"@ + name + " after the header block"@ },
        ),
        Err(e) => with_finding(
            p,
            FindingView::Malformed { line: number, detail: parse_error_text(e) },
        ),
    }
}

/// The lines `ls` from the start of the entry region, which follow `skipped` header
/// lines.
pub open spec fn after_lines(
    h: HeaderView,
    v: VocabularyView,
    skipped: nat,
    ls: Seq<Seq<char>>,
) -> ProgressView
    decreases ls.len(),
{
    if ls.len() == 0 {
        at_start(h)
    } else {
        after_line(
            after_lines(h, v, skipped, ls.drop_last()),
            v,
            key_for(v.keys, LOG_SUCCESSOR@),
            h.prefixes,
            skipped + ls.len(),
            ls.last(),
        )
    }
}

/// What is found at the end of a segment: whether it ended in order, and whether
/// entries lie past the final seal.
pub open spec fn end_findings(p: ProgressView, v: VocabularyView) -> Seq<FindingView> {
    (if p.last_class matches Some(class) && (descends(v, class, PROCESS_STOP_CLASS@) || descends(
        v,
        class,
        ROTATION_CLASS@,
    )) {
        Seq::empty()
    } else {
        seq![FindingView::UnmarkedEnd { last_class: p.last_class }]
    }) + (match p.last_seq {
        Some(last) => if last > p.sealed_through {
            seq![FindingView::UnsealedTail { from: p.sealed_through + 1, to: last }]
        } else {
            Seq::empty()
        },
        None => Seq::empty(),
    })
}

/// What is found of the link to a predecessor, given by its IRI and its chain head.
pub open spec fn link_findings(
    prev: PrevView,
    predecessor: Option<(Seq<char>, Seq<char>)>,
) -> Seq<FindingView> {
    match predecessor {
        None => Seq::empty(),
        Some((name, expected)) => match prev {
            PrevView::Genesis => seq![FindingView::UnexpectedGenesis { predecessor: name }],
            PrevView::Seal(stated) => if stated != expected {
                seq![FindingView::PrevMismatch { predecessor: name, stated, expected }]
            } else {
                Seq::empty()
            },
        },
    }
}

/// The report on a text that has no header.
pub open spec fn unreadable(detail: Seq<char>) -> ReportView {
    ReportView {
        name: Seq::empty(),
        instance: Seq::empty(),
        level: Seq::empty(),
        prev: PrevView::Genesis,
        head: Seq::empty(),
        entries: 0,
        seals: 0,
        signed_with: Seq::empty(),
        successor: None,
        records_level_change: false,
        findings: seq![FindingView::Malformed { line: 1, detail }],
    }
}

/// What reading a whole segment with the header `h` comes to.
pub open spec fn progress(text: Seq<char>, h: HeaderView, v: VocabularyView) -> ProgressView {
    let all = lines(text);
    let skipped = body_start(all);
    after_lines(h, v, skipped as nat, all.skip(skipped))
}

/// The report on a segment, checked against the predecessor it is given.
pub open spec fn verified(
    text: Seq<char>,
    v: VocabularyView,
    predecessor: Option<(Seq<char>, Seq<char>)>,
) -> ReportView {
    match header_read(text) {
        Err(e) => unreadable(parse_error_text(e)),
        Ok((h, _)) => {
            let p = progress(text, h, v);
            ReportView {
                name: h.name,
                instance: h.instance,
                level: h.level,
                prev: h.prev,
                head: p.head,
                entries: p.entries,
                seals: p.seals,
                signed_with: p.signed_with,
                successor: p.successor,
                records_level_change: p.records_level_change,
                findings: p.findings + end_findings(p, v) + link_findings(h.prev, predecessor),
            }
        },
    }
}

/// A segment being read.
struct Progress {
    chain: Chain,
    head: String,
    entries: u64,
    seals: usize,
    signed_with: Vec<String>,
    last_seq: Option<u64>,
    sealed_through: u64,
    last_class: Option<String>,
    records_level_change: bool,
    successor: Option<String>,
    findings: Vec<Finding>,
}

spec fn maybe_nat(o: Option<u64>) -> Option<nat> {
    match o {
        Some(n) => Some(n as nat),
        None => None,
    }
}

impl View for Progress {
    type V = ProgressView;

    closed spec fn view(&self) -> ProgressView {
        ProgressView {
            chain: self.chain@,
            head: self.head@,
            entries: self.entries as nat,
            seals: self.seals as nat,
            signed_with: texts(self.signed_with@),
            last_seq: maybe_nat(self.last_seq),
            sealed_through: self.sealed_through as nat,
            last_class: maybe(self.last_class),
            records_level_change: self.records_level_change,
            successor: maybe(self.successor),
            findings: findings_view(self.findings@),
        }
    }
}

/// Whether an entry is the always-land marker that brackets a level change.
fn brackets_a_level_change(entry: &Entry, vocab: &Vocabulary) -> (r: bool)
    ensures
        r == brackets(entry@, vocab@),
{
    if vocab.is_a(&entry.class, LEVEL_CHANGE_CLASS) {
        return true;
    }
    // The bracket is the recorded fact, not one particular class name.
    if !vocab.is_a(&entry.class, CONFIG_CHANGE_CLASS) {
        return false;
    }
    match entry.get("key") {
        Some(key) => same_text(key, "level"),
        None => false,
    }
}

/// The sequence number an entry states.
pub fn seq_of(entry: &Entry) -> (r: Option<u64>)
    ensures
        match r {
            Some(n) => stated_seq(entry@) == Some(n as nat),
            None => stated_seq(entry@) is None,
        },
{
    match entry.get("seq") {
        Some(s) => unsigned_of(&chars_of(s), u64::MAX),
        None => None,
    }
}

impl Progress {
    fn start(header: &Header) -> (r: Progress)
        ensures
            r@ == at_start(header@),
    {
        let chain = Chain::open(header);
        let head = chain.head().to_owned();
        let r = Progress {
            chain,
            head,
            entries: 0,
            seals: 0,
            signed_with: Vec::new(),
            last_seq: None,
            sealed_through: 0,
            last_class: None,
            records_level_change: false,
            successor: None,
            findings: Vec::new(),
        };
        assert(r@.signed_with =~= Seq::empty());
        assert(r@.findings =~= Seq::empty());
        r
    }

    /// Add a finding.
    fn find(&mut self, f: Finding)
        ensures
            final(self)@ == with_finding(old(self)@, f@),
    {
        let ghost before = self.findings@;
        self.findings.push(f);
        assert(findings_view(self.findings@) =~= findings_view(before).push(f@));
    }

    /// Take in one entry. Only entries that state a sequence are checked for a gap: a
    /// hand-assembled segment without `seq=` still becomes a graph, so demanding one
    /// here would refuse a file the rest of the crate accepts.
    fn entry(
        &mut self,
        entry: Entry,
        raw: &str,
        vocab: &Vocabulary,
        successor_key: &Option<String>,
    )
        requires
            old(self)@.entries < u64::MAX,
        ensures
            final(self)@ == after_entry(old(self)@, vocab@, maybe(*successor_key), raw@, entry@),
    {
        let ghost start = self@;
        self.entries = self.entries + 1;
        self.chain.advance(&text_of(chomped(&chars_of(raw))));
        let seq = seq_of(&entry);
        if let Some(next) = seq {
            if let Some(after) = self.last_seq {
                if after == u64::MAX || next != after + 1 {
                    self.find(Finding::SequenceGap { after, next });
                }
            }
            self.last_seq = Some(next);
        }
        assert(self@.findings =~= start.findings + sequence_findings(
            start.last_seq,
            stated_seq(entry@),
        ));
        if brackets_a_level_change(&entry, vocab) {
            self.records_level_change = true;
        }
        // A rotation is the last entry of the segment it ends, so a later entry means
        // this was not one: cleared rather than kept.
        let successor = match successor_key {
            Some(key) => if vocab.is_a(&entry.class, ROTATION_CLASS) {
                match entry.get(key) {
                    Some(s) => Some(s.to_owned()),
                    None => None,
                }
            } else {
                None
            },
            None => None,
        };
        self.successor = successor;
        self.last_class = Some(entry.class);
        assert(self@ =~= after_entry(start, vocab@, maybe(*successor_key), raw@, entry@));
    }

    /// Take in one seal.
    fn seal(&mut self, seal: Seal)
        requires
            old(self)@.seals < usize::MAX,
        ensures
            final(self)@ == after_seal(old(self)@, seal@),
    {
        let ghost start = self@;
        self.seals = self.seals + 1;
        if self.sealed_through == u64::MAX || seal.first != self.sealed_through + 1 {
            self.find(
                Finding::SealRangeGap { after: self.sealed_through, next_first: seal.first },
            );
        }
        if !same_text(&seal.hash, self.chain.head()) {
            self.find(
                Finding::SealMismatch {
                    first: seal.first,
                    last: seal.last,
                    stated: seal.hash.clone(),
                    recomputed: self.chain.head().to_owned(),
                },
            );
        }
        assert(self@.findings =~= start.findings + seal_findings(start, seal@));
        if let Some(token) = &seal.signature {
            if let Some((algorithm, _)) = split_signature(token) {
                if !has_text(&self.signed_with, &algorithm) {
                    let ghost before = self.signed_with@;
                    self.signed_with.push(algorithm);
                    assert(texts(self.signed_with@) =~= texts(before).push(algorithm@));
                }
            }
        }
        self.sealed_through = seal.last;
        self.head = seal.hash;
        assert(self@ =~= after_seal(start, seal@));
    }

    /// Take in one line, the `number`th of the file.
    fn line(
        &mut self,
        raw: &str,
        number: usize,
        prefixes: &Prefixes,
        vocab: &Vocabulary,
        successor_key: &Option<String>,
    )
        requires
            old(self)@.entries < u64::MAX,
            old(self)@.seals < usize::MAX,
        ensures
            final(self)@ == after_line(
                old(self)@,
                vocab@,
                maybe(*successor_key),
                prefixes@,
                number as nat,
                raw@,
            ),
            final(self)@.entries <= old(self)@.entries + 1,
            final(self)@.seals <= old(self)@.seals + 1,
    {
        match Line::parse(raw, prefixes) {
            Ok(Line::Entry(entry)) => {
                self.entry(entry, raw, vocab, successor_key);
            },
            Ok(Line::Seal(seal)) => {
                self.seal(seal);
            },
            Ok(Line::Blank) => {},
            Ok(Line::Comment(_)) => {},
            Ok(Line::Directive { name, value: _ }) => {
                let mut detail = joined("@", &name);
                detail.append(" after the header block");
                self.find(Finding::Malformed { line: number, detail });
            },
            Err(error) => {
                self.find(Finding::Malformed { line: number, detail: error.message() });
            },
        }
    }

    /// Take in the end of the segment.
    fn end(&mut self, vocab: &Vocabulary)
        ensures
            final(self)@ == (ProgressView {
                findings: old(self)@.findings + end_findings(old(self)@, vocab@),
                ..old(self)@
            }),
    {
        let ghost start = self@;
        // A rotation ends a segment exactly as finally as a process stop does.
        let ended = match &self.last_class {
            Some(class) => vocab.is_a(class, PROCESS_STOP_CLASS) || vocab.is_a(
                class,
                ROTATION_CLASS,
            ),
            None => false,
        };
        if !ended {
            let last_class = copy_maybe(&self.last_class);
            self.find(Finding::UnmarkedEnd { last_class });
        }
        if let Some(last) = self.last_seq {
            if last > self.sealed_through {
                self.find(Finding::UnsealedTail { from: self.sealed_through + 1, to: last });
            }
        }
        assert(self@.findings =~= start.findings + end_findings(start, vocab@));
    }
}

/// What reading the entry region of a segment comes to.
fn read_body(text: &str, header: &Header, vocab: &Vocabulary) -> (p: Progress)
    ensures
        p@ == progress(text@, header@, vocab@),
{
    let ls = lines_of(&chars_of(text));
    let ghost all = lines(text@);
    let skipped = body_start_of(&ls);
    let ghost body = all.skip(skipped as int);
    let successor_key = key_bound_to(vocab, LOG_SUCCESSOR);
    let mut p = Progress::start(header);
    let mut i: usize = skipped;
    assert(body.take(0) =~= Seq::empty());
    while i < ls.len()
        invariant
            skipped <= i <= ls.len(),
            all == texts(ls@),
            body == all.skip(skipped as int),
            maybe(successor_key) == key_for(vocab@.keys, LOG_SUCCESSOR@),
            p@ == after_lines(header@, vocab@, skipped as nat, body.take(i - skipped)),
            p@.entries <= i,
            p@.seals <= i,
        decreases ls.len() - i,
    {
        proof {
            let k = i - skipped;
            assert(body.take(k + 1).drop_last() =~= body.take(k));
            assert(body.take(k + 1).last() == ls@[i as int]@);
        }
        p.line(&ls[i], i + 1, &header.prefixes, vocab, &successor_key);
        i = i + 1;
    }
    assert(body.take(i - skipped) =~= body);
    p
}

/// Verify one segment's bytes, optionally against the predecessor it claims.
///
/// `predecessor` is `(its IRI, its chain head)`. Passing `None` verifies the
/// segment in isolation, and the report says so by carrying no `PrevMismatch`
/// rather than by asserting a link it could not check.
pub fn verify_segment(
    text: &str,
    vocab: &Vocabulary,
    predecessor: Option<(&str, &str)>,
) -> (r: SegmentReport)
    ensures
        r@ == verified(
            text@,
            vocab@,
            match predecessor {
                Some((name, head)) => Some((name@, head@)),
                None => None,
            },
        ),
{
    let header = match Header::parse(text) {
        Ok((header, _)) => header,
        Err(error) => {
            let mut findings: Vec<Finding> = Vec::new();
            findings.push(Finding::Malformed { line: 1, detail: error.message() });
            let r = SegmentReport {
                name: String::new(),
                instance: String::new(),
                level: String::new(),
                prev: Prev::Genesis,
                head: String::new(),
                entries: 0,
                seals: 0,
                signed_with: Vec::new(),
                successor: None,
                records_level_change: false,
                findings,
            };
            assert(r@ =~= unreadable(parse_error_text(error@)));
            return r;
        },
    };
    let mut p = read_body(text, &header, vocab);
    let ghost read = p@;
    p.end(vocab);
    let ghost ended = p@.findings;
    if let Some((name, expected)) = predecessor {
        match &header.prev {
            Prev::Genesis => {
                p.find(Finding::UnexpectedGenesis { predecessor: name.to_owned() });
            },
            Prev::Seal(stated) => {
                if !same_text(stated, expected) {
                    p.find(
                        Finding::PrevMismatch {
                            predecessor: name.to_owned(),
                            stated: stated.clone(),
                            expected: expected.to_owned(),
                        },
                    );
                }
            },
        }
    }
    assert(p@.findings =~= ended + link_findings(
        header@.prev,
        match predecessor {
            Some((name, head)) => Some((name@, head@)),
            None => None,
        },
    ));
    SegmentReport {
        name: header.name,
        instance: header.instance,
        level: header.level,
        prev: header.prev,
        head: p.head,
        entries: p.entries,
        seals: p.seals,
        signed_with: p.signed_with,
        successor: p.successor,
        records_level_change: p.records_level_change,
        findings: p.findings,
    }
}

/// A segment's chain head: the hash on its last `#seal`, or the header's when it has
/// none; nothing where the text has no header.
pub open spec fn chain_head(text: Seq<char>) -> Option<Seq<char>> {
    match header_read(text) {
        Err(_) => None,
        Ok((h, _)) => Some(
            last_seal(chain_start(h), lines(text).skip(body_start(lines(text))), h.prefixes),
        ),
    }
}

/// The hash on the last seal among the lines `ls`, or `start` where there is none.
pub open spec fn last_seal(
    start: Seq<char>,
    ls: Seq<Seq<char>>,
    prefixes: Seq<(Seq<char>, Seq<char>)>,
) -> Seq<char>
    decreases ls.len(),
{
    if ls.len() == 0 {
        start
    } else {
        match line_read(ls.last(), prefixes) {
            Ok(LineView::Seal(s)) => s.hash,
            _ => last_seal(start, ls.drop_last(), prefixes),
        }
    }
}

/// A segment's chain head: the hash on its last `#seal`, or the header's when it has
/// none.
///
/// The one definition of "what a successor's `@prev` must name". A segment with
/// no seal committed nothing beyond its header, and this says exactly that
/// instead of refusing: a crashed predecessor must not make its successor
/// unchainable, or a crash and an erasure would look alike.
pub fn head_of(text: &str) -> (r: Option<String>)
    ensures
        maybe(r) == chain_head(text@),
{
    let header = match Header::parse(text) {
        Ok((header, _)) => header,
        Err(_) => {
            return None;
        },
    };
    let ls = lines_of(&chars_of(text));
    let ghost all = lines(text@);
    let skipped = body_start_of(&ls);
    let ghost body = all.skip(skipped as int);
    let chain = Chain::open(&header);
    let mut head = chain.head().to_owned();
    let ghost start = head@;
    let mut i: usize = skipped;
    assert(body.take(0) =~= Seq::empty());
    while i < ls.len()
        invariant
            skipped <= i <= ls.len(),
            all == texts(ls@),
            body == all.skip(skipped as int),
            head@ == last_seal(start, body.take(i - skipped), header@.prefixes),
        decreases ls.len() - i,
    {
        proof {
            let k = i - skipped;
            assert(body.take(k + 1).drop_last() =~= body.take(k));
            assert(body.take(k + 1).last() == ls@[i as int]@);
        }
        if let Ok(Line::Seal(seal)) = Line::parse(&ls[i], &header.prefixes) {
            head = seal.hash;
        }
        i = i + 1;
    }
    assert(body.take(i - skipped) =~= body);
    Some(head)
}

// =====================================================================================
// A chain of segments
// =====================================================================================

/// The report on the segment at place `i`, checked against the one before it.
pub open spec fn linked_report(
    segments: Seq<Seq<char>>,
    v: VocabularyView,
    i: int,
) -> ReportView
    decreases i,
{
    if i <= 0 {
        verified(segments[0], v, None)
    } else {
        let before = linked_report(segments, v, i - 1);
        verified(segments[i], v, Some((before.name, before.head)))
    }
}

/// What is found where two adjacent segments ran at different levels and neither
/// recorded the change. Either may hold the bracket: the config write lands its entry
/// in whatever segment was open at the time, and takes effect at the next one.
pub open spec fn level_findings(before: ReportView, after: ReportView) -> Seq<FindingView> {
    if before.level != after.level && !before.records_level_change && !after.records_level_change {
        seq![
            FindingView::UnbracketedLevelChange {
                from_segment: before.name,
                from: before.level,
                to_segment: after.name,
                to: after.level,
            },
        ]
    } else {
        Seq::empty()
    }
}

/// What is found where a rotation named a successor and `next` follows it.
pub open spec fn successor_findings(r: ReportView, next: Option<Seq<char>>) -> Seq<FindingView> {
    match r.successor {
        Some(named) => if next == Some(named) {
            Seq::empty()
        } else {
            seq![FindingView::MissingSuccessor { after: r.name, successor: named }]
        },
        None => Seq::empty(),
    }
}

/// The report on the segment at place `i` of a chain: what the segment shows, the level
/// change from the one before it, and the successor it named.
pub open spec fn chain_report(segments: Seq<Seq<char>>, v: VocabularyView, i: int) -> ReportView {
    let r = linked_report(segments, v, i);
    ReportView {
        findings: r.findings + (if i > 0 {
            level_findings(linked_report(segments, v, i - 1), r)
        } else {
            Seq::empty()
        }) + successor_findings(
            r,
            if i + 1 < segments.len() {
                Some(linked_report(segments, v, i + 1).name)
            } else {
                None
            },
        ),
        ..r
    }
}

/// The report on the segment at place `i`, before it is known what follows.
spec fn open_report(segments: Seq<Seq<char>>, v: VocabularyView, i: int) -> ReportView {
    let r = linked_report(segments, v, i);
    ReportView {
        findings: r.findings + (if i > 0 {
            level_findings(linked_report(segments, v, i - 1), r)
        } else {
            Seq::empty()
        }),
        ..r
    }
}

/// The texts of named segments.
pub open spec fn segment_texts(v: Seq<(String, String)>) -> Seq<Seq<char>> {
    v.map_values(|s: (String, String)| s.1@)
}

/// Add to the last of `reports` that its successor is missing, where `next` is not the
/// one that it named.
fn close_report(report: SegmentReport, next: Option<&str>) -> (r: SegmentReport)
    ensures
        r@ == (ReportView {
            findings: report@.findings + successor_findings(
                report@,
                match next {
                    Some(s) => Some(s@),
                    None => None,
                },
            ),
            ..report@
        }),
{
    let mut r = report;
    let missing = match &r.successor {
        None => None,
        Some(named) => match next {
            Some(name) => if same_text(name, named) {
                None
            } else {
                Some(named.clone())
            },
            None => Some(named.clone()),
        },
    };
    if let Some(successor) = missing {
        let ghost before = r.findings@;
        r.findings.push(Finding::MissingSuccessor { after: r.name.clone(), successor });
        assert(findings_view(r.findings@) =~= findings_view(before).push(
            FindingView::MissingSuccessor { after: r.name@, successor: successor@ },
        ));
    }
    assert(r@ =~= (ReportView {
        findings: report@.findings + successor_findings(
            report@,
            match next {
                Some(s) => Some(s@),
                None => None,
            },
        ),
        ..report@
    }));
    r
}

/// Verify a run of segments as one chain, in the order given.
///
/// Each segment is checked against its predecessor's chain head, and each adjacent
/// pair for an unbracketed level change, which is the whole of the omission check.
///
/// `segments` is `(name, bytes)`, oldest first. Ordering is the caller's: within
/// an instance the segment IRI sorts chronologically, because the stamp is
/// fixed-width UTC.
pub fn verify_chain(segments: &[(String, String)], vocab: &Vocabulary) -> (r: ChainReport)
    ensures
        r@.len() == segments@.len(),
        forall|i: int|
            0 <= i < r@.len() ==> #[trigger] r@[i] == chain_report(
                segment_texts(segments@),
                vocab@,
                i,
            ),
{
    let ghost all = segment_texts(segments@);
    let ghost v = vocab@;
    let mut reports: Vec<SegmentReport> = Vec::new();
    let mut i: usize = 0;
    while i < segments.len()
        invariant
            i <= segments.len(),
            all == segment_texts(segments@),
            v == vocab@,
            reports.len() == i,
            forall|j: int| 0 <= j < i - 1 ==> (#[trigger] reports[j])@ == chain_report(all, v, j),
            i > 0 ==> reports[i - 1]@ == open_report(all, v, i - 1),
        decreases segments.len() - i,
    {
        let text = &segments[i].1;
        assert(all[i as int] == text@);
        match reports.pop() {
            None => {
                let report = verify_segment(text, vocab, None);
                assert(report@ =~= open_report(all, v, 0));
                reports.push(report);
            },
            Some(previous) => {
                assert(previous@ == open_report(all, v, i - 1));
                let mut report = verify_segment(
                    text,
                    vocab,
                    Some((previous.name.as_str(), previous.head.as_str())),
                );
                let ghost linked = report@;
                assert(linked == linked_report(all, v, i as int));
                if !same_text(&previous.level, &report.level) && !previous.records_level_change
                    && !report.records_level_change {
                    let ghost before = report.findings@;
                    report.findings.push(
                        Finding::UnbracketedLevelChange {
                            from_segment: previous.name.clone(),
                            from: previous.level.clone(),
                            to_segment: report.name.clone(),
                            to: report.level.clone(),
                        },
                    );
                    assert(findings_view(report.findings@) =~= findings_view(before)
                        + level_findings(linked_report(all, v, i - 1), linked));
                } else {
                    assert(report@.findings =~= linked.findings + level_findings(
                        linked_report(all, v, i - 1),
                        linked,
                    ));
                }
                assert(report@ =~= open_report(all, v, i as int));
                // A rotation named where it went. If the successor is not the segment
                // that follows, the chain was cut.
                let closed = close_report(previous, Some(report.name.as_str()));
                assert(closed@ =~= chain_report(all, v, i - 1));
                reports.push(closed);
                reports.push(report);
            },
        }
        i = i + 1;
    }
    if let Some(last) = reports.pop() {
        let closed = close_report(last, None);
        assert(closed@ =~= chain_report(all, v, i - 1));
        reports.push(closed);
    }
    let r = ChainReport { segments: reports };
    assert forall|j: int| 0 <= j < r@.len() implies #[trigger] r@[j] == chain_report(all, v, j) by {
        assert(r@[j] == reports[j]@);
    }
    r
}

} // verus!
