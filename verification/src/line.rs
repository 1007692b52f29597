//! Lines: everything a segment file can hold, one line at a time.

use vstd::prelude::*;
use vstd::slice::slice_subrange;
use vstd::string::*;

use crate::entry::{entry_read, Entry, EntryView};
use crate::error::{ParseError, ParseErrorView};
use crate::number::{decimal, decimal_of, lemma_decimal, lemma_read_decimal, read_unsigned, unsigned_of};
use crate::table::Prefixes;
use crate::text::{
    begins_with, chars_of, chomp, chomped, find_white, first_where, has_white, is_char, is_digit,
    is_white, lemma_first_where, lemma_first_where_is, maybe, same_text, solids, split_first,
    split_once, starts_with, text_of, trim, trim_start, trimmed, whites, words, words_of,
};
use crate::token::seen;

verus! {

// =====================================================================================
// Seals
// =====================================================================================

/// A signed checkpoint over the entries `first..=last` of this segment.
///
/// The per-entry hash chain itself is computed in memory and never materialized
/// per line: that noise is exactly what would wreck `grep`. What lands is this:
/// periodic, so tampering localizes to "between seal K and seal K+1", and
/// written as a `#` line so an unaware reader sees a comment.
///
/// The hash and signature are opaque here. What goes in them, and the walk that
/// verifies a segment against its predecessor, belong to the chain.
#[derive(Debug, PartialEq, Eq)]
pub struct Seal {
    /// First entry sequence covered.
    pub first: u64,
    /// Last entry sequence covered.
    pub last: u64,
    /// The chain hash at `last`, tagged with its algorithm (`sha256:…`).
    pub hash: String,
    /// The signature over that hash, tagged (`sig:…`). Absent while a segment
    /// is written without a key: an unsigned seal still localizes tampering.
    pub signature: Option<String>,
}

/// A [`Seal`], with its texts as characters.
#[verifier::ext_equal]
pub struct SealView {
    pub first: nat,
    pub last: nat,
    pub hash: Seq<char>,
    pub signature: Option<Seq<char>>,
}

impl View for Seal {
    type V = SealView;

    open spec fn view(&self) -> SealView {
        SealView {
            first: self.first as nat,
            last: self.last as nat,
            hash: self.hash@,
            signature: maybe(self.signature),
        }
    }
}

/// The line a seal is written as.
pub open spec fn seal_text(s: SealView) -> Seq<char> {
    let head = "#seal"@ + seq![' '] + (decimal(s.first) + seq!['-'] + decimal(s.last)) + seq![' ']
        + s.hash;
    match s.signature {
        Some(sig) => head + seq![' '] + sig,
        None => head,
    }
}

/// The seal that the words of a line stand for, where they stand for one.
pub open spec fn seal_of_words(w: Seq<Seq<char>>) -> Option<SealView> {
    if w.len() < 3 || w[0] != "#seal"@ {
        None
    } else {
        match split_once(w[1], '-') {
            None => None,
            Some((first, last)) => match (
                read_unsigned(first, u64::MAX as nat),
                read_unsigned(last, u64::MAX as nat),
            ) {
                (Some(first), Some(last)) => Some(
                    SealView {
                        first,
                        last,
                        hash: w[2],
                        signature: if w.len() > 3 {
                            Some(w[3])
                        } else {
                            None
                        },
                    },
                ),
                _ => None,
            },
        }
    }
}

/// The seal that a line is read as, or that it is none.
pub open spec fn seal_read(line: Seq<char>) -> Result<SealView, ParseErrorView> {
    match seal_of_words(words(line)) {
        Some(s) => Ok(s),
        None => Err(ParseErrorView::Seal(line)),
    }
}

impl Seal {
    /// Render the `#seal` line (no trailing newline).
    pub fn render(&self) -> (out: String)
        ensures
            out@ == seal_text(self@),
    {
        let mut out = "#seal".to_owned();
        out.push(' ');
        out.append(&decimal_of(self.first));
        out.push('-');
        out.append(&decimal_of(self.last));
        out.push(' ');
        out.append(&self.hash);
        assert(out@ =~= "#seal"@ + seq![' '] + (decimal(self@.first) + seq!['-'] + decimal(
            self@.last,
        )) + seq![' '] + self@.hash);
        if let Some(sig) = &self.signature {
            out.push(' ');
            out.append(sig);
        }
        assert(out@ =~= seal_text(self@));
        out
    }

    /// Parse a `#seal` line.
    pub fn parse(line: &str) -> (r: Result<Seal, ParseError>)
        ensures
            seen(r) == seal_read(line@),
    {
        let w = words_of(&chars_of(line));
        let ghost ws = words(line@);
        if w.len() < 3 || !same_text(&w[0], "#seal") {
            return Err(ParseError::Seal(line.to_owned()));
        }
        let range = chars_of(&w[1]);
        match split_first(&range, '-') {
            None => Err(ParseError::Seal(line.to_owned())),
            Some((first, last)) => match (
                unsigned_of(first, u64::MAX),
                unsigned_of(last, u64::MAX),
            ) {
                (Some(first), Some(last)) => {
                    let signature = if w.len() > 3 {
                        Some(w[3].clone())
                    } else {
                        None
                    };
                    Ok(Seal { first, last, hash: w[2].clone(), signature })
                },
                _ => Err(ParseError::Seal(line.to_owned())),
            },
        }
    }
}

// =====================================================================================
// Lines
// =====================================================================================

/// Anything a segment file can hold, one line at a time.
#[derive(Debug, PartialEq, Eq)]
pub enum Line {
    /// An empty or whitespace-only line: the header ends at the first one.
    Blank,
    /// A `#` line that is not a seal.
    Comment(String),
    /// An `@name value` header directive (`@prefix` among them, with its Turtle
    /// syntax kept whole so a Turtle parser can read the header block as-is).
    Directive { name: String, value: String },
    /// An entry.
    Entry(Entry),
    /// A `#seal` checkpoint.
    Seal(Seal),
}

/// A [`Line`], with its texts as characters.
#[verifier::ext_equal]
pub enum LineView {
    Blank,
    Comment(Seq<char>),
    Directive { name: Seq<char>, value: Seq<char> },
    Entry(EntryView),
    Seal(SealView),
}

impl View for Line {
    type V = LineView;

    open spec fn view(&self) -> LineView {
        match self {
            Line::Blank => LineView::Blank,
            Line::Comment(s) => LineView::Comment(s@),
            Line::Directive { name, value } => LineView::Directive { name: name@, value: value@ },
            Line::Entry(e) => LineView::Entry(e@),
            Line::Seal(s) => LineView::Seal(s@),
        }
    }
}

/// The directive that `rest`, what follows the `@`, stands for: the name up to the
/// first blank, and the value after it.
pub open spec fn directive_of(rest: Seq<char>) -> LineView {
    let n = first_where(rest, whites());
    LineView::Directive {
        name: rest.take(n),
        value: if n < rest.len() {
            trim(rest.skip(n + 1))
        } else {
            Seq::empty()
        },
    }
}

/// What a line is read as, or why it is nothing that a segment holds.
pub open spec fn line_read(
    line: Seq<char>,
    prefixes: Seq<(Seq<char>, Seq<char>)>,
) -> Result<LineView, ParseErrorView> {
    let t = chomp(line);
    if trim(t).len() == 0 {
        Ok(LineView::Blank)
    } else if starts_with(t, "#seal"@) {
        match seal_read(t) {
            Ok(s) => Ok(LineView::Seal(s)),
            Err(e) => Err(e),
        }
    } else if t[0] == '#' {
        Ok(LineView::Comment(trim(t.skip(1))))
    } else if t[0] == '@' {
        Ok(directive_of(t.skip(1)))
    } else {
        match entry_read(t, prefixes) {
            Ok(e) => Ok(LineView::Entry(e)),
            Err(e) => Err(e),
        }
    }
}

/// The directive that `rest`, what follows the `@`, stands for.
fn parse_directive(rest: &[char]) -> (r: Line)
    ensures
        r@ == directive_of(rest@),
{
    let n = find_white(rest, 0);
    assert(rest@.skip(0) =~= rest@);
    let name = text_of(slice_subrange(rest, 0, n));
    assert(name@ =~= rest@.take(n as int));
    let value = if n < rest.len() {
        let tail = slice_subrange(rest, n + 1, rest.len());
        assert(tail@ =~= rest@.skip(n + 1));
        text_of(trimmed(tail))
    } else {
        String::new()
    };
    Line::Directive { name, value }
}

/// Nothing is left of an empty text when it is trimmed.
proof fn lemma_trim_empty(s: Seq<char>)
    ensures
        s.len() == 0 ==> trim(s).len() == 0,
{
    if s.len() == 0 {
        assert(trim_start(s) =~= s);
        assert(trim(s) =~= s);
    }
}

impl Line {
    /// Classify and parse one line.
    pub fn parse(line: &str, prefixes: &Prefixes) -> (r: Result<Line, ParseError>)
        ensures
            seen(r) == line_read(line@, prefixes@),
    {
        let c = chars_of(line);
        let t = chomped(&c);
        if trimmed(t).len() == 0 {
            return Ok(Line::Blank);
        }
        proof {
            lemma_trim_empty(t@);
        }
        let marker = chars_of("#seal");
        if begins_with(t, &marker) {
            return match Seal::parse(&text_of(t)) {
                Ok(s) => Ok(Line::Seal(s)),
                Err(e) => Err(e),
            };
        }
        let rest = slice_subrange(t, 1, t.len());
        assert(rest@ =~= t@.skip(1));
        if t[0] == '#' {
            return Ok(Line::Comment(text_of(trimmed(rest))));
        }
        if t[0] == '@' {
            return Ok(parse_directive(rest));
        }
        match Entry::parse(&text_of(t), prefixes) {
            Ok(e) => Ok(Line::Entry(e)),
            Err(e) => Err(e),
        }
    }
}

// =====================================================================================
// Laws
// =====================================================================================

/// Whether `s` is one word: not empty, no blank in it.
pub open spec fn one_word(s: Seq<char>) -> bool {
    s.len() > 0 && !has_white(s)
}

/// A word that stands alone is the one word of its line.
pub proof fn lemma_words_one(w: Seq<char>)
    requires
        one_word(w),
    ensures
        words(w) == seq![w],
{
    assert(!is_white(w[0]));
    lemma_first_where_is(w, solids(), 0);
    assert(trim_start(w) =~= w);
    lemma_first_where_is(w, whites(), w.len() as int);
    assert(w.take(w.len() as int) =~= w);
    let rest = w.skip(w.len() as int);
    assert(rest =~= Seq::empty());
    assert(trim_start(rest) =~= Seq::empty());
    assert(words(rest) =~= Seq::empty());
    assert(seq![w] + Seq::<Seq<char>>::empty() =~= seq![w]);
}

/// A word after a blank is one word more.
pub proof fn lemma_words_push(s: Seq<char>, w: Seq<char>)
    requires
        one_word(w),
    ensures
        words(s + seq![' '] + w) == words(s).push(w),
    decreases s.len(),
{
    let whole = s + seq![' '] + w;
    let u = trim_start(s);
    let n = first_where(s, solids());
    lemma_first_where(s, solids());
    if u.len() == 0 {
        assert forall|i: int| 0 <= i < s.len() + 1 implies !solids()(#[trigger] whole[i]) by {
            if i < s.len() {
                assert(whole[i] == s[i]);
            }
        }
        assert(whole[s.len() as int + 1] == w[0]);
        assert(!is_white(w[0]));
        lemma_first_where_is(whole, solids(), s.len() as int + 1);
        assert(trim_start(whole) =~= w);
        lemma_words_one(w);
        lemma_first_where_is(w, solids(), 0);
        assert(trim_start(w) =~= w);
        assert(words(s) =~= Seq::empty());
        assert(seq![w] =~= words(s).push(w));
    } else {
        assert forall|i: int| 0 <= i < n implies !solids()(#[trigger] whole[i]) by {
            assert(whole[i] == s[i]);
        }
        assert(whole[n] == s[n]);
        lemma_first_where_is(whole, solids(), n);
        let v = u + seq![' '] + w;
        assert(trim_start(whole) =~= v);
        let m = first_where(u, whites());
        lemma_first_where(u, whites());
        assert forall|i: int| 0 <= i < m implies !whites()(#[trigger] v[i]) by {
            assert(v[i] == u[i]);
        }
        if m < u.len() {
            assert(v[m] == u[m]);
        }
        lemma_first_where_is(v, whites(), m);
        assert(v.take(m) =~= u.take(m));
        assert(v.skip(m) =~= u.skip(m) + seq![' '] + w);
        assert(m > 0) by {
            assert(u[0] == s[n]);
        }
        lemma_words_push(u.skip(m), w);
        assert(seq![u.take(m)] + words(u.skip(m)).push(w) =~= words(s).push(w));
    }
}

/// The range column of a seal is one word, and splits into its two numbers.
proof fn lemma_range(first: nat, last: nat)
    ensures
        one_word(decimal(first) + seq!['-'] + decimal(last)),
        split_once(decimal(first) + seq!['-'] + decimal(last), '-') == Some(
            (decimal(first), decimal(last)),
        ),
{
    let a = decimal(first);
    let b = decimal(last);
    let s = a + seq!['-'] + b;
    lemma_decimal(first);
    lemma_decimal(last);
    assert forall|i: int| 0 <= i < s.len() implies !is_white(#[trigger] s[i]) by {
        if i < a.len() {
            assert(s[i] == a[i]);
            assert(is_digit(a[i]));
        } else if i > a.len() {
            assert(s[i] == b[i - a.len() - 1]);
            assert(is_digit(b[i - a.len() - 1]));
        }
    }
    assert forall|i: int| 0 <= i < a.len() implies !is_char('-')(#[trigger] s[i]) by {
        assert(s[i] == a[i]);
        assert(is_digit(a[i]));
    }
    lemma_first_where_is(s, is_char('-'), a.len() as int);
    assert(s.take(a.len() as int) =~= a);
    assert(s.skip(a.len() as int + 1) =~= b);
}

/// A written seal is read back as the seal, signed or not, where its hash and its
/// signature are one word each.
pub proof fn law_seal_round_trip(s: SealView)
    requires
        s.first <= u64::MAX,
        s.last <= u64::MAX,
        one_word(s.hash),
        s.signature matches Some(sig) ==> one_word(sig),
    ensures
        seal_read(seal_text(s)) == Ok::<_, ParseErrorView>(s),
{
    let marker = "#seal"@;
    reveal_strlit("#seal");
    let range = decimal(s.first) + seq!['-'] + decimal(s.last);
    assert(one_word(marker));
    lemma_words_one(marker);
    lemma_range(s.first, s.last);
    lemma_words_push(marker, range);
    lemma_words_push(marker + seq![' '] + range, s.hash);
    lemma_read_decimal(s.first, u64::MAX as nat);
    lemma_read_decimal(s.last, u64::MAX as nat);
    let head = marker + seq![' '] + range + seq![' '] + s.hash;
    assert(words(head) =~= seq![marker, range, s.hash]);
    if let Some(sig) = s.signature {
        lemma_words_push(head, sig);
        assert(words(head + seq![' '] + sig) =~= seq![marker, range, s.hash, sig]);
    }
}

} // verus!
