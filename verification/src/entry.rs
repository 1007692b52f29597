//! Entries: one log line each.

use vstd::prelude::*;
use vstd::string::*;

use crate::error::{ParseError, ParseErrorView, RenderError, RenderErrorView};
use crate::table::{ascending, lookup, Prefixes};
use crate::text::{
    chars_of, has_white, is_char, is_white, lemma_first_where_is, same, split_first, split_once,
    text_of, texts, trim_start, unbroken,
};
use crate::time::{law_time_round_trip, lemma_time_unbroken, time_read, time_text, Timestamp, WIDE_FROM};
use crate::token::{
    bare_value, best_prefix, column_iri, column_text, escaped, escapes, iri_like, is_iri, is_key,
    key_char, key_like, law_column_round_trip, lemma_best_prefix, lemma_column_unbroken,
    lemma_reads_field, lemma_reads_plain, lemma_tokens_one, lemma_tokens_push, parse_iri_column,
    render_iri_column, render_value, scan, seen, tokens, value_text,
};

verus! {

/// One log line: when, what kind, about what, and the typed columns.
///
/// The class and subject are held as absolute IRIs (CURIE shortening is a
/// rendering concern), so a consumer that has just parsed a line can look the
/// class straight up in the vocabulary without expanding anything first.
#[derive(Debug, PartialEq, Eq)]
pub struct Entry {
    /// The leading column, and `prov:startedAtTime` in the graph.
    pub time: Timestamp,
    /// The entry class, as an absolute IRI.
    pub class: String,
    /// What the entry is about, as an absolute IRI.
    pub subject: String,
    /// The `key=value` columns, in written order. A key may repeat (a
    /// resolution under two capability scopes writes `cap=` twice), so this is
    /// a list, not a map.
    pub fields: Vec<(String, String)>,
}

/// An [`Entry`], with its texts as characters.
#[verifier::ext_equal]
pub struct EntryView {
    pub time: nat,
    pub class: Seq<char>,
    pub subject: Seq<char>,
    pub fields: Seq<(Seq<char>, Seq<char>)>,
}

/// Pairs of texts, as characters.
pub open spec fn pairs(v: Seq<(String, String)>) -> Seq<(Seq<char>, Seq<char>)> {
    v.map_values(|p: (String, String)| (p.0@, p.1@))
}

impl View for Entry {
    type V = EntryView;

    open spec fn view(&self) -> EntryView {
        EntryView {
            time: self.time.0 as nat,
            class: self.class@,
            subject: self.subject@,
            fields: pairs(self.fields@),
        }
    }
}

// =====================================================================================
// Writing
// =====================================================================================

/// The columns of `fields`, each with the blank before it.
pub open spec fn fields_text(fields: Seq<(Seq<char>, Seq<char>)>) -> Seq<char>
    decreases fields.len(),
{
    if fields.len() == 0 {
        Seq::empty()
    } else {
        fields_text(fields.drop_last()) + seq![' '] + fields.last().0 + seq!['='] + value_text(
            fields.last().1,
        )
    }
}

/// The first key that cannot be written.
pub open spec fn bad_key(fields: Seq<(Seq<char>, Seq<char>)>) -> Option<Seq<char>>
    decreases fields.len(),
{
    if fields.len() == 0 {
        None
    } else if !key_like(fields[0].0) {
        Some(fields[0].0)
    } else {
        bad_key(fields.drop_first())
    }
}

/// The line of an entry, where all of it can be written.
pub open spec fn entry_line(e: EntryView, prefixes: Seq<(Seq<char>, Seq<char>)>) -> Seq<char> {
    time_text(e.time) + seq![' '] + column_text(e.class, prefixes) + seq![' '] + e.subject
        + fields_text(e.fields)
}

/// The line that an entry is written as, or why it is not.
pub open spec fn entry_text(
    e: EntryView,
    prefixes: Seq<(Seq<char>, Seq<char>)>,
) -> Result<Seq<char>, RenderErrorView> {
    if !iri_like(e.subject) {
        Err(RenderErrorView::NotAnIri(e.subject))
    } else if !iri_like(e.class) {
        Err(RenderErrorView::NotAnIri(e.class))
    } else {
        match bad_key(e.fields) {
            Some(k) => Err(RenderErrorView::Key(k)),
            None => Ok(entry_line(e, prefixes)),
        }
    }
}

// =====================================================================================
// Reading
// =====================================================================================

/// The pairs that `key=value` tokens stand for, or the first token that is none.
pub open spec fn fields_read(
    tokens: Seq<Seq<char>>,
) -> Result<Seq<(Seq<char>, Seq<char>)>, ParseErrorView>
    decreases tokens.len(),
{
    if tokens.len() == 0 {
        Ok(Seq::empty())
    } else {
        match split_once(tokens[0], '=') {
            None => Err(ParseErrorView::Field(tokens[0])),
            Some((key, value)) => if !key_like(key) {
                Err(ParseErrorView::Field(tokens[0]))
            } else {
                match fields_read(tokens.drop_first()) {
                    Err(e) => Err(e),
                    Ok(more) => Ok(seq![(key, value)] + more),
                }
            },
        }
    }
}

/// The entry that a line's tokens stand for, or why they stand for none.
pub open spec fn entry_of_tokens(
    t: Seq<Seq<char>>,
    prefixes: Seq<(Seq<char>, Seq<char>)>,
) -> Result<EntryView, ParseErrorView> {
    if t.len() == 0 {
        Err(ParseErrorView::MissingColumn("time"@))
    } else if time_read(t[0]) is None {
        Err(ParseErrorView::Timestamp(t[0]))
    } else if t.len() == 1 {
        Err(ParseErrorView::MissingColumn("class"@))
    } else {
        match column_iri(t[1], prefixes) {
            Err(e) => Err(e),
            Ok(class) => if t.len() == 2 {
                Err(ParseErrorView::MissingColumn("subject"@))
            } else if !iri_like(t[2]) {
                Err(ParseErrorView::NotAnIri(t[2]))
            } else {
                match fields_read(t.skip(3)) {
                    Err(e) => Err(e),
                    Ok(fields) => Ok(
                        EntryView { time: time_read(t[0])->0, class, subject: t[2], fields },
                    ),
                }
            },
        }
    }
}

/// The entry that a line is read as, or why it is none.
pub open spec fn entry_read(
    line: Seq<char>,
    prefixes: Seq<(Seq<char>, Seq<char>)>,
) -> Result<EntryView, ParseErrorView> {
    match tokens(line) {
        None => Err(ParseErrorView::Field(line)),
        Some(t) => entry_of_tokens(t, prefixes),
    }
}

/// The pairs that a line's tail is read as, or why it is none.
pub open spec fn tail_read(
    tail: Seq<char>,
) -> Result<Seq<(Seq<char>, Seq<char>)>, ParseErrorView> {
    match tokens(tail) {
        None => Err(ParseErrorView::Field(tail)),
        Some(t) => fields_read(t),
    }
}

/// The values written for `key`, in order.
pub open spec fn values_of(
    fields: Seq<(Seq<char>, Seq<char>)>,
    key: Seq<char>,
) -> Seq<Seq<char>>
    decreases fields.len(),
{
    if fields.len() == 0 {
        Seq::empty()
    } else {
        let before = values_of(fields.drop_last(), key);
        if fields.last().0 == key {
            before.push(fields.last().1)
        } else {
            before
        }
    }
}

impl Entry {
    /// An entry with no fields yet.
    pub fn new(time: Timestamp, class: &str, subject: &str) -> (r: Entry)
        ensures
            r@ == (EntryView {
                time: time.0 as nat,
                class: class@,
                subject: subject@,
                fields: Seq::empty(),
            }),
    {
        let r = Entry {
            time,
            class: class.to_owned(),
            subject: subject.to_owned(),
            fields: Vec::new(),
        };
        assert(r@.fields =~= Seq::empty());
        r
    }

    /// Add one `key=value` column.
    #[must_use]
    pub fn with(self, key: &str, value: &str) -> (r: Entry)
        ensures
            r@ == (EntryView { fields: self@.fields.push((key@, value@)), ..self@ }),
    {
        let mut r = self;
        r.fields.push((key.to_owned(), value.to_owned()));
        assert(r@.fields =~= self@.fields.push((key@, value@)));
        r
    }

    /// The first value written for `key`.
    pub fn get(&self, key: &str) -> (r: Option<&str>)
        ensures
            match r {
                Some(v) => lookup(self@.fields, key@) == Some(v@),
                None => lookup(self@.fields, key@) is None,
            },
    {
        let k = chars_of(key);
        let ghost f = self@.fields;
        let mut i: usize = 0;
        assert(f.skip(0) =~= f);
        while i < self.fields.len()
            invariant
                i <= self.fields.len(),
                f == self@.fields,
                f.len() == self.fields.len(),
                k@ == key@,
                lookup(f, key@) == lookup(f.skip(i as int), key@),
            decreases self.fields.len() - i,
        {
            assert(f.skip(i as int)[0] == f[i as int]);
            if same(&chars_of(&self.fields[i].0), &k) {
                return Some(self.fields[i].1.as_str());
            }
            assert(f.skip(i as int).drop_first() =~= f.skip(i + 1));
            i = i + 1;
        }
        None
    }

    /// Every value written for `key`, in order.
    pub fn all(&self, key: &str) -> (r: Vec<String>)
        ensures
            texts(r@) == values_of(self@.fields, key@),
    {
        let k = chars_of(key);
        let ghost f = self@.fields;
        let mut out: Vec<String> = Vec::new();
        let mut i: usize = 0;
        assert(f.take(0) =~= Seq::empty());
        assert(texts(out@) =~= Seq::empty());
        while i < self.fields.len()
            invariant
                i <= self.fields.len(),
                f == self@.fields,
                f.len() == self.fields.len(),
                k@ == key@,
                texts(out@) == values_of(f.take(i as int), key@),
            decreases self.fields.len() - i,
        {
            let ghost before = out@;
            assert(f.take(i + 1).drop_last() =~= f.take(i as int));
            if same(&chars_of(&self.fields[i].0), &k) {
                out.push(self.fields[i].1.clone());
                assert(texts(out@) =~= texts(before).push(f[i as int].1));
            }
            i = i + 1;
        }
        assert(f.take(i as int) =~= f);
        out
    }

    /// Render the line (no trailing newline). Never contains a raw newline.
    pub fn render(&self, prefixes: &Prefixes) -> (r: Result<String, RenderError>)
        ensures
            seen(r) == entry_text(self@, prefixes@),
    {
        if !is_iri(&self.subject) {
            return Err(RenderError::NotAnIri(self.subject.clone()));
        }
        let mut out = self.time.render();
        out.push(' ');
        match render_iri_column(&self.class, prefixes) {
            Err(e) => {
                return Err(e);
            },
            Ok(column) => {
                out.append(&column);
            },
        }
        out.push(' ');
        out.append(&self.subject);
        let ghost head = out@;
        let ghost f = self@.fields;
        assert(head =~= time_text(self@.time) + seq![' '] + column_text(self@.class, prefixes@)
            + seq![' '] + self@.subject);
        let mut i: usize = 0;
        assert(f.take(0) =~= Seq::empty());
        assert(f.skip(0) =~= f);
        assert(head + fields_text(f.take(0)) =~= head);
        while i < self.fields.len()
            invariant
                i <= self.fields.len(),
                f == self@.fields,
                f.len() == self.fields.len(),
                iri_like(self@.subject),
                iri_like(self@.class),
                out@ == head + fields_text(f.take(i as int)),
                bad_key(f) == bad_key(f.skip(i as int)),
            decreases self.fields.len() - i,
        {
            let ghost before = out@;
            let ghost rest = f.skip(i as int);
            assert(rest[0] == f[i as int]);
            if !is_key(&chars_of(&self.fields[i].0)) {
                return Err(RenderError::Key(self.fields[i].0.clone()));
            }
            out.push(' ');
            out.append(&self.fields[i].0);
            out.push('=');
            out.append(&render_value(&self.fields[i].1));
            proof {
                assert(rest.drop_first() =~= f.skip(i + 1));
                assert(f.take(i + 1).drop_last() =~= f.take(i as int));
                assert(out@ =~= head + fields_text(f.take(i + 1)));
            }
            i = i + 1;
        }
        assert(f.take(i as int) =~= f);
        assert(out@ =~= entry_line(self@, prefixes@));
        Ok(out)
    }

    /// Parse one entry line.
    pub fn parse(line: &str, prefixes: &Prefixes) -> (r: Result<Entry, ParseError>)
        ensures
            seen(r) == entry_read(line@, prefixes@),
    {
        let t = scan(line)?;
        let ghost ts = texts(t@);
        if t.len() == 0 {
            return Err(ParseError::MissingColumn("time"));
        }
        let time = match Timestamp::parse(&t[0]) {
            Ok(time) => time,
            Err(e) => {
                return Err(e);
            },
        };
        if t.len() == 1 {
            return Err(ParseError::MissingColumn("class"));
        }
        let class = match parse_iri_column(&t[1], prefixes) {
            Ok(class) => class,
            Err(e) => {
                return Err(e);
            },
        };
        if t.len() == 2 {
            return Err(ParseError::MissingColumn("subject"));
        }
        let subject = t[2].clone();
        if !is_iri(&subject) {
            return Err(ParseError::NotAnIri(subject));
        }
        match fields_from_tokens(&t, 3) {
            Err(e) => Err(e),
            Ok(fields) => {
                let r = Entry { time, class, subject, fields };
                Ok(r)
            },
        }
    }
}

/// Parse a bare run of `key=value` columns: a line's tail, without the three
/// fixed columns in front of it.
///
/// This is the same scanner [`Entry::parse`] uses, exposed so that a caller
/// supplying fields by some other route (an endpoint argument, a config file, a
/// test) writes them in the syntax the file already uses instead of a second,
/// nearly-identical one.
pub fn parse_fields(tail: &str) -> (r: Result<Vec<(String, String)>, ParseError>)
    ensures
        match r {
            Ok(v) => tail_read(tail@) == Ok::<_, ParseErrorView>(pairs(v@)),
            Err(e) => tail_read(tail@) == Err::<Seq<(Seq<char>, Seq<char>)>, _>(e@),
        },
{
    match scan(tail) {
        Err(e) => Err(e),
        Ok(t) => {
            assert(texts(t@).skip(0) =~= texts(t@));
            fields_from_tokens(&t, 0)
        },
    }
}

/// The pairs that the tokens from `from` on stand for.
fn fields_from_tokens(t: &Vec<String>, from: usize) -> (r: Result<Vec<(String, String)>, ParseError>)
    requires
        from <= t.len(),
    ensures
        match r {
            Ok(v) => fields_read(texts(t@).skip(from as int)) == Ok::<_, ParseErrorView>(pairs(v@)),
            Err(e) => fields_read(texts(t@).skip(from as int)) == Err::<
                Seq<(Seq<char>, Seq<char>)>,
                _,
            >(e@),
        },
{
    let ghost ts = texts(t@);
    let ghost all = fields_read(ts.skip(from as int));
    let mut out: Vec<(String, String)> = Vec::new();
    let mut i: usize = from;
    assert(pairs(out@) =~= Seq::empty());
    assert(more_fields(pairs(out@), all) =~= all);
    while i < t.len()
        invariant
            from <= i <= t.len(),
            ts == texts(t@),
            all == fields_read(ts.skip(from as int)),
            all == more_fields(pairs(out@), fields_read(ts.skip(i as int))),
        decreases t.len() - i,
    {
        let ghost rest = ts.skip(i as int);
        assert(rest[0] == t@[i as int]@);
        let c = chars_of(&t[i]);
        match split_first(&c, '=') {
            None => {
                return Err(ParseError::Field(t[i].clone()));
            },
            Some((key, value)) => {
                if !is_key(key) {
                    return Err(ParseError::Field(t[i].clone()));
                }
                let ghost before = out@;
                out.push((text_of(key), text_of(value)));
                proof {
                    assert(rest.drop_first() =~= ts.skip(i + 1));
                    assert(pairs(out@) =~= pairs(before).push((key@, value@)));
                    if let Ok(more) = fields_read(ts.skip(i + 1)) {
                        assert(pairs(before) + (seq![(key@, value@)] + more) =~= pairs(out@) + more);
                    }
                }
            },
        }
        i = i + 1;
    }
    assert(ts.skip(i as int) =~= Seq::empty());
    assert(pairs(out@) + Seq::<(Seq<char>, Seq<char>)>::empty() =~= pairs(out@));
    Ok(out)
}

spec fn more_fields(
    head: Seq<(Seq<char>, Seq<char>)>,
    tail: Result<Seq<(Seq<char>, Seq<char>)>, ParseErrorView>,
) -> Result<Seq<(Seq<char>, Seq<char>)>, ParseErrorView> {
    match tail {
        Ok(t) => Ok(head + t),
        Err(e) => Err(e),
    }
}

// =====================================================================================
// Laws
// =====================================================================================

/// Whether every prefix can stand in front of a CURIE's colon: no colon of its own,
/// nothing that would break the column.
pub open spec fn usable_prefixes(prefixes: Seq<(Seq<char>, Seq<char>)>) -> bool {
    &&& ascending(prefixes)
    &&& forall|i: int|
        0 <= i < prefixes.len() ==> !(#[trigger] prefixes[i]).0.contains(':') && unbroken(
            prefixes[i].0,
        )
}

/// The tokens that `fields` are written as.
spec fn field_tokens(fields: Seq<(Seq<char>, Seq<char>)>) -> Seq<Seq<char>> {
    fields.map_values(|f: (Seq<char>, Seq<char>)| f.0 + seq!['='] + f.1)
}

pub proof fn lemma_bad_key(fields: Seq<(Seq<char>, Seq<char>)>)
    ensures
        bad_key(fields) is None <==> forall|i: int|
            0 <= i < fields.len() ==> key_like(#[trigger] fields[i].0),
    decreases fields.len(),
{
    if fields.len() > 0 {
        let t = fields.drop_first();
        lemma_bad_key(t);
        if key_like(fields[0].0) {
            if bad_key(t) is None {
                assert forall|i: int| 0 <= i < fields.len() implies key_like(
                    #[trigger] fields[i].0,
                ) by {
                    if i > 0 {
                        assert(fields[i] == t[i - 1]);
                    }
                }
            } else {
                let i = choose|i: int| 0 <= i < t.len() && !key_like(#[trigger] t[i].0);
                assert(t[i] == fields[i + 1]);
            }
        }
    }
}

/// Written columns are read as the tokens they were written for.
proof fn lemma_tokens_fields(
    head: Seq<char>,
    ts: Seq<Seq<char>>,
    fields: Seq<(Seq<char>, Seq<char>)>,
)
    requires
        tokens(head) == Some(ts),
        forall|i: int| 0 <= i < fields.len() ==> key_like(#[trigger] fields[i].0),
    ensures
        tokens(head + fields_text(fields)) == Some(ts + field_tokens(fields)),
    decreases fields.len(),
{
    if fields.len() == 0 {
        assert(head + fields_text(fields) =~= head);
        assert(ts + field_tokens(fields) =~= ts);
    } else {
        let f = fields.drop_last();
        let (k, v) = fields.last();
        assert(forall|i: int| 0 <= i < f.len() ==> f[i] == #[trigger] fields[i]);
        assert(key_like(fields[fields.len() - 1].0));
        lemma_tokens_fields(head, ts, f);
        lemma_reads_field(k, v);
        lemma_tokens_push(
            head + fields_text(f),
            ts + field_tokens(f),
            k + seq!['='] + value_text(v),
            k + seq!['='] + v,
        );
        assert(head + fields_text(f) + seq![' '] + (k + seq!['='] + value_text(v)) =~= head
            + fields_text(fields));
        assert((ts + field_tokens(f)).push(k + seq!['='] + v) =~= ts + field_tokens(fields));
    }
}

/// The tokens of written fields are read back as the fields.
proof fn lemma_fields_read(fields: Seq<(Seq<char>, Seq<char>)>)
    requires
        forall|i: int| 0 <= i < fields.len() ==> key_like(#[trigger] fields[i].0),
    ensures
        fields_read(field_tokens(fields)) == Ok::<_, ParseErrorView>(fields),
    decreases fields.len(),
{
    let ts = field_tokens(fields);
    if fields.len() == 0 {
        assert(ts =~= Seq::empty());
        assert(fields =~= Seq::empty());
    } else {
        let (k, v) = fields[0];
        let f = fields.drop_first();
        assert forall|i: int| 0 <= i < f.len() implies key_like(#[trigger] f[i].0) by {
            assert(f[i] == fields[i + 1]);
        }
        lemma_fields_read(f);
        assert(ts.drop_first() =~= field_tokens(f));
        let t = k + seq!['='] + v;
        assert(ts[0] == t);
        assert(key_like(fields[0].0));
        assert forall|i: int| 0 <= i < k.len() implies !is_char('=')(#[trigger] t[i]) by {
            assert(t[i] == k[i]);
            assert(key_char(k[i]));
        }
        lemma_first_where_is(t, is_char('='), k.len() as int);
        assert(t.take(k.len() as int) =~= k);
        assert(t.skip(k.len() as int + 1) =~= v);
        assert(seq![(k, v)] + f =~= fields);
    }
}

/// A written entry is read back as the entry, where the year has four digits.
pub proof fn law_entry_round_trip(e: EntryView, prefixes: Seq<(Seq<char>, Seq<char>)>)
    requires
        e.time < WIDE_FROM,
        usable_prefixes(prefixes),
        entry_text(e, prefixes) is Ok,
    ensures
        entry_read(entry_text(e, prefixes)->Ok_0, prefixes) == Ok::<_, ParseErrorView>(e),
{
    let time = time_text(e.time);
    let class = column_text(e.class, prefixes);
    law_time_round_trip(e.time);
    lemma_time_unbroken(e.time);
    lemma_reads_plain(time);
    lemma_tokens_one(time, time);
    lemma_column_unbroken(e.class, prefixes);
    lemma_reads_plain(class);
    lemma_tokens_push(time, seq![time], class, class);
    let two = time + seq![' '] + class;
    assert(seq![time].push(class) =~= seq![time, class]);
    lemma_reads_plain(e.subject);
    lemma_tokens_push(two, seq![time, class], e.subject, e.subject);
    let three = two + seq![' '] + e.subject;
    let fixed = seq![time, class, e.subject];
    assert(seq![time, class].push(e.subject) =~= fixed);
    lemma_bad_key(e.fields);
    lemma_tokens_fields(three, fixed, e.fields);
    let ts = fixed + field_tokens(e.fields);
    assert(entry_line(e, prefixes) =~= three + fields_text(e.fields));
    law_column_round_trip(e.class, prefixes);
    lemma_fields_read(e.fields);
    assert(ts.skip(3) =~= field_tokens(e.fields));
    assert(ts[0] == time && ts[1] == class && ts[2] == e.subject);
}

/// A run of written columns is read back as the pairs it was written for, by the
/// scanner that reads the tail of an entry.
pub proof fn law_tail_round_trip(fields: Seq<(Seq<char>, Seq<char>)>)
    requires
        bad_key(fields) is None,
    ensures
        tail_read(fields_text(fields)) == Ok::<_, ParseErrorView>(fields),
{
    let none = Seq::<char>::empty();
    lemma_bad_key(fields);
    assert(trim_start(none) =~= none);
    assert(tokens(none) == Some(Seq::<Seq<char>>::empty()));
    lemma_tokens_fields(none, Seq::empty(), fields);
    assert(none + fields_text(fields) =~= fields_text(fields));
    assert(Seq::<Seq<char>>::empty() + field_tokens(fields) =~= field_tokens(fields));
    lemma_fields_read(fields);
}

/// The tail of an entry line is read by the rules a bare run of columns is read by:
/// the two reach the same fields, or fail alike.
pub proof fn law_tail_is_entry_tail(t: Seq<Seq<char>>, prefixes: Seq<(Seq<char>, Seq<char>)>)
    requires
        entry_of_tokens(t, prefixes) is Ok,
    ensures
        fields_read(t.skip(3)) == Ok::<_, ParseErrorView>(
            entry_of_tokens(t, prefixes)->Ok_0.fields,
        ),
{
}

/// Whether `s` is free of newlines.
pub open spec fn one_line(s: Seq<char>) -> bool {
    !s.contains('\n')
}

proof fn lemma_free_join(a: Seq<char>, b: Seq<char>, c: char)
    requires
        !a.contains(c),
        !b.contains(c),
    ensures
        !(a + b).contains(c),
{
    let s = a + b;
    assert forall|i: int| 0 <= i < s.len() implies #[trigger] s[i] != c by {
        if i < a.len() {
            assert(s[i] == a[i]);
            assert(a.contains(a[i]));
        } else {
            assert(s[i] == b[i - a.len()]);
            assert(b.contains(b[i - a.len()]));
        }
    }
}

pub proof fn lemma_one_line_join(a: Seq<char>, b: Seq<char>)
    requires
        one_line(a),
        one_line(b),
    ensures
        one_line(a + b),
{
    lemma_free_join(a, b, '\n');
}

pub proof fn lemma_one_line_unbroken(a: Seq<char>)
    requires
        !has_white(a),
    ensures
        one_line(a),
{
    lemma_free_unbroken(a, '\n');
}

proof fn lemma_free_unbroken(a: Seq<char>, c: char)
    requires
        !has_white(a),
        is_white(c),
    ensures
        !a.contains(c),
{
    assert forall|i: int| 0 <= i < a.len() implies #[trigger] a[i] != c by {
        assert(!is_white(a[i]));
    }
}

/// Whether `c` ends a line, or part of what does.
pub open spec fn ends_line(c: char) -> bool {
    c == '\n' || c == '\r'
}

proof fn lemma_free_value(v: Seq<char>, c: char)
    requires
        ends_line(c),
    ensures
        !value_text(v).contains(c),
{
    if bare_value(v) {
        lemma_free_unbroken(v, c);
    } else {
        lemma_free_escapes(v, c);
        assert(!seq!['"'].contains(c));
        lemma_free_join(seq!['"'], escapes(v), c);
        lemma_free_join(seq!['"'] + escapes(v), seq!['"'], c);
    }
}

proof fn lemma_free_escapes(v: Seq<char>, c: char)
    requires
        ends_line(c),
    ensures
        !escapes(v).contains(c),
    decreases v.len(),
{
    if v.len() > 0 {
        lemma_free_escapes(v.drop_last(), c);
        assert(!escaped(v.last()).contains(c));
        lemma_free_join(escapes(v.drop_last()), escaped(v.last()), c);
    }
}

proof fn lemma_free_fields(fields: Seq<(Seq<char>, Seq<char>)>, c: char)
    requires
        ends_line(c),
        forall|i: int| 0 <= i < fields.len() ==> key_like(#[trigger] fields[i].0),
    ensures
        !fields_text(fields).contains(c),
    decreases fields.len(),
{
    if fields.len() > 0 {
        let f = fields.drop_last();
        let (k, v) = fields.last();
        assert(forall|i: int| 0 <= i < f.len() ==> f[i] == #[trigger] fields[i]);
        assert(key_like(fields[fields.len() - 1].0));
        lemma_free_fields(f, c);
        assert(!k.contains(c)) by {
            assert forall|i: int| 0 <= i < k.len() implies #[trigger] k[i] != c by {
                assert(key_char(k[i]));
            }
        }
        lemma_free_value(v, c);
        assert(!seq![' '].contains(c) && !seq!['='].contains(c));
        lemma_free_join(fields_text(f), seq![' '], c);
        lemma_free_join(fields_text(f) + seq![' '], k, c);
        lemma_free_join(fields_text(f) + seq![' '] + k, seq!['='], c);
        lemma_free_join(fields_text(f) + seq![' '] + k + seq!['='], value_text(v), c);
    }
}

proof fn lemma_free_entry(e: EntryView, prefixes: Seq<(Seq<char>, Seq<char>)>, c: char)
    requires
        ends_line(c),
        forall|i: int| 0 <= i < prefixes.len() ==> !(#[trigger] prefixes[i]).0.contains(c),
        entry_text(e, prefixes) is Ok,
    ensures
        !entry_text(e, prefixes)->Ok_0.contains(c),
{
    let time = time_text(e.time);
    let class = column_text(e.class, prefixes);
    lemma_time_unbroken(e.time);
    lemma_free_unbroken(time, c);
    lemma_free_unbroken(e.subject, c);
    lemma_free_unbroken(e.class, c);
    lemma_best_prefix(e.class, prefixes);
    let blank = seq![' '];
    assert(!blank.contains(c) && !seq![':'].contains(c));
    assert(!seq!['<'].contains(c) && !seq!['>'].contains(c));
    match best_prefix(e.class, prefixes) {
        Some(i) => {
            let local = e.class.skip(prefixes[i].1.len() as int);
            assert(!local.contains(c)) by {
                assert forall|j: int| 0 <= j < local.len() implies #[trigger] local[j] != c by {
                    assert(local[j] == e.class[j + prefixes[i].1.len()]);
                    assert(e.class.contains(local[j]));
                }
            }
            lemma_free_join(prefixes[i].0, seq![':'], c);
            lemma_free_join(prefixes[i].0 + seq![':'], local, c);
        },
        None => {
            lemma_free_join(seq!['<'], e.class, c);
            lemma_free_join(seq!['<'] + e.class, seq!['>'], c);
        },
    }
    lemma_bad_key(e.fields);
    lemma_free_fields(e.fields, c);
    lemma_free_join(time, blank, c);
    lemma_free_join(time + blank, class, c);
    lemma_free_join(time + blank + class, blank, c);
    lemma_free_join(time + blank + class + blank, e.subject, c);
    lemma_free_join(time + blank + class + blank + e.subject, fields_text(e.fields), c);
}

/// One entry is one line, whatever its values hold: a written entry has neither a newline
/// nor a carriage return in it, unless a prefix does.
pub proof fn law_entry_one_line(e: EntryView, prefixes: Seq<(Seq<char>, Seq<char>)>)
    requires
        entry_text(e, prefixes) is Ok,
    ensures
        (forall|i: int| 0 <= i < prefixes.len() ==> one_line(#[trigger] prefixes[i].0)) ==> one_line(
            entry_text(e, prefixes)->Ok_0,
        ),
        (forall|i: int| 0 <= i < prefixes.len() ==> !(#[trigger] prefixes[i]).0.contains('\r'))
            ==> !entry_text(e, prefixes)->Ok_0.contains('\r'),
{
    if forall|i: int| 0 <= i < prefixes.len() ==> one_line(#[trigger] prefixes[i].0) {
        assert forall|i: int| 0 <= i < prefixes.len() implies !(
        #[trigger] prefixes[i]).0.contains('\n') by {
            assert(one_line(prefixes[i].0));
        }
        lemma_free_entry(e, prefixes, '\n');
    }
    if forall|i: int| 0 <= i < prefixes.len() ==> !(#[trigger] prefixes[i]).0.contains('\r') {
        lemma_free_entry(e, prefixes, '\r');
    }
}

} // verus!
