//! What taking a text apart gives: nothing is lost of it, and nothing is put into it.

use vstd::prelude::*;
use vstd::string::*;

use crate::number::{decimal, lemma_decimal, lemma_read_decimal, read_signed, read_unsigned, value};
use crate::text::{
    chomp, first_where, has_white, in_line, is_char, is_digit, is_letter, is_white,
    lemma_first_where, lemma_first_where_is, lemma_past_last_where, lemma_past_last_where_is,
    lemma_precedes_total, lemma_precedes_transitive, lines, past_last_where, precedes, solids,
    split_once, starts_with, trim, trim_start, unended,
};
use crate::token::{iri_like, key_char, key_like};
use crate::writer::slug_char;

verus! {

/// Of the plain characters, the blank and those from the tab to the carriage return are
/// white space, and no other.
pub proof fn law_plain_white_space(c: char)
    requires
        c < '\u{80}',
    ensures
        is_white(c) <==> c == ' ' || '\t' <= c <= '\r',
{
}

/// A text is what trimming leaves of it, with white space before and after; and what is left
/// has none at its ends.
pub proof fn law_trim(s: Seq<char>)
    ensures
        exists|i: int, j: int|
            0 <= i <= j <= s.len() && trim(s) == #[trigger] s.subrange(i, j) && (forall|k: int|
                0 <= k < i ==> is_white(#[trigger] s[k])) && (forall|k: int|
                j <= k < s.len() ==> is_white(#[trigger] s[k])),
        trim(s).len() > 0 ==> !is_white(trim(s)[0]) && !is_white(trim(s).last()),
        trim(s).len() == 0 <==> forall|k: int| 0 <= k < s.len() ==> is_white(#[trigger] s[k]),
{
    let i = first_where(s, solids());
    let t = trim_start(s);
    let n = past_last_where(t, solids());
    lemma_first_where(s, solids());
    lemma_past_last_where(t, solids());
    let j = i + n;
    assert(trim(s) =~= s.subrange(i, j));
    assert forall|k: int| 0 <= k < i implies is_white(#[trigger] s[k]) by {
        assert(!solids()(s[k]));
    }
    assert forall|k: int| j <= k < s.len() implies is_white(#[trigger] s[k]) by {
        assert(t[k - i] == s[k]);
        assert(!solids()(t[k - i]));
    }
    if n > 0 {
        assert(t[0] == s[i]);
        assert(solids()(s[i]));
        assert(solids()(t[n - 1]));
        assert(trim(s)[0] == s[i]);
        assert(trim(s).last() == t[n - 1]);
    }
}

/// A line without its ending has none left to lose, and keeps everything else.
pub proof fn law_chomp(s: Seq<char>)
    ensures
        chomp(chomp(s)) == chomp(s),
        starts_with(s, chomp(s)),
        forall|k: int| chomp(s).len() <= k < s.len() ==> #[trigger] s[k] == '\n' || s[k] == '\r',
        chomp(s).len() > 0 ==> chomp(s).last() != '\n' && chomp(s).last() != '\r',
{
    let n = past_last_where(s, in_line());
    lemma_past_last_where(s, in_line());
    let t = chomp(s);
    if n > 0 {
        assert(t[n - 1] == s[n - 1]);
    }
    assert forall|k: int| n <= k < s.len() implies #[trigger] s[k] == '\n' || s[k] == '\r' by {
        assert(!in_line()(s[k]));
    }
    lemma_past_last_where_is(t, in_line(), n);
    assert(t.take(n) =~= t);
}

/// A text is its lines, one after the other: each but perhaps the last ends with a newline,
/// and there is no other one in it.
pub proof fn law_lines(s: Seq<char>)
    ensures
        lines(s).flatten() == s,
        forall|i: int, k: int|
            #![trigger lines(s)[i][k]]
            0 <= i < lines(s).len() && 0 <= k < lines(s)[i].len() - 1 ==> lines(s)[i][k] != '\n',
        forall|i: int|
            0 <= i < lines(s).len() ==> (#[trigger] lines(s)[i]).len() > 0 && (i < lines(s).len()
                - 1 ==> lines(s)[i].last() == '\n'),
    decreases s.len(),
{
    let all = lines(s);
    if s.len() > 0 {
        let n = first_where(s, is_char('\n'));
        lemma_first_where(s, is_char('\n'));
        if n >= s.len() {
            assert(all.drop_first().flatten() =~= Seq::<char>::empty());
            assert(all.flatten() =~= s);
            assert forall|i: int, k: int|
                #![trigger all[i][k]]
                0 <= i < all.len() && 0 <= k < all[i].len() - 1 implies all[i][k] != '\n' by {
                assert(!is_char('\n')(s[k]));
            }
        } else {
            let head = s.take(n + 1);
            let rest = s.skip(n + 1);
            law_lines(rest);
            assert(all.drop_first() =~= lines(rest));
            assert(all.flatten() =~= head + rest);
            assert(head + rest =~= s);
            assert forall|i: int, k: int|
                #![trigger all[i][k]]
                0 <= i < all.len() && 0 <= k < all[i].len() - 1 implies all[i][k] != '\n' by {
                if i == 0 {
                    assert(!is_char('\n')(s[k]));
                } else {
                    assert(all[i] == lines(rest)[i - 1]);
                }
            }
            assert forall|i: int| 0 <= i < all.len() implies (#[trigger] all[i]).len() > 0 && (i
                < all.len() - 1 ==> all[i].last() == '\n') by {
                if i == 0 {
                    assert(is_char('\n')(s[n]));
                } else {
                    assert(all[i] == lines(rest)[i - 1]);
                }
            }
        }
    }
}

/// A line loses the newline that ends it, with a carriage return before it, and nothing
/// else.
pub proof fn law_unended(line: Seq<char>)
    ensures
        line == unended(line) || line == unended(line) + seq!['\n'] || line == unended(line)
            + seq!['\r', '\n'],
        !line.contains('\n') ==> unended(line) == line,
        line.len() > 0 && line.last() == '\n' ==> unended(line) != line,
{
    if line.len() > 0 && line.last() == '\n' {
        let t = line.drop_last();
        assert(line =~= t + seq!['\n']);
        assert(line[line.len() - 1] == '\n');
        if t.len() > 0 && t.last() == '\r' {
            assert(line =~= t.drop_last() + seq!['\r', '\n']);
        }
    }
}

/// A text is split at the first place where the character stands, and only where it does.
pub proof fn law_split_once(s: Seq<char>, c: char, a: Seq<char>, b: Seq<char>)
    ensures
        split_once(s, c) == Some((a, b)) <==> s == a + seq![c] + b && !a.contains(c),
        split_once(s, c) is None <==> !s.contains(c),
{
    let n = first_where(s, is_char(c));
    lemma_first_where(s, is_char(c));
    if n < s.len() {
        assert(is_char(c)(s[n]));
        assert(s[n] == c);
        assert(s =~= s.take(n) + seq![c] + s.skip(n + 1));
        if s.take(n).contains(c) {
            let k = choose|k: int| 0 <= k < s.take(n).len() && s.take(n)[k] == c;
            assert(!is_char(c)(s[k]));
        }
    } else if s.contains(c) {
        let k = choose|k: int| 0 <= k < s.len() && s[k] == c;
        assert(!is_char(c)(s[k]));
    }
    if s == a + seq![c] + b && !a.contains(c) {
        let k = a.len() as int;
        assert forall|i: int| 0 <= i < k implies !is_char(c)(#[trigger] s[i]) by {
            assert(s[i] == a[i]);
        }
        assert(s[k] == c);
        lemma_first_where_is(s, is_char(c), k);
        assert(s.take(k) =~= a);
        assert(s.skip(k + 1) =~= b);
    }
}

/// A text begins with another exactly where it is that one with something after it.
pub proof fn law_starts_with(s: Seq<char>, p: Seq<char>, rest: Seq<char>)
    ensures
        starts_with(p + rest, p),
        starts_with(s, p) ==> s == p + s.skip(p.len() as int),
{
    assert((p + rest).take(p.len() as int) =~= p);
    if starts_with(s, p) {
        assert(s =~= s.take(p.len() as int) + s.skip(p.len() as int));
    }
}

/// Texts stand in one order, by the first character in which they differ.
pub proof fn law_order(a: Seq<char>, b: Seq<char>, c: Seq<char>, x: char, y: char)
    ensures
        !precedes(a, a),
        !(precedes(a, b) && precedes(b, a)),
        a != b ==> precedes(a, b) || precedes(b, a),
        precedes(a, b) && precedes(b, c) ==> precedes(a, c),
        precedes(a, a + seq![x] + b),
        x < y ==> precedes(a + seq![x] + b, a + seq![y] + c),
    decreases a.len(),
{
    lemma_precedes_total(a, a);
    lemma_precedes_total(a, b);
    if precedes(a, b) && precedes(b, c) {
        lemma_precedes_transitive(a, b, c);
    }
    let p = a + seq![x] + b;
    let q = a + seq![y] + c;
    if a.len() > 0 {
        let t = a.drop_first();
        law_order(t, b, c, x, y);
        assert(p.drop_first() =~= t + seq![x] + b);
        assert(q.drop_first() =~= t + seq![y] + c);
    }
}

/// A number is written in digits, without zeros before it, and reads as itself; and what
/// reads as a number is digits, after at most a sign, each worth ten times the next.
pub proof fn law_numbers(n: nat, max: nat, s: Seq<char>, c: char)
    ensures
        n <= max ==> read_unsigned(decimal(n), max) == Some(n),
        n > max ==> read_unsigned(decimal(n), max) is None,
        forall|i: int| 0 <= i < decimal(n).len() ==> is_digit(#[trigger] decimal(n)[i]),
        decimal(n).len() > 1 ==> decimal(n)[0] != '0',
        read_unsigned(s, max) matches Some(m) ==> m <= max && s.len() > 0 && (is_digit(s[0]) || (
        s[0] == '+' && s.len() > 1)) && forall|i: int|
            1 <= i < s.len() ==> is_digit(#[trigger] s[i]),
        value(s.push(c)) == (value(s) * 10 + (c as int - '0' as int)) as nat,
        read_signed(s) matches Some(m) ==> i64::MIN <= m <= i64::MAX && (m < 0 ==> s[0] == '-'),
        n <= i64::MAX ==> read_signed(decimal(n)) == Some(n as int),
        n <= i64::MAX + 1 ==> read_signed(seq!['-'] + decimal(n)) == Some(-(n as int)),
{
    lemma_decimal(n);
    if n <= max {
        lemma_read_decimal(n, max);
    }
    if n <= i64::MAX {
        lemma_read_decimal(n, i64::MAX as nat);
    }
    lemma_leading(n);
    assert(s.push(c).drop_last() =~= s);
    assert((seq!['-'] + decimal(n)).skip(1) =~= decimal(n));
    if let Some(m) = read_unsigned(s, max) {
        if s[0] == '+' {
            let body = s.skip(1);
            assert forall|i: int| 1 <= i < s.len() implies is_digit(#[trigger] s[i]) by {
                assert(body[i - 1] == s[i]);
            }
        }
    }
}

proof fn lemma_leading(n: nat)
    ensures
        n > 0 ==> decimal(n)[0] != '0',
    decreases n,
{
    lemma_decimal(n);
    if n >= 10 {
        lemma_leading(n / 10);
        lemma_decimal(n / 10);
        assert(decimal(n)[0] == decimal(n / 10)[0]);
    }
}

/// Which characters are letters and digits, and which may stand in a key and in the name of
/// a file.
pub proof fn law_characters(c: char)
    ensures
        is_letter(c) <==> 'a' <= c <= 'z' || 'A' <= c <= 'Z',
        is_digit(c) <==> '0' <= c <= '9',
        key_char(c) <==> 'a' <= c <= 'z' || 'A' <= c <= 'Z' || '0' <= c <= '9' || c == '_' || c
            == '.' || c == '-',
        slug_char(c) <==> 'a' <= c <= 'z' || 'A' <= c <= 'Z' || '0' <= c <= '9' || c == '_' || c
            == '.' || c == '-',
{
}

/// What can stand as an IRI has a colon in it, and nothing that would end a column: no white
/// space, no quote and no angle bracket.
pub proof fn law_iris(a: Seq<char>, c: char, b: Seq<char>)
    ensures
        iri_like(a + seq![c] + b) ==> c != '<' && c != '>' && c != '"' && !is_white(c),
        iri_like(a) ==> a.contains(':'),
        iri_like(a + seq![c] + b) && a.contains(':') ==> iri_like(a),
        iri_like(a) && c != '<' && c != '>' && c != '"' && !is_white(c) ==> iri_like(a.push(c)),
        c == ':' && a.len() == 0 && b.len() == 0 ==> iri_like(a + seq![c] + b),
{
    let s = a + seq![c] + b;
    let n = a.len() as int;
    assert(s[n] == c);
    if iri_like(s) {
        assert(s.contains(c));
        assert forall|i: int| 0 <= i < a.len() implies #[trigger] a[i] == s[i] by {}
        assert forall|x: char| #[trigger] a.contains(x) implies s.contains(x) by {
            let i = choose|i: int| 0 <= i < a.len() && a[i] == x;
            assert(s[i] == x);
        }
        assert(!has_white(a)) by {
            if has_white(a) {
                let i = choose|i: int| 0 <= i < a.len() && is_white(#[trigger] a[i]);
                assert(is_white(s[i]));
            }
        }
    }
    if iri_like(a) && c != '<' && c != '>' && c != '"' && !is_white(c) {
        let t = a.push(c);
        let k = choose|k: int| 0 <= k < a.len() && a[k] == ':';
        assert(t[k] == ':');
        assert forall|x: char| #[trigger] t.contains(x) implies a.contains(x) || x == c by {
            let i = choose|i: int| 0 <= i < t.len() && t[i] == x;
            if i < a.len() {
                assert(a[i] == x);
            }
        }
        assert(!has_white(t)) by {
            if has_white(t) {
                let i = choose|i: int| 0 <= i < t.len() && is_white(#[trigger] t[i]);
                if i < a.len() {
                    assert(is_white(a[i]));
                }
            }
        }
    }
}

/// What can stand as a key begins with a letter, and goes on with the characters of keys.
pub proof fn law_keys(k: Seq<char>, c: char)
    ensures
        key_like(seq![c]) <==> is_letter(c),
        key_like(k) ==> (key_like(k.push(c)) <==> key_char(c)),
        k.len() > 0 && !key_like(k) ==> !key_like(k.push(c)),
        !key_like(Seq::empty()),
{
    let t = k.push(c);
    let n = k.len() as int;
    assert(t[n] == c);
    if key_like(t) {
        assert(key_char(t[n]));
        assert forall|i: int| 0 <= i < k.len() implies key_char(#[trigger] k[i]) by {
            assert(key_char(t[i]));
        }
    }
    if key_like(k) && key_char(c) {
        assert forall|i: int| 0 <= i < t.len() implies key_char(#[trigger] t[i]) by {
            if i < n {
                assert(key_char(k[i]));
            }
        }
    }
    assert(seq![c][0] == c);
}

} // verus!
