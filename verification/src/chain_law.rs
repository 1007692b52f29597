//! What holds of the hash chain: it commits to the header and to every entry line, in
//! order.

use vstd::prelude::*;
use vstd::utf8::{decode_utf8, encode_utf8, encode_utf8_decode_utf8};

use crate::chain::{
    canonical_header, chain_start, chain_step, hex, hex_digit, sha256, tagged_hash,
};
use crate::entry::{lemma_one_line_unbroken, one_line};
use crate::header::{header_text, HeaderView};
use crate::header_law::{law_header_round_trip, rereadable};
use crate::line::one_word;
use crate::text::{is_char, is_white, lemma_first_where_is};

verus! {

/// The chain over a header and the entry lines `ls`.
pub open spec fn chain_after(h: HeaderView, ls: Seq<Seq<char>>) -> Seq<char>
    decreases ls.len(),
{
    if ls.len() == 0 {
        chain_start(h)
    } else {
        chain_step(chain_after(h, ls.drop_last()), ls.last())
    }
}

/// Whether two different inputs have one SHA-256 digest.
pub open spec fn collision() -> bool {
    exists|x: Seq<u8>, y: Seq<u8>| x != y && #[trigger] sha256(x) == #[trigger] sha256(y)
}

/// A hash is one word.
pub proof fn lemma_hash_word(bytes: Seq<u8>)
    ensures
        one_word(tagged_hash(bytes)),
        tagged_hash(bytes)[0] == 's',
{
    let digits = hex(sha256(bytes));
    let s = tagged_hash(bytes);
    reveal_strlit("sha256");
    assert forall|i: int| 0 <= i < s.len() implies !is_white(#[trigger] s[i]) by {
        if i > 6 {
            assert(s[i] == digits[i - 7]);
            let n: int = if (i - 7) % 2 == 0 {
                (sha256(bytes)[(i - 7) / 2] / 16) as int
            } else {
                (sha256(bytes)[(i - 7) / 2] % 16) as int
            };
            assert(0 <= n < 16);
            assert(digits[i - 7] == hex_digit(n));
        }
    }
    assert(s[0] == 's');
}

/// Hexadecimal digits say which bytes they stand for.
proof fn lemma_hex_injective(a: Seq<u8>, b: Seq<u8>)
    requires
        hex(a) == hex(b),
    ensures
        a == b,
{
    assert(hex(a).len() == 2 * a.len());
    assert(hex(b).len() == 2 * b.len());
    assert forall|i: int| 0 <= i < a.len() implies a[i] == b[i] by {
        assert(hex(a)[2 * i] == hex_digit((a[i] / 16) as int));
        assert(hex(b)[2 * i] == hex_digit((b[i] / 16) as int));
        assert(hex(a)[2 * i + 1] == hex_digit((a[i] % 16) as int));
        assert(hex(b)[2 * i + 1] == hex_digit((b[i] % 16) as int));
        lemma_digit_injective((a[i] / 16) as int, (b[i] / 16) as int);
        lemma_digit_injective((a[i] % 16) as int, (b[i] % 16) as int);
        assert(a[i] == 16 * (a[i] / 16) + a[i] % 16);
        assert(b[i] == 16 * (b[i] / 16) + b[i] % 16);
    }
    assert(a =~= b);
}

proof fn lemma_digit_injective(m: int, n: int)
    requires
        0 <= m < 16,
        0 <= n < 16,
        hex_digit(m) == hex_digit(n),
    ensures
        m == n,
{
}

/// One hash stands for one text, but for a collision.
proof fn lemma_hash_commits(a: Seq<char>, b: Seq<char>)
    requires
        tagged_hash(encode_utf8(a)) == tagged_hash(encode_utf8(b)),
    ensures
        a == b || collision(),
{
    let x = encode_utf8(a);
    let y = encode_utf8(b);
    let tag = crate::chain::HASH_ALGORITHM@ + seq![':'];
    assert(tagged_hash(x).skip(tag.len() as int) =~= hex(sha256(x)));
    assert(tagged_hash(y).skip(tag.len() as int) =~= hex(sha256(y)));
    lemma_hex_injective(sha256(x), sha256(y));
    encode_utf8_decode_utf8(a);
    encode_utf8_decode_utf8(b);
    if x == y {
        assert(decode_utf8(x) == a);
        assert(decode_utf8(y) == b);
    } else {
        assert(sha256(x) == sha256(y));
    }
}

/// A head is one word, and so one line.
pub proof fn lemma_chain_word(h: HeaderView, ls: Seq<Seq<char>>)
    ensures
        one_word(chain_after(h, ls)),
        one_line(chain_after(h, ls)),
        chain_after(h, ls)[0] == 's',
{
    if ls.len() == 0 {
        lemma_hash_word(encode_utf8(canonical_header(h)));
    } else {
        lemma_hash_word(
            encode_utf8(chain_after(h, ls.drop_last()) + seq!['\n'] + ls.last()),
        );
    }
    lemma_one_line_unbroken(chain_after(h, ls));
}

/// What stands before and after the first newline is known from the whole.
proof fn lemma_first_line(a: Seq<char>, x: Seq<char>, b: Seq<char>, y: Seq<char>)
    requires
        one_line(a),
        one_line(b),
        a + seq!['\n'] + x == b + seq!['\n'] + y,
    ensures
        a == b,
        x == y,
{
    let s = a + seq!['\n'] + x;
    assert forall|i: int| 0 <= i < a.len() implies !is_char('\n')(#[trigger] s[i]) by {
        assert(s[i] == a[i]);
        assert(a.contains(a[i]));
    }
    assert(s[a.len() as int] == '\n');
    lemma_first_where_is(s, is_char('\n'), a.len() as int);
    let t = b + seq!['\n'] + y;
    assert forall|i: int| 0 <= i < b.len() implies !is_char('\n')(#[trigger] t[i]) by {
        assert(t[i] == b[i]);
        assert(b.contains(b[i]));
    }
    assert(t[b.len() as int] == '\n');
    lemma_first_where_is(t, is_char('\n'), b.len() as int);
    assert(s.take(a.len() as int) =~= a);
    assert(t.take(b.len() as int) =~= b);
    assert(s.skip(a.len() as int + 1) =~= x);
    assert(t.skip(b.len() as int + 1) =~= y);
}

/// A header does not begin as a hash does.
proof fn lemma_header_is_no_hash(h: HeaderView)
    ensures
        canonical_header(h).len() > 0,
        canonical_header(h)[0] != 's',
{
    reveal_strlit("# ikigai-log v");
    reveal_strlit("unrenderable header: ");
    let marker = "# ikigai-log v"@;
    match header_text(h) {
        Ok(text) => {
            assert(text[0] == marker[0]);
        },
        Err(_) => {},
    }
}

/// The chain commits to everything: two segments at one chain hash have one header and
/// the same entry lines in the same order, but for a collision of the hash function. So
/// whatever a seal states the hash of cannot be altered without the hash changing.
pub proof fn law_chain_commits(
    h1: HeaderView,
    a: Seq<Seq<char>>,
    h2: HeaderView,
    b: Seq<Seq<char>>,
)
    requires
        chain_after(h1, a) == chain_after(h2, b),
    ensures
        (canonical_header(h1) == canonical_header(h2) && a == b) || collision(),
        header_text(h1) is Ok && rereadable(h1) && header_text(h2) is Ok && rereadable(h2) ==> h1
            == h2 || collision(),
    decreases a.len() + b.len(),
{
    lemma_header_is_no_hash(h1);
    lemma_header_is_no_hash(h2);
    if a.len() == 0 && b.len() == 0 {
        lemma_hash_commits(canonical_header(h1), canonical_header(h2));
        assert(a =~= b);
        if header_text(h1) is Ok && rereadable(h1) && header_text(h2) is Ok && rereadable(h2) {
            let none = Seq::<char>::empty();
            law_header_round_trip(h1, none);
            law_header_round_trip(h2, none);
            assert(header_text(h1)->Ok_0 + none =~= header_text(h1)->Ok_0);
            assert(header_text(h2)->Ok_0 + none =~= header_text(h2)->Ok_0);
        }
    } else if a.len() == 0 {
        let head = chain_after(h2, b.drop_last());
        lemma_chain_word(h2, b.drop_last());
        lemma_hash_commits(canonical_header(h1), head + seq!['\n'] + b.last());
        assert((head + seq!['\n'] + b.last())[0] == head[0]);
    } else if b.len() == 0 {
        let head = chain_after(h1, a.drop_last());
        lemma_chain_word(h1, a.drop_last());
        lemma_hash_commits(head + seq!['\n'] + a.last(), canonical_header(h2));
        assert((head + seq!['\n'] + a.last())[0] == head[0]);
    } else {
        let p = chain_after(h1, a.drop_last());
        let q = chain_after(h2, b.drop_last());
        lemma_chain_word(h1, a.drop_last());
        lemma_chain_word(h2, b.drop_last());
        lemma_hash_commits(p + seq!['\n'] + a.last(), q + seq!['\n'] + b.last());
        if !collision() {
            lemma_first_line(p, a.last(), q, b.last());
            law_chain_commits(h1, a.drop_last(), h2, b.drop_last());
            assert(a =~= a.drop_last().push(a.last()));
            assert(b =~= b.drop_last().push(b.last()));
        }
    }
}

/// The number that a lowercase hexadecimal digit stands for.
pub open spec fn hex_value(c: char) -> int {
    if '0' <= c <= '9' {
        c as int - '0' as int
    } else {
        c as int - 'a' as int + 10
    }
}

/// A byte is written as two lowercase hexadecimal digits, the higher one first.
pub proof fn law_hex_reads_back(bytes: Seq<u8>, i: int)
    requires
        0 <= i < bytes.len(),
    ensures
        hex(bytes).len() == 2 * bytes.len(),
        hex_value(hex(bytes)[2 * i]) * 16 + hex_value(hex(bytes)[2 * i + 1]) == bytes[i],
        forall|k: int|
            #![trigger hex(bytes)[k]]
            0 <= k < hex(bytes).len() ==> '0' <= hex(bytes)[k] <= '9' || 'a' <= hex(bytes)[k]
                <= 'f',
{
    let b = bytes[i] as int;
    assert((2 * i) / 2 == i && (2 * i) % 2 == 0 && (2 * i + 1) / 2 == i && (2 * i + 1) % 2 == 1);
    assert(hex(bytes)[2 * i] == hex_digit(b / 16));
    assert(hex(bytes)[2 * i + 1] == hex_digit(b % 16));
    assert(b == b / 16 * 16 + b % 16);
    assert forall|k: int|
        #![trigger hex(bytes)[k]]
        0 <= k < hex(bytes).len() implies '0' <= hex(bytes)[k] <= '9' || 'a' <= hex(bytes)[k]
        <= 'f' by {
        let n: int = if k % 2 == 0 {
            (bytes[k / 2] / 16) as int
        } else {
            (bytes[k / 2] % 16) as int
        };
        assert(0 <= n < 16);
        assert(hex(bytes)[k] == hex_digit(n));
    }
}

/// The chain starts at the tagged hash of the header's text, and each line steps it on to
/// the tagged hash of what it was, a newline, and the line: so that anyone can recompute it.
pub proof fn law_chain_can_be_recomputed(h: HeaderView, head: Seq<char>, line: Seq<char>)
    ensures
        header_text(h) matches Ok(text) ==> chain_start(h) == "sha256:"@ + hex(
            sha256(encode_utf8(text)),
        ),
        chain_step(head, line) == "sha256:"@ + hex(sha256(encode_utf8(head + "\n"@ + line))),
{
    reveal_strlit("sha256");
    reveal_strlit("sha256:");
    reveal_strlit("\n");
    assert("sha256:"@ =~= "sha256"@ + seq![':']);
    assert("\n"@ =~= seq!['\n']);
}

} // verus!
