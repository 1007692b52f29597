//! The chain and the seal: what makes a segment evidence rather than a file.
//!
//! ## A per-entry hash chain, computed in memory and never written per line
//!
//! ```text
//! h0 = sha256(the segment's canonical header)
//! hi = sha256(hi-1, "\n", the i-th entry line)
//! ```
//!
//! `hi-1` enters as the **tagged ASCII string** it is rendered as (`sha256:…`),
//! not as raw digest bytes, so every input to every step is exactly what a
//! reader can see, and a verifier written in another language has no byte-order
//! question to get wrong.
//!
//! The header enters as [`Header::render`]'s output rather than as the file's
//! literal bytes: the chain commits to what the header *says*.
//!
//! ## Seals: signed checkpoints every N entries **or** T milliseconds
//!
//! A `#seal first-last <hash> [<alg>:<base64>]` line lands periodically, which
//! localizes tampering to "between seal K and seal K+1". Seal lines are **not**
//! themselves chained: a seal states the hash, so it cannot be an input to it.

use sha2::{Digest, Sha256};
use vstd::prelude::*;
use vstd::string::*;
use vstd::utf8::encode_utf8;

use crate::error::render_error_text;
use crate::header::{header_text, Header, HeaderView};
use crate::line::{Seal, SealView};
use crate::text::{
    chars_of, is_char, joined, lemma_first_where_is, maybe, split_first, split_once, text_of,
};
use crate::time::Timestamp;

verus! {

// =====================================================================================
// Hashes
// =====================================================================================

/// The SHA-256 digest of `bytes`.
pub uninterp spec fn sha256(bytes: Seq<u8>) -> Seq<u8>;

/// `sha2::Sha256::digest`: the 32 bytes of the digest, a function of `bytes` alone.
#[verifier::external_body]
fn digest(bytes: &[u8]) -> (r: Vec<u8>)
    ensures
        r@ == sha256(bytes@),
        r@.len() == 32,
{
    Sha256::digest(bytes).to_vec()
}

/// The tag that every digest carries.
pub const HASH_ALGORITHM: &'static str = "sha256";

/// `ikigai_sign::HASH_ALG_SHA256`, the tag that every digest carries: `sha256`.
///
/// Taken from there and not copied, because both sides write `sig:contentHash` with
/// the same predicate, and two lexical forms of one value would never join in a query.
#[verifier::external_body]
fn hash_algorithm() -> (r: &'static str)
    ensures
        r@ == HASH_ALGORITHM@,
{
    ikigai_sign::HASH_ALG_SHA256
}

/// One lowercase hexadecimal digit.
pub open spec fn hex_digit(n: int) -> char {
    if n < 10 {
        (48 + n) as char
    } else {
        (87 + n) as char
    }
}

/// The lowercase hexadecimal digits of `bytes`, two for each.
pub open spec fn hex(bytes: Seq<u8>) -> Seq<char> {
    Seq::new(
        2 * bytes.len(),
        |i: int|
            if i % 2 == 0 {
                hex_digit((bytes[i / 2] / 16) as int)
            } else {
                hex_digit((bytes[i / 2] % 16) as int)
            },
    )
}

/// The SHA-256 digest of `bytes` in lowercase hexadecimal, tagged with its algorithm.
pub open spec fn tagged_hash(bytes: Seq<u8>) -> Seq<char> {
    HASH_ALGORITHM@ + seq![':'] + hex(sha256(bytes))
}

fn hex_char(n: u8) -> (c: char)
    requires
        n < 16,
    ensures
        c == hex_digit(n as int),
{
    if n < 10 {
        (48 + n) as char
    } else {
        (87 + n) as char
    }
}

/// The lowercase hex of a SHA-256 digest, tagged with its algorithm.
///
/// Tagged at every boundary, never bare: a bare hex string is a permanent,
/// unrecoverable commitment to one hash function, and a verifier years later can
/// only guess what produced it.
pub fn tagged(bytes: &[u8]) -> (out: String)
    ensures
        out@ == tagged_hash(bytes@),
{
    let d = digest(bytes);
    let mut out = hash_algorithm().to_owned();
    out.push(':');
    let ghost head = out@;
    let ghost digits = hex(d@);
    let mut i: usize = 0;
    assert(head + digits.take(0) =~= head);
    while i < d.len()
        invariant
            i <= d.len(),
            digits == hex(d@),
            out@ == head + digits.take(2 * i as int),
        decreases d.len() - i,
    {
        let ghost before = out@;
        out.push(hex_char(d[i] / 16));
        out.push(hex_char(d[i] % 16));
        proof {
            let k = 2 * i as int;
            assert(digits[k] == hex_digit((d@[i as int] / 16) as int));
            assert(digits[k + 1] == hex_digit((d@[i as int] % 16) as int));
            assert(digits.take(k + 2) =~= digits.take(k).push(digits[k]).push(digits[k + 1]));
            assert(out@ =~= head + digits.take(k + 2));
        }
        i = i + 1;
    }
    assert(digits.take(2 * i as int) =~= digits);
    out
}

// =====================================================================================
// The chain
// =====================================================================================

/// What a header enters the chain as: its rendering, or a token that says why it has
/// none.
pub open spec fn canonical_header(h: HeaderView) -> Seq<char> {
    match header_text(h) {
        Ok(text) => text,
        Err(e) => "unrenderable header: "@ + render_error_text(e),
    }
}

/// The head of a chain that no entry has been folded into yet.
pub open spec fn chain_start(h: HeaderView) -> Seq<char> {
    tagged_hash(encode_utf8(canonical_header(h)))
}

/// The head of a chain after one more entry line.
pub open spec fn chain_step(head: Seq<char>, line: Seq<char>) -> Seq<char> {
    tagged_hash(encode_utf8(head + seq!['\n'] + line))
}

/// The running hash of a segment: from the header, advanced once per entry.
///
/// Held by the writer as it appends and rebuilt by the verifier as it reads, from
/// the same two functions, so "the writer and the verifier agree" is not a
/// discipline, it is the same code.
#[derive(Debug, PartialEq, Eq)]
pub struct Chain {
    head: String,
}

impl View for Chain {
    type V = Seq<char>;

    closed spec fn view(&self) -> Seq<char> {
        self.head@
    }
}

impl Chain {
    /// The chain rooted at a header. The header carries `@prev`, so the
    /// predecessor's final seal is bound into every hash that follows.
    ///
    /// A header that will not render cannot have been written; a verifier that
    /// meets one hashes the token that says so.
    pub fn open(header: &Header) -> (r: Chain)
        ensures
            r@ == chain_start(header@),
    {
        let canonical = match header.render() {
            Ok(text) => text,
            Err(e) => joined("unrenderable header: ", &e.message()),
        };
        Chain { head: tagged(canonical.as_str().as_bytes()) }
    }

    /// Fold in one entry line: the new head is the hash of the old one, a newline
    /// and the line. `line` is the entry line exactly as it appears, with no
    /// trailing newline, so whitespace tampering inside a line is caught along
    /// with everything else.
    pub fn advance(&mut self, line: &str)
        ensures
            final(self)@ == chain_step(old(self)@, line@),
    {
        let mut buffer = self.head.clone();
        buffer.push('\n');
        buffer.append(line);
        assert(buffer@ =~= self.head@ + seq!['\n'] + line@);
        self.head = tagged(buffer.as_str().as_bytes());
    }

    /// The chain hash after the last entry folded in, tagged.
    pub fn head(&self) -> (r: &str)
        ensures
            r@ == self@,
    {
        self.head.as_str()
    }

    /// A chain resumed at a head someone else computed.
    pub fn from_head(head: String) -> (r: Chain)
        ensures
            r@ == head@,
    {
        Chain { head }
    }
}

// =====================================================================================
// Signing
// =====================================================================================

/// What signs a seal.
///
/// The seam is a trait rather than a key, because **keys resolve as resources**:
/// a host wires this to `urn:sign:sign`, and nothing in this crate changes. This
/// crate holds no key material and performs no cryptography beyond SHA-256.
///
/// What is signed is the **ASCII bytes of the tagged chain hash** (`sha256:…`),
/// which is what a verifier reconstructs.
pub trait SealSigner: Send {
    /// The algorithm id, spelled as `ikigai-sign`'s `sig:algorithm` spells it:
    /// `Ed25519` or `ES256`.
    fn algorithm(&self) -> &str;

    /// Sign the tagged chain hash, returning the base64 signature.
    ///
    /// `None` is not an error: an unsigned seal still localizes tampering, so a
    /// signer that cannot reach its key right now yields a seal that chains and
    /// does not attest.
    fn sign(&self, tagged_hash: &str) -> Option<String>;
}

/// The `#seal` token for a signature: `{algorithm}:{base64}`.
pub open spec fn token_text(algorithm: Seq<char>, value: Seq<char>) -> Seq<char> {
    algorithm + seq![':'] + value
}

/// The `#seal` token for a signature: `{algorithm}:{base64}`.
pub fn signature_token(algorithm: &str, value: &str) -> (r: String)
    ensures
        r@ == token_text(algorithm@, value@),
{
    let mut r = algorithm.to_owned();
    r.push(':');
    r.append(value);
    assert(r@ =~= token_text(algorithm@, value@));
    r
}

/// The algorithm and the value of a signature token. An untagged token has no
/// algorithm, and none is guessed at.
pub open spec fn token_parts(token: Seq<char>) -> Option<(Seq<char>, Seq<char>)> {
    match split_once(token, ':') {
        Some((algorithm, value)) => if algorithm.len() > 0 && value.len() > 0 {
            Some((algorithm, value))
        } else {
            None
        },
        None => None,
    }
}

/// Split a `#seal` signature token back into `(algorithm, base64)`.
///
/// An untagged token is not guessed at: it has no algorithm, and inventing one
/// would make the tag decorative.
pub fn split_signature(token: &str) -> (r: Option<(String, String)>)
    ensures
        match r {
            Some((algorithm, value)) => token_parts(token@) == Some((algorithm@, value@)),
            None => token_parts(token@) is None,
        },
{
    let c = chars_of(token);
    match split_first(&c, ':') {
        Some((algorithm, value)) => if algorithm.len() > 0 && value.len() > 0 {
            Some((text_of(algorithm), text_of(value)))
        } else {
            None
        },
        None => None,
    }
}

/// A token splits back into what it was made of, where the algorithm is a name without
/// a colon and there is a signature.
pub proof fn law_token_round_trip(algorithm: Seq<char>, value: Seq<char>)
    requires
        algorithm.len() > 0,
        !algorithm.contains(':'),
        value.len() > 0,
    ensures
        token_parts(token_text(algorithm, value)) == Some((algorithm, value)),
{
    let t = token_text(algorithm, value);
    let n = algorithm.len() as int;
    assert forall|i: int| 0 <= i < n implies !is_char(':')(#[trigger] t[i]) by {
        assert(t[i] == algorithm[i]);
        assert(algorithm.contains(algorithm[i]));
    }
    lemma_first_where_is(t, is_char(':'), n);
    assert(t.take(n) =~= algorithm);
    assert(t.skip(n + 1) =~= value);
}

// =====================================================================================
// Policy
// =====================================================================================

/// When a checkpoint lands: every N entries **or** every T milliseconds,
/// whichever comes first.
///
/// Both bounds, always. N alone leaves a log that is merely quiet unsealed
/// indefinitely, and the unsealed tail is the part an attacker can rewrite for
/// free; T alone would seal a busy log far too rarely to localize anything.
#[derive(Clone, Copy, Debug, PartialEq, Eq, Structural)]
pub struct SealPolicy {
    /// Seal once this many entries have accumulated since the last seal.
    pub every_entries: u64,
    /// Seal once this many milliseconds have passed since the last seal, judged
    /// when an entry is written, since a process writing nothing has nothing new
    /// to commit.
    pub every_millis: u64,
}

impl Default for SealPolicy {
    /// 1,000 entries or 60 seconds.
    fn default() -> (r: SealPolicy)
        ensures
            r == (SealPolicy { every_entries: 1_000, every_millis: 60_000 }),
    {
        SealPolicy { every_entries: 1_000, every_millis: 60_000 }
    }
}

impl SealPolicy {
    /// Never seal on its own, for a caller that seals explicitly. Close and
    /// rotate still seal, because an unsealed segment cannot be chained from at
    /// anything better than its header.
    pub fn manual() -> (r: SealPolicy)
        ensures
            r == (SealPolicy { every_entries: u64::MAX, every_millis: u64::MAX }),
    {
        SealPolicy { every_entries: u64::MAX, every_millis: u64::MAX }
    }

    /// Whether a seal is due after so many entries or so much time.
    pub fn due(&self, since_seal: u64, elapsed_millis: u64) -> (r: bool)
        ensures
            r == (since_seal >= self.every_entries || elapsed_millis >= self.every_millis),
    {
        since_seal >= self.every_entries || elapsed_millis >= self.every_millis
    }
}

/// When a segment rolls over. Both bounds are optional and both are on by
/// default; `None` disables that trigger.
#[derive(Clone, Copy, Debug, PartialEq, Eq)]
pub struct RotationPolicy {
    /// Rotate once the open segment holds this many entries.
    pub max_entries: Option<u64>,
    /// Rotate once the open segment is this old.
    pub max_age_millis: Option<u64>,
}

impl Default for RotationPolicy {
    /// 100,000 entries or 24 hours.
    fn default() -> (r: RotationPolicy)
        ensures
            r == (RotationPolicy {
                max_entries: Some(100_000),
                max_age_millis: Some(86_400_000),
            }),
    {
        RotationPolicy { max_entries: Some(100_000), max_age_millis: Some(86_400_000) }
    }
}

impl RotationPolicy {
    /// Never rotate on its own: rotation stays an explicit act.
    pub fn manual() -> (r: RotationPolicy)
        ensures
            r == (RotationPolicy { max_entries: None, max_age_millis: None }),
    {
        RotationPolicy { max_entries: None, max_age_millis: None }
    }

    /// Whether a segment with so many entries, and so old, is to be rotated.
    pub fn due(&self, entries: u64, age_millis: u64) -> (r: bool)
        ensures
            r == rotation_bound(*self, entries as nat, age_millis as nat),
    {
        let full = match self.max_entries {
            Some(max) => entries >= max,
            None => false,
        };
        let old_enough = match self.max_age_millis {
            Some(max) => age_millis >= max,
            None => false,
        };
        full || old_enough
    }
}

/// Whether a segment with so many entries, and so old, has reached a bound.
pub open spec fn rotation_bound(p: RotationPolicy, entries: nat, age_millis: nat) -> bool {
    ||| p.max_entries matches Some(max) && entries >= max
    ||| p.max_age_millis matches Some(max) && age_millis >= max
}

/// Whether a writer that has written `seq` entries, of which the first
/// `sealed_through` are sealed, owes a seal.
pub open spec fn owes_seal(
    policy: SealPolicy,
    seq: nat,
    sealed_through: nat,
    now: nat,
    last_seal_at: nat,
) -> bool {
    seq > sealed_through && (seq - sealed_through >= policy.every_entries || (if now
        > last_seal_at {
        now - last_seal_at
    } else {
        0
    }) >= policy.every_millis)
}

/// Whether a writer holding these counters owes a seal.
pub fn seal_due(
    policy: &SealPolicy,
    seq: u64,
    sealed_through: u64,
    now: Timestamp,
    last_seal_at: Timestamp,
) -> (r: bool)
    ensures
        r == owes_seal(
            *policy,
            seq as nat,
            sealed_through as nat,
            now.0 as nat,
            last_seal_at.0 as nat,
        ),
{
    seq > sealed_through && policy.due(
        seq - sealed_through,
        now.as_millis().saturating_sub(last_seal_at.as_millis()),
    )
}

/// The seal over what follows `sealed_through` up to `seq`, with the chain at `head`.
pub open spec fn seal_over(
    sealed_through: nat,
    seq: nat,
    head: Seq<char>,
    signature: Option<Seq<char>>,
) -> SealView {
    SealView { first: sealed_through + 1, last: seq, hash: head, signature }
}

/// Build a [`Seal`] over the range `sealed_through+1..=seq` at `head`, with the
/// signature that a signer gave, if any.
pub fn seal_with(
    sealed_through: u64,
    seq: u64,
    head: &str,
    signature: Option<String>,
) -> (r: Seal)
    requires
        sealed_through < u64::MAX,
    ensures
        r@ == seal_over(
            sealed_through as nat,
            seq as nat,
            head@,
            maybe(signature),
        ),
{
    Seal { first: sealed_through + 1, last: seq, hash: head.to_owned(), signature }
}

/// Whether `r` is the token for a signature over `head`: nothing without a signer, and
/// otherwise what the signer answers for exactly that hash, with its algorithm.
pub open spec fn is_signed<S: SealSigner>(
    signer: Option<S>,
    head: &str,
    r: Option<Seq<char>>,
) -> bool {
    match signer {
        None => r is None,
        Some(s) => exists|answer: Option<String>| #[trigger]
            call_ensures(S::sign, (&s, head), answer) && match answer {
                None => r is None,
                Some(value) => exists|algorithm: &str| #[trigger]
                    call_ensures(S::algorithm, (&s,), algorithm) && r == Some(
                        token_text(algorithm@, value@),
                    ),
            },
    }
}

/// The token a signer gives for a hash: its algorithm and the signature, or nothing
/// where it does not sign.
pub fn signed<S: SealSigner>(signer: &Option<S>, head: &str) -> (r: Option<String>)
    ensures
        is_signed(*signer, head, maybe(r)),
{
    match signer {
        None => None,
        Some(s) => {
            let answer = s.sign(head);
            assert(call_ensures(S::sign, (s, head), answer));
            match answer {
                None => None,
                Some(value) => {
                    let algorithm = s.algorithm();
                    assert(call_ensures(S::algorithm, (s,), algorithm));
                    Some(signature_token(algorithm, &value))
                },
            }
        },
    }
}

} // verus!
