//! What holds of every segment that is written: what the writer puts down is what
//! verification finds in order.

use vstd::prelude::*;

use crate::chain::SealSigner;
use crate::chain_law::lemma_hash_word;
use crate::entry::{
    law_entry_one_line, lemma_one_line_unbroken, one_line, usable_prefixes, EntryView,
};
use crate::finding::{FindingView, ReportView};
use crate::header::{header_text, PrevView};
use crate::header_law::{is_trimmed, law_header_round_trip, rereadable};
use crate::line::{one_word, seal_text, SealView};
use crate::line_law::{
    all_one_line, block_lines, ended_lines, joined_lines, law_entry_line, law_lines_of_joined,
    law_seal_line, lemma_blank_line, lemma_block_lines, lemma_body_start, lemma_joined_lines,
    lemma_text_lines_of_joined,
};
use crate::lineage::emitted;
use crate::lineage_law::law_descends_reflexive;
use crate::number::lemma_read_decimal;
use crate::table::stored;
use crate::text::{has_white, is_white, lemma_precedes_total, lines, precedes, unbroken};
use crate::time::WIDE_FROM;
use crate::verify::{
    after_line, after_lines, at_start, brackets, end_findings, key_for, link_findings,
    named_successor, progress, stated_seq, verified, ProgressView, LOG_SUCCESSOR,
};
use crate::vocabulary::{LOG_NS, PROCESS_STOP_CLASS, PROV_NS, ROTATION_CLASS};
use crate::writer::{
    due_for_seal, ending, header_lines, next_line, next_seal, numbered, opened, opening_header,
    sealing, segment_prefixes, signs, with_entry, with_seal, writing, Opening, WriteErrorView,
    WriterView,
};

verus! {

/// The lines of a segment that follow the blank line after its header.
pub open spec fn body_lines(w: WriterView) -> Seq<Seq<char>> {
    w.lines.skip(block_lines(w.header).len() as int + 1)
}

/// What reading back the lines of a segment comes to.
pub open spec fn reading(w: WriterView) -> ProgressView {
    after_lines(
        w.header,
        w.vocabulary,
        block_lines(w.header).len() + 1,
        ended_lines(body_lines(w)),
    )
}

/// Whether what is read back agrees with what the writer keeps count of, and nothing is
/// found wrong.
pub open spec fn agrees(w: WriterView, p: ProgressView) -> bool {
    &&& p.chain == w.chain
    &&& p.head == w.sealed_head
    &&& p.entries == w.seq
    &&& p.sealed_through == w.sealed_through
    &&& p.last_seq == (if w.seq == 0 {
        None
    } else {
        Some(w.seq)
    })
    &&& p.findings.len() == 0
}

/// Whether the lines of a segment are its header and then exactly what the writer keeps
/// count of.
pub open spec fn sound(w: WriterView) -> bool {
    &&& header_text(w.header) is Ok
    &&& rereadable(w.header)
    &&& usable_prefixes(w.header.prefixes)
    &&& block_lines(w.header).len() < w.lines.len()
    &&& w.lines.take(block_lines(w.header).len() as int + 1) == block_lines(w.header).push(
        Seq::empty(),
    )
    &&& all_one_line(body_lines(w))
    &&& one_word(w.chain)
    &&& w.sealed_through <= w.seq <= u64::MAX
    &&& agrees(w, reading(w))
}

/// Whether every token that a signer gives is one word, so that a seal line holds it as
/// one.
pub open spec fn tidy<G: SealSigner>(signer: Option<G>) -> bool {
    forall|hash: Seq<char>, token: Option<Seq<char>>| #[trigger]
        signs(signer, hash, token) ==> (token matches Some(t) ==> one_word(t))
}

/// Reading one more line.
proof fn lemma_reading_push(w: WriterView, after: WriterView, line: Seq<char>)
    requires
        sound(w),
        after.header == w.header,
        after.vocabulary == w.vocabulary,
        after.lines == w.lines.push(line),
    ensures
        body_lines(after) == body_lines(w).push(line),
        after.lines.take(block_lines(w.header).len() as int + 1) == w.lines.take(
            block_lines(w.header).len() as int + 1,
        ),
        reading(after) == after_line(
            reading(w),
            w.vocabulary,
            key_for(w.vocabulary.keys, LOG_SUCCESSOR@),
            w.header.prefixes,
            block_lines(w.header).len() + 1 + body_lines(after).len(),
            line + seq!['\n'],
        ),
{
    let n = block_lines(w.header).len() as int + 1;
    assert(after.lines.skip(n) =~= w.lines.skip(n).push(line));
    assert(after.lines.take(n) =~= w.lines.take(n));
    let before = ended_lines(body_lines(w));
    let all = ended_lines(body_lines(after));
    assert(all =~= before.push(line + seq!['\n']));
    assert(all.drop_last() =~= before);
}

/// The successor that an entry names, once it is written.
pub open spec fn successor_in(w: WriterView, e: EntryView) -> Option<Seq<char>> {
    named_successor(
        numbered(e, w.seq + 1),
        w.vocabulary,
        key_for(w.vocabulary.keys, LOG_SUCCESSOR@),
    )
}

/// A segment stays in order when an entry is written.
pub proof fn law_entry_keeps_sound(w: WriterView, e: EntryView)
    requires
        sound(w),
        w.seq < u64::MAX,
        e.time < WIDE_FROM,
        next_line(w, e) is Ok,
    ensures
        sound(with_entry(w, next_line(w, e)->Ok_0)),
        ({
            let p = reading(with_entry(w, next_line(w, e)->Ok_0));
            &&& p.last_class == Some(e.class)
            &&& p.successor == successor_in(w, e)
            &&& p.records_level_change == (reading(w).records_level_change || brackets(
                numbered(e, w.seq + 1),
                w.vocabulary,
            ))
        }),
{
    let line = next_line(w, e)->Ok_0;
    let full = numbered(e, w.seq + 1);
    let after = with_entry(w, line);
    let p = reading(w);
    lemma_reading_push(w, after, line);
    law_entry_line(full, w.header.prefixes);
    assert forall|i: int| 0 <= i < w.header.prefixes.len() implies one_line(
        #[trigger] w.header.prefixes[i].0,
    ) by {
        assert(unbroken(w.header.prefixes[i].0));
        lemma_one_line_unbroken(w.header.prefixes[i].0);
    }
    law_entry_one_line(full, w.header.prefixes);
    let body = body_lines(after);
    assert forall|i: int| 0 <= i < body.len() implies one_line(#[trigger] body[i]) by {
        if i < body_lines(w).len() {
            assert(body[i] == body_lines(w)[i]);
        }
    }
    lemma_read_decimal(w.seq + 1, u64::MAX as nat);
    assert(full.fields[0].0 == "seq"@);
    assert(stated_seq(full) == Some(w.seq + 1));
    lemma_hash_word(
        vstd::utf8::encode_utf8(w.chain + seq!['\n'] + line),
    );
    assert(reading(after).findings =~= Seq::empty());
}

/// A segment stays in order when it is sealed.
pub proof fn law_seal_keeps_sound(w: WriterView, now: nat, signature: Option<Seq<char>>)
    requires
        sound(w),
        w.sealed_through < w.seq,
        signature matches Some(t) ==> one_word(t),
    ensures
        sound(with_seal(w, now, signature)),
        ({
            let p = reading(with_seal(w, now, signature));
            &&& p.last_class == reading(w).last_class
            &&& p.successor == reading(w).successor
            &&& p.records_level_change == reading(w).records_level_change
        }),
{
    let seal = next_seal(w, signature);
    let line = seal_text(seal);
    let after = with_seal(w, now, signature);
    lemma_reading_push(w, after, line);
    law_seal_line(seal, w.header.prefixes);
    let body = body_lines(after);
    assert forall|i: int| 0 <= i < body.len() implies one_line(#[trigger] body[i]) by {
        if i < body_lines(w).len() {
            assert(body[i] == body_lines(w)[i]);
        }
    }
    assert(reading(after).findings =~= Seq::empty());
}

/// A segment is in order when it has just been opened, on a sink that has taken nothing
/// before.
pub proof fn law_opened_is_sound(o: Opening, rank: int, reliable: bool)
    requires
        header_text(opening_header(o)) is Ok,
        rereadable(opening_header(o)),
    ensures
        sound(opened(o, rank, header_lines(header_text(opening_header(o))->Ok_0), reliable)),
{
    let h = opening_header(o);
    let text = header_text(h)->Ok_0;
    let w = opened(o, rank, header_lines(text), reliable);
    let none = Seq::<char>::empty();
    let block = block_lines(h);
    let top = block.push(none);
    lemma_segment_prefixes();
    lemma_block_lines(h);
    assert forall|i: int| 0 <= i < top.len() implies one_line(#[trigger] top[i]) && (top[i].len()
        == 0 || top[i].last() != '\r') by {
        if i < block.len() {
            assert(top[i] == block[i]);
            assert(is_trimmed(block[i]));
        }
    }
    lemma_text_lines_of_joined(top);
    assert(w.lines =~= top.push(none));
    assert(w.lines.take(block.len() as int + 1) =~= top);
    let body = body_lines(w);
    assert(body =~= seq![none]);
    let read = ended_lines(body);
    assert(none + seq!['\n'] =~= seq!['\n']);
    assert(read =~= seq![seq!['\n']]);
    lemma_blank_line(h.prefixes);
    assert(read.drop_last() =~= Seq::empty());
    assert(after_lines(h, w.vocabulary, block.len() + 1, read.drop_last()) == at_start(h));
    assert(reading(w) == at_start(h));
    lemma_hash_word(vstd::utf8::encode_utf8(crate::chain::canonical_header(h)));
}

/// A segment stays in order whatever is written to it, as long as its sink takes it.
pub proof fn law_writing_keeps_sound<G: SealSigner>(
    signer: Option<G>,
    w: WriterView,
    e: EntryView,
    after: WriterView,
    n: Option<nat>,
)
    requires
        sound(w),
        w.seq < u64::MAX,
        e.time < WIDE_FROM,
        tidy(signer),
        writing(signer, w, e, after, Ok(n)),
    ensures
        sound(after),
        n is Some ==> after.seq == w.seq + 1 && reading(after).last_class == Some(e.class)
            && reading(after).successor == successor_in(w, e),
        n is None ==> after == w,
        reading(w).records_level_change ==> reading(after).records_level_change,
        after.header == w.header,
        after.vocabulary == w.vocabulary,
{
    if emitted(w.vocabulary, e.class, w.rank) {
        let line = next_line(w, e)->Ok_0;
        let entered = with_entry(w, line);
        law_entry_keeps_sound(w, e);
        if due_for_seal(entered, e.time) {
            let s = choose|s: Option<crate::line::SealView>| #[trigger]
                sealing(signer, entered, e.time, after, Ok(s));
            law_sealing_keeps_sound(signer, entered, e.time, after, s);
        }
    }
}

/// A segment stays in order when it is sealed, and then nothing in it is unsealed.
pub proof fn law_sealing_keeps_sound<G: SealSigner>(
    signer: Option<G>,
    w: WriterView,
    now: nat,
    after: WriterView,
    s: Option<crate::line::SealView>,
)
    requires
        sound(w),
        tidy(signer),
        sealing(signer, w, now, after, Ok(s)),
    ensures
        sound(after),
        after.sealed_through == after.seq,
        after.seq == w.seq,
        after.chain == w.chain,
        reading(after).last_class == reading(w).last_class,
        reading(after).successor == reading(w).successor,
        reading(after).records_level_change == reading(w).records_level_change,
        after.header == w.header,
        after.vocabulary == w.vocabulary,
{
    if w.sealed_through < w.seq {
        let seal = s->Some_0;
        law_seal_keeps_sound(w, now, seal.signature);
    }
}

/// The text of a segment in order is read back as what the writer put down: its header,
/// as many entries, the same chain head, and nothing wrong but what its end and its link
/// show.
pub proof fn law_sound_segment_verifies(
    w: WriterView,
    predecessor: Option<(Seq<char>, Seq<char>)>,
)
    requires
        sound(w),
    ensures
        verified(joined_lines(w.lines), w.vocabulary, predecessor) == (ReportView {
            name: w.header.name,
            instance: w.header.instance,
            level: w.header.level,
            prev: w.header.prev,
            head: w.sealed_head,
            entries: w.seq,
            seals: reading(w).seals,
            signed_with: reading(w).signed_with,
            successor: reading(w).successor,
            records_level_change: reading(w).records_level_change,
            findings: end_findings(reading(w), w.vocabulary) + link_findings(
                w.header.prev,
                predecessor,
            ),
        }),
{
    let h = w.header;
    let block = block_lines(h);
    let none = Seq::<char>::empty();
    let top = block.push(none);
    let body = body_lines(w);
    let text = joined_lines(w.lines);
    lemma_block_lines(h);
    assert(w.lines =~= top + body);
    lemma_joined_lines(top, body);
    law_header_round_trip(h, joined_lines(body));
    assert forall|i: int| 0 <= i < w.lines.len() implies one_line(#[trigger] w.lines[i]) by {
        if i < block.len() {
            assert(w.lines[i] == block[i]);
        } else if i > block.len() {
            assert(w.lines[i] == body[i - block.len() - 1]);
        } else {
            assert(w.lines[i] == none);
        }
    }
    law_lines_of_joined(w.lines, none);
    assert(text + none =~= text);
    assert(lines(none) =~= Seq::empty());
    let all = lines(text);
    assert(all =~= ended_lines(w.lines));
    assert(none + seq!['\n'] =~= seq!['\n']);
    assert(all =~= ended_lines(block) + seq![seq!['\n']] + ended_lines(body));
    lemma_body_start(block, ended_lines(body));
    assert(all.skip(block.len() as int + 1) =~= ended_lines(body));
    assert(progress(text, h, w.vocabulary) == reading(w));
    let found = end_findings(reading(w), w.vocabulary);
    assert(reading(w).findings =~= Seq::empty());
    assert(reading(w).findings + found + link_findings(h.prev, predecessor) =~= found
        + link_findings(h.prev, predecessor));
}

/// Both endings seal: a segment that was ended in order has nothing outside a checkpoint,
/// and verification finds nothing wrong with it beyond its link to a predecessor.
pub proof fn law_ended_segment_verifies<G: SealSigner>(
    signer: Option<G>,
    w: WriterView,
    marker: EntryView,
    now: nat,
    after: WriterView,
    predecessor: Option<(Seq<char>, Seq<char>)>,
)
    requires
        sound(w),
        w.seq < u64::MAX,
        marker.time < WIDE_FROM,
        tidy(signer),
        marker.class == PROCESS_STOP_CLASS@ || marker.class == ROTATION_CLASS@,
        emitted(w.vocabulary, marker.class, w.rank),
        ending(signer, w, marker, now, after, Ok(())),
    ensures
        sound(after),
        after.sealed_through == after.seq == w.seq + 1,
        after.sealed_head == after.chain,
        after.header == w.header,
        after.vocabulary == w.vocabulary,
        reading(after).successor == successor_in(w, marker),
        reading(w).records_level_change ==> reading(after).records_level_change,
        verified(joined_lines(after.lines), w.vocabulary, predecessor).head == after.sealed_head,
        verified(joined_lines(after.lines), w.vocabulary, predecessor).entries == after.seq,
        verified(joined_lines(after.lines), w.vocabulary, predecessor).findings == link_findings(
            w.header.prev,
            predecessor,
        ),
{
    let (marked, n, s) = choose|
        marked: WriterView,
        n: Option<nat>,
        s: Option<crate::line::SealView>,
    |
        #[trigger] writing(signer, w, marker, marked, Ok(n)) && #[trigger] sealing(
            signer,
            marked,
            now,
            after,
            Ok(s),
        );
    law_writing_keeps_sound(signer, w, marker, marked, n);
    law_sealing_keeps_sound(signer, marked, now, after, s);
    law_sound_segment_verifies(after, predecessor);
    law_descends_reflexive(w.vocabulary, marker.class);
    let p = reading(after);
    assert(p.last_class == Some(marker.class));
    assert(end_findings(p, w.vocabulary) =~= Seq::empty());
    assert(end_findings(p, w.vocabulary) + link_findings(w.header.prev, predecessor)
        =~= link_findings(w.header.prev, predecessor));
}

/// A rotation's successor, opened on the chain head that the rotation left, links to it:
/// nothing is found wrong between the two.
pub proof fn law_successor_links<G: SealSigner>(
    signer: Option<G>,
    w: WriterView,
    marker: EntryView,
    now: nat,
    after: WriterView,
    next: WriterView,
)
    requires
        sound(w),
        w.seq < u64::MAX,
        marker.time < WIDE_FROM,
        tidy(signer),
        marker.class == PROCESS_STOP_CLASS@ || marker.class == ROTATION_CLASS@,
        emitted(w.vocabulary, marker.class, w.rank),
        ending(signer, w, marker, now, after, Ok(())),
        sound(next),
        next.header.prev == PrevView::Seal(after.sealed_head),
        next.vocabulary == w.vocabulary,
    ensures
        ({
            let before = verified(joined_lines(after.lines), w.vocabulary, None);
            verified(
                joined_lines(next.lines),
                w.vocabulary,
                Some((before.name, before.head)),
            ).findings == end_findings(reading(next), w.vocabulary)
        }),
{
    law_ended_segment_verifies(signer, w, marker, now, after, None);
    let before = verified(joined_lines(after.lines), w.vocabulary, None);
    law_sound_segment_verifies(next, Some((before.name, before.head)));
    let found = end_findings(reading(next), w.vocabulary);
    assert(link_findings(next.header.prev, Some((before.name, before.head))) =~= Seq::empty());
    assert(found + Seq::<FindingView>::empty() =~= found);
}

/// The prefixes that every segment is written with.
pub proof fn lemma_segment_prefixes()
    ensures
        usable_prefixes(segment_prefixes()),
        segment_prefixes() == seq![("log"@, LOG_NS@), ("prov"@, PROV_NS@)],
        "log"@.len() == 3 && "prov"@.len() == 4,
{
    let log = "log"@;
    let prov = "prov"@;
    reveal_strlit("log");
    reveal_strlit("prov");
    let none = Seq::<(Seq<char>, Seq<char>)>::empty();
    let p = segment_prefixes();
    assert(stored(none, log, LOG_NS@) =~= seq![(log, LOG_NS@)]);
    let one = seq![(log, LOG_NS@)];
    assert(one.drop_first() =~= none);
    assert(stored(one.drop_first(), prov, PROV_NS@) =~= seq![(prov, PROV_NS@)]);
    assert(log[0] == 'l' && prov[0] == 'p');
    assert(precedes(log, prov));
    lemma_precedes_total(log, prov);
    assert(p =~= seq![(log, LOG_NS@), (prov, PROV_NS@)]);
    assert(!log.contains(':') && !prov.contains(':'));
    assert(unbroken(log) && unbroken(prov));
}

/// Every header that a writer opens with can be read back, in the years that a timestamp
/// has its fixed width for.
pub proof fn law_opening_header_rereadable(o: Opening)
    requires
        o.now < WIDE_FROM,
        o.prev matches Some(PrevView::Seal(hash)) ==> one_word(hash) && hash != "genesis"@,
    ensures
        rereadable(opening_header(o)),
{
    lemma_segment_prefixes();
    reveal_strlit("https://ikigai-rs.dev/ns/log#");
    reveal_strlit("http://www.w3.org/ns/prov#");
    assert(one_word(LOG_NS@));
    assert(one_word(PROV_NS@));
    let p = segment_prefixes();
    assert forall|i: int| 0 <= i < p.len() implies !has_white((#[trigger] p[i]).0) by {
        assert(unbroken(p[i].0));
    }
    if let Some(PrevView::Seal(hash)) = o.prev {
        assert(!is_white(hash[0]) && !is_white(hash[hash.len() - 1]));
        lemma_one_line_unbroken(hash);
    }
    reveal_strlit("genesis");
}

/// A segment keeps its header for its whole life, whatever is written to it and whether or
/// not its sink takes it: it has one level.
pub proof fn law_segment_keeps_its_level<G: SealSigner>(
    signer: Option<G>,
    w: WriterView,
    e: EntryView,
    after: WriterView,
    r: Result<Option<nat>, WriteErrorView>,
)
    requires
        writing(signer, w, e, after, r),
    ensures
        after.header == w.header,
        after.rank == w.rank,
        after.vocabulary == w.vocabulary,
{
}

/// Only what is written takes a number: a filtered or refused entry takes none, and what is
/// written takes the next one. So a jump in the numbers means that lines were removed.
pub proof fn law_numbers_are_dense<G: SealSigner>(
    signer: Option<G>,
    w: WriterView,
    e: EntryView,
    after: WriterView,
    r: Result<Option<nat>, WriteErrorView>,
)
    requires
        writing(signer, w, e, after, r),
    ensures
        r matches Ok(Some(n)) ==> n == w.seq + 1 && after.seq == n,
        r matches Ok(None) ==> after.seq == w.seq,
        r matches Err(WriteErrorView::Render(_)) ==> after.seq == w.seq,
        w.seq <= after.seq <= w.seq + 1,
{
}

// =====================================================================================
// Flushing, and failing
// =====================================================================================

/// Every entry is flushed as it is written: once a number has been given for it, no line
/// that the sink has taken is left unflushed.
pub proof fn law_written_is_flushed<G: SealSigner>(
    signer: Option<G>,
    w: WriterView,
    e: EntryView,
    after: WriterView,
    n: nat,
)
    requires
        writing(signer, w, e, after, Ok(Some(n))),
    ensures
        after.flushed == after.lines.len(),
{
}

/// So is every seal.
pub proof fn law_sealed_is_flushed<G: SealSigner>(
    signer: Option<G>,
    w: WriterView,
    now: nat,
    after: WriterView,
    s: SealView,
)
    requires
        sealing(signer, w, now, after, Ok(Some(s))),
    ensures
        after.flushed == after.lines.len(),
{
}

/// And every segment that has ended.
pub proof fn law_ended_is_flushed<G: SealSigner>(
    signer: Option<G>,
    w: WriterView,
    marker: EntryView,
    now: nat,
    after: WriterView,
)
    requires
        ending(signer, w, marker, now, after, Ok(())),
    ensures
        after.flushed == after.lines.len(),
{
}

/// A sink that never fails is no reason for an entry not to be written: the only one is
/// that it cannot be a line.
pub proof fn law_reliable_sink_refuses_nothing<G: SealSigner>(
    signer: Option<G>,
    w: WriterView,
    e: EntryView,
    after: WriterView,
    r: Result<Option<nat>, WriteErrorView>,
)
    requires
        writing(signer, w, e, after, r),
        w.reliable,
    ensures
        after.reliable,
        r == (if !emitted(w.vocabulary, e.class, w.rank) {
            Ok::<Option<nat>, WriteErrorView>(None)
        } else {
            match next_line(w, e) {
                Ok(_) => Ok(Some(w.seq + 1)),
                Err(x) => Err(WriteErrorView::Render(x)),
            }
        }),
{
}

/// A sink that fails leaves the writer as it was: the number, the chain and the chain head.
/// Only where a seal was due and it is the seal that failed, the entry before it has been
/// written, flushed and numbered; the chain head stays even then.
pub proof fn law_failed_write_changes_nothing<G: SealSigner>(
    signer: Option<G>,
    w: WriterView,
    e: EntryView,
    after: WriterView,
    x: WriteErrorView,
)
    requires
        writing(signer, w, e, after, Err(x)),
        w.flushed <= w.lines.len(),
    ensures
        after.sealed_head == w.sealed_head,
        after.sealed_through == w.sealed_through,
        after.flushed == w.flushed ==> after.seq == w.seq && after.chain == w.chain,
        after.flushed != w.flushed ==> {
            let line = next_line(w, e)->Ok_0;
            &&& due_for_seal(with_entry(w, line), e.time)
            &&& after.flushed == w.lines.len() + 1
            &&& after.seq == w.seq + 1
            &&& after.chain == with_entry(w, line).chain
        },
{
}

} // verus!
