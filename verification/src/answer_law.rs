//! What the log answers: what a reply names, what an error says, and what things are called.

use vstd::prelude::*;
use vstd::string::*;

use crate::chain::SealSigner;
use crate::config::{
    ConfigErrorView, DEFAULT_DIRECTORY_STEM, DEFAULT_INSTANCE_NAME, DEFAULT_LEVEL, INSTANCE_NS,
    STEM, config_error_text, debug_text,
};
use crate::entry::EntryView;
use crate::error::{parse_error_text, render_error_text, ParseErrorView, RenderErrorView};
use crate::finding::{breaks, finding_text, FindingView, ReportView};
use crate::graph::{LOG_MEDIA_TYPE, TURTLE_MEDIA_TYPE};
use crate::handle::{handle_writing, HandleView, CONFIG_IRI};
use crate::layer::{layer_lines, ConfigView, PatchView};
use crate::layer_law::{has_line, lemma_front, lemma_has_line, lemma_part};
use crate::load::completed;
use crate::number::decimal;
use crate::request::{
    change_reply_text, closed_reply, config_body, config_face_of, landed, layer_comments,
    own_instance, ConfigFace, CAP_CONFIG, CAP_READ, CAP_WRITE, WRITE_IRI,
};
use crate::request_law::says;
use crate::rotation::{broken_entries, chain_broken, to_land};
use crate::segment_law::law_every_break_lands;
use crate::segments::{
    Found, SEGMENTS_IRI, SEGMENT_EXTENSION, SEGMENT_TEMPLATE, TRANSREPT_IRI, VERIFY_IRI,
    chain_reports, given, is_latest,
};
use crate::table::lookup;
use crate::text::{is_white, lemma_precedes_total, precedes, starts_with, trim};
use crate::token::{
    best_prefix, column_text, escaped, lemma_best_prefix, quoted, shortens, unescaped, value_text,
};
use crate::verify::chain_report;
use crate::vocabulary::{
    CACHE_HIT_CLASS, CAPABILITY_DENIED_CLASS, CHAIN_BROKEN_CLASS, CONFIG_CHANGE_CLASS,
    DEFAULT_MIN_LEVEL, DROPPED_CLASS, ENTRY_CLASS, ERROR_CLASS, LEVEL_CHANGE_CLASS,
    LEVEL_CHANGE_REJECTED_CLASS, LOG_KEY_NAME, LOG_LEVEL_CLASS, LOG_MIN_LEVEL, LOG_NS, LOG_RANK,
    LOG_SUBJECT_PREDICATE, MESSAGE_CLASS, PROCESS_START_CLASS, PROCESS_STOP_CLASS, PROV_NS,
    RDFS_CLASS, RDFS_RANGE, RDFS_SUBCLASS_OF, RDF_TYPE, RESOLUTION_CLASS, ROTATION_CLASS,
    VocabularyView, WARNING_CLASS,
};
use crate::window::{graph_error_text, GraphErrorView};
use crate::writer::{listed, write_error_text, WriteErrorView, WriterView};

verus! {

// =====================================================================================
// Replies
// =====================================================================================

/// An entry of which nothing is said is about the open segment's instance, or else about the
/// configured one.
pub proof fn law_own_instance(h: HandleView)
    ensures
        h.writer matches Some(w) ==> own_instance(h) == w.header.instance,
        h.writer is None ==> own_instance(h) == h.config.instance,
{
}

/// Where no segment is open nothing is written and nothing fails; and the reply says so, and
/// what was not written.
pub proof fn law_closed_log_takes_nothing<G: SealSigner>(
    signer: Option<G>,
    e: EntryView,
    after: Option<WriterView>,
    r: Result<Option<nat>, WriteErrorView>,
)
    requires
        handle_writing(signer, None, e, after, r),
    ensures
        after is None,
        r == Ok::<Option<nat>, WriteErrorView>(None),
        closed_reply(e.class) == "closed: no segment is open, so "@ + e.class
            + " was not written"@,
{
}

/// The configuration is served as a graph only where that is asked for, and as TOML where it
/// is, or where nothing is; any other face is refused by its name.
pub proof fn law_config_face_is_what_was_asked(arg: Option<&str>)
    ensures
        ({
            let r = config_face_of(given(arg));
            let t = trim(arg->0@);
            &&& !says(arg) ==> r is Ok && r->Ok_0 == ConfigFace::Toml
            &&& says(arg) && t == "text/turtle"@ ==> r is Ok && r->Ok_0 == ConfigFace::Graph
            &&& says(arg) && starts_with(t, "text/plain"@) ==> r is Ok && r->Ok_0
                == ConfigFace::Toml
            &&& says(arg) && t != "text/turtle"@ && !starts_with(t, "text/plain"@) ==> r is Err
                && r->Err_0.name == "as"@
        }),
{
    reveal_strlit("text/turtle");
    reveal_strlit("text/plain");
    if arg is Some && trim(arg->0@) == "text/turtle"@ {
        let t = trim(arg->0@);
        assert(t.take(10)[5] == 't');
        assert("text/plain"@[5] == 'p');
    }
}

/// A reply to a change names the file that was written, and every key that was recorded; and
/// says so where none could be, because no segment is open.
pub proof fn law_change_is_answered(file: Seq<char>, keys: Seq<Seq<char>>, open: bool)
    ensures
        ({
            let text = change_reply_text(file, keys, open);
            &&& starts_with(
                text,
                "wrote "@ + file
                    + "\neffective at next process start (a segment's level is fixed for its life)\n"@,
            )
            &&& keys.len() > 0 ==> has_line(text, "recorded: "@ + listed(keys) + "\n"@)
            &&& keys.len() == 0 && !open ==> has_line(
                text,
                "no segment is open, so nothing was recorded in the log\n"@,
            )
        }),
{
    reveal_strlit(
        "\neffective at next process start (a segment's level is fixed for its life)\n",
    );
    let text = change_reply_text(file, keys, open);
    let top = "wrote "@ + file
        + "\neffective at next process start (a segment's level is fixed for its life)\n"@;
    assert(top.last() == '\n');
    let rest = if keys.len() > 0 {
        "recorded: "@ + listed(keys) + "\n"@
    } else if !open {
        "no segment is open, so nothing was recorded in the log\n"@
    } else {
        Seq::empty()
    };
    assert(text == top + rest);
    assert(text.take(text.len() as int) =~= text);
    lemma_front(text, top, rest);
    lemma_part(text, top, rest);
}

/// The keys that are named as recorded are exactly those whose entry the log took.
pub proof fn law_recorded_keys_landed(
    keys: Seq<Seq<char>>,
    rs: Seq<Result<Option<nat>, WriteErrorView>>,
    key: Seq<char>,
)
    requires
        rs.len() == keys.len(),
    ensures
        landed(keys, rs).contains(key) <==> exists|i: int|
            0 <= i < keys.len() && #[trigger] keys[i] == key && rs[i] is Ok,
{
    lemma_landed(keys, rs, key);
}

proof fn lemma_landed(
    keys: Seq<Seq<char>>,
    rs: Seq<Result<Option<nat>, WriteErrorView>>,
    key: Seq<char>,
)
    requires
        rs.len() >= keys.len(),
    ensures
        landed(keys, rs).contains(key) <==> exists|i: int|
            0 <= i < keys.len() && #[trigger] keys[i] == key && rs[i] is Ok,
    decreases keys.len(),
{
    if keys.len() > 0 {
        let front = keys.drop_last();
        let before = landed(front, rs);
        let all = landed(keys, rs);
        lemma_landed(front, rs, key);
        if all.contains(key) {
            let k = choose|k: int| 0 <= k < all.len() && all[k] == key;
            if k < before.len() {
                assert(before[k] == key);
                let i = choose|i: int|
                    0 <= i < front.len() && #[trigger] front[i] == key && rs[i] is Ok;
                assert(keys[i] == key);
            } else {
                assert(keys[keys.len() - 1] == key);
            }
        }
        if exists|i: int| 0 <= i < keys.len() && #[trigger] keys[i] == key && rs[i] is Ok {
            let i = choose|i: int| 0 <= i < keys.len() && #[trigger] keys[i] == key && rs[i] is Ok;
            if i < front.len() {
                assert(front[i] == key);
                let k = choose|k: int| 0 <= k < before.len() && before[k] == key;
                assert(all[k] == key);
            } else {
                assert(all[before.len() as int] == key);
            }
        }
    }
}

// =====================================================================================
// Layers
// =====================================================================================

/// What a configuration was made from is recorded: the files of its layers, each in its
/// place.
pub proof fn law_layers_are_recorded(base: ConfigView, found: Seq<(Seq<char>, PatchView)>, i: int)
    ensures
        completed(base, found).layers.len() == found.len(),
        0 <= i < found.len() ==> completed(base, found).layers[i] == found[i].0,
    decreases found.len(),
{
    if found.len() > 0 {
        law_layers_are_recorded(base, found.drop_last(), i);
    }
}

/// Every layer that contributed is named, in the graph and in the comments.
pub proof fn law_every_layer_is_named(layers: Seq<Seq<char>>, i: int)
    requires
        0 <= i < layers.len(),
    ensures
        has_line(
            layer_lines(layers),
            "    log:configLayer "@ + debug_text(layers[i]) + " ;\n"@,
        ),
        has_line(layer_comments(layers), "# layer = "@ + layers[i] + "\n"@),
        layer_lines(layers).last() == '\n' && layer_lines(layers).len() > 0,
        layer_comments(layers).last() == '\n' && layer_comments(layers).len() > 0,
    decreases layers.len(),
{
    reveal_strlit("\n");
    reveal_strlit(" ;\n");
    assert("\n"@ =~= seq!['\n']);
    let front = layers.drop_last();
    let none = Seq::<char>::empty();
    let line = "    log:configLayer "@ + debug_text(layers.last()) + " ;\n"@;
    let comment = "# layer = "@ + layers.last() + "\n"@;
    assert(layer_lines(layers) =~= layer_lines(front) + line + none);
    assert(layer_comments(layers) =~= layer_comments(front) + comment + none);
    if i < front.len() {
        law_every_layer_is_named(front, i);
        let own = "    log:configLayer "@ + debug_text(layers[i]) + " ;\n"@;
        let (a, b) = choose|a: Seq<char>, b: Seq<char>|
            layer_lines(front) == #[trigger] (a + own + b) && (a.len() == 0 || a.last() == '\n');
        assert(layer_lines(layers) =~= a + own + (b + line));
        lemma_has_line(layer_lines(layers), a, own, b + line);
        let said = "# layer = "@ + layers[i] + "\n"@;
        let (c, d) = choose|c: Seq<char>, d: Seq<char>|
            layer_comments(front) == #[trigger] (c + said + d) && (c.len() == 0 || c.last()
                == '\n');
        assert(layer_comments(layers) =~= c + said + (d + comment));
        lemma_has_line(layer_comments(layers), c, said, d + comment);
    } else {
        if front.len() > 0 {
            law_every_layer_is_named(front, 0);
        }
        lemma_has_line(layer_lines(layers), layer_lines(front), line, none);
        lemma_has_line(layer_comments(layers), layer_comments(front), comment, none);
    }
}

/// The configuration that is served ends on the layers it was made from.
pub proof fn law_served_config_ends_on_its_layers(h: HandleView)
    ensures
        ({
            let text = config_body(h, ConfigFace::Toml);
            let named = layer_comments(h.config.layers);
            text.len() >= named.len() && text.skip(text.len() - named.len()) == named
        }),
{
    let text = config_body(h, ConfigFace::Toml);
    let named = layer_comments(h.config.layers);
    assert(text.skip(text.len() - named.len()) =~= named);
}

// =====================================================================================
// Segments
// =====================================================================================

/// The segment that an instance goes on from is its last one, by name and then by path, of
/// those before the given name; and there is none only where it has none.
pub proof fn law_latest_is_the_last_of_its_instance(
    found: Seq<Found>,
    instance: Seq<char>,
    limit: Option<Seq<char>>,
    r: Option<usize>,
    j: int,
)
    requires
        is_latest(found, instance, limit, r),
        0 <= j < found.len(),
        found[j].instance@ == instance,
        limit is None || precedes(found[j].name@, limit->0),
    ensures
        r is Some,
        r matches Some(i) ==> {
            &&& i < found.len()
            &&& found[i as int].instance@ == instance
            &&& limit is None || precedes(found[i as int].name@, limit->0)
            &&& precedes(found[j].name@, found[i as int].name@) || (found[j].name@
                == found[i as int].name@ && (found[j].path@ == found[i as int].path@ || precedes(
                found[j].path@,
                found[i as int].path@,
            )))
        },
{
    assert(found[j]@.instance == instance);
    if let Some(i) = r {
        assert(found[i as int]@.instance == instance);
        lemma_precedes_total(found[j].name@, found[i as int].name@);
        lemma_precedes_total(found[j].path@, found[i as int].path@);
    }
}

proof fn lemma_chain_broken(
    chain: Seq<(Seq<char>, Seq<char>)>,
    reports: Seq<ReportView>,
    now: nat,
    i: int,
    k: int,
)
    requires
        0 <= i < chain.len() <= reports.len(),
        0 <= k < broken_entries(chain[i].0, reports[i].findings, now).len(),
    ensures
        chain_broken(chain, reports, now).contains(
            broken_entries(chain[i].0, reports[i].findings, now)[k],
        ),
    decreases chain.len(),
{
    let e = broken_entries(chain[i].0, reports[i].findings, now)[k];
    let front = chain.drop_last();
    let before = chain_broken(front, reports, now);
    let all = chain_broken(chain, reports, now);
    if i < front.len() {
        lemma_chain_broken(front, reports, now, i, k);
        let j = choose|j: int| 0 <= j < before.len() && before[j] == e;
        assert(all[j] == e);
    } else {
        assert(all[before.len() + k] == e);
    }
}

/// Everything that breaks a segment of a chain lands in the log, under that segment's name.
pub proof fn law_every_break_of_a_chain_lands(
    chain: Seq<(Seq<char>, Seq<char>)>,
    v: VocabularyView,
    now: nat,
    i: int,
    f: FindingView,
)
    requires
        0 <= i < chain.len(),
        chain_report(chain.map_values(|s: (Seq<char>, Seq<char>)| s.1), v, i).findings.contains(f),
        breaks(f),
    ensures
        exists|k: int|
            0 <= k < to_land(chain, v, now).len() && {
                let e = #[trigger] to_land(chain, v, now)[k];
                e.class == "https://ikigai-rs.dev/ns/log#ChainBroken"@ && e.subject == chain[i].0
                    && e.time == now && lookup(e.fields, "finding"@) == Some(finding_text(f))
            },
{
    reveal(to_land);
    let reports = chain_reports(chain, v);
    let findings = reports[i].findings;
    assert(findings.contains(f));
    law_every_break_lands(chain[i].0, findings, now, f);
    let mine = broken_entries(chain[i].0, findings, now);
    let j = choose|j: int|
        0 <= j < mine.len() && {
            let e = #[trigger] mine[j];
            e.class == "https://ikigai-rs.dev/ns/log#ChainBroken"@ && e.subject == chain[i].0
                && e.time == now && lookup(e.fields, "finding"@) == Some(finding_text(f))
        };
    lemma_chain_broken(chain, reports, now, i, j);
    let all = to_land(chain, v, now);
    let k = choose|k: int| 0 <= k < all.len() && all[k] == mine[j];
    assert(all[k].subject == chain[i].0);
}

// =====================================================================================
// Errors
// =====================================================================================

/// What is said of a text that cannot be read names the text, after what was wrong with it.
pub proof fn law_parse_error_names_the_text(s: Seq<char>)
    ensures
        parse_error_text(ParseErrorView::Timestamp(s)) == "bad timestamp: "@ + s,
        parse_error_text(ParseErrorView::MissingColumn(s)) == "missing "@ + s + " column"@,
        parse_error_text(ParseErrorView::Field(s)) == "bad key=value column: "@ + s,
        parse_error_text(ParseErrorView::UnboundPrefix(s)) == "unbound prefix in CURIE: "@ + s,
        parse_error_text(ParseErrorView::NotAnIri(s)) == "not an absolute IRI: "@ + s,
        parse_error_text(ParseErrorView::Header(s)) == "bad header: "@ + s,
        parse_error_text(ParseErrorView::Seal(s)) == "bad seal line: "@ + s,
        parse_error_text(ParseErrorView::Version(s)) == "bad version line: "@ + s,
        render_error_text(RenderErrorView::NotAnIri(s)) == "not an absolute IRI: "@ + s,
        render_error_text(RenderErrorView::Key(s)) == "not a usable key: "@ + s,
{
}

/// What is said of a failure names the place where it happened, and what happened there.
pub proof fn law_error_names_the_place(
    path: Seq<char>,
    message: Seq<char>,
    key: Seq<char>,
    line: nat,
    error: ParseErrorView,
    known: Seq<Seq<char>>,
)
    ensures
        config_error_text(ConfigErrorView::Parse { path: Some(path), message }) == path + ": "@
            + message,
        config_error_text(ConfigErrorView::Unreadable { path, message }) == path + ": "@ + message,
        config_error_text(ConfigErrorView::Unwritable { path, message }) == path + ": "@ + message,
        config_error_text(ConfigErrorView::BadValue { key, value: path, expected: message }) == key
            + ": "@ + debug_text(path) + " is not "@ + message,
        graph_error_text(GraphErrorView::Parse { line, error }) == "line "@ + decimal(line) + ": "@
            + parse_error_text(error),
        starts_with(write_error_text(WriteErrorView::SegmentExists(path)), path + ": "@),
        write_error_text(WriteErrorView::Io { path: Some(path), message }) == path + ": "@
            + message,
        starts_with(
            write_error_text(WriteErrorView::UnknownLevel { level: key, known }),
            "level "@ + key + " is not defined"@,
        ),
        starts_with(
            write_error_text(WriteErrorView::InstanceInUse { name: key, tried: path }),
            "instance "@ + key + " is held by another process and "@ + path,
        ),
{
    reveal_strlit(": ");
    reveal_strlit(": a segment is already there");
    reveal_strlit(" is not defined");
    reveal_strlit(" is not defined by this vocabulary — it knows: ");
    let exists_text = write_error_text(WriteErrorView::SegmentExists(path));
    assert(exists_text.take((path + ": "@).len() as int) =~= path + ": "@);
    let level_text = write_error_text(WriteErrorView::UnknownLevel { level: key, known });
    let start = "level "@ + key + " is not defined"@;
    assert(level_text.take(start.len() as int) =~= start);
    let held_text = write_error_text(WriteErrorView::InstanceInUse { name: key, tried: path });
    let held = "instance "@ + key + " is held by another process and "@ + path;
    assert(held_text.take(held.len() as int) =~= held);
}

// =====================================================================================
// Columns
// =====================================================================================

/// A value is quoted only where it has to be, and the few characters that would break a line
/// are the ones that are escaped.
pub proof fn law_values_are_quoted_where_they_must_be(v: Seq<char>, c: char)
    ensures
        value_text(v) == v || value_text(v) == quoted(v),
        v.len() == 0 || v.contains('"') || v.contains('\\') || v.contains(' ') || v.contains('\n')
            ==> value_text(v) == quoted(v),
        quoted(v).len() >= 2 && quoted(v)[0] == '"' && quoted(v).last() == '"',
        escaped('"') == "\\\""@,
        escaped('\\') == "\\\\"@,
        escaped('\n') == "\\n"@,
        escaped('\r') == "\\r"@,
        escaped('\t') == "\\t"@,
        c != '"' && c != '\\' && c != '\n' && c != '\r' && c != '\t' ==> escaped(c) == seq![c],
        escaped(c).len() == 2 ==> escaped(c)[0] == '\\' && unescaped(escaped(c)[1]) == c,
{
    reveal_strlit("\\\"");
    reveal_strlit("\\\\");
    reveal_strlit("\\n");
    reveal_strlit("\\r");
    reveal_strlit("\\t");
    assert(escaped('"') =~= "\\\""@);
    assert(escaped('\\') =~= "\\\\"@);
    assert(escaped('\n') =~= "\\n"@);
    assert(escaped('\r') =~= "\\r"@);
    assert(escaped('\t') =~= "\\t"@);
    if v.contains(' ') {
        let k = choose|k: int| 0 <= k < v.len() && v[k] == ' ';
        assert(is_white(v[k]));
    }
    if v.contains('\n') {
        let k = choose|k: int| 0 <= k < v.len() && v[k] == '\n';
        assert(is_white(v[k]));
    }
}

/// A class is written under the longest namespace that leaves a plain local name of it, by
/// its prefix; and between angle brackets where none does.
pub proof fn law_class_is_written_short(
    iri: Seq<char>,
    prefixes: Seq<(Seq<char>, Seq<char>)>,
    ns: Seq<char>,
    local: Seq<char>,
)
    ensures
        (exists|i: int|
            0 <= i < prefixes.len() && shortens(iri, (#[trigger] prefixes[i]).1) && column_text(
                iri,
                prefixes,
            ) == prefixes[i].0 + ":"@ + iri.skip(prefixes[i].1.len() as int) && forall|j: int|
                0 <= j < prefixes.len() && shortens(iri, #[trigger] prefixes[j].1)
                    ==> prefixes[j].1.len() <= prefixes[i].1.len()) || (column_text(iri, prefixes)
            == "<"@ + iri + ">"@ && forall|j: int|
            0 <= j < prefixes.len() ==> !shortens(iri, #[trigger] prefixes[j].1)),
        shortens(ns + local, ns) <==> local.len() > 0 && !local.contains(':') && !local.contains(
            '/',
        ) && !local.contains('#'),
        shortens(iri, ns) ==> starts_with(iri, ns),
{
    reveal_strlit(":");
    reveal_strlit("<");
    reveal_strlit(">");
    assert(":"@ =~= seq![':']);
    assert("<"@ =~= seq!['<']);
    assert(">"@ =~= seq!['>']);
    lemma_best_prefix(iri, prefixes);
    if let Some(b) = best_prefix(iri, prefixes) {
        assert(shortens(iri, prefixes[b].1));
    }
    assert((ns + local).take(ns.len() as int) =~= ns);
    assert((ns + local).skip(ns.len() as int) =~= local);
}

// =====================================================================================
// Names
// =====================================================================================

/// What the vocabulary calls the classes and the properties that the log goes by.
pub proof fn law_names_of_the_vocabulary()
    ensures
        LOG_NS@ == "https://ikigai-rs.dev/ns/log#"@,
        PROV_NS@ == "http://www.w3.org/ns/prov#"@,
        RDF_TYPE@ == "http://www.w3.org/1999/02/22-rdf-syntax-ns#type"@,
        RDFS_CLASS@ == "http://www.w3.org/2000/01/rdf-schema#Class"@,
        RDFS_SUBCLASS_OF@ == "http://www.w3.org/2000/01/rdf-schema#subClassOf"@,
        RDFS_RANGE@ == "http://www.w3.org/2000/01/rdf-schema#range"@,
        LOG_KEY_NAME@ == "https://ikigai-rs.dev/ns/log#keyName"@,
        LOG_MIN_LEVEL@ == "https://ikigai-rs.dev/ns/log#minLevel"@,
        LOG_RANK@ == "https://ikigai-rs.dev/ns/log#rank"@,
        LOG_SUBJECT_PREDICATE@ == "https://ikigai-rs.dev/ns/log#subjectPredicate"@,
        LOG_LEVEL_CLASS@ == "https://ikigai-rs.dev/ns/log#Level"@,
        ENTRY_CLASS@ == "https://ikigai-rs.dev/ns/log#Entry"@,
        MESSAGE_CLASS@ == "https://ikigai-rs.dev/ns/log#Message"@,
        WARNING_CLASS@ == "https://ikigai-rs.dev/ns/log#Warning"@,
        ERROR_CLASS@ == "https://ikigai-rs.dev/ns/log#Error"@,
        RESOLUTION_CLASS@ == "https://ikigai-rs.dev/ns/log#Resolution"@,
        CACHE_HIT_CLASS@ == "https://ikigai-rs.dev/ns/log#CacheHit"@,
        DROPPED_CLASS@ == "https://ikigai-rs.dev/ns/log#Dropped"@,
        PROCESS_START_CLASS@ == "https://ikigai-rs.dev/ns/log#ProcessStart"@,
        PROCESS_STOP_CLASS@ == "https://ikigai-rs.dev/ns/log#ProcessStop"@,
        CONFIG_CHANGE_CLASS@ == "https://ikigai-rs.dev/ns/log#ConfigChange"@,
        LEVEL_CHANGE_CLASS@ == "https://ikigai-rs.dev/ns/log#LevelChange"@,
        LEVEL_CHANGE_REJECTED_CLASS@ == "https://ikigai-rs.dev/ns/log#LevelChangeRejected"@,
        CAPABILITY_DENIED_CLASS@ == "https://ikigai-rs.dev/ns/log#CapabilityDenied"@,
        ROTATION_CLASS@ == "https://ikigai-rs.dev/ns/log#Rotation"@,
        CHAIN_BROKEN_CLASS@ == "https://ikigai-rs.dev/ns/log#ChainBroken"@,
        DEFAULT_MIN_LEVEL@ == "https://ikigai-rs.dev/ns/log#info"@,
{
}

/// Where the log is found, what it is served as, and what has to be held to ask it.
pub proof fn law_names_of_the_log()
    ensures
        STEM@ == "log.toml"@,
        INSTANCE_NS@ == "urn:ikigai:instance:"@,
        DEFAULT_LEVEL@ == "https://ikigai-rs.dev/ns/log#info"@,
        DEFAULT_INSTANCE_NAME@ == "repl"@,
        DEFAULT_DIRECTORY_STEM@ == "log"@,
        LOG_MEDIA_TYPE@ == "text/x-ikigai-log"@,
        TURTLE_MEDIA_TYPE@ == "text/turtle"@,
        CONFIG_IRI@ == "urn:log:config"@,
        CAP_WRITE@ == "urn:cap:log:write"@,
        CAP_READ@ == "urn:cap:log:read"@,
        CAP_CONFIG@ == "urn:cap:log:config"@,
        WRITE_IRI@ == "urn:log:write"@,
        TRANSREPT_IRI@ == "urn:log:transrept"@,
        SEGMENTS_IRI@ == "urn:log:segments"@,
        VERIFY_IRI@ == "urn:log:verify"@,
        SEGMENT_TEMPLATE@ == "urn:log:{segment}"@,
        SEGMENT_EXTENSION@ == "log"@,
{
}

} // verus!
