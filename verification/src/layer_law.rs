//! What a layer of the configuration means, what is wrong with one, and what it is written
//! as.

use vstd::prelude::*;
use vstd::string::*;

use crate::config::{
    absolute_name, bound_text, debug_text, destination_token, instance_of, level_char, level_read,
    Bound, ConfigErrorView, INSTANCE_NS,
};
use crate::layer::{
    applied, bound_limit, bound_number, config_turtle, layer_lines, limit_bound, merged,
    number_bound, patch_fault, patch_text, segment_lines, ConfigView, PatchView,
};
use crate::load::file_threads;
use crate::number::{decimal, lemma_read_decimal, read_unsigned};
use crate::text::{starts_with, trim};
use crate::token::iri_like;

verus! {

// =====================================================================================
// Meaning
// =====================================================================================

/// A level is named by a `log:` CURIE, by an absolute IRI, or by a bare word; a CURIE and a
/// bare word stand for a term of the log's namespace, an IRI for itself, and anything else
/// for nothing.
pub proof fn law_level_is_read(name: Seq<char>)
    ensures
        ({
            let t = trim(name);
            &&& t.len() == 0 ==> level_read(name) is None
            &&& starts_with(t, "log:"@) && t.len() > 0 ==> (level_read(name) matches Some(iri)
                ==> iri == "https://ikigai-rs.dev/ns/log#"@ + t.skip(4))
            &&& starts_with(t, "log:"@) && t.len() > 4 && iri_like(
                "https://ikigai-rs.dev/ns/log#"@ + t.skip(4),
            ) ==> level_read(name) is Some
            &&& starts_with(t, "log:"@) && t.len() <= 4 ==> level_read(name) is None
            &&& !starts_with(t, "log:"@) && iri_like(t) ==> level_read(name) == Some(t)
            &&& !starts_with(t, "log:"@) && !iri_like(t) && t.len() > 0 ==> (level_read(name)
                matches Some(iri) ==> iri == "https://ikigai-rs.dev/ns/log#"@ + t && forall|
                i: int,
            |
                0 <= i < t.len() ==> level_char(#[trigger] t[i]))
            &&& !starts_with(t, "log:"@) && !iri_like(t) && t.len() > 0 && (forall|i: int|
                0 <= i < t.len() ==> level_char(#[trigger] t[i])) ==> level_read(name) is Some
        }),
{
    reveal_strlit("log:");
    assert("log:"@.len() == 4);
    let t = trim(name);
    if t.len() > 0 && iri_like(t) {
        assert(t.contains(':'));
    }
}

/// What may stand in a bare level name.
pub proof fn law_level_characters(c: char)
    ensures
        level_char(c) <==> 'a' <= c <= 'z' || 'A' <= c <= 'Z' || '0' <= c <= '9' || c == '_' || c
            == '-',
{
}

/// A bare instance name stands in the instances' namespace; a name that is a URN, or that
/// goes on with `//` after its scheme, stands for itself.
pub proof fn law_instance_is_read(name: Seq<char>)
    ensures
        !absolute_name(name) ==> instance_of(name) == "urn:ikigai:instance:"@ + name,
        absolute_name(name) ==> instance_of(name) == name,
        starts_with(name, "urn:ikigai:instance:"@) ==> absolute_name(name),
        iri_like(name) && starts_with(name, "urn:"@) ==> absolute_name(name),
        !name.contains(':') ==> !absolute_name(name),
{
    reveal_strlit("urn:ikigai:instance:");
    if !name.contains(':') && starts_with(name, INSTANCE_NS@) {
        assert(name.take(INSTANCE_NS@.len() as int)[3] == name[3]);
        assert(INSTANCE_NS@[3] == ':');
        assert(name.contains(name[3]));
    }
}

/// A bound says when it is met, or that it never is; and what stands for a bound in a policy
/// is written as that bound.
pub proof fn law_bounds_are_kept(b: Bound, n: u64, limit: Option<u64>)
    ensures
        b matches Bound::At(k) ==> bound_number(b) == k && bound_limit(b) == Some(k),
        b is Never ==> bound_number(b) == u64::MAX && bound_limit(b) is None,
        bound_number(number_bound(n)) == n,
        bound_limit(limit_bound(limit)) == limit,
        number_bound(n) is Never <==> n == u64::MAX,
        b is Never ==> bound_text(b) == "\"never\""@,
        b matches Bound::At(k) ==> read_unsigned(bound_text(b), u64::MAX as nat) == Some(k as nat),
{
    if let Bound::At(k) = b {
        lemma_read_decimal(k as nat, u64::MAX as nat);
    }
}

/// Of two layers the upper one wins, key by key; where it is silent the lower one speaks.
pub proof fn law_upper_layer_wins(lower: PatchView, upper: PatchView)
    ensures
        ({
            let m = merged(lower, upper);
            &&& m.level == (if upper.level is Some {
                upper.level
            } else {
                lower.level
            })
            &&& m.destination == (if upper.destination is Some {
                upper.destination
            } else {
                lower.destination
            })
            &&& m.directory == (if upper.directory is Some {
                upper.directory
            } else {
                lower.directory
            })
            &&& m.instance == (if upper.instance is Some {
                upper.instance
            } else {
                lower.instance
            })
            &&& m.seal_every_entries == (if upper.seal_every_entries is Some {
                upper.seal_every_entries
            } else {
                lower.seal_every_entries
            })
            &&& m.seal_every_millis == (if upper.seal_every_millis is Some {
                upper.seal_every_millis
            } else {
                lower.seal_every_millis
            })
            &&& m.rotation_max_entries == (if upper.rotation_max_entries is Some {
                upper.rotation_max_entries
            } else {
                lower.rotation_max_entries
            })
            &&& m.rotation_max_age_millis == (if upper.rotation_max_age_millis is Some {
                upper.rotation_max_age_millis
            } else {
                lower.rotation_max_age_millis
            })
        }),
{
}

/// What a layer states is what the configuration becomes, each key on its own; a level that
/// is none changes nothing.
pub proof fn law_layer_takes_effect(c: ConfigView, p: PatchView)
    ensures
        p.level matches Some(l) ==> (level_read(l) matches Some(iri) ==> applied(c, p).level
            == iri),
        p.level matches Some(l) ==> level_read(l) is None ==> applied(c, p).level == c.level,
        p.instance matches Some(n) ==> applied(c, p).instance == instance_of(n),
        p.seal_every_entries matches Some(b) ==> applied(c, p).seals.every_entries == bound_number(
            b,
        ),
        p.seal_every_millis matches Some(b) ==> applied(c, p).seals.every_millis == bound_number(b),
        p.rotation_max_entries matches Some(b) ==> applied(c, p).rotation.max_entries
            == bound_limit(b),
        p.rotation_max_age_millis matches Some(b) ==> applied(c, p).rotation.max_age_millis
            == bound_limit(b),
        applied(c, p).layers == c.layers,
{
}

// =====================================================================================
// Faults
// =====================================================================================

/// Whether a bound is met before anything has happened.
pub open spec fn met_at_once(b: Option<Bound>) -> bool {
    b == Some(Bound::At(0))
}

/// A layer is refused exactly where it states a level that is none, an instance that can be
/// no IRI, a directory that is blank, or a bound of zero; and the first of these is named,
/// with the value that was stated.
pub proof fn law_fault_is_named(p: PatchView)
    ensures
        ({
            let level = p.level is Some && level_read(p.level->0) is None;
            let instance = p.instance is Some && !iri_like(instance_of(p.instance->0));
            let directory = p.directory is Some && trim(p.directory->0).len() == 0;
            let a = met_at_once(p.seal_every_entries);
            let b = met_at_once(p.seal_every_millis);
            let c = met_at_once(p.rotation_max_entries);
            let d = met_at_once(p.rotation_max_age_millis);
            &&& patch_fault(p) is Some <==> level || instance || directory || a || b || c || d
            &&& level ==> blames(p, "level"@, p.level->0)
            &&& !level && instance ==> blames(p, "instance"@, p.instance->0)
            &&& !level && !instance && directory ==> blames(p, "directory"@, p.directory->0)
            &&& !level && !instance && !directory && a ==> blames(p, "seal.every_entries"@, "0"@)
            &&& !level && !instance && !directory && !a && b ==> blames(
                p,
                "seal.every_millis"@,
                "0"@,
            )
            &&& !level && !instance && !directory && !a && !b && c ==> blames(
                p,
                "rotation.max_entries"@,
                "0"@,
            )
            &&& !level && !instance && !directory && !a && !b && !c && d ==> blames(
                p,
                "rotation.max_age_millis"@,
                "0"@,
            )
        }),
{
}

/// Whether a layer is refused for what it states under `key`.
pub open spec fn blames(p: PatchView, key: Seq<char>, value: Seq<char>) -> bool {
    patch_fault(p) matches Some(ConfigErrorView::BadValue { key: k, value: v, .. }) && k == key && v
        == value
}

// =====================================================================================
// The file
// =====================================================================================

/// Whether a text holds a line, from where a line begins.
pub open spec fn has_line(text: Seq<char>, line: Seq<char>) -> bool {
    exists|a: Seq<char>, b: Seq<char>|
        text == #[trigger] (a + line + b) && (a.len() == 0 || a.last() == '\n')
}

pub proof fn lemma_has_line(text: Seq<char>, a: Seq<char>, line: Seq<char>, b: Seq<char>)
    requires
        text == a + line + b,
        a.len() == 0 || a.last() == '\n',
    ensures
        has_line(text, line),
{
}

/// The quoted text of what a key states.
pub open spec fn quoted_value(v: Option<Seq<char>>) -> Option<Seq<char>> {
    match v {
        Some(s) => Some(debug_text(s)),
        None => None,
    }
}

/// The text of a bound that a key states.
pub open spec fn bound_value(b: Option<Bound>) -> Option<Seq<char>> {
    match b {
        Some(Bound::Never) => Some("\"never\""@),
        Some(Bound::At(n)) => Some(decimal(n as nat)),
        None => None,
    }
}

/// A layer is written as a file of its keys, in this order and each with its own value: the
/// level, the destination, the directory and the instance on top; under `[seal]` after how
/// many entries and after how long; under `[rotation]` how many entries and how long. A key
/// that is not stated is not written, and a heading only with something under it.
pub proof fn law_file_states_every_key(p: PatchView)
    ensures
        ({
            let line = |key: Seq<char>, value: Option<Seq<char>>|
                match value {
                    Some(v) => key + " = "@ + v + "\n"@,
                    None => Seq::<char>::empty(),
                };
            let seal = line("every_entries"@, bound_value(p.seal_every_entries)) + line(
                "every_millis"@,
                bound_value(p.seal_every_millis),
            );
            let rotation = line("max_entries"@, bound_value(p.rotation_max_entries)) + line(
                "max_age_millis"@,
                bound_value(p.rotation_max_age_millis),
            );
            patch_text(p) == line("level"@, quoted_value(p.level)) + line(
                "destination"@,
                match p.destination {
                    Some(d) => Some(debug_text(destination_token(d))),
                    None => None,
                },
            ) + line("directory"@, quoted_value(p.directory)) + line(
                "instance"@,
                quoted_value(p.instance),
            ) + (if seal.len() > 0 {
                "\n[seal]\n"@ + seal
            } else {
                Seq::empty()
            }) + (if rotation.len() > 0 {
                "\n[rotation]\n"@ + rotation
            } else {
                Seq::empty()
            })
        }),
{
    reveal_strlit("\n");
    assert("\n"@ =~= seq!['\n']);
}

/// The thread of a file is the file's path behind `urn:file:`, one for each, in order.
pub proof fn law_thread_names_its_file(paths: Seq<Seq<char>>, i: int)
    ensures
        file_threads(paths).len() == paths.len(),
        0 <= i < paths.len() ==> file_threads(paths)[i] == "urn:file:"@ + paths[i],
{
}

// =====================================================================================
// The graph
// =====================================================================================

/// The graph of a configuration states, of its subject, the level, the destination, the
/// instance and the directory where there is one, each on a line of its own, and the segment
/// that is open or that none is.
pub proof fn law_config_graph_states_every_key(
    c: ConfigView,
    subject: Seq<char>,
    open: Option<(Seq<char>, Seq<char>)>,
)
    ensures
        ({
            let text = config_turtle(c, subject, open);
            &&& has_line(text, "<"@ + subject + "> a log:Config ;\n"@)
            &&& has_line(text, "    log:level <"@ + c.level + "> ;\n"@)
            &&& has_line(
                text,
                "    log:destination <"@ + ("https://ikigai-rs.dev/ns/log#"@ + destination_token(
                    c.destination,
                )) + "> ;\n"@,
            )
            &&& c.directory matches Some(d) ==> has_line(
                text,
                "    log:directory "@ + debug_text(d) + " ;\n"@,
            )
            &&& has_line(text, "    log:instance <"@ + c.instance + "> ;\n"@)
            &&& has_line(text, layer_lines(c.layers))
            &&& has_line(text, "<"@ + c.instance + "> a log:Instance .\n"@)
            &&& open matches Some((name, _)) ==> has_line(
                text,
                "    log:currentSegment <"@ + name + "> .\n\n"@,
            )
            &&& open is None ==> has_line(text, "    log:currentSegment log:none .\n\n"@)
        }),
{
    reveal_strlit(
        "@prefix log:  <https://ikigai-rs.dev/ns/log#> .\n@prefix prov: <http://www.w3.org/ns/prov#> .\n@prefix xsd:  <http://www.w3.org/2001/XMLSchema#> .\n\n",
    );
    reveal_strlit("> a log:Config ;\n");
    reveal_strlit("> ;\n");
    reveal_strlit(" ;\n");
    reveal_strlit("> .\n\n");
    reveal_strlit("    log:currentSegment log:none .\n\n");
    let text = config_turtle(c, subject, open);
    let top =
        "@prefix log:  <https://ikigai-rs.dev/ns/log#> .\n@prefix prov: <http://www.w3.org/ns/prov#> .\n@prefix xsd:  <http://www.w3.org/2001/XMLSchema#> .\n\n"@;
    let a = "<"@ + subject + "> a log:Config ;\n"@;
    let b = "    log:level <"@ + c.level + "> ;\n"@;
    let d = "    log:destination <"@ + ("https://ikigai-rs.dev/ns/log#"@ + destination_token(
        c.destination,
    )) + "> ;\n"@;
    let e = match c.directory {
        Some(d) => "    log:directory "@ + debug_text(d) + " ;\n"@,
        None => Seq::empty(),
    };
    let f = "    log:instance <"@ + c.instance + "> ;\n"@;
    let g = layer_lines(c.layers);
    let h = match open {
        Some((name, _)) => "    log:currentSegment <"@ + name + "> .\n\n"@,
        None => "    log:currentSegment log:none .\n\n"@,
    };
    lemma_layer_lines(c.layers);
    assert(top.last() == '\n' && a.last() == '\n' && b.last() == '\n' && d.last() == '\n');
    assert(f.last() == '\n');
    if c.directory is Some {
        assert(e.last() == '\n');
    }
    let p1 = top;
    let p2 = p1 + a;
    let p3 = p2 + b;
    let p4 = p3 + d;
    let p5 = p4 + e;
    let p6 = p5 + f;
    let p7 = p6 + g;
    let p8 = p7 + h;
    let i = "<"@ + c.instance + "> a log:Instance .\n"@;
    let last = segment_lines(c, open);
    assert(text == p8 + i + last);
    assert(text.take(text.len() as int) =~= text);
    lemma_front(text, p8 + i, last);
    lemma_part(text, p8, i);
    lemma_front(text, p8, i);
    lemma_front(text, p7, h);
    lemma_part(text, p7, h);
    lemma_part(text, p6, g);
    lemma_front(text, p6, g);
    lemma_front(text, p5, f);
    lemma_part(text, p5, f);
    lemma_front(text, p4, e);
    lemma_part(text, p4, e);
    lemma_front(text, p3, d);
    lemma_part(text, p3, d);
    lemma_front(text, p2, b);
    lemma_part(text, p2, b);
    lemma_front(text, p1, a);
    lemma_part(text, p1, a);
}

/// What begins with two parts begins with the first.
pub proof fn lemma_front(text: Seq<char>, a: Seq<char>, b: Seq<char>)
    requires
        starts_with(text, a + b),
    ensures
        starts_with(text, a),
{
    let n = (a + b).len() as int;
    assert(text.take(n).take(a.len() as int) =~= text.take(a.len() as int));
    assert((a + b).take(a.len() as int) =~= a);
}

/// What begins a text and goes on with a line holds that line.
pub proof fn lemma_part(text: Seq<char>, a: Seq<char>, line: Seq<char>)
    requires
        starts_with(text, a + line),
        a.len() == 0 || a.last() == '\n',
    ensures
        has_line(text, line),
{
    let rest = text.skip((a + line).len() as int);
    assert(text =~= a + line + rest);
    lemma_has_line(text, a, line, rest);
}

proof fn lemma_layer_lines(layers: Seq<Seq<char>>)
    ensures
        layer_lines(layers).len() > 0 ==> layer_lines(layers).last() == '\n',
    decreases layers.len(),
{
    reveal_strlit(" ;\n");
    if layers.len() > 0 {
        lemma_layer_lines(layers.drop_last());
    }
}

/// What the graph says of the open segment: its level and who writes it, and where that is
/// another instance than the configured one, which one was configured.
pub proof fn law_config_graph_states_the_segment(
    c: ConfigView,
    name: Seq<char>,
    instance: Seq<char>,
)
    ensures
        starts_with(
            segment_lines(c, Some((name, instance))),
            "<"@ + name + "> a log:Segment ;\n    log:level <"@ + c.level
                + "> ;\n    prov:wasAttributedTo <"@ + instance + "> .\n"@,
        ),
        instance != c.instance ==> has_line(
            segment_lines(c, Some((name, instance))),
            "<"@ + instance + "> a log:Instance ;\n    log:configuredInstance <"@ + c.instance
                + "> .\n"@,
        ),
        segment_lines(c, None).len() == 0,
{
    reveal_strlit("> .\n");
    let text = segment_lines(c, Some((name, instance)));
    let a = "<"@ + name + "> a log:Segment ;\n    log:level <"@ + c.level
        + "> ;\n    prov:wasAttributedTo <"@ + instance + "> .\n"@;
    assert(text.take(a.len() as int) =~= a);
    assert(a.last() == '\n');
    if instance != c.instance {
        let b = "<"@ + instance + "> a log:Instance ;\n    log:configuredInstance <"@ + c.instance
            + "> .\n"@;
        assert(text.take((a + b).len() as int) =~= a + b);
        lemma_part(text, a, b);
    }
}

} // verus!
