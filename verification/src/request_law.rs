//! What a request comes to: what an entry keeps of what was asked for, what a change of the
//! configuration says of itself, and what is answered.

use vstd::prelude::*;
use vstd::string::*;

use crate::chain::SealSigner;
use crate::config::{destination_token, level_read, Destination};
use crate::entry::{tail_read, EntryView};
use crate::error::RenderErrorView;
use crate::handle::{denial_entry, denial_subject, handle_writing, sure, HandleView};
use crate::layer::{applied, as_patch, config_turtle, patch_text, ConfigView, PatchView};
use crate::lineage::emitted;
use crate::number::decimal;
use crate::request::{
    answered, asked_change, asked_entry, change_keys, change_views, changed, changes, config_body,
    landed, only_refused, rejection, writes, ChangeErrorView, ConfigFace, WriteArguments,
};
use crate::segments::given;
use crate::table::{lemma_lookup_first, lookup};
use crate::text::{starts_with, trim};
use crate::token::iri_like;
use crate::vocabulary::{
    CAPABILITY_DENIED_CLASS, CONFIG_CHANGE_CLASS, LEVEL_CHANGE_CLASS, LEVEL_CHANGE_REJECTED_CLASS,
    LOG_NS, MESSAGE_CLASS,
};
use crate::writer::{next_line, WriteErrorView, WriterView};

verus! {

// =====================================================================================
// Appending
// =====================================================================================

/// Whether an argument says something: it is there, and is not white space alone.
pub open spec fn says(arg: Option<&str>) -> bool {
    arg matches Some(s) && trim(s@).len() > 0
}

/// Nothing that a request asks for is lost: the columns of its `fields` are the entry's
/// last, all of them and in order, whatever prose comes with them; and before them stands
/// the prose where there is any, and nothing else.
pub proof fn law_request_keeps_every_field(a: WriteArguments<'_>, now: nat, instance: Seq<char>)
    requires
        asked_entry(a, now, instance) is Ok,
    ensures
        ({
            let f = asked_entry(a, now, instance)->Ok_0.fields;
            let prose: int = if says(a.msg) || says(a.content) {
                1
            } else {
                0
            };
            &&& says(a.fields) ==> tail_read(trim(a.fields->0@)) is Ok && f.len() == prose
                + tail_read(trim(a.fields->0@))->Ok_0.len() && f.skip(prose) == tail_read(
                trim(a.fields->0@),
            )->Ok_0
            &&& !says(a.fields) ==> f.len() == prose
            &&& says(a.msg) ==> f[0] == ("msg"@, trim(a.msg->0@))
            &&& !says(a.msg) && says(a.content) ==> f[0] == ("msg"@, trim(a.content->0@))
        }),
{
    let f = asked_entry(a, now, instance)->Ok_0.fields;
    if says(a.fields) {
        let t = tail_read(trim(a.fields->0@))->Ok_0;
        if says(a.msg) || says(a.content) {
            assert(f.skip(1) =~= t);
        } else {
            assert(f.skip(0) =~= t);
        }
    }
}

/// The columns of a requested entry are those asked for: a `log:` CURIE stands for a term of
/// the log's namespace, an IRI for itself; where nothing is said, the entry is a message,
/// and about the process that writes it. It is stamped with the time of the request.
pub proof fn law_request_columns(a: WriteArguments<'_>, now: nat, instance: Seq<char>)
    requires
        asked_entry(a, now, instance) is Ok,
    ensures
        ({
            let e = asked_entry(a, now, instance)->Ok_0;
            &&& e.time == now
            &&& !says(a.class) ==> e.class == MESSAGE_CLASS@
            &&& says(a.class) && starts_with(trim(trim(a.class->0@)), "log:"@) ==> e.class
                == LOG_NS@ + trim(trim(a.class->0@)).skip(4) && trim(trim(a.class->0@)).len() > 4
            &&& says(a.class) && !starts_with(trim(trim(a.class->0@)), "log:"@) ==> e.class
                == trim(trim(a.class->0@)) && iri_like(e.class)
            &&& !says(a.subject) ==> e.subject == instance
            &&& says(a.subject) ==> e.subject == trim(a.subject->0@) && iri_like(e.subject)
        }),
{
}

/// A request is refused exactly where one of its arguments cannot be used, and the first of
/// them is named: the class, then the subject, then the fields.
pub proof fn law_request_is_refused_for_cause(a: WriteArguments<'_>, now: nat, instance: Seq<char>)
    ensures
        ({
            let t = trim(trim(a.class->0@));
            let class = says(a.class) && (if starts_with(t, "log:"@) {
                t.len() <= 4
            } else {
                !iri_like(t)
            });
            let subject = says(a.subject) && !iri_like(trim(a.subject->0@));
            let fields = says(a.fields) && tail_read(trim(a.fields->0@)) is Err;
            let r = asked_entry(a, now, instance);
            &&& r is Err <==> class || subject || fields
            &&& class ==> r->Err_0.name == "class"@
            &&& !class && subject ==> r->Err_0.name == "subject"@
            &&& !class && !subject && fields ==> r->Err_0.name == "fields"@
        }),
{
}

/// An append is answered with the IRI of the entry that landed, under the next number of the
/// segment, and its line is the one that landed; or, where the level leaves the class out,
/// with the class and the level, and nothing landed.
pub proof fn law_append_is_answered_with_what_landed<G: SealSigner>(
    signer: Option<G>,
    w: WriterView,
    e: EntryView,
    after: Option<WriterView>,
    level: Seq<char>,
    text: Seq<char>,
)
    requires
        answered(signer, w, e, after, level, text),
    ensures
        after is Some,
        emitted(w.vocabulary, e.class, w.rank) ==> {
            &&& text == w.header.name + ":"@ + decimal(w.seq + 1)
            &&& after->0.seq == w.seq + 1
            &&& after->0.lines.len() > w.lines.len()
            &&& next_line(w, e) == Ok::<Seq<char>, RenderErrorView>(
                after->0.lines[w.lines.len() as int],
            )
        },
        !emitted(w.vocabulary, e.class, w.rank) ==> {
            &&& text == "filtered: "@ + e.class + " is below this segment's level ("@ + level
                + ")"@
            &&& after == Some(w)
        },
{
    reveal_strlit(":");
    assert(":"@ =~= seq![':']);
}

/// Somebody who is refused is on the record: which capability was missing, and for what.
pub proof fn law_denial_says_what_was_missing(
    subject: Seq<char>,
    now: nat,
    capability: Seq<char>,
    action: Seq<char>,
    w: WriterView,
)
    ensures
        ({
            let e = denial_entry(subject, now, capability, action);
            &&& e.class == CAPABILITY_DENIED_CLASS@
            &&& e.subject == subject
            &&& e.time == now
            &&& lookup(e.fields, "cap"@) == Some(capability)
            &&& lookup(e.fields, "reason"@) == Some(action)
            &&& e.fields.len() == 2
        }),
        denial_subject(Some(w)) == w.header.name,
        denial_subject(None) == "urn:log:config"@,
{
    let e = denial_entry(subject, now, capability, action);
    reveal_strlit("cap");
    reveal_strlit("reason");
    assert("cap"@[0] == 'c' && "reason"@[0] == 'r');
    lemma_lookup_first(e.fields, 0);
    lemma_lookup_first(e.fields, 1);
}

// =====================================================================================
// Changing the configuration
// =====================================================================================

/// Whether `c` is the record that `key` went from `from` to `to`.
pub open spec fn records(
    c: (Seq<char>, EntryView),
    class: Seq<char>,
    key: Seq<char>,
    from: Seq<char>,
    to: Seq<char>,
    file: Seq<char>,
    now: nat,
) -> bool {
    &&& c.0 == key
    &&& c.1.time == now
    &&& c.1.class == class
    &&& c.1.subject == "urn:log:config"@
    &&& lookup(c.1.fields, "key"@) == Some(key)
    &&& lookup(c.1.fields, "from"@) == Some(from)
    &&& lookup(c.1.fields, "to"@) == Some(to)
    &&& lookup(c.1.fields, "effective"@) == Some("next-segment"@)
    &&& lookup(c.1.fields, "file"@) == Some(file)
    &&& c.1.fields.len() == 5
}

/// A directory as a record names it.
pub open spec fn directory_name(d: Option<Seq<char>>) -> Seq<char> {
    match d {
        Some(path) => path,
        None => "(data home)"@,
    }
}

proof fn lemma_change_fields(f: Seq<(Seq<char>, Seq<char>)>)
    requires
        f.len() == 5,
        f[0].0 == "key"@,
        f[1].0 == "from"@,
        f[2].0 == "to"@,
        f[3].0 == "effective"@,
        f[4].0 == "file"@,
    ensures
        lookup(f, "key"@) == Some(f[0].1),
        lookup(f, "from"@) == Some(f[1].1),
        lookup(f, "to"@) == Some(f[2].1),
        lookup(f, "effective"@) == Some(f[3].1),
        lookup(f, "file"@) == Some(f[4].1),
{
    reveal_strlit("key");
    reveal_strlit("from");
    reveal_strlit("to");
    reveal_strlit("effective");
    reveal_strlit("file");
    assert("key"@[0] == 'k' && "from"@[0] == 'f' && "from"@[1] == 'r' && "to"@[0] == 't');
    assert("effective"@[0] == 'e' && "file"@[0] == 'f' && "file"@[1] == 'i');
    lemma_lookup_first(f, 0);
    lemma_lookup_first(f, 1);
    lemma_lookup_first(f, 2);
    lemma_lookup_first(f, 3);
    lemma_lookup_first(f, 4);
}

/// How many records of the keys before a key there are.
spec fn place(before: ConfigView, after: ConfigView, keys: int) -> int {
    (if keys > 0 && before.level != after.level {
        1int
    } else {
        0
    }) + (if keys > 1 && before.destination != after.destination {
        1int
    } else {
        0
    }) + (if keys > 2 && before.directory != after.directory {
        1int
    } else {
        0
    }) + (if keys > 3 && before.instance != after.instance {
        1int
    } else {
        0
    })
}

/// Every key that changed is on the record with the value it had and the value it has: the
/// level as a level change, any other as a config change. And nothing else is: there are as
/// many records as there are keys that changed.
pub proof fn law_change_says_from_and_to(
    before: ConfigView,
    after: ConfigView,
    file: Seq<char>,
    now: nat,
)
    ensures
        ({
            let all = changes(before, after, file, now);
            &&& after.level != before.level ==> exists|i: int|
                0 <= i < all.len() && records(
                    #[trigger] all[i],
                    LEVEL_CHANGE_CLASS@,
                    "level"@,
                    before.level,
                    after.level,
                    file,
                    now,
                )
            &&& after.destination != before.destination ==> exists|i: int|
                0 <= i < all.len() && records(
                    #[trigger] all[i],
                    CONFIG_CHANGE_CLASS@,
                    "destination"@,
                    destination_token(before.destination),
                    destination_token(after.destination),
                    file,
                    now,
                )
            &&& after.directory != before.directory ==> exists|i: int|
                0 <= i < all.len() && records(
                    #[trigger] all[i],
                    CONFIG_CHANGE_CLASS@,
                    "directory"@,
                    directory_name(before.directory),
                    directory_name(after.directory),
                    file,
                    now,
                )
            &&& after.instance != before.instance ==> exists|i: int|
                0 <= i < all.len() && records(
                    #[trigger] all[i],
                    CONFIG_CHANGE_CLASS@,
                    "instance"@,
                    before.instance,
                    after.instance,
                    file,
                    now,
                )
            &&& all.len() == (if after.level != before.level {
                1int
            } else {
                0
            }) + (if after.destination != before.destination {
                1int
            } else {
                0
            }) + (if after.directory != before.directory {
                1int
            } else {
                0
            }) + (if after.instance != before.instance {
                1int
            } else {
                0
            })
        }),
{
    let all = changes(before, after, file, now);
    if after.level != before.level {
        let c = all[place(before, after, 0)];
        lemma_change_fields(c.1.fields);
        assert(records(
            c,
            LEVEL_CHANGE_CLASS@,
            "level"@,
            before.level,
            after.level,
            file,
            now,
        ));
    }
    if after.destination != before.destination {
        let c = all[place(before, after, 1)];
        lemma_change_fields(c.1.fields);
        assert(records(
            c,
            CONFIG_CHANGE_CLASS@,
            "destination"@,
            destination_token(before.destination),
            destination_token(after.destination),
            file,
            now,
        ));
    }
    if after.directory != before.directory {
        let c = all[place(before, after, 2)];
        lemma_change_fields(c.1.fields);
        assert(records(
            c,
            CONFIG_CHANGE_CLASS@,
            "directory"@,
            directory_name(before.directory),
            directory_name(after.directory),
            file,
            now,
        ));
    }
    if after.instance != before.instance {
        let c = all[place(before, after, 3)];
        lemma_change_fields(c.1.fields);
        assert(records(
            c,
            CONFIG_CHANGE_CLASS@,
            "instance"@,
            before.instance,
            after.instance,
            file,
            now,
        ));
    }
}

/// The tokens of the destinations, as an operator writes them.
pub proof fn law_destinations_are_named(d: Destination)
    ensures
        d == Destination::Off ==> destination_token(d) == "off"@,
        d == Destination::Console ==> destination_token(d) == "console"@,
        d == Destination::File ==> destination_token(d) == "file"@,
{
}

/// A change asks for exactly what its arguments say, and for nothing of the policies. It is
/// refused for a level that is none, for a destination that is none, and where it asks for
/// nothing.
pub proof fn law_change_is_what_was_asked(
    level: Option<&str>,
    destination: Option<&str>,
    directory: Option<&str>,
    instance: Option<&str>,
)
    ensures
        ({
            let r = asked_change(
                given(level),
                given(destination),
                given(directory),
                given(instance),
            );
            let d = trim(destination->0@);
            let bad_level = says(level) && level_read(trim(level->0@)) is None;
            let bad_destination = says(destination) && d != "off"@ && d != "console"@ && d
                != "file"@;
            let nothing = !says(level) && !says(destination) && !says(directory) && !says(instance);
            &&& r is Err <==> bad_level || bad_destination || nothing
            &&& bad_level ==> r->Err_0 == ChangeErrorView::Level(trim(level->0@))
            &&& !bad_level && bad_destination ==> r->Err_0 is Argument
                && r->Err_0->Argument_0.name == "destination"@
            &&& nothing ==> r->Err_0 is Missing
            &&& r matches Ok(p) ==> {
                &&& says(level) ==> p.level == Some(trim(level->0@))
                &&& !says(level) ==> p.level is None
                &&& says(directory) ==> p.directory == Some(trim(directory->0@))
                &&& !says(directory) ==> p.directory is None
                &&& says(instance) ==> p.instance == Some(trim(instance->0@))
                &&& !says(instance) ==> p.instance is None
                &&& !says(destination) ==> p.destination is None
                &&& says(destination) ==> p.destination is Some && destination_token(
                    p.destination->0,
                ) == d
                &&& p.seal_every_entries is None && p.seal_every_millis is None
                &&& p.rotation_max_entries is None && p.rotation_max_age_millis is None
            }
        }),
{
    reveal_strlit("off");
    reveal_strlit("console");
    reveal_strlit("file");
    assert("off"@.len() == 3 && "console"@.len() == 7 && "file"@.len() == 4);
}

/// A level that was refused is on the record as what was asked for.
pub proof fn law_rejection_names_the_level(level: Seq<char>, now: nat)
    ensures
        rejection(level, now).time == now,
        rejection(level, now).class == LEVEL_CHANGE_REJECTED_CLASS@,
        rejection(level, now).subject == "urn:log:config"@,
        lookup(rejection(level, now).fields, "to"@) == Some(level),
        lookup(rejection(level, now).fields, "reason"@) is Some,
{
    reveal_strlit("to");
    reveal_strlit("reason");
    assert("to"@[0] == 't' && "reason"@[0] == 'r');
    lemma_lookup_first(rejection(level, now).fields, 0);
    lemma_lookup_first(rejection(level, now).fields, 1);
}

/// A change takes effect in the configuration at once, for the segments to come: every key
/// that it states, and no other. The open segment goes on under its own header.
pub proof fn law_change_takes_effect<G: SealSigner>(
    signer: Option<G>,
    before: HandleView,
    p: PatchView,
    file: Seq<char>,
    now: nat,
    after: HandleView,
    keys: Seq<Seq<char>>,
)
    requires
        changed(signer, before, p, file, now, after, keys),
    ensures
        p.destination matches Some(d) ==> after.config.destination == d,
        p.destination is None ==> after.config.destination == before.config.destination,
        p.directory matches Some(d) ==> after.config.directory == Some(d),
        p.directory is None ==> after.config.directory == before.config.directory,
        p.level is None ==> after.config.level == before.config.level,
        p.level matches Some(l) ==> (level_read(l) matches Some(iri) ==> after.config.level == iri),
        p.instance is None ==> after.config.instance == before.config.instance,
        after.home == before.home,
        after.app == before.app,
        before.writer is Some <==> after.writer is Some,
        before.writer matches Some(w) ==> after.writer->0.header == w.header,
{
    let config = applied(before.config, p);
    let all = changes(before.config, config, file, now);
    let es = change_views(all);
    let (states, rs) = choose|
        states: Seq<Option<WriterView>>,
        rs: Seq<Result<Option<nat>, WriteErrorView>>,
    | #[trigger]
        writes(signer, es, states, rs) && states.first() == before.writer && after == (HandleView {
            config,
            writer: states.last(),
            ..before
        }) && keys == landed(change_keys(all), rs) && (sure(
            before.writer,
        ) ==> only_refused(rs));
    lemma_writes_keep_header(signer, es, states, rs, es.len() as int);
}

/// Writing entries leaves the header of the open segment as it is.
proof fn lemma_writes_keep_header<G: SealSigner>(
    signer: Option<G>,
    es: Seq<EntryView>,
    states: Seq<Option<WriterView>>,
    rs: Seq<Result<Option<nat>, WriteErrorView>>,
    k: int,
)
    requires
        writes(signer, es, states, rs),
        0 <= k <= es.len(),
    ensures
        states[0] is Some <==> states[k] is Some,
        states[0] matches Some(w) ==> states[k]->0.header == w.header,
    decreases k,
{
    if k > 0 {
        lemma_writes_keep_header(signer, es, states, rs, k - 1);
        assert(handle_writing(
            signer,
            states[k - 1],
            es[k - 1],
            states[k],
            rs[k - 1],
        ));
    }
}

// =====================================================================================
// Reading the configuration
// =====================================================================================

/// The configuration is served as the file that would state it, and after it whether a
/// segment is open, and which.
pub proof fn law_served_config_says_what_is_open(h: HandleView)
    ensures
        starts_with(config_body(h, ConfigFace::Toml), patch_text(as_patch(h.config))),
        ({
            let rest = config_body(h, ConfigFace::Toml).skip(
                patch_text(as_patch(h.config)).len() as int,
            );
            &&& h.writer is None ==> starts_with(rest, "\n# open = false\n"@)
            &&& h.writer matches Some(w) ==> starts_with(
                rest,
                "\n# open = true\n# segment = "@ + w.header.name + "\n# instance = "@
                    + w.header.instance + "\n"@,
            )
        }),
        h.writer is None ==> config_body(h, ConfigFace::Graph) == config_turtle(
            h.config,
            "urn:log:config"@,
            None,
        ),
        h.writer matches Some(w) ==> config_body(h, ConfigFace::Graph) == config_turtle(
            h.config,
            "urn:log:config"@,
            Some((w.header.name, w.header.instance)),
        ),
{
    let text = patch_text(as_patch(h.config));
    let body = config_body(h, ConfigFace::Toml);
    assert(body.take(text.len() as int) =~= text);
    let rest = body.skip(text.len() as int);
    match h.writer {
        None => {
            let state = "\n# open = false\n"@;
            assert(rest.take(state.len() as int) =~= state);
        },
        Some(w) => {
            let state = "\n# open = true\n# segment = "@ + w.header.name + "\n# instance = "@
                + w.header.instance + "\n"@;
            assert(rest.take(state.len() as int) =~= state);
        },
    }
}

} // verus!
