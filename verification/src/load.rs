//! The config files: which ones there are, and what they come to together.
//!
//! Reading and writing them is the host's. The files for an application are layered,
//! lowest precedence first: the shared `log.toml`, then the application's own
//! `{app}.log.toml` beside it.

use ikigai_core::config::layered_paths_in;
use std::path::Path;
use vstd::prelude::*;
use vstd::string::*;

use crate::config::{instance_of, level_read, STEM};
use crate::layer::{
    applied, bound_limit, bound_number, law_layering_is_key_wise, ConfigView, LogConfig, Patch,
    PatchView,
};
use crate::segments::given;
use crate::text::{starts_with, texts};

verus! {

/// Whether an application is named.
pub open spec fn names_app(app: Option<Seq<char>>) -> bool {
    app matches Some(a) && a.len() > 0
}

/// Whether a path is simply extended by what is joined to it. The exception is a verbatim
/// path of Windows, which is normalized.
pub open spec fn extensible(home: Seq<char>) -> bool {
    !starts_with(home, "\\\\?\\"@)
}

/// Whether a name stays below what it is joined to: one that is no path of its own.
pub open spec fn file_like(name: Seq<char>) -> bool {
    !name.contains('/') && !name.contains('\\') && !name.contains(':')
}

/// Whether nothing separates a name from the path it is joined to: the path is empty, or
/// ends where a name can follow.
pub open spec fn open_ended(home: Seq<char>) -> bool {
    home.len() == 0 || home.last() == '/' || home.last() == '\\' || home.last() == ':'
}

/// Whether `path` is `name` joined to `home`, by either separator.
pub open spec fn joined_to(path: Seq<char>, home: Seq<char>, name: Seq<char>) -> bool {
    ||| path == home + "/"@ + name
    ||| path == home + "\\"@ + name
    ||| path == home + name && open_ended(home)
}

/// Whether `path` ends with `name`.
pub open spec fn ends_with(path: Seq<char>, name: Seq<char>) -> bool {
    name.len() <= path.len() && path.skip(path.len() - name.len()) == name
}

/// What is known of the candidate files of a config home, lowest precedence first.
pub open spec fn candidates(
    home: Seq<char>,
    app: Option<Seq<char>>,
    paths: Seq<Seq<char>>,
) -> bool {
    &&& paths.len() == (if names_app(app) {
        2int
    } else {
        1
    })
    &&& extensible(home) ==> joined_to(paths[0], home, STEM@)
    &&& extensible(home) && names_app(app) && file_like(app->Some_0) ==> joined_to(
        paths[1],
        home,
        app->Some_0 + "."@ + STEM@,
    )
    &&& extensible(home) && names_app(app) ==> ends_with(paths[1], app->Some_0 + "."@ + STEM@)
}

/// The candidate files by `ikigai_core::config::layered_paths_in`: the shared file, and
/// after it the application's own where an application is named. Each is the file's name
/// joined to the home, unless the platform treats the home or the name as something other
/// than what a name is joined to, and even then ends with the name. Which separator stands
/// between the two is the platform's.
#[verifier::external_body]
fn candidate_paths(home: &str, app: Option<&str>) -> (r: Vec<String>)
    ensures
        candidates(home@, given(app), texts(r@)),
{
    layered_paths_in(Path::new(home), STEM, app)
        .iter()
        .map(|path| path.display().to_string())
        .collect()
}

/// The candidate config files for `app`, lowest precedence first, whether or not they
/// exist: an absent file is a layer that states nothing, not an error.
pub fn paths_in(home: &str, app: Option<&str>) -> (r: Vec<String>)
    ensures
        candidates(home@, given(app), texts(r@)),
{
    candidate_paths(home, app)
}

/// The golden threads of files.
pub open spec fn file_threads(paths: Seq<Seq<char>>) -> Seq<Seq<char>> {
    paths.map_values(|p: Seq<char>| "urn:file:"@ + p)
}

/// The golden threads of files: one `urn:file:` per path.
pub fn threads_of(paths: &Vec<String>) -> (r: Vec<String>)
    ensures
        texts(r@) == file_threads(texts(paths@)),
{
    let ghost all = file_threads(texts(paths@));
    let mut r: Vec<String> = Vec::new();
    let mut i: usize = 0;
    assert(texts(r@) =~= all.take(0));
    while i < paths.len()
        invariant
            i <= paths.len(),
            all == file_threads(texts(paths@)),
            texts(r@) == all.take(i as int),
        decreases paths.len() - i,
    {
        let ghost before = r@;
        let mut thread = "urn:file:".to_owned();
        thread.append(&paths[i]);
        r.push(thread);
        assert(all[i as int] == "urn:file:"@ + paths@[i as int]@);
        assert(texts(r@) =~= texts(before).push(all[i as int]));
        assert(all.take(i + 1) =~= all.take(i as int).push(all[i as int]));
        i = i + 1;
    }
    assert(all.take(i as int) =~= all);
    r
}

/// The golden threads that the effective config depends on: one per candidate file,
/// existing or not.
///
/// A config that named only the files it read would never notice an override being
/// created.
pub fn threads_in(home: &str, app: Option<&str>) -> (r: Vec<String>)
    ensures
        exists|paths: Seq<Seq<char>>| #[trigger]
            candidates(home@, given(app), paths) && texts(r@) == file_threads(paths),
{
    let paths = candidate_paths(home, app);
    let r = threads_of(&paths);
    assert(candidates(home@, given(app), texts(paths@)));
    r
}

/// The layer that a change is written to: the application's own file where the host named
/// itself, else the shared one.
///
/// The one of highest precedence, so that the change takes effect. With any other, it
/// could be overridden by a file that nobody mentioned.
pub fn target_layer(home: &str, app: Option<&str>) -> (r: String)
    ensures
        exists|paths: Seq<Seq<char>>| #[trigger]
            candidates(home@, given(app), paths) && r@ == paths.last(),
{
    let mut paths = candidate_paths(home, app);
    let ghost all = texts(paths@);
    assert(candidates(home@, given(app), all));
    assert(paths@.len() == all.len());
    let last = paths.len() - 1;
    let r = paths.swap_remove(last);
    assert(r@ == all.last());
    r
}

/// The config that `base` and the layers found over it come to, lowest precedence first.
/// What is recorded as having contributed is exactly those layers.
pub open spec fn completed(
    base: ConfigView,
    found: Seq<(Seq<char>, PatchView)>,
) -> ConfigView
    decreases found.len(),
{
    if found.len() == 0 {
        ConfigView { layers: Seq::empty(), ..base }
    } else {
        let below = completed(base, found.drop_last());
        ConfigView { layers: below.layers.push(found.last().0), ..applied(below, found.last().1) }
    }
}

/// Layers with the files they were read from.
pub open spec fn found_layers(v: Seq<(String, Patch)>) -> Seq<(Seq<char>, PatchView)> {
    v.map_values(|l: (String, Patch)| (l.0@, l.1@))
}

/// The effective config: `base` with each layer that was found folded in, key-wise, lowest
/// precedence first.
///
/// `base` is the host's defaults: a server logs to the console where a command-line tool
/// does not log at all, and a library cannot make that call.
pub fn complete_with(base: LogConfig, found: &Vec<(String, Patch)>) -> (r: LogConfig)
    ensures
        r@ == completed(base@, found_layers(found@)),
{
    let ghost all = found_layers(found@);
    let ghost from = base@;
    let mut r = base;
    r.layers = Vec::new();
    let mut i: usize = 0;
    proof {
        assert(texts(r.layers@) =~= Seq::empty());
        assert(all.take(0) =~= Seq::empty());
        assert(r@ =~= completed(from, all.take(0)));
    }
    while i < found.len()
        invariant
            i <= found.len(),
            all == found_layers(found@),
            r@ == completed(from, all.take(i as int)),
        decreases found.len() - i,
    {
        proof {
            assert(all.take(i + 1).drop_last() =~= all.take(i as int));
            assert(all.take(i + 1).last() == all[i as int]);
        }
        r.apply(&found[i].1);
        let ghost layers = r.layers@;
        r.layers.push(found[i].0.clone());
        assert(texts(r.layers@) =~= texts(layers).push(all[i as int].0));
        assert(r@ =~= completed(from, all.take(i + 1)));
        i = i + 1;
    }
    assert(all.take(i as int) =~= all);
    r
}

/// Without a file, the effective config is the host's own, and nothing is recorded as
/// having contributed.
pub proof fn law_no_files_are_the_defaults(base: ConfigView)
    ensures
        completed(base, Seq::empty()) == (ConfigView { layers: Seq::empty(), ..base }),
{
}

/// What the layer of highest precedence states is in effect, each key for what it means,
/// and what it stays silent about survives from below.
pub proof fn law_highest_layer_wins(base: ConfigView, found: Seq<(Seq<char>, PatchView)>)
    requires
        found.len() > 0,
    ensures
        ({
            let top = found.last().1;
            let below = completed(base, found.drop_last());
            let r = completed(base, found);
            &&& r.layers == below.layers.push(found.last().0)
            &&& r.layers.len() == found.len()
            &&& top.level matches Some(l) ==> (level_read(l) matches Some(iri) ==> r.level == iri)
            &&& top.destination matches Some(d) ==> r.destination == d
            &&& top.directory matches Some(d) ==> r.directory == Some(d)
            &&& top.instance matches Some(n) ==> r.instance == instance_of(n)
            &&& top.seal_every_entries matches Some(b) ==> r.seals.every_entries == bound_number(b)
            &&& top.seal_every_millis matches Some(b) ==> r.seals.every_millis == bound_number(b)
            &&& top.rotation_max_entries matches Some(b) ==> r.rotation.max_entries == bound_limit(
                b,
            )
            &&& top.rotation_max_age_millis matches Some(b) ==> r.rotation.max_age_millis
                == bound_limit(b)
            &&& top.level is None ==> r.level == below.level
            &&& top.destination is None ==> r.destination == below.destination
            &&& top.directory is None ==> r.directory == below.directory
            &&& top.instance is None ==> r.instance == below.instance
            &&& top.seal_every_entries is None ==> r.seals.every_entries
                == below.seals.every_entries
            &&& top.seal_every_millis is None ==> r.seals.every_millis == below.seals.every_millis
            &&& top.rotation_max_entries is None ==> r.rotation.max_entries
                == below.rotation.max_entries
            &&& top.rotation_max_age_millis is None ==> r.rotation.max_age_millis
                == below.rotation.max_age_millis
        }),
{
    lemma_layers_counted(base, found);
    law_layering_is_key_wise(completed(base, found.drop_last()), found.last().1);
}

proof fn lemma_layers_counted(base: ConfigView, found: Seq<(Seq<char>, PatchView)>)
    ensures
        completed(base, found).layers.len() == found.len(),
    decreases found.len(),
{
    if found.len() > 0 {
        lemma_layers_counted(base, found.drop_last());
    }
}

} // verus!
