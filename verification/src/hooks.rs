//! What the loader's hooks do, and what it starts from.

use crate::changes::ActionView;
use crate::codec::options_of;
use crate::entry::untagged;
use crate::forest::{
    disabled_at, entry_at, group_at, has_entry, keys_ok, lemma_get_set_group, same_entry, EntryView,
};
use crate::loader::{
    config_json, config_or_null, disabled_entry, group_options, group_plugin_view,
    include_plugin_view, log_line, merged, merged_inject, options_at, platform_of, releases,
    self_disposed, shared_contents, shared_data, stopped, tree_written_back, write_back_place,
    LoaderIntercept,
};
use crate::mount::{group_entries, initial_text, patches_of};
use crate::options::OptionsView;
use crate::overrides::options_are_read_one_by_one;
use crate::patches::{patch_views, IncludeConfig};
use crate::readings::numbers;
use crate::searches::{comes_before, keys_tell_entries_apart, searches_find_the_first};
use crate::tree::{fits, QueryView, TreeView};
use crate::value::YamlView;
use crate::yaml::json_parsed;
use vstd::prelude::*;

verus! {

/// The data that a shared text holds is shared; without any, an empty mapping is.
pub proof fn shared_data_is_kept(parsed: Option<YamlView>)
    ensures
        parsed is Some ==> shared_data(parsed) == parsed->0,
        parsed is None ==> shared_data(parsed) is Mapping && shared_data(
            parsed,
        )->Mapping_0.len() == 0,
{
}

/// The group plugin is a group and depends on nothing; the plugin that mounts files is none and
/// depends on the loader. Both are applied by the callback given.
pub proof fn plugins_of_the_loader(apply: u64)
    ensures
        group_plugin_view(apply).is_group,
        group_plugin_view(apply).name == Some("group"@),
        group_plugin_view(apply).inject.len() == 0,
        group_plugin_view(apply).apply == apply,
        !include_plugin_view(apply).is_group,
        include_plugin_view(apply).name == Some("include"@),
        include_plugin_view(apply).inject == seq!["loader"@],
        include_plugin_view(apply).apply == apply,
{
}

/// Two platforms have other names in expressions than the operating system gives them.
pub proof fn platforms_are_named(os: Seq<char>)
    ensures
        platform_of("macos"@) == "darwin"@,
        platform_of("windows"@) == "win32"@,
        os != "macos"@ && os != "windows"@ ==> platform_of(os) == os,
{
    reveal_strlit("macos");
    reveal_strlit("windows");
    assert("macos"@.len() != "windows"@.len());
}

/// A group's config stands for the options that it lists, where all that it lists are options; null
/// and anything else stand for none.
pub proof fn group_configs_list_options(config: Option<YamlView>)
    ensures
        config is None ==> group_options(config).len() == 0,
        config is Some && !(untagged(config->0) is Sequence) ==> group_options(config).len() == 0,
        config is Some && untagged(config->0) is Sequence ==> {
            let items = untagged(config->0)->Sequence_0;
            let list = group_options(config);
            &&& (exists|i: int| 0 <= i < items.len() && options_of(#[trigger] items[i]) is None)
                ==> list.len() == 0
            &&& (forall|i: int| 0 <= i < items.len() ==> options_of(#[trigger] items[i]) is Some)
                ==> list.len() == items.len() && forall|i: int|
                0 <= i < items.len() ==> options_of(#[trigger] items[i]) == Some(list[i])
        },
{
    if config is Some && untagged(config->0) is Sequence {
        options_are_read_one_by_one(untagged(config->0)->Sequence_0);
    }
}

/// Merged intercepts await where one of them does.
pub proof fn intercepts_await_together(a: LoaderIntercept, b: LoaderIntercept)
    ensures
        merged(a, b).await_enabled <==> a.await_enabled || b.await_enabled,
{
}

/// An update of a fiber is written back to the first entry with this root fiber, unless it is not
/// to be saved, or the parent is that root itself.
pub proof fn updates_are_written_back(
    tree: TreeView,
    fiber: Option<u64>,
    parent_fiber: Option<u64>,
    no_save: bool,
)
    requires
        fits(tree.root),
    ensures
        match write_back_place(tree, fiber, parent_fiber, no_save) {
            Some(p) => {
                &&& fiber is Some
                &&& !no_save
                &&& parent_fiber != fiber
                &&& has_entry(tree.root, p)
                &&& entry_at(tree.root, p).fiber == fiber
                &&& forall|o: Seq<usize>| #[trigger]
                    has_entry(tree.root, o) && entry_at(tree.root, o).fiber == fiber && o != p
                        ==> comes_before(p, o)
            },
            None => fiber is None || no_save || parent_fiber == fiber || forall|o: Seq<usize>|
                #[trigger] has_entry(tree.root, o) ==> entry_at(tree.root, o).fiber != fiber,
        },
{
    if let Some(f) = fiber {
        searches_find_the_first(tree.root, QueryView::Fiber(f));
    }
}

/// Writing a config back changes the config of that entry and nothing else; without a place or a
/// config nothing changes.
pub proof fn written_back_configs_replace(
    tree: TreeView,
    place: Option<Seq<usize>>,
    config: Option<YamlView>,
    o: Seq<usize>,
)
    requires
        place is Some ==> has_entry(tree.root, place->0),
        has_entry(tree.root, o),
    ensures
        place is None || config is None ==> tree_written_back(tree, place, config) == tree,
        place is Some && config is Some ==> {
            let after = tree_written_back(tree, place, config);
            let before = entry_at(tree.root, o);
            let now = entry_at(after.root, o);
            &&& after == (TreeView { root: after.root, ..tree })
            &&& has_entry(after.root, o)
            &&& o != place->0 ==> same_entry(now, before)
            &&& o == place->0 ==> now.options == (OptionsView { config, ..before.options })
                && now.key == before.key && now.fiber == before.fiber && now.subgroup
                == before.subgroup && now.init_task == before.init_task
        },
{
    if let (Some(p), Some(value)) = (place, config) {
        let e = entry_at(tree.root, p);
        let options = OptionsView { config: Some(value), ..e.options };
        let to = EntryView { options, ..e };
        let q = p.drop_last();
        lemma_get_set_group(tree.root, q, group_at(tree.root, q)->0.update(p.last() as int, to));
        if o != p {
            crate::forest::other_entries_stay(tree.root, p, to, o);
        }
    }
}

/// Plugins are announced by kind and name, unless logs are off or the entry is a group.
pub proof fn plugins_are_announced(kind: Seq<char>, options: OptionsView, enable_logs: bool)
    ensures
        enable_logs && options.group != Some(true) ==> log_line(kind, options, enable_logs) == Some(
            kind + " plugin "@ + options.name,
        ),
        !enable_logs || options.group == Some(true) ==> log_line(
            kind,
            options,
            enable_logs,
        ) is None,
{
}

/// A plugin whose fiber is gone disposed itself where an entry still has that fiber and is not
/// disabled; the first such entry is meant.
pub proof fn lost_fibers_are_self_disposed(tree: TreeView, fiber: u64)
    requires
        fits(tree.root),
    ensures
        match self_disposed(tree, fiber) {
            Some(p) => {
                &&& has_entry(tree.root, p)
                &&& entry_at(tree.root, p).fiber == Some(fiber)
                &&& !disabled_at(tree.root, p)
                &&& forall|o: Seq<usize>| #[trigger]
                    has_entry(tree.root, o) && entry_at(tree.root, o).fiber == Some(fiber) && o != p
                        ==> comes_before(p, o)
            },
            None => forall|p: Seq<usize>|
                {
                    &&& #[trigger] has_entry(tree.root, p)
                    &&& entry_at(tree.root, p).fiber == Some(fiber)
                    &&& forall|o: Seq<usize>| #[trigger]
                        has_entry(tree.root, o) && entry_at(tree.root, o).fiber == Some(fiber)
                            ==> o == p
                } ==> disabled_at(tree.root, p),
        },
{
    searches_find_the_first(tree.root, QueryView::Fiber(fiber));
}

/// A plugin that disposed itself is disabled and keeps the rest. A live fiber gets the services
/// injected that the entry of its owner lists; without an owner in the tree it gets none.
pub proof fn plugin_events_take_effect(
    tree: TreeView,
    owner: u64,
    p: Seq<usize>,
    e: EntryView,
)
    requires
        fits(tree.root),
    ensures
        disabled_entry(e).options == (OptionsView { disabled: Some(true), ..e.options }),
        disabled_entry(e).key == e.key,
        disabled_entry(e).fiber == e.fiber,
        disabled_entry(e).subgroup == e.subgroup,
        disabled_entry(e).init_task == e.init_task,
        merged_inject(tree, None) is None,
        keys_ok(tree.root, tree.next_key) && has_entry(tree.root, p) && entry_at(tree.root, p).key
            == owner ==> merged_inject(tree, Some(owner)) == entry_at(tree.root, p).options.inject,
        (forall|o: Seq<usize>| #[trigger]
            has_entry(tree.root, o) ==> entry_at(tree.root, o).key != owner) ==> merged_inject(
            tree,
            Some(owner),
        ) is None,
{
    searches_find_the_first(tree.root, QueryView::Key(owner));
    if keys_ok(tree.root, tree.next_key) && has_entry(tree.root, p) && entry_at(tree.root, p).key
        == owner {
        let found = crate::tree::found(tree.root, QueryView::Key(owner));
        assert(found is Some);
        keys_tell_entries_apart(tree.root, tree.next_key, p, found->0);
    }
}

/// When a group stops, each of its entries loses its fiber and keeps the rest. The fibers are
/// released, in order, each once for each entry that has it.
pub proof fn stopped_groups_release_their_fibers(es: Seq<EntryView>, n: nat)
    requires
        n <= es.len(),
    ensures
        stopped(es).len() == es.len(),
        forall|i: int|
            0 <= i < es.len() ==> (#[trigger] stopped(es)[i]).fiber is None && stopped(es)[i] == (
            EntryView { fiber: None, ..es[i] }),
        releases(es, n as int) == numbers(n).filter(|i: int| es[i].fiber is Some).map_values(
            |i: int| ActionView::Release(es[i].fiber->0),
        ),
    decreases n,
{
    reveal(Seq::filter);
    let runs = |i: int| es[i].fiber is Some;
    let release = |i: int| ActionView::Release(es[i].fiber->0);
    if n > 0 {
        let before = (n - 1) as nat;
        stopped_groups_release_their_fibers(es, before);
        assert(numbers(n).drop_last() =~= numbers(before));
        assert(numbers(n).last() == n - 1);
        let rest = numbers(before).filter(runs);
        assert(rest.push(n - 1).map_values(release) =~= rest.map_values(release).push(
            release(n - 1),
        ));
    }
    assert(releases(es, n as int) =~= numbers(n).filter(runs).map_values(release));
}

/// The options of places are those of the entries there, one for each.
pub proof fn options_of_places(es: Seq<EntryView>, list: Seq<Seq<usize>>, i: int)
    requires
        0 <= i < list.len(),
    ensures
        options_at(es, list).len() == list.len(),
        options_at(es, list)[i] == entry_at(es, list[i]).options,
{
}

/// A plugin gets the notation of its config, that of null where there is no config; and the text
/// `null` where there is no notation.
pub proof fn configs_have_a_notation(config: Option<YamlView>, notation: Option<Seq<char>>)
    ensures
        config is Some ==> config_or_null(config) == config->0,
        config is None ==> config_or_null(config) == YamlView::Null,
        notation is Some ==> config_json(notation) == notation->0,
        notation is None ==> config_json(notation) == "null"@,
{
}

/// The shared text, where there is one, is read as JSON.
pub proof fn shared_texts_are_read(shared: Option<Seq<char>>)
    ensures
        shared is None ==> shared_contents(shared) is None,
        shared is Some ==> shared_contents(shared) == json_parsed(shared->0),
{
}

/// A missing file is written with the notation of its initial options, or with nothing where they
/// have none. A config without patches has none to apply.
pub proof fn missing_files_get_the_notation(
    notation: Result<Seq<char>, Seq<char>>,
    config: IncludeConfig,
    es: Seq<EntryView>,
)
    ensures
        notation is Ok ==> initial_text(notation) == notation->Ok_0,
        notation is Err ==> initial_text(notation).len() == 0,
        config.patches is None ==> patches_of(config).len() == 0,
        config.patches is Some ==> patches_of(config) == patch_views(config.patches->0@),
        group_entries(es).len() == es.len(),
        forall|i: int| 0 <= i < es.len() ==> #[trigger] group_entries(es)[i] == es[i].options,
{
}

} // verus!
