//! The loader: the entry tree with its environment, its hooks and the group plugin.

use crate::bridge::PluginHandle;
use crate::changes::{
    action_views, lemma_actions_push, replacement_keeps_keys, same_shape_keeps_keys, Action,
    ActionView,
};
use crate::codec::{decode_list, options_list_of};
use crate::dict::{assign, Dict, Duplicate};
use crate::entry::{entry_mut, entry_views, group_mut, lemma_entry_view, lemma_views_update, Entry};
use crate::evaluator::{EnvView, EvalEnv};
use crate::forest::{
    disabled_at, entry_at, full_id, group_at, has_entry, set_entry_at, set_group_at, walk,
    EntryView,
};
use crate::lifecycle::{with_subgroup, with_subgroup_entry};
use crate::options::{copy_texts_option, is_true, text_option, EntryOptions, OptionsView};
use crate::reconcile::{options_views, reading_of, tree_read};
use crate::text::{concat, concat3, same_text, texts};
use crate::tree::{
    found, task_count, uses_id, EntryTree, Plugin, PluginView, Query, QueryView, TreeView,
};
use crate::value::{option_view, Mapping, Yaml, YamlView};
use crate::yaml::{json_notation, json_parsed, parse_json, to_json_text};
use vstd::prelude::*;

verus! {

/// The plugin loader.
pub struct Loader {
    /// The entry tree.
    pub tree: EntryTree,
    /// Data shared through the environment.
    pub env_data: Yaml,
    /// The base url exposed to expressions.
    pub base_url: String,
}

/// What a loader is.
pub struct LoaderView {
    pub tree: TreeView,
    pub env_data: YamlView,
    pub base_url: Seq<char>,
}

impl View for Loader {
    type V = LoaderView;

    open spec fn view(&self) -> LoaderView {
        LoaderView { tree: self.tree@, env_data: self.env_data@, base_url: self.base_url@ }
    }
}

/// The shared data of a loader, from what the shared text holds; without any the empty mapping.
pub open spec fn shared_data(parsed: Option<YamlView>) -> YamlView {
    match parsed {
        Some(data) => data,
        None => YamlView::Mapping(Seq::empty()),
    }
}

/// What a shared text holds.
pub open spec fn shared_contents(shared: Option<Seq<char>>) -> Option<YamlView> {
    match shared {
        Some(text) => json_parsed(text),
        None => None,
    }
}

/// The plugin that reads a group's entries from its config.
pub open spec fn group_plugin_view(apply: u64) -> PluginView {
    PluginView { is_group: true, name: Some("group"@), inject: Seq::empty(), apply }
}

/// The plugin that mounts a config file.
pub open spec fn include_plugin_view(apply: u64) -> PluginView {
    PluginView {
        is_group: false,
        name: Some("include"@),
        inject: seq!["loader"@],
        apply,
    }
}

/// The name of a platform in expressions.
pub open spec fn platform_of(os: Seq<char>) -> Seq<char> {
    if os == "macos"@ {
        "darwin"@
    } else if os == "windows"@ {
        "win32"@
    } else {
        os
    }
}

/// The shared data of a loader, from what the shared text holds.
pub fn shared_or_empty(parsed: Option<Yaml>) -> (r: Yaml)
    ensures
        r@ == shared_data(option_view(parsed)),
{
    match parsed {
        Some(data) => data,
        None => Yaml::mapping(Mapping::new()),
    }
}

/// The plugin that reads a group's entries from its config, applied by the callback `apply`.
pub fn group_plugin(apply: u64) -> (r: Plugin)
    ensures
        r@ == group_plugin_view(apply),
{
    let r = Plugin { is_group: true, name: Some("group".to_owned()), inject: Vec::new(), apply };
    assert(texts(r.inject@) =~= Seq::<Seq<char>>::empty());
    r
}

/// The plugin that mounts a config file, applied by the callback `apply`.
pub fn include_plugin(apply: u64) -> (r: Plugin)
    ensures
        r@ == include_plugin_view(apply),
{
    let mut inject: Vec<String> = Vec::new();
    inject.push("loader".to_owned());
    assert(texts(inject@) =~= seq!["loader"@]);
    Plugin { is_group: false, name: Some("include".to_owned()), inject, apply }
}

/// The name of a platform in expressions.
pub fn platform_name(os: &str) -> (r: String)
    ensures
        r@ == platform_of(os@),
{
    if same_text(os, "macos") {
        "darwin".to_owned()
    } else if same_text(os, "windows") {
        "win32".to_owned()
    } else {
        os.to_owned()
    }
}

/// The options that a group's config stands for; none where it stands for no list of options.
pub open spec fn group_options(config: Option<YamlView>) -> Seq<OptionsView> {
    match config {
        Some(value) => match options_list_of(value) {
            Some(list) => list,
            None => Seq::empty(),
        },
        None => Seq::empty(),
    }
}

/// The options that a group's config stands for.
pub fn group_configs(config: &Option<Yaml>) -> (r: Vec<EntryOptions>)
    ensures
        options_views(r@) == group_options(option_view(*config)),
{
    if let Some(value) = config {
        if let Some(list) = decode_list(value) {
            return list;
        }
    }
    let none: Vec<EntryOptions> = Vec::new();
    assert(options_views(none@) =~= Seq::<OptionsView>::empty());
    none
}

/// The `loader` intercept config.
#[derive(PartialEq, Eq, Structural, Clone, Copy)]
pub struct LoaderIntercept {
    pub await_enabled: bool,
}

/// Both intercepts together: the loader awaits its tasks where one of them says so.
pub open spec fn merged(a: LoaderIntercept, b: LoaderIntercept) -> LoaderIntercept {
    LoaderIntercept { await_enabled: b.await_enabled || a.await_enabled }
}

impl LoaderIntercept {
    /// An intercept that makes the loader unavailable while tasks are pending.
    pub fn awaiting() -> (r: LoaderIntercept)
        ensures
            r.await_enabled,
    {
        LoaderIntercept { await_enabled: true }
    }

    /// Both intercepts together.
    pub fn merge(&self, other: &LoaderIntercept) -> (r: LoaderIntercept)
        ensures
            r == merged(*self, *other),
    {
        LoaderIntercept { await_enabled: other.await_enabled || self.await_enabled }
    }
}

impl Default for LoaderIntercept {
    fn default() -> (r: LoaderIntercept)
        ensures
            !r.await_enabled,
    {
        LoaderIntercept { await_enabled: false }
    }
}

/// Merging intercepts does not depend on their order or grouping, and an intercept merged with
/// itself is itself.
pub proof fn intercepts_merge(a: LoaderIntercept, b: LoaderIntercept, c: LoaderIntercept)
    ensures
        merged(a, b) == merged(b, a),
        merged(merged(a, b), c) == merged(a, merged(b, c)),
        merged(a, a) == a,
{
}

/// The entry that an update of `fiber` is written back to: the one with this root fiber, unless
/// the fiber's parent is that root itself, or nothing is to be saved.
pub open spec fn write_back_place(
    tree: TreeView,
    fiber: Option<u64>,
    parent_fiber: Option<u64>,
    no_save: bool,
) -> Option<Seq<usize>> {
    match fiber {
        Some(f) => match found(tree.root, QueryView::Fiber(f)) {
            Some(p) => if no_save || parent_fiber == Some(f) {
                None
            } else {
                Some(p)
            },
            None => None,
        },
        None => None,
    }
}

/// The tree after an update was written back, if it was.
pub open spec fn tree_written_back(
    tree: TreeView,
    place: Option<Seq<usize>>,
    config: Option<YamlView>,
) -> TreeView {
    match (place, config) {
        (Some(p), Some(value)) => {
            let e = entry_at(tree.root, p);
            let options = OptionsView { config: Some(value), ..e.options };
            TreeView { root: set_entry_at(tree.root, p, EntryView { options, ..e }), ..tree }
        },
        _ => tree,
    }
}

/// The line that announces something of an entry, if it is to be announced: not for groups, and
/// not where logs are off.
pub open spec fn log_line(kind: Seq<char>, options: OptionsView, enable_logs: bool) -> Option<
    Seq<char>,
> {
    if options.group == Some(true) || !enable_logs {
        None
    } else {
        Some(kind + " plugin "@ + options.name)
    }
}

/// What follows from a plugin event.
pub enum PluginEvent {
    /// Nothing.
    Nothing,
    /// The fiber gets these services injected, on top of its own.
    MergeInject(Vec<String>),
    /// The entry was disabled, since its plugin disposed itself; the write callback is to run.
    Disabled,
}

/// The entry that counts as disposed by itself: its fiber is gone, and it was not disabled.
pub open spec fn self_disposed(tree: TreeView, fiber: u64) -> Option<Seq<usize>> {
    match found(tree.root, QueryView::Fiber(fiber)) {
        Some(p) => if disabled_at(tree.root, p) {
            None
        } else {
            Some(p)
        },
        None => None,
    }
}

/// An entry that its plugin disposed.
pub open spec fn disabled_entry(e: EntryView) -> EntryView {
    EntryView { options: OptionsView { disabled: Some(true), ..e.options }, ..e }
}

/// The services that a live fiber gets injected: those of the entry that owns it.
pub open spec fn merged_inject(tree: TreeView, owner: Option<u64>) -> Option<Seq<Seq<char>>> {
    match owner {
        Some(key) => match found(tree.root, QueryView::Key(key)) {
            Some(p) => entry_at(tree.root, p).options.inject,
            None => None,
        },
        None => None,
    }
}

/// The services that an event says to inject.
pub open spec fn injected(event: PluginEvent) -> Option<Seq<Seq<char>>> {
    match event {
        PluginEvent::MergeInject(names) => Some(texts(names@)),
        _ => None,
    }
}

/// The entries of a group without their fibers.
pub open spec fn stopped(es: Seq<EntryView>) -> Seq<EntryView> {
    Seq::new(es.len(), |i: int| EntryView { fiber: None, ..es[i] })
}

/// The releases of the fibers of the first `n` entries.
pub open spec fn releases(es: Seq<EntryView>, n: int) -> Seq<ActionView>
    decreases n,
{
    if n <= 0 {
        Seq::empty()
    } else {
        match es[n - 1].fiber {
            Some(fiber) => releases(es, n - 1).push(ActionView::Release(fiber)),
            None => releases(es, n - 1),
        }
    }
}

/// The options of the entries at the places of the list.
pub open spec fn options_at(es: Seq<EntryView>, list: Seq<Seq<usize>>) -> Seq<OptionsView> {
    Seq::new(list.len(), |i: int| entry_at(es, list[i]).options)
}

/// A plugin that a library exported, before it is registered.
pub struct Registration {
    pub name: String,
    pub inject: Vec<String>,
    /// The plugin instance.
    pub handle: PluginHandle,
}

/// What comes of applying an exported plugin.
pub enum SoApply {
    /// The plugin rejected its config.
    Rejected(String),
    /// The plugin instance is gone.
    Disposed(String),
    /// The plugin's apply entry is to be called, within a session of its handle.
    Call,
    /// The plugin exports no apply entry.
    Nothing,
}

/// The JSON notation that an exported plugin gets its config in.
pub open spec fn config_json(notation: Option<Seq<char>>) -> Seq<char> {
    match notation {
        Some(text) => text,
        None => "null"@,
    }
}

/// The config that an exported plugin gets, null where there is none.
pub open spec fn config_or_null(config: Option<YamlView>) -> YamlView {
    match config {
        Some(value) => value,
        None => YamlView::Null,
    }
}

/// The notation, or `null` where there is none.
pub fn json_or_null(notation: Option<String>) -> (r: String)
    ensures
        r@ == config_json(text_option(notation)),
{
    match notation {
        Some(text) => text,
        None => "null".to_owned(),
    }
}

/// The JSON notation that an exported plugin gets its config in.
pub fn so_config(config: &Option<Yaml>) -> (r: String)
    ensures
        r@ == config_json(json_notation(config_or_null(option_view(*config)))),
{
    match config {
        Some(value) => json_or_null(to_json_text(value)),
        None => json_or_null(to_json_text(&Yaml::null())),
    }
}

/// Whether a validator rejected the config, from what it returned, if there is one.
pub open spec fn rejects(validated: Option<i32>) -> bool {
    validated is Some && validated->0 != 0
}

/// Whether the apply entry of a plugin is to be called.
pub open spec fn calls(validated: Option<i32>, has_apply: bool, live: bool) -> bool {
    !rejects(validated) && has_apply && live
}

/// A plugin without a validator rejects no config, and one with a validator those for which it
/// returns something else than zero. The apply entry is called where the config is not rejected,
/// the plugin exports the entry and its instance is live.
pub proof fn valid_configs_are_applied(code: i32, has_apply: bool, live: bool)
    ensures
        !rejects(None),
        !rejects(Some(0)),
        code != 0 ==> rejects(Some(code)) && !calls(Some(code), has_apply, live),
        calls(None, has_apply, live) <==> has_apply && live,
        calls(Some(0), has_apply, live) <==> has_apply && live,
{
}

/// What comes of applying the exported plugin `name`, from what its validator returned, if it has
/// one, whether it exports an apply entry, and whether its instance is live.
pub fn so_apply(name: &str, validated: Option<i32>, has_apply: bool, live: bool) -> (r: SoApply)
    ensures
        match r {
            SoApply::Rejected(message) => validated is Some && validated->0 != 0 && message@
                == "config rejected by plugin "@ + name@,
            SoApply::Disposed(message) => !(validated is Some && validated->0 != 0) && has_apply
                && !live && message@ == "plugin "@ + name@ + " instance is disposed"@,
            SoApply::Call => !(validated is Some && validated->0 != 0) && has_apply && live,
            SoApply::Nothing => !(validated is Some && validated->0 != 0) && !has_apply,
        },
        r is Rejected <==> rejects(validated),
        r is Call <==> calls(validated, has_apply, live),
{
    let rejected = match validated {
        Some(code) => code != 0,
        None => false,
    };
    if rejected {
        return SoApply::Rejected(concat("config rejected by plugin ", name));
    }
    if !has_apply {
        return SoApply::Nothing;
    }
    if !live {
        return SoApply::Disposed(concat3("plugin ", name, " instance is disposed"));
    }
    SoApply::Call
}

impl Loader {
    /// A loader with explicit shared data. The group plugin is applied by the callback `apply`.
    pub fn with_shared(shared: Option<&str>, base_url: &str, apply: u64) -> (r: Loader)
        ensures
            r@.env_data == shared_data(shared_contents(crate::tree::str_option(shared))),
            r@.base_url == base_url@,
            r@.tree == (TreeView {
                enable_logs: true,
                plugins: Seq::empty(),
                builtins: seq![("@cordisjs/plugin-group"@, group_plugin_view(apply))],
                root: Seq::empty(),
                tasks: 0,
                next_key: 0,
            }),
            r@.tree.well_formed(),
    {
        let parsed = match shared {
            Some(text) => parse_json(text),
            None => None,
        };
        let mut tree = EntryTree::new();
        tree.register_builtin("@cordisjs/plugin-group", group_plugin(apply));
        proof {
            assert(tree@.builtins =~= seq![
                ("@cordisjs/plugin-group"@, group_plugin_view(apply)),
            ]);
        }
        Loader { tree, env_data: shared_or_empty(parsed), base_url: base_url.to_owned() }
    }

    /// The evaluation environment for config expressions, from the name of the operating system
    /// and the environment variables.
    pub fn eval_env(&self, os: &str, env_vars: Dict<String>) -> (r: EvalEnv)
        ensures
            r@ == (EnvView {
                platform: platform_of(os@),
                base_url: self@.base_url,
                env_vars: env_vars@,
            }),
    {
        EvalEnv { platform: platform_name(os), base_url: self.base_url.clone(), env_vars }
    }

    /// Sets the base url used in expressions.
    pub fn set_base_url(&mut self, base_url: &str)
        ensures
            final(self)@ == (LoaderView { base_url: base_url@, ..old(self)@ }),
    {
        self.base_url = base_url.to_owned();
    }

    /// The entry tree.
    pub fn tree_handle(&self) -> (r: &EntryTree)
        ensures
            r@ == self@.tree,
    {
        &self.tree
    }

    /// Reads a config list into the root group.
    pub fn read(&mut self, configs: &Vec<EntryOptions>, fresh: &Vec<String>) -> (r: Vec<Action>)
        requires
            fresh@.len() == configs@.len(),
            forall|i: int|
                0 <= i < fresh@.len() ==> !uses_id(old(self)@.tree.root, (#[trigger] fresh@[i])@),
            old(self)@.tree.next_key + configs@.len() <= u64::MAX,
        ensures
            ({
                let root = Seq::<usize>::empty();
                let reading = reading_of(
                    old(self)@.tree,
                    root,
                    options_views(configs@),
                    texts(fresh@),
                );
                &&& final(self)@ == (LoaderView {
                    tree: tree_read(old(self)@.tree, root, reading),
                    ..old(self)@
                })
                &&& action_views(r@) == reading.actions()
            }),
            old(self)@.tree.well_formed() ==> final(self)@.tree.well_formed(),
    {
        let root: Vec<usize> = Vec::new();
        assert(root@ =~= Seq::<usize>::empty());
        self.tree.read_group(&root, configs, fresh)
    }

    /// Registers a plugin with a list of services that it depends on, applied by the callback
    /// `apply`.
    pub fn mock_with_inject(&mut self, name: &str, inject: Vec<String>, apply: u64) -> (r: String)
        ensures
            r@ == name@,
            final(self)@ == (LoaderView {
                tree: TreeView {
                    plugins: assign(
                        old(self)@.tree.plugins,
                        name@,
                        PluginView { is_group: false, name: None, inject: texts(inject@), apply },
                    ),
                    ..old(self)@.tree
                },
                ..old(self)@
            }),
    {
        self.tree.register_plugin(name, Plugin { is_group: false, name: None, inject, apply });
        name.to_owned()
    }

    /// Registers a plugin without dependencies, applied by the callback `apply`.
    pub fn mock(&mut self, name: &str, apply: u64) -> (r: String)
        ensures
            r@ == name@,
            final(self)@ == (LoaderView {
                tree: TreeView {
                    plugins: assign(
                        old(self)@.tree.plugins,
                        name@,
                        PluginView { is_group: false, name: None, inject: Seq::empty(), apply },
                    ),
                    ..old(self)@.tree
                },
                ..old(self)@
            }),
    {
        let none: Vec<String> = Vec::new();
        assert(texts(none@) =~= Seq::<Seq<char>>::empty());
        self.mock_with_inject(name, none, apply)
    }

    /// Registers an exported plugin under its metadata name, applied by the callback `apply`.
    /// `metadata` is what the library says of the plugin, if it exports that; `handle` the
    /// instance, if it was created.
    pub fn register_so_plugin(
        &mut self,
        metadata: Option<Result<crate::so::PluginMeta, String>>,
        handle: Option<PluginHandle>,
        apply: u64,
    ) -> (r: Result<Registration, String>)
        ensures
            match metadata {
                None => r is Err && r->Err_0@ == "plugin does not export plugin_meta"@
                    && final(self)@ == old(self)@,
                Some(Err(message)) => r is Err && r->Err_0@ == message@ && final(self)@ == old(
                    self,
                )@,
                Some(Ok(meta)) => match handle {
                    None => r is Err && r->Err_0@ == "plugin instance is not created"@
                        && final(self)@ == old(self)@,
                    Some(h) => {
                        &&& r is Ok
                        &&& r->Ok_0.name@ == meta@.name
                        &&& texts(r->Ok_0.inject@) == meta@.inject
                        &&& r->Ok_0.handle == h
                        &&& final(self)@ == (LoaderView {
                            tree: TreeView {
                                plugins: assign(
                                    old(self)@.tree.plugins,
                                    meta@.name,
                                    PluginView {
                                        is_group: false,
                                        name: Some(meta@.name),
                                        inject: meta@.inject,
                                        apply,
                                    },
                                ),
                                ..old(self)@.tree
                            },
                            ..old(self)@
                        })
                    },
                },
            },
    {
        let meta = match metadata {
            None => {
                return Err("plugin does not export plugin_meta".to_owned());
            },
            Some(Err(message)) => {
                return Err(message);
            },
            Some(Ok(meta)) => meta,
        };
        let handle = match handle {
            None => {
                return Err("plugin instance is not created".to_owned());
            },
            Some(handle) => handle,
        };
        let name = meta.name.clone();
        let inject = crate::text::clone_texts(&meta.inject);
        self.tree.register_plugin(
            name.as_str(),
            Plugin { is_group: false, name: Some(name.clone()), inject: meta.inject, apply },
        );
        Ok(Registration { name, inject, handle })
    }

    /// The fiber of the entry with the given full id.
    pub fn expect_fiber(&self, id: &str) -> (r: u64)
        requires
            found(self@.tree.root, QueryView::FullId(id@)) is Some,
            entry_at(
                self@.tree.root,
                found(self@.tree.root, QueryView::FullId(id@))->0,
            ).fiber is Some,
        ensures
            entry_at(
                self@.tree.root,
                found(self@.tree.root, QueryView::FullId(id@))->0,
            ).fiber == Some(r),
    {
        broadcast use lemma_entry_view;

        match self.tree.resolve(id) {
            Some(entry) => match entry.fiber {
                Some(fiber) => fiber,
                None => vstd::pervasive::unreached(),
            },
            None => vstd::pervasive::unreached(),
        }
    }

    /// The options of all entries, depth first.
    pub fn data(&self) -> (r: Vec<EntryOptions>)
        ensures
            options_views(r@) == options_at(
                self@.tree.root,
                walk(self@.tree.root, Seq::empty()),
            ),
    {
        broadcast use lemma_entry_view;

        let entries = self.tree.entries();
        let ghost list = walk(self@.tree.root, Seq::empty());
        let mut out: Vec<EntryOptions> = Vec::new();
        let mut i: usize = 0;
        while i < entries.len()
            invariant
                i <= entries@.len(),
                out@.len() == i,
                entries@.len() == list.len(),
                forall|j: int|
                    0 <= j < entries@.len() ==> (#[trigger] entries@[j])@ == entry_at(
                        self@.tree.root,
                        list[j],
                    ),
                forall|j: int|
                    0 <= j < i ==> (#[trigger] out@[j])@ == entry_at(
                        self@.tree.root,
                        list[j],
                    ).options,
            decreases entries@.len() - i,
        {
            assert(entries@[i as int]@ == entry_at(self@.tree.root, list[i as int]));
            out.push(entries[i].options.duplicate());
            i += 1;
        }
        assert(options_views(out@) =~= options_at(self@.tree.root, list));
        out
    }

    /// The full id of the entry with the root fiber `fiber`.
    pub fn locate(&self, fiber: u64) -> (r: Option<String>)
        ensures
            text_option(r) == (match found(self@.tree.root, QueryView::Fiber(fiber)) {
                Some(p) => Some(full_id(self@.tree.root, p)),
                None => None,
            }),
    {
        match self.tree.find(&Query::Fiber(fiber)) {
            Some(place) => Some(Entry::id(&self.tree, &place)),
            None => None,
        }
    }

    /// Whether the loader is available to its dependents, from the `loader` intercept that holds
    /// for them and the fibers in motion.
    pub fn check(&self, intercept: &LoaderIntercept, moving: &Vec<u64>) -> (r: bool)
        ensures
            r == !(intercept.await_enabled && task_count(self@.tree, moving@) > 0),
    {
        !(intercept.await_enabled && self.tree.get_tasks(moving) > 0)
    }

    /// The line that announces something of an entry, if it is to be announced.
    pub fn show_log(&self, kind: &str, entry: &Entry) -> (r: Option<String>)
        ensures
            text_option(r) == log_line(kind@, entry@.options, self@.tree.enable_logs),
    {
        broadcast use lemma_entry_view;

        if is_true(entry.options.group) || !self.tree.enable_logs {
            return None;
        }
        Some(concat3(kind, " plugin ", entry.options.name.as_str()))
    }

    /// The entry that an update of `fiber` is written back to.
    fn updated_entry(&self, fiber: Option<u64>, parent_fiber: Option<u64>, no_save: bool) -> (r:
        Option<Vec<usize>>)
        ensures
            match r {
                Some(p) => write_back_place(self@.tree, fiber, parent_fiber, no_save) == Some(p@)
                    && has_entry(self@.tree.root, p@),
                None => write_back_place(self@.tree, fiber, parent_fiber, no_save) is None,
            },
    {
        match fiber {
            Some(fiber) => match self.tree.find(&Query::Fiber(fiber)) {
                Some(place) => {
                    let is_root = match parent_fiber {
                        Some(parent) => parent == fiber,
                        None => false,
                    };
                    if no_save || is_root {
                        None
                    } else {
                        Some(place)
                    }
                },
                None => None,
            },
            None => None,
        }
    }

    /// The hook on an update of a fiber: the new config is written back to the options of the
    /// entry. Says whether the write callback is to run.
    pub fn write_back(
        &mut self,
        fiber: Option<u64>,
        parent_fiber: Option<u64>,
        no_save: bool,
        config: Option<Yaml>,
    ) -> (r: bool)
        ensures
            ({
                let place = write_back_place(old(self)@.tree, fiber, parent_fiber, no_save);
                &&& r == (place is Some && config is Some)
                &&& final(self)@ == (LoaderView {
                    tree: tree_written_back(old(self)@.tree, place, option_view(config)),
                    ..old(self)@
                })
            }),
            old(self)@.tree.well_formed() ==> final(self)@.tree.well_formed(),
    {
        broadcast use lemma_entry_view;

        let ghost before = self@.tree;
        match (self.updated_entry(fiber, parent_fiber, no_save), config) {
            (Some(place), Some(value)) => {
                let entry = entry_mut(&mut self.tree.root.entries, &place);
                entry.options.config = Some(value);
                proof {
                    replacement_keeps_keys(before, place@, entry@);
                }
                true
            },
            _ => false,
        }
    }

    /// The hook on an update of a fiber that announces it.
    pub fn reload_log(&self, fiber: Option<u64>, parent_fiber: Option<u64>, no_save: bool) -> (r:
        Option<String>)
        ensures
            text_option(r) == (match write_back_place(
                self@.tree,
                fiber,
                parent_fiber,
                no_save,
            ) {
                Some(p) => log_line(
                    "reload"@,
                    entry_at(self@.tree.root, p).options,
                    self@.tree.enable_logs,
                ),
                None => None,
            }),
    {
        match self.updated_entry(fiber, parent_fiber, no_save) {
            Some(place) => self.show_log("reload", self.tree.entry(&place)),
            None => None,
        }
    }

    /// The hook on a plugin event of `fiber`. `alive` says whether the fiber is alive, `owner`
    /// which entry's context it was made in, if any. A live fiber of an entry gets the entry's
    /// services injected; a dead one disables its entry, unless that is disabled already.
    pub fn plugin_event(&mut self, fiber: u64, alive: bool, owner: Option<u64>) -> (r: PluginEvent)
        ensures
            alive ==> final(self)@ == old(self)@ && match r {
                PluginEvent::MergeInject(names) => owner is Some && match found(
                    old(self)@.tree.root,
                    QueryView::Key(owner->0),
                ) {
                    Some(p) => entry_at(old(self)@.tree.root, p).options.inject == Some(
                        texts(names@),
                    ),
                    None => false,
                },
                PluginEvent::Nothing => owner is None || match found(
                    old(self)@.tree.root,
                    QueryView::Key(owner->0),
                ) {
                    Some(p) => entry_at(old(self)@.tree.root, p).options.inject is None,
                    None => true,
                },
                PluginEvent::Disabled => false,
            },
            alive ==> injected(r) == merged_inject(old(self)@.tree, owner),
            !alive ==> match self_disposed(old(self)@.tree, fiber) {
                Some(p) => {
                    let e = entry_at(old(self)@.tree.root, p);
                    let options = OptionsView { disabled: Some(true), ..e.options };
                    &&& r is Disabled
                    &&& final(self)@ == (LoaderView {
                        tree: TreeView {
                            root: set_entry_at(
                                old(self)@.tree.root,
                                p,
                                EntryView { options, ..e },
                            ),
                            ..old(self)@.tree
                        },
                        ..old(self)@
                    })
                    &&& EntryView { options, ..e } == disabled_entry(e)
                },
                None => r is Nothing && final(self)@ == old(self)@,
            },
            old(self)@.tree.well_formed() ==> final(self)@.tree.well_formed(),
    {
        broadcast use lemma_entry_view;

        if alive {
            if let Some(key) = owner {
                if let Some(place) = self.tree.find(&Query::Key(key)) {
                    let entry = self.tree.entry(&place);
                    return match copy_texts_option(&entry.options.inject) {
                        Some(names) => PluginEvent::MergeInject(names),
                        None => PluginEvent::Nothing,
                    };
                }
            }
            return PluginEvent::Nothing;
        }
        match self.tree.find(&Query::Fiber(fiber)) {
            Some(place) => {
                if self.tree.disabled(&place) {
                    return PluginEvent::Nothing;
                }
                let ghost before = self@.tree;
                let entry = entry_mut(&mut self.tree.root.entries, &place);
                entry.options.disabled = Some(true);
                proof {
                    replacement_keeps_keys(before, place@, entry@);
                }
                PluginEvent::Disabled
            },
            None => PluginEvent::Nothing,
        }
    }

    /// Applies the group plugin on `fiber`: the entry with this root fiber, if there is one, gets a
    /// subgroup, into which the options are read. The place of the entry comes back, and what the
    /// host does.
    pub fn apply_group(
        &mut self,
        fiber: u64,
        configs: &Vec<EntryOptions>,
        fresh: &Vec<String>,
    ) -> (r: Option<(Vec<usize>, Vec<Action>)>)
        requires
            fresh@.len() == configs@.len(),
            forall|i: int|
                0 <= i < fresh@.len() ==> !uses_id(old(self)@.tree.root, (#[trigger] fresh@[i])@),
            old(self)@.tree.next_key + configs@.len() <= u64::MAX,
        ensures
            match found(old(self)@.tree.root, QueryView::Fiber(fiber)) {
                None => r is None && final(self)@ == old(self)@,
                Some(p) => {
                    let tree = with_subgroup(old(self)@.tree, p);
                    let reading = reading_of(tree, p, options_views(configs@), texts(fresh@));
                    &&& match r {
                        Some((place, actions)) => place@ == p && action_views(actions@)
                            == reading.actions(),
                        None => false,
                    }
                    &&& final(self)@ == (LoaderView {
                        tree: tree_read(tree, p, reading),
                        ..old(self)@
                    })
                },
            },
            old(self)@.tree.well_formed() ==> final(self)@.tree.well_formed(),
    {
        let place = match self.tree.find(&Query::Fiber(fiber)) {
            Some(place) => place,
            None => {
                return None;
            },
        };
        let ghost before = self@.tree;
        self.tree.attach_subgroup(&place);
        proof {
            assert forall|i: int| 0 <= i < fresh@.len() implies !uses_id(
                self@.tree.root,
                (#[trigger] fresh@[i])@,
            ) by {
                lemma_subgroup_keeps_ids(before, place@, fresh@[i]@);
            }
        }
        let actions = self.tree.read_group(&place, configs, fresh);
        Some((place, actions))
    }

    /// Stops a group: its entries lose their fibers, which are released.
    pub fn stop_group(&mut self, q: &Vec<usize>) -> (r: Vec<Action>)
        requires
            group_at(old(self)@.tree.root, q@) is Some,
        ensures
            ({
                let g = group_at(old(self)@.tree.root, q@)->0;
                &&& final(self)@ == (LoaderView {
                    tree: TreeView {
                        root: set_group_at(old(self)@.tree.root, q@, stopped(g)),
                        ..old(self)@.tree
                    },
                    ..old(self)@
                })
                &&& action_views(r@) == releases(g, g.len() as int)
            }),
            old(self)@.tree.well_formed() ==> final(self)@.tree.well_formed(),
    {
        broadcast use {lemma_entry_view, lemma_views_update, lemma_actions_push};

        let ghost before = self@.tree;
        assert(q@.skip(0) =~= q@);
        let group = group_mut(&mut self.tree.root.entries, q, 0);
        let ghost all = entry_views(group@);
        let mut actions: Vec<Action> = Vec::new();
        let mut i: usize = 0;
        assert(action_views(actions@) =~= Seq::<ActionView>::empty());
        assert(all.len() == group@.len());
        while i < group.len()
            invariant
                i <= group@.len(),
                all.len() == group@.len(),
                action_views(actions@) == releases(all, i as int),
                forall|j: int|
                    0 <= j < i ==> (#[trigger] entry_views(group@)[j]) == (EntryView {
                        fiber: None,
                        ..all[j]
                    }),
                forall|j: int|
                    i <= j < all.len() ==> (#[trigger] entry_views(group@)[j]) == all[j],
            decreases group@.len() - i,
        {
            broadcast use {lemma_entry_view, lemma_views_update, lemma_actions_push};

            assert(entry_views(group@)[i as int] == all[i as int]);
            let entry = &mut group[i];
            if let Some(fiber) = entry.fiber {
                actions.push(Action::Release(fiber));
            }
            entry.fiber = None;
            i += 1;
        }
        assert(entry_views(group@) =~= stopped(all));
        proof {
            same_shape_keeps_keys(before, q@, stopped(all));
        }
        actions
    }
}

/// An empty subgroup brings no id.
proof fn lemma_subgroup_keeps_ids(tree: TreeView, place: Seq<usize>, id: Seq<char>)
    requires
        has_entry(tree.root, place),
        !uses_id(tree.root, id),
    ensures
        !uses_id(with_subgroup(tree, place).root, id),
{
    let q = place.drop_last();
    let g = group_at(tree.root, q)->0;
    let i = place.last() as int;
    let to = with_subgroup_entry(g[i]);
    lemma_id_in_group(tree.root, q, id);
    lemma_id_in_list(g, i, id);
    assert(!uses_id(Seq::<EntryView>::empty(), id));
    lemma_id_update(g, i, to, id);
    lemma_id_set_group(tree.root, q, g.update(i, to), id);
}

proof fn lemma_id_in_list(es: Seq<EntryView>, i: int, id: Seq<char>)
    requires
        !uses_id(es, id),
        0 <= i < es.len(),
    ensures
        es[i].options.id != id,
        es[i].subgroup matches Some(g) ==> !uses_id(g, id),
    decreases es.len(),
{
    if i < es.len() - 1 {
        lemma_id_in_list(es.drop_last(), i, id);
    }
}

proof fn lemma_id_in_group(es: Seq<EntryView>, q: Seq<usize>, id: Seq<char>)
    requires
        group_at(es, q) is Some,
        !uses_id(es, id),
    ensures
        !uses_id(group_at(es, q)->0, id),
    decreases q.len(),
{
    if q.len() > 0 {
        lemma_id_in_list(es, q[0] as int, id);
        lemma_id_in_group(es[q[0] as int].subgroup->0, q.drop_first(), id);
    }
}

proof fn lemma_id_update(es: Seq<EntryView>, i: int, to: EntryView, id: Seq<char>)
    requires
        !uses_id(es, id),
        0 <= i < es.len(),
        to.options.id != id,
        to.subgroup matches Some(g) ==> !uses_id(g, id),
    ensures
        !uses_id(es.update(i, to), id),
    decreases es.len(),
{
    if i < es.len() - 1 {
        lemma_id_update(es.drop_last(), i, to, id);
        assert(es.update(i, to).drop_last() =~= es.drop_last().update(i, to));
    } else {
        assert(es.update(i, to).drop_last() =~= es.drop_last());
    }
}

proof fn lemma_id_set_group(es: Seq<EntryView>, q: Seq<usize>, to: Seq<EntryView>, id: Seq<char>)
    requires
        group_at(es, q) is Some,
        !uses_id(es, id),
        !uses_id(to, id),
    ensures
        !uses_id(set_group_at(es, q, to), id),
    decreases q.len(),
{
    if q.len() > 0 {
        let e = es[q[0] as int];
        lemma_id_in_list(es, q[0] as int, id);
        lemma_id_set_group(e.subgroup->0, q.drop_first(), to, id);
        lemma_id_update(
            es,
            q[0] as int,
            EntryView { subgroup: Some(set_group_at(e.subgroup->0, q.drop_first(), to)), ..e },
            id,
        );
    }
}

} // verus!
