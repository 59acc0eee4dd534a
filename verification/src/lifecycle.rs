//! The life of an entry: initialization, reload, the config that its plugin gets, and the
//! settlement of a change of its scope.

use crate::changes::{notice_views, replacement_keeps_keys, Notice, NoticeView};
use crate::dict::Duplicate;
use crate::entry::{entry_mut, lemma_entry_view, Entry, EntryGroup};
use crate::evaluator::{evaluate_config, evaluated, ConfigEvaluator, EnvView, EvalEnv};
use crate::forest::{
    disabled_at, entry_at, full_id, group_at, has_entry, key_count, lemma_count_edit,
    lemma_count_one, lemma_count_set_group, lemma_get_set_group, set_entry_at, EntryView,
};
use crate::options::{copy_yaml_option, is_true, text_option, text_options, OptionsView};
use crate::text::{concat, concat3, contains_text, texts};
use crate::tree::{
    lemma_group_of_entry, plugin_named, task_count, EntryTree, Plugin, PluginView, TreeView,
};
use crate::value::{option_view, Yaml, YamlView};
use vstd::prelude::*;

verus! {

/// The config that a plugin gets from these options. Groups get their config as it is written, and
/// so does everyone where there is no evaluation environment.
pub open spec fn config_for<E: ConfigEvaluator>(
    options: OptionsView,
    is_group: bool,
    evaluator: &E,
    env: Option<EnvView>,
) -> Result<Option<YamlView>, Seq<char>> {
    match (options.config, env) {
        (Some(config), Some(env)) => if is_group {
            Ok(Some(config))
        } else {
            match evaluated(config, |expr: Seq<char>| evaluator.outcome(expr, env)) {
                Ok(value) => Ok(Some(value)),
                Err(error) => Err("config evaluation failed: "@ + error.text()),
            }
        },
        (config, _) => Ok(config),
    }
}

/// The view of an optional environment.
pub open spec fn env_option(env: Option<&EvalEnv>) -> Option<EnvView> {
    match env {
        Some(e) => Some(e@),
        None => None,
    }
}

/// The view of a resolved config.
pub open spec fn config_result(r: Result<Option<Yaml>, String>) -> Result<
    Option<YamlView>,
    Seq<char>,
> {
    match r {
        Ok(config) => Ok(option_view(config)),
        Err(message) => Err(message@),
    }
}

/// What applying an entry's plugin begins with: the plugin and its config.
pub struct Application {
    pub plugin: Plugin,
    pub config: Option<Yaml>,
}

/// What applying the plugin of an entry comes to: nothing where the entry is disabled.
pub open spec fn application_of<E: ConfigEvaluator>(
    tree: TreeView,
    place: Seq<usize>,
    evaluator: &E,
    env: Option<EnvView>,
) -> Result<Option<(PluginView, Option<YamlView>)>, Seq<char>> {
    let options = entry_at(tree.root, place).options;
    if disabled_at(tree.root, place) {
        Ok(None)
    } else {
        match plugin_named(tree, options.name) {
            Ok(plugin) => match config_for(options, plugin.is_group, evaluator, env) {
                Ok(config) => Ok(Some((plugin, config))),
                Err(message) => Err(message),
            },
            Err(message) => Err(message),
        }
    }
}

/// The view of an application.
pub open spec fn application_result(r: Result<Option<Application>, String>) -> Result<
    Option<(PluginView, Option<YamlView>)>,
    Seq<char>,
> {
    match r {
        Ok(Some(application)) => Ok(Some((application.plugin@, option_view(application.config)))),
        Ok(None) => Ok(None),
        Err(message) => Err(message@),
    }
}

/// The config that a running entry is updated with: the resolved one, or the written one where it
/// cannot be resolved.
pub open spec fn applied_config<E: ConfigEvaluator>(
    tree: TreeView,
    options: OptionsView,
    evaluator: &E,
    env: Option<EnvView>,
) -> Option<YamlView> {
    match plugin_named(tree, options.name) {
        Ok(plugin) => match config_for(options, plugin.is_group, evaluator, env) {
            Ok(config) => config,
            Err(_) => options.config,
        },
        Err(_) => options.config,
    }
}

/// The error that is logged on the way to the applied config, if any.
pub open spec fn applied_error<E: ConfigEvaluator>(
    tree: TreeView,
    options: OptionsView,
    evaluator: &E,
    env: Option<EnvView>,
) -> Option<Seq<char>> {
    match plugin_named(tree, options.name) {
        Ok(plugin) => match config_for(options, plugin.is_group, evaluator, env) {
            Ok(_) => None,
            Err(message) => Some(message),
        },
        Err(_) => None,
    }
}

/// A service that moves from one label to another.
pub struct Migration {
    pub name: String,
    pub from: String,
    pub to: String,
}

/// What a migration says.
pub struct MigrationView {
    pub name: Seq<char>,
    pub from: Seq<char>,
    pub to: Seq<char>,
}

impl View for Migration {
    type V = MigrationView;

    open spec fn view(&self) -> MigrationView {
        MigrationView { name: self.name@, from: self.from@, to: self.to@ }
    }
}

/// The views of a list of migrations.
pub open spec fn migration_views(list: Seq<Migration>) -> Seq<MigrationView> {
    Seq::new(list.len(), |i: int| list[i]@)
}

/// What the host does after the overlay of an entry was applied anew.
pub struct Rescoped {
    /// The fiber of a running group, which gets the group's config again.
    pub refresh: Option<u64>,
    /// The services that move to a new label.
    pub migrations: Vec<Migration>,
    /// The dependents to wake.
    pub notices: Vec<Notice>,
}

/// The label that a service had, the empty text where it had none.
pub open spec fn label_or_empty(label: Option<Seq<char>>) -> Seq<char> {
    match label {
        Some(l) => l,
        None => Seq::empty(),
    }
}

/// The migrations of the first `n` services: each service once, to its new label, if it has one.
pub open spec fn migrations_of(
    names: Seq<Seq<char>>,
    old_labels: Seq<Option<Seq<char>>>,
    new_labels: Seq<Option<Seq<char>>>,
    n: int,
) -> Seq<MigrationView>
    decreases n,
{
    if n <= 0 {
        Seq::empty()
    } else {
        let rest = migrations_of(names, old_labels, new_labels, n - 1);
        let name = names[n - 1];
        if names.take(n - 1).contains(name) || new_labels[n - 1] is None {
            rest
        } else {
            rest.push(
                MigrationView {
                    name,
                    from: label_or_empty(old_labels[n - 1]),
                    to: new_labels[n - 1]->0,
                },
            )
        }
    }
}

/// The notices for all services, under the old label and the new one, if there is one.
pub open spec fn scope_notices(
    names: Seq<Seq<char>>,
    old_labels: Seq<Option<Seq<char>>>,
    new_labels: Seq<Option<Seq<char>>>,
) -> Seq<NoticeView> {
    Seq::new(
        names.len(),
        |i: int|
            NoticeView {
                name: names[i],
                labels: match new_labels[i] {
                    Some(label) => seq![label_or_empty(old_labels[i]), label],
                    None => seq![label_or_empty(old_labels[i])],
                },
            },
    )
}

/// The fiber of a running group.
pub open spec fn refreshed_fiber(e: EntryView, alive: bool) -> Option<u64> {
    if e.options.group == Some(true) && alive {
        e.fiber
    } else {
        None
    }
}

fn label_text(label: &Option<String>) -> (r: String)
    ensures
        r@ == label_or_empty(text_option(*label)),
{
    match label {
        Some(l) => l.clone(),
        None => String::new(),
    }
}

/// The config that a plugin gets from these options.
pub fn resolve_config_value<E: ConfigEvaluator>(
    options: &crate::options::EntryOptions,
    is_group: bool,
    evaluator: &E,
    env: Option<&EvalEnv>,
) -> (r: Result<Option<Yaml>, String>)
    ensures
        config_result(r) == config_for(options@, is_group, evaluator, env_option(env)),
{
    if is_group {
        return Ok(copy_yaml_option(&options.config));
    }
    match (&options.config, env) {
        (Some(config), Some(env)) => match evaluate_config(config, evaluator, env) {
            Ok(value) => Ok(Some(value)),
            Err(error) => {
                let text = error.to_text();
                Err(concat("config evaluation failed: ", text.as_str()))
            },
        },
        _ => Ok(copy_yaml_option(&options.config)),
    }
}

impl Entry {
    /// Settles a change of scope, from the labels of the services before and after the overlay was
    /// applied anew. `alive` says whether the entry's fiber, if any, is alive.
    pub fn settle_rescope(
        &self,
        names: &Vec<String>,
        alive: bool,
        old_labels: &Vec<Option<String>>,
        new_labels: &Vec<Option<String>>,
    ) -> (r: Rescoped)
        requires
            old_labels@.len() == names@.len(),
            new_labels@.len() == names@.len(),
        ensures
            r.refresh == refreshed_fiber(self@, alive),
            migration_views(r.migrations@) == (if self@.fiber is None || r.refresh is Some {
                Seq::empty()
            } else {
                migrations_of(
                    texts(names@),
                    text_options(old_labels@),
                    text_options(new_labels@),
                    names@.len() as int,
                )
            }),
            notice_views(r.notices@) == scope_notices(
                texts(names@),
                text_options(old_labels@),
                text_options(new_labels@),
            ),
    {
        broadcast use lemma_entry_view;

        let refresh = if is_true(self.options.group) && alive {
            self.fiber
        } else {
            None
        };
        let migrate = self.fiber.is_some() && refresh.is_none();
        let ghost all = texts(names@);
        let ghost olds = text_options(old_labels@);
        let ghost news = text_options(new_labels@);
        let mut migrations: Vec<Migration> = Vec::new();
        let mut notices: Vec<Notice> = Vec::new();
        let mut seen: Vec<String> = Vec::new();
        let mut i: usize = 0;
        assert(migration_views(migrations@) =~= Seq::<MigrationView>::empty());
        assert(texts(seen@) =~= all.take(0));
        while i < names.len()
            invariant
                i <= names@.len(),
                old_labels@.len() == names@.len(),
                new_labels@.len() == names@.len(),
                all == texts(names@),
                olds == text_options(old_labels@),
                news == text_options(new_labels@),
                texts(seen@) == all.take(i as int),
                migration_views(migrations@) == (if migrate {
                    migrations_of(all, olds, news, i as int)
                } else {
                    Seq::empty()
                }),
                notices@.len() == i,
                forall|j: int|
                    0 <= j < i ==> (#[trigger] notices@[j])@ == scope_notices(all, olds, news)[j],
            decreases names@.len() - i,
        {
            let from = label_text(&old_labels[i]);
            let known = contains_text(&seen, names[i].as_str());
            if migrate && !known {
                if let Some(to) = &new_labels[i] {
                    let ghost before = migration_views(migrations@);
                    let migration = Migration {
                        name: names[i].clone(),
                        from: from.clone(),
                        to: to.clone(),
                    };
                    let ghost said = migration@;
                    migrations.push(migration);
                    assert(migration_views(migrations@) =~= before.push(said));
                }
            }
            let mut labels: Vec<String> = Vec::new();
            labels.push(from);
            if let Some(to) = &new_labels[i] {
                labels.push(to.clone());
            }
            assert(texts(labels@) =~= scope_notices(all, olds, news)[i as int].labels);
            notices.push(Notice { name: names[i].clone(), labels });
            seen.push(names[i].clone());
            assert(texts(seen@) =~= all.take(i as int).push(all[i as int]));
            assert(all.take(i + 1) =~= all.take(i as int).push(all[i as int]));
            i += 1;
        }
        assert(notice_views(notices@) =~= scope_notices(all, olds, news));
        Rescoped { refresh, migrations, notices }
    }
}

/// The tree with the entry at a place replaced.
pub open spec fn with_entry(tree: TreeView, place: Seq<usize>, to: EntryView) -> TreeView {
    TreeView { root: set_entry_at(tree.root, place, to), ..tree }
}

/// The entry with its initialization marked or not.
pub open spec fn with_init(e: EntryView, under_way: bool) -> EntryView {
    EntryView { init_task: under_way, ..e }
}

/// The entry with a fiber, or without one.
pub open spec fn with_fiber(e: EntryView, fiber: Option<u64>) -> EntryView {
    EntryView { fiber, ..e }
}

/// Marking an initialization and noting a fiber change nothing else of an entry.
pub proof fn marks_change_nothing_else(e: EntryView, under_way: bool, fiber: Option<u64>)
    ensures
        with_init(e, under_way).init_task == under_way,
        with_init(e, under_way).fiber == e.fiber,
        with_init(e, under_way).options == e.options,
        with_init(e, under_way).key == e.key,
        with_init(e, under_way).subgroup == e.subgroup,
        with_fiber(e, fiber).fiber == fiber,
        with_fiber(e, fiber).init_task == e.init_task,
        with_fiber(e, fiber).options == e.options,
        with_fiber(e, fiber).key == e.key,
        with_fiber(e, fiber).subgroup == e.subgroup,
        with_init(with_init(e, !e.init_task), e.init_task) == e,
        with_fiber(with_fiber(e, fiber), e.fiber) == e,
{
}

/// The entry with a subgroup: its own, or else an empty one.
pub open spec fn with_subgroup_entry(e: EntryView) -> EntryView {
    EntryView {
        subgroup: match e.subgroup {
            Some(g) => Some(g),
            None => Some(Seq::empty()),
        },
        ..e
    }
}

/// The tree in which the entry at a place has a subgroup.
pub open spec fn with_subgroup(tree: TreeView, place: Seq<usize>) -> TreeView {
    with_entry(tree, place, with_subgroup_entry(entry_at(tree.root, place)))
}

/// An empty subgroup brings no key.
pub proof fn subgroup_keeps_keys(tree: TreeView, place: Seq<usize>)
    requires
        has_entry(tree.root, place),
    ensures
        tree.well_formed() ==> with_subgroup(tree, place).well_formed(),
{
    let q = place.drop_last();
    let g = group_at(tree.root, q)->0;
    let i = place.last() as int;
    let to = with_subgroup_entry(g[i]);
    let after = with_subgroup(tree, place).root;
    if tree.well_formed() {
        assert forall|key: u64|
            (#[trigger] key_count(after, key)) <= 1 && (key >= tree.next_key ==> key_count(
                after,
                key,
            ) == 0) by {
            lemma_count_set_group(tree.root, q, g.update(i, to), key);
            lemma_count_edit(g, i, to, key);
            lemma_count_one(to, key);
            lemma_count_one(g[i], key);
            assert(key_count(Seq::<EntryView>::empty(), key) == 0);
            assert(key_count(tree.root, key) <= 1);
        }
    }
}

impl EntryTree {
    /// What applying the plugin of the entry at `place` begins with.
    pub fn prepare_apply<E: ConfigEvaluator>(
        &self,
        place: &Vec<usize>,
        evaluator: &E,
        env: Option<&EvalEnv>,
    ) -> (r: Result<Option<Application>, String>)
        requires
            has_entry(self@.root, place@),
        ensures
            application_result(r) == application_of(self@, place@, evaluator, env_option(env)),
    {
        broadcast use lemma_entry_view;

        if self.disabled(place) {
            return Ok(None);
        }
        let entry = self.entry(place);
        match self.import(entry.options.name.as_str()) {
            Ok(plugin) => match resolve_config_value(
                &entry.options,
                plugin.is_group,
                evaluator,
                env,
            ) {
                Ok(config) => Ok(Some(Application { plugin: plugin.duplicate(), config })),
                Err(message) => Err(message),
            },
            Err(message) => Err(message),
        }
    }

    /// The config that the running entry at `place` is updated with, and the error to log, if any.
    pub fn resolve_applied_config<E: ConfigEvaluator>(
        &self,
        place: &Vec<usize>,
        evaluator: &E,
        env: Option<&EvalEnv>,
    ) -> (r: (Option<Yaml>, Option<String>))
        requires
            has_entry(self@.root, place@),
        ensures
            ({
                let options = entry_at(self@.root, place@).options;
                &&& option_view(r.0) == applied_config(
                    self@,
                    options,
                    evaluator,
                    env_option(env),
                )
                &&& text_option(r.1) == applied_error(
                    self@,
                    options,
                    evaluator,
                    env_option(env),
                )
            }),
    {
        broadcast use lemma_entry_view;

        let entry = self.entry(place);
        match self.import(entry.options.name.as_str()) {
            Ok(plugin) => match resolve_config_value(
                &entry.options,
                plugin.is_group,
                evaluator,
                env,
            ) {
                Ok(config) => (config, None),
                Err(message) => (copy_yaml_option(&entry.options.config), Some(message)),
            },
            Err(_) => (copy_yaml_option(&entry.options.config), None),
        }
    }

    /// Marks the initialization of the entry at `place`; says whether it was not marked yet.
    pub fn init(&mut self, place: &Vec<usize>) -> (r: bool)
        requires
            has_entry(old(self)@.root, place@),
        ensures
            r == !entry_at(old(self)@.root, place@).init_task,
            final(self)@ == with_entry(
                old(self)@,
                place@,
                EntryView { init_task: true, ..entry_at(old(self)@.root, place@) },
            ),
            final(self)@ == with_entry(
                old(self)@,
                place@,
                with_init(entry_at(old(self)@.root, place@), true),
            ),
            old(self)@.well_formed() ==> final(self)@.well_formed(),
    {
        broadcast use lemma_entry_view;

        let ghost before = self@;
        let entry = entry_mut(&mut self.root.entries, place);
        let first = !entry.init_task;
        entry.init_task = true;
        proof {
            replacement_keeps_keys(before, place@, entry@);
        }
        first
    }

    /// Notes the fiber that was made for the entry at `place`.
    pub fn applied(&mut self, place: &Vec<usize>, fiber: u64)
        requires
            has_entry(old(self)@.root, place@),
        ensures
            final(self)@ == with_entry(
                old(self)@,
                place@,
                EntryView { fiber: Some(fiber), ..entry_at(old(self)@.root, place@) },
            ),
            final(self)@ == with_entry(
                old(self)@,
                place@,
                with_fiber(entry_at(old(self)@.root, place@), Some(fiber)),
            ),
            old(self)@.well_formed() ==> final(self)@.well_formed(),
    {
        broadcast use lemma_entry_view;

        let ghost before = self@;
        let entry = entry_mut(&mut self.root.entries, place);
        entry.fiber = Some(fiber);
        proof {
            replacement_keeps_keys(before, place@, entry@);
        }
    }

    /// Ends the initialization of the entry at `place`; says whether the tree is quiet now.
    pub fn finish_init(&mut self, place: &Vec<usize>, moving: &Vec<u64>) -> (r: bool)
        requires
            has_entry(old(self)@.root, place@),
        ensures
            final(self)@ == with_entry(
                old(self)@,
                place@,
                EntryView { init_task: false, ..entry_at(old(self)@.root, place@) },
            ),
            final(self)@ == with_entry(
                old(self)@,
                place@,
                with_init(entry_at(old(self)@.root, place@), false),
            ),
            r == (task_count(final(self)@, moving@) == 0),
            old(self)@.well_formed() ==> final(self)@.well_formed(),
    {
        broadcast use lemma_entry_view;

        let ghost before = self@;
        let entry = entry_mut(&mut self.root.entries, place);
        entry.init_task = false;
        proof {
            replacement_keeps_keys(before, place@, entry@);
        }
        self.get_tasks(moving) == 0
    }

    /// Takes the fiber away from the entry at `place`, to be disposed, and gives it back.
    pub fn detach_and_clear_fiber(&mut self, place: &Vec<usize>) -> (r: Option<u64>)
        requires
            has_entry(old(self)@.root, place@),
        ensures
            r == entry_at(old(self)@.root, place@).fiber,
            final(self)@ == with_entry(
                old(self)@,
                place@,
                EntryView { fiber: None, ..entry_at(old(self)@.root, place@) },
            ),
            final(self)@ == with_entry(
                old(self)@,
                place@,
                with_fiber(entry_at(old(self)@.root, place@), None),
            ),
            old(self)@.well_formed() ==> final(self)@.well_formed(),
    {
        broadcast use lemma_entry_view;

        let ghost before = self@;
        let entry = entry_mut(&mut self.root.entries, place);
        let fiber = entry.fiber;
        entry.fiber = None;
        proof {
            replacement_keeps_keys(before, place@, entry@);
        }
        fiber
    }

    /// How the reload of the entry at `place` ended, where `failed` says whether its fiber, if
    /// any, failed.
    pub fn reload_outcome(&self, place: &Vec<usize>, failed: bool) -> (r: Result<(), String>)
        requires
            has_entry(self@.root, place@),
        ensures
            r is Ok <==> entry_at(self@.root, place@).fiber is Some && !failed,
            r matches Err(message) ==> message@ == "entry "@ + full_id(self@.root, place@)
                + " failed to reload"@,
    {
        broadcast use lemma_entry_view;

        if self.entry(place).fiber.is_some() && !failed {
            Ok(())
        } else {
            let id = Entry::id(self, place);
            Err(concat3("entry ", id.as_str(), " failed to reload"))
        }
    }

    /// Makes sure that the entry at `place` has a subgroup.
    pub fn attach_subgroup(&mut self, place: &Vec<usize>)
        requires
            has_entry(old(self)@.root, place@),
        ensures
            final(self)@ == with_subgroup(old(self)@, place@),
            has_entry(final(self)@.root, place@),
            group_at(final(self)@.root, place@) is Some,
            old(self)@.well_formed() ==> final(self)@.well_formed(),
    {
        broadcast use lemma_entry_view;

        let ghost before = self@;
        let entry = entry_mut(&mut self.root.entries, place);
        if entry.subgroup.is_none() {
            entry.subgroup = Some(EntryGroup::new());
        }
        proof {
            let q = place@.drop_last();
            let g = group_at(before.root, q)->0;
            let to = with_subgroup_entry(entry_at(before.root, place@));
            lemma_get_set_group(before.root, q, g.update(place@.last() as int, to));
            lemma_group_of_entry(self@.root, place@);
            subgroup_keeps_keys(before, place@);
        }
    }
}

} // verus!
