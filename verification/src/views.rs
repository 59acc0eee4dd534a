//! What the specifications see of values: every field, as it is.

use crate::bridge::{Session, Sessions};
use crate::changes::{action_views, notice_views, Action, ActionView, Notice};
use crate::codec::{options_list_option, options_option};
use crate::entry::{text_pairs, Entry, EntryGroup, PlanView, UpdatePlan};
use crate::evaluator::{outcome_view, EvalEnv, EvalError};
use crate::graph::Artifact;
use crate::lifecycle::{
    application_result, config_result, env_option, migration_views, Application, Migration,
};
use crate::loader::Loader;
use crate::options::{
    dict_option, text_option, text_options, texts_option, EntryOptions, IsolateValue, IsolateView,
    PartialEntryOptions,
};
use crate::patches::{patch_views, Override, PatchOptions};
use crate::reconcile::options_views;
use crate::so::{step_view, LoadError, LoadErrorView, PluginMeta};
use crate::text::texts;
use crate::tree::{places, str_option, EntryTree, Plugin, Query, QueryView};
use crate::value::{option_view, value_views, Yaml};
use crate::yaml::text_result;
use vstd::prelude::*;

verus! {

/// Lists are seen item by item.
pub proof fn lists_are_seen_whole(
    strings: Seq<String>,
    optional: Seq<Option<String>>,
    options: Seq<EntryOptions>,
    patches: Seq<PatchOptions>,
    values: Seq<Yaml>,
    actions: Seq<Action>,
    notices: Seq<Notice>,
    migrations: Seq<Migration>,
    ways: Seq<Vec<usize>>,
    pairs: Seq<(String, String)>,
)
    ensures
        texts(strings).len() == strings.len(),
        forall|i: int| 0 <= i < strings.len() ==> #[trigger] texts(strings)[i] == strings[i]@,
        text_options(optional).len() == optional.len(),
        forall|i: int|
            0 <= i < optional.len() ==> #[trigger] text_options(optional)[i] == text_option(
                optional[i],
            ),
        options_views(options).len() == options.len(),
        forall|i: int|
            0 <= i < options.len() ==> #[trigger] options_views(options)[i] == options[i]@,
        patch_views(patches).len() == patches.len(),
        forall|i: int| 0 <= i < patches.len() ==> #[trigger] patch_views(patches)[i] == patches[i]@,
        value_views(values).len() == values.len(),
        forall|i: int| 0 <= i < values.len() ==> #[trigger] value_views(values)[i] == values[i]@,
        action_views(actions).len() == actions.len(),
        forall|i: int| 0 <= i < actions.len() ==> #[trigger] action_views(actions)[i] == actions[i]@,
        notice_views(notices).len() == notices.len(),
        forall|i: int| 0 <= i < notices.len() ==> #[trigger] notice_views(notices)[i] == notices[i]@,
        migration_views(migrations).len() == migrations.len(),
        forall|i: int|
            0 <= i < migrations.len() ==> #[trigger] migration_views(migrations)[i]
                == migrations[i]@,
        places(ways).len() == ways.len(),
        forall|i: int| 0 <= i < ways.len() ==> #[trigger] places(ways)[i] == ways[i]@,
        text_pairs(pairs).len() == pairs.len(),
        forall|i: int|
            0 <= i < pairs.len() ==> #[trigger] text_pairs(pairs)[i] == (pairs[i].0@, pairs[i].1@),
{
}

/// What is optional is seen where it is there, and only there.
pub proof fn optional_values_are_seen(
    text: Option<String>,
    names: Option<Vec<String>>,
    value: Option<Yaml>,
    list: Option<Vec<EntryOptions>>,
    options: Option<EntryOptions>,
    slice: Option<&str>,
    env: Option<&EvalEnv>,
    isolates: Option<crate::dict::Dict<IsolateValue>>,
)
    ensures
        text_option(text) == (if text is Some {
            Some(text->0@)
        } else {
            None
        }),
        texts_option(names) == (if names is Some {
            Some(texts(names->0@))
        } else {
            None
        }),
        option_view(value) == (if value is Some {
            Some(value->0@)
        } else {
            None
        }),
        options_list_option(list) == (if list is Some {
            Some(options_views(list->0@))
        } else {
            None
        }),
        options_option(options) == (if options is Some {
            Some(options->0@)
        } else {
            None
        }),
        str_option(slice) == (if slice is Some {
            Some(slice->0@)
        } else {
            None
        }),
        env_option(env) == (if env is Some {
            Some(env->0@)
        } else {
            None
        }),
        dict_option(isolates) == (if isolates is Some {
            Some(isolates->0@)
        } else {
            None
        }),
{
}

/// Results are seen on both sides.
pub proof fn results_are_seen(
    text: Result<String, String>,
    step: Result<u32, String>,
    config: Result<Option<Yaml>, String>,
    outcome: Result<Yaml, EvalError>,
    application: Result<Option<Application>, String>,
)
    ensures
        text is Ok ==> text_result(text) == Ok::<Seq<char>, Seq<char>>(text->Ok_0@),
        text is Err ==> text_result(text) == Err::<Seq<char>, Seq<char>>(text->Err_0@),
        step is Ok ==> step_view(step) == Ok::<u32, Seq<char>>(step->Ok_0),
        step is Err ==> step_view(step) == Err::<u32, Seq<char>>(step->Err_0@),
        config is Ok ==> config_result(config) is Ok && config_result(config)->Ok_0 == option_view(
            config->Ok_0,
        ),
        config is Err ==> config_result(config) is Err && config_result(config)->Err_0
            == config->Err_0@,
        outcome is Ok ==> outcome_view(outcome) == Ok::<_, crate::evaluator::ErrorView>(
            outcome->Ok_0@,
        ),
        outcome is Err ==> outcome_view(outcome) == Err::<crate::value::YamlView, _>(
            outcome->Err_0@,
        ),
        application is Err ==> application_result(application) is Err && application_result(
            application,
        )->Err_0 == application->Err_0@,
        application is Ok && application->Ok_0 is None ==> application_result(application) is Ok
            && application_result(application)->Ok_0 is None,
        application is Ok && application->Ok_0 is Some ==> application_result(application) is Ok
            && application_result(application)->Ok_0 == Some(
            (application->Ok_0->0.plugin@, option_view(application->Ok_0->0.config)),
        ),
{
}

/// Options are seen field by field.
pub proof fn options_are_seen_whole(
    options: EntryOptions,
    update: PartialEntryOptions,
    isolate: IsolateValue,
)
    ensures
        options@.id == options.id@,
        options@.name == options.name@,
        options@.config == option_view(options.config),
        options@.group == options.group,
        options@.disabled == options.disabled,
        options@.inject == texts_option(options.inject),
        options@.isolate == dict_option(options.isolate),
        options@.intercept == option_view(options.intercept),
        options@.extra == options.extra@,
        update@.id == text_option(update.id),
        update@.name == text_option(update.name),
        update@.config == option_view(update.config),
        update@.group == update.group,
        update@.disabled == update.disabled,
        update@.inject == texts_option(update.inject),
        update@.isolate == dict_option(update.isolate),
        update@.intercept == option_view(update.intercept),
        update@.extra == dict_option(update.extra),
        isolate is Flag ==> isolate@ == IsolateView::Flag(isolate->Flag_0),
        isolate is Label ==> isolate@ == IsolateView::Label(isolate->Label_0@),
{
}

/// A patch is seen field by field: what it leaves alone, what it puts and what it clears.
pub proof fn patches_are_seen_whole(patch: PatchOptions)
    ensures
        patch@.id == text_option(patch.id),
        patch@.insert == options_list_option(patch.insert),
        patch@.name == text_option(patch.name),
        patch.config is Absent ==> patch@.config is Absent,
        patch.config is Clear ==> patch@.config is Clear,
        patch.config is Put ==> patch@.config == Override::Put(patch.config->Put_0@),
        patch@.disabled == patch.disabled,
        patch@.group == patch.group,
        patch.inject is Absent ==> patch@.inject is Absent,
        patch.inject is Clear ==> patch@.inject is Clear,
        patch.inject is Put ==> patch@.inject == Override::Put(texts(patch.inject->Put_0@)),
        patch.intercept is Absent ==> patch@.intercept is Absent,
        patch.intercept is Clear ==> patch@.intercept is Clear,
        patch.intercept is Put ==> patch@.intercept == Override::Put(patch.intercept->Put_0@),
        patch.isolate is Absent ==> patch@.isolate is Absent,
        patch.isolate is Clear ==> patch@.isolate is Clear,
        patch.isolate is Put ==> patch@.isolate == Override::Put(patch.isolate->Put_0@),
        patch@.extra == patch.extra@,
{
}

/// An entry is seen with all that is below it.
pub proof fn entries_are_seen_whole(entry: Entry, group: EntryGroup, i: int)
    requires
        0 <= i < group.entries@.len(),
    ensures
        entry@.key == entry.key,
        entry@.options == entry.options@,
        entry@.fiber == entry.fiber,
        entry@.init_task == entry.init_task,
        entry.subgroup is None ==> entry@.subgroup is None,
        entry.subgroup is Some ==> entry@.subgroup == Some(entry.subgroup->0@),
        group@.len() == group.entries@.len(),
        group@[i] == group.entries@[i]@,
{
    crate::entry::lemma_entry_view(entry);
}

/// A tree, its plugins and a loader are seen field by field.
pub proof fn trees_are_seen_whole(tree: EntryTree, plugin: Plugin, loader: Loader)
    ensures
        tree@.enable_logs == tree.enable_logs,
        tree@.plugins == tree.plugins@,
        tree@.builtins == tree.builtins@,
        tree@.root == tree.root@,
        tree@.tasks == tree.tasks,
        tree@.next_key == tree.next_key,
        plugin@.is_group == plugin.is_group,
        plugin@.name == text_option(plugin.name),
        plugin@.inject == texts(plugin.inject@),
        plugin@.apply == plugin.apply,
        loader@.tree == loader.tree@,
        loader@.env_data == loader.env_data@,
        loader@.base_url == loader.base_url@,
{
}

/// Actions, notices and migrations are seen as they are.
pub proof fn actions_are_seen_whole(action: Action, notice: Notice, migration: Migration)
    ensures
        match action {
            Action::Attach(key) => action@ == ActionView::Attach(key),
            Action::Reparent(key) => action@ == ActionView::Reparent(key),
            Action::Write => action@ == ActionView::Write,
            Action::Dispose(fiber) => action@ == ActionView::Dispose(fiber),
            Action::Release(fiber) => action@ == ActionView::Release(fiber),
            Action::Rescope(key, names) => action@ == ActionView::Rescope(key, texts(names@)),
            Action::Reconfigure(key, fiber) => action@ == ActionView::Reconfigure(key, fiber),
            Action::Init(key) => action@ == ActionView::Init(key),
            Action::InitThenNotify(key, notices) => action@ == ActionView::InitThenNotify(
                key,
                notice_views(notices@),
            ),
            Action::Start(key) => action@ == ActionView::Start(key),
        },
        notice@.name == notice.name@,
        notice@.labels == texts(notice.labels@),
        migration@.name == migration.name@,
        migration@.from == migration.from@,
        migration@.to == migration.to@,
{
}

/// Plans and queries are seen as they are.
pub proof fn plans_and_queries_are_seen_whole(plan: UpdatePlan, query: Query)
    ensures
        match plan {
            UpdatePlan::Stop(fiber) => plan@ == PlanView::Stop(fiber),
            UpdatePlan::Rescope(names) => plan@ == PlanView::Rescope(texts(names@)),
            UpdatePlan::Reconfigure(fiber) => plan@ == PlanView::Reconfigure(fiber),
            UpdatePlan::Keep => plan@ == PlanView::Keep,
        },
        match query {
            Query::Key(key) => query@ == QueryView::Key(key),
            Query::Fiber(fiber) => query@ == QueryView::Fiber(fiber),
            Query::FullId(id) => query@ == QueryView::FullId(id@),
        },
{
}

/// What concerns expressions and exported plugins is seen field by field.
pub proof fn plugins_are_seen_whole(
    env: EvalEnv,
    error: EvalError,
    meta: PluginMeta,
    artifact: Artifact,
    session: Session,
    sessions: Sessions,
)
    ensures
        env@.platform == env.platform@,
        env@.base_url == env.base_url@,
        env@.env_vars == env.env_vars@,
        error@.expr == error.expr@,
        error@.message == error.message@,
        meta@.name == meta.name@,
        meta@.version == text_option(meta.version),
        meta@.inject == texts(meta.inject@),
        meta@.provide == texts(meta.provide@),
        meta@.deps == texts(meta.deps@),
        artifact@.name == artifact.name@,
        artifact@.deps == texts(artifact.deps@),
        session@.handle == session.handle,
        session@.context == session.context,
        session@.scratch == text_option(session.scratch),
        sessions@.len() == sessions.frames@.len(),
        forall|i: int|
            0 <= i < sessions.frames@.len() ==> #[trigger] sessions@[i] == sessions.frames@[i]@,
{
}

/// Errors of loading are seen with all that they tell.
pub proof fn load_errors_are_seen_whole(error: LoadError)
    ensures
        match error {
            LoadError::Open { path, error: e } => error@ == (LoadErrorView::Open {
                path: path@,
                error: e@,
            }),
            LoadError::MissingSymbol { path, symbol, error: e } => error@ == (
            LoadErrorView::MissingSymbol { path: path@, symbol: symbol@, error: e@ }),
            LoadError::VersionMismatch { path, found, expected } => error@ == (
            LoadErrorView::VersionMismatch { path: path@, found, expected }),
        },
{
}

} // verus!
