//! What moves and changes of scope do, and what an entry's plugin is applied with.

use crate::changes::{one_more, ActionView, NoticeView};
use crate::evaluator::{evaluated, ConfigEvaluator, EnvView};
use crate::forest::{
    disabled_at, entry_at, group_at, has_entry, lemma_get_set_group, lemma_group_step,
    same_entry, set_entry_at, without_entry_at, EntryView,
};
use crate::lifecycle::{
    applied_config, applied_error, application_of, config_for, migrations_of, refreshed_fiber,
    scope_notices, with_entry, with_subgroup, MigrationView,
};
use crate::mount::{mounted_place, written};
use crate::moves::{
    entry_settled, joined_names, label_changes, leads, lemma_group_survives, moved, moved_place,
    names_at_stake, settle_actions, settle_count, shifted,
};
use crate::options::OptionsView;
use crate::readings::numbers;
use crate::tree::{plugin_named, TreeView};
use vstd::prelude::*;

verus! {

/// Once the entry at `p` is gone, the places of its later siblings, and those below them, have one
/// less where they count its group; all other places stay.
pub proof fn places_close_up(p: Seq<usize>, o: Seq<usize>)
    requires
        p.len() > 0,
        !leads(p, o),
    ensures
        ({
            let d: int = p.len() - 1;
            let behind = p.len() <= o.len() && o.take(d) == p.take(d) && o[d] > p[d];
            &&& shifted(p, o).len() == o.len()
            &&& behind ==> shifted(p, o) == o.update(d, (o[d] - 1) as usize)
            &&& !behind ==> shifted(p, o) == o
        }),
    decreases p.len(),
{
    let d: int = p.len() - 1;
    if o.len() == 0 {
    } else if p.len() == 1 {
        assert(o.take(0) =~= p.take(0));
    } else if o[0] == p[0] {
        let inner = p.drop_first();
        let rest = o.drop_first();
        assert(!leads(inner, rest)) by {
            if leads(inner, rest) {
                assert(o.take(p.len() as int) =~= seq![p[0]] + rest.take(inner.len() as int));
                assert(p =~= seq![p[0]] + inner);
            }
        }
        places_close_up(inner, rest);
        if p.len() <= o.len() {
            assert(o.take(d) =~= seq![o[0]] + rest.take(d - 1));
            assert(p.take(d) =~= seq![p[0]] + inner.take(d - 1));
            if rest.take(d - 1) == inner.take(d - 1) {
                assert(o.take(d) == p.take(d));
            }
            if o.take(d) == p.take(d) {
                assert(rest.take(d - 1) =~= o.take(d).drop_first());
                assert(inner.take(d - 1) =~= p.take(d).drop_first());
            }
            assert(rest[d - 1] == o[d]);
            assert(inner[d - 1] == p[d]);
        }
        assert(seq![o[0]] + rest =~= o);
        if p.len() <= o.len() {
            assert(seq![o[0]] + rest.update(d - 1, (o[d] - 1) as usize) =~= o.update(
                d,
                (o[d] - 1) as usize,
            ));
        }
    } else if p.len() <= o.len() {
        assert(o.take(d)[0] != p.take(d)[0]);
    }
}

/// Every entry that is neither at `p` nor below it is still there once the entry at `p` is gone.
pub proof fn others_survive_a_removal(es: Seq<EntryView>, p: Seq<usize>, o: Seq<usize>)
    requires
        has_entry(es, p),
        has_entry(es, o),
        !leads(p, o),
    ensures
        has_entry(without_entry_at(es, p), shifted(p, o)),
        same_entry(entry_at(without_entry_at(es, p), shifted(p, o)), entry_at(es, o)),
    decreases p.len(),
{
    let rest = without_entry_at(es, p);
    let to = shifted(p, o);
    places_close_up(p, o);
    if p.len() == 1 {
        assert(p.drop_last() =~= Seq::<usize>::empty());
        assert(rest == es.remove(p[0] as int));
        assert(o[0] != p[0]) by {
            if o[0] == p[0] {
                assert(o.take(1) =~= p);
            }
        }
        assert(o.take(0) =~= p.take(0));
        if o.len() == 1 {
            assert(o.drop_last() =~= Seq::<usize>::empty());
            assert(to.drop_last() =~= Seq::<usize>::empty());
        } else {
            lemma_group_step(es, o);
            lemma_group_step(rest, to);
            assert(to.drop_first() =~= o.drop_first());
        }
    } else {
        lemma_group_step(es, p);
        let e = es[p[0] as int];
        let g = e.subgroup->0;
        let inner = p.drop_first();
        assert(rest == es.update(
            p[0] as int,
            EntryView { subgroup: Some(without_entry_at(g, inner)), ..e },
        ));
        if o.len() == 1 {
            assert(o.drop_last() =~= Seq::<usize>::empty());
        } else {
            lemma_group_step(es, o);
            lemma_group_step(rest, to);
            if o[0] == p[0] {
                assert(!leads(inner, o.drop_first())) by {
                    if leads(inner, o.drop_first()) {
                        assert(o.take(p.len() as int) =~= seq![p[0]] + o.drop_first().take(
                            inner.len() as int,
                        ));
                        assert(p =~= seq![p[0]] + inner);
                    }
                }
                others_survive_a_removal(g, inner, o.drop_first());
                assert(to.drop_first() =~= shifted(inner, o.drop_first()));
            }
        }
    }
}

/// A moved entry is the last one of the group that it is moved to: the one of the entry that owned
/// the group at `q`, or the root group. The entries that were there keep their order before it.
pub proof fn moved_entries_come_last(es: Seq<EntryView>, p: Seq<usize>, q: Seq<usize>)
    requires
        has_entry(es, p),
        group_at(es, q) is Some,
        !leads(p, q),
        group_at(without_entry_at(es, p), shifted(p, q))->0.len() < usize::MAX,
    ensures
        ({
            let to = moved_place(es, p, q).drop_last();
            let now = group_at(moved(es, p, q), to)->0;
            let before = group_at(without_entry_at(es, p), to)->0;
            &&& group_at(moved(es, p, q), to) is Some
            &&& now.len() == before.len() + 1
            &&& moved_place(es, p, q).last() == now.len() - 1
            &&& now.last() == entry_at(es, p)
            &&& now.drop_last() == before
            &&& q.len() == 0 ==> to.len() == 0
            &&& q.len() > 0 ==> has_entry(without_entry_at(es, p), to) && entry_at(
                without_entry_at(es, p),
                to,
            ).key == entry_at(es, q).key
        }),
{
    let rest = without_entry_at(es, p);
    let to = shifted(p, q);
    lemma_group_survives(es, p, q);
    let g = group_at(rest, to)->0;
    lemma_get_set_group(rest, to, g.push(entry_at(es, p)));
    assert(moved_place(es, p, q).drop_last() =~= to);
    assert(g.push(entry_at(es, p)).drop_last() =~= g);
    if q.len() > 0 {
        lemma_group_has_owner(es, q);
        others_survive_a_removal(es, p, q);
    }
}

/// A group other than the root one is that of an entry.
proof fn lemma_group_has_owner(es: Seq<EntryView>, q: Seq<usize>)
    requires
        q.len() > 0,
        group_at(es, q) is Some,
    ensures
        has_entry(es, q),
        entry_at(es, q).subgroup == group_at(es, q),
    decreases q.len(),
{
    if q.len() == 1 {
        assert(q.drop_last() =~= Seq::<usize>::empty());
        assert(q.drop_first() =~= Seq::<usize>::empty());
    } else {
        lemma_group_step(es, q);
        lemma_group_has_owner(es[q[0] as int].subgroup->0, q.drop_first());
    }
}

/// The joined names are those of both lists, the first list unchanged in front; what was without
/// duplicates stays so.
pub proof fn joined_names_are_those_of_both(list: Seq<Seq<char>>, more: Seq<Seq<char>>)
    ensures
        forall|name: Seq<char>| #[trigger]
            joined_names(list, more).contains(name) <==> list.contains(name) || more.contains(name),
        list.len() <= joined_names(list, more).len(),
        joined_names(list, more).take(list.len() as int) == list,
        list.no_duplicates() ==> joined_names(list, more).no_duplicates(),
    decreases more.len(),
{
    if more.len() == 0 {
        assert(list.take(list.len() as int) =~= list);
    } else {
        let front = more.drop_last();
        let rest = joined_names(list, front);
        let all = joined_names(list, more);
        joined_names_are_those_of_both(list, front);
        assert(more =~= front.push(more.last()));
        assert forall|name: Seq<char>| #[trigger] all.contains(name) <==> list.contains(name)
            || more.contains(name) by {
            vstd::seq_lib::lemma_seq_contains_after_push(front, more.last(), name);
            vstd::seq_lib::lemma_seq_contains_after_push(rest, more.last(), name);
            assert(rest.contains(name) <==> list.contains(name) || front.contains(name));
        }
        assert(all.take(list.len() as int) =~= rest.take(list.len() as int));
    }
}

/// At stake in a move are the services that the entry injects, those that its plugin injects, and
/// the one named like the plugin.
pub proof fn services_at_stake(tree: TreeView, options: OptionsView, name: Seq<char>)
    ensures
        names_at_stake(tree, options).contains(name) <==> {
            ||| options.inject is Some && options.inject->0.contains(name)
            ||| plugin_named(tree, options.name) matches Ok(plugin) && plugin.inject.contains(name)
            ||| name == options.name
        },
        options.inject matches Some(inject) ==> inject.len() <= names_at_stake(tree, options).len()
            && names_at_stake(tree, options).take(inject.len() as int) == inject,
{
    let own = match options.inject {
        Some(inject) => inject,
        None => Seq::empty(),
    };
    let with_plugin = match plugin_named(tree, options.name) {
        Ok(plugin) => joined_names(own, plugin.inject),
        Err(_) => own,
    };
    if let Ok(plugin) = plugin_named(tree, options.name) {
        joined_names_are_those_of_both(own, plugin.inject);
    }
    joined_names_are_those_of_both(with_plugin, seq![options.name]);
    assert(seq![options.name].contains(name) <==> name == options.name) by {
        assert(seq![options.name][0] == options.name);
    }
    assert(!Seq::<Seq<char>>::empty().contains(name));
    assert(with_plugin.take(own.len() as int) =~= own);
    assert(names_at_stake(tree, options).take(own.len() as int) =~= own) by {
        let all = names_at_stake(tree, options);
        assert(all.take(with_plugin.len() as int) == with_plugin);
        assert(all.take(own.len() as int) =~= all.take(with_plugin.len() as int).take(
            own.len() as int,
        ));
    }
    assert(names_at_stake(tree, options).contains(name) <==> with_plugin.contains(name) || seq![
        options.name,
    ].contains(name));
}

/// There is a notice for each service whose label differs, in their order, with the old and the
/// new label as far as there are any.
pub proof fn changed_labels_are_noticed(
    names: Seq<Seq<char>>,
    old_labels: Seq<Option<Seq<char>>>,
    new_labels: Seq<Option<Seq<char>>>,
)
    ensures
        ({
            let changed = numbers(names.len()).filter(|i: int| old_labels[i] != new_labels[i]);
            let notices = label_changes(names, old_labels, new_labels);
            &&& notices.len() == changed.len()
            &&& forall|k: int|
                0 <= k < changed.len() ==> {
                    let before = old_labels[changed[k]];
                    let after = new_labels[changed[k]];
                    let notice = #[trigger] notices[k];
                    &&& notice.name == names[changed[k]]
                    &&& before is Some && after is Some ==> notice.labels == seq![before->0, after->0]
                    &&& before is Some && after is None ==> notice.labels == seq![before->0]
                    &&& before is None && after is Some ==> notice.labels == seq![after->0]
                }
        }),
    decreases names.len(),
{
    reveal(Seq::filter);
    if names.len() > 0 {
        let n: int = names.len() - 1;
        let differ = |i: int| old_labels[i] != new_labels[i];
        let front = names.drop_last();
        changed_labels_are_noticed(front, old_labels, new_labels);
        assert(numbers(names.len()).drop_last() =~= numbers(front.len()));
        assert(numbers(names.len()).last() == n);
        let before = numbers(front.len()).filter(differ);
        let changed = numbers(names.len()).filter(differ);
        let rest = label_changes(front, old_labels, new_labels);
        let notices = label_changes(names, old_labels, new_labels);
        assert forall|k: int| 0 <= k < changed.len() implies {
            let was = old_labels[changed[k]];
            let is = new_labels[changed[k]];
            let notice = #[trigger] notices[k];
            &&& notice.name == names[changed[k]]
            &&& was is Some && is is Some ==> notice.labels == seq![was->0, is->0]
            &&& was is Some && is is None ==> notice.labels == seq![was->0]
            &&& was is None && is is Some ==> notice.labels == seq![is->0]
        } by {
            if k < before.len() {
                assert(notices[k] == rest[k]);
                assert(changed[k] == before[k]);
                lemma_number_below(front.len(), differ, k);
                assert(front[before[k]] == names[before[k]]);
            } else {
                assert(changed[k] == n);
                if old_labels[n] is Some && new_labels[n] is Some {
                    assert(seq![old_labels[n]->0].push(new_labels[n]->0) =~= seq![
                        old_labels[n]->0,
                        new_labels[n]->0,
                    ]);
                }
                if old_labels[n] is None && new_labels[n] is Some {
                    assert(Seq::<Seq<char>>::empty().push(new_labels[n]->0) =~= seq![
                        new_labels[n]->0,
                    ]);
                }
            }
        }
    }
}

proof fn lemma_number_below(n: nat, keep: spec_fn(int) -> bool, k: int)
    requires
        0 <= k < numbers(n).filter(keep).len(),
    ensures
        0 <= numbers(n).filter(keep)[k] < n,
        keep(numbers(n).filter(keep)[k]),
{
    let all = numbers(n).filter(keep);
    numbers(n).lemma_filter_pred(keep, k);
    assert(all.contains(all[k]));
    numbers(n).lemma_filter_contains_rev(keep, all[k]);
}

/// After a move an entry whose services changed, or that is disabled where it is now, loses its
/// fiber, which is disposed as a counted task. It is initialized where it then has no fiber and is
/// neither disabled nor a group, with the notices that there are.
pub proof fn moved_entries_are_settled(
    tasks: usize,
    e: EntryView,
    disabled: bool,
    changes: Seq<NoticeView>,
)
    ensures
        ({
            let changed = changes.len() > 0;
            let after = entry_settled(e, disabled, changed);
            let actions = settle_actions(e, disabled, changes);
            let ends = changed || disabled;
            let starts = (changed || e.fiber is None) && !disabled && e.options.group != Some(true);
            let first = if ends && e.fiber is Some {
                seq![ActionView::Dispose(e.fiber->0)]
            } else {
                Seq::empty()
            };
            let then = if !starts {
                Seq::empty()
            } else if changed {
                seq![ActionView::InitThenNotify(e.key, changes)]
            } else {
                seq![ActionView::Init(e.key)]
            };
            &&& ends ==> after.fiber is None
            &&& !ends ==> after.fiber == e.fiber
            &&& after.init_task == (e.init_task || starts)
            &&& after.key == e.key
            &&& after.options == e.options
            &&& after.subgroup == e.subgroup
            &&& actions == first + then
            &&& settle_count(tasks, e, disabled, changed) == (if ends && e.fiber is Some {
                one_more(tasks)
            } else {
                tasks
            })
        }),
{
    let changed = changes.len() > 0;
    let actions = settle_actions(e, disabled, changes);
    let ends = changed || disabled;
    let starts = (changed || e.fiber is None) && !disabled && e.options.group != Some(true);
    let first = if ends && e.fiber is Some {
        seq![ActionView::Dispose(e.fiber->0)]
    } else {
        Seq::empty()
    };
    let then = if !starts {
        Seq::empty()
    } else if changed {
        seq![ActionView::InitThenNotify(e.key, changes)]
    } else {
        seq![ActionView::Init(e.key)]
    };
    assert(actions =~= first + then);
}

/// A plugin gets the written config where it is a group or there is no environment; else each
/// expression in it is evaluated.
pub proof fn plugins_get_the_evaluated_config<E: ConfigEvaluator>(
    options: OptionsView,
    is_group: bool,
    evaluator: &E,
    env: Option<EnvView>,
)
    ensures
        options.config is None || is_group || env is None ==> config_for(
            options,
            is_group,
            evaluator,
            env,
        ) == Ok::<Option<_>, Seq<char>>(options.config),
        options.config is Some && !is_group && env is Some ==> {
            let value = evaluated(
                options.config->0,
                |expr: Seq<char>| evaluator.outcome(expr, env->0),
            );
            match config_for(options, is_group, evaluator, env) {
                Ok(config) => value is Ok && config == Some(value->Ok_0),
                Err(message) => value is Err && message == "config evaluation failed: "@
                    + value->Err_0.text(),
            }
        },
{
}

/// A disabled entry is not applied. Any other is, with the plugin of its name and the config that
/// the plugin gets; without the plugin or the config there is an error.
pub proof fn enabled_entries_are_applied<E: ConfigEvaluator>(
    tree: TreeView,
    place: Seq<usize>,
    evaluator: &E,
    env: Option<EnvView>,
)
    ensures
        ({
            let options = entry_at(tree.root, place).options;
            let plugin = plugin_named(tree, options.name);
            let config = config_for(options, plugin->Ok_0.is_group, evaluator, env);
            let application = application_of(tree, place, evaluator, env);
            &&& application is Ok && application->Ok_0 is None <==> disabled_at(tree.root, place)
            &&& application is Ok && application->Ok_0 is Some <==> !disabled_at(tree.root, place)
                && plugin is Ok && config is Ok
            &&& application matches Ok(Some(with)) ==> with.0 == plugin->Ok_0 && with.1
                == config->Ok_0
            &&& application matches Err(message) ==> message == (if plugin is Err {
                plugin->Err_0
            } else {
                config->Err_0
            })
        }),
{
}

/// A running entry is updated with the config that its plugin gets; where there is none, with the
/// written one, and an error of the evaluation is logged.
pub proof fn running_entries_fall_back<E: ConfigEvaluator>(
    tree: TreeView,
    options: OptionsView,
    evaluator: &E,
    env: Option<EnvView>,
)
    ensures
        ({
            let plugin = plugin_named(tree, options.name);
            let config = config_for(options, plugin->Ok_0.is_group, evaluator, env);
            let applied = applied_config(tree, options, evaluator, env);
            let error = applied_error(tree, options, evaluator, env);
            &&& plugin is Ok && config is Ok ==> applied == config->Ok_0 && error is None
            &&& plugin is Ok && config is Err ==> applied == options.config && error == Some(
                config->Err_0,
            )
            &&& plugin is Err ==> applied == options.config && error is None
        }),
{
}

/// The label, or the empty text where there is none.
pub open spec fn text_or_none(label: Option<Seq<char>>) -> Seq<char> {
    if label is Some {
        label->0
    } else {
        seq![]
    }
}

/// Each service that has a new label migrates to it once, from the label that it had where it is
/// listed first.
pub proof fn services_migrate_once(
    names: Seq<Seq<char>>,
    old_labels: Seq<Option<Seq<char>>>,
    new_labels: Seq<Option<Seq<char>>>,
    n: nat,
)
    requires
        n <= names.len(),
    ensures
        migrations_of(names, old_labels, new_labels, n as int) == numbers(n).filter(
            |i: int|
                new_labels[i] is Some && forall|j: int|
                    0 <= j < i ==> #[trigger] names[j] != names[i],
        ).map_values(
            |i: int|
                MigrationView {
                    name: names[i],
                    from: text_or_none(old_labels[i]),
                    to: new_labels[i]->0,
                },
        ),
    decreases n,
{
    reveal(Seq::filter);
    let first = |i: int|
        new_labels[i] is Some && forall|j: int| 0 <= j < i ==> #[trigger] names[j] != names[i];
    let migration = |i: int|
        MigrationView {
            name: names[i],
            from: text_or_none(old_labels[i]),
            to: new_labels[i]->0,
        };
    if n > 0 {
        let before = (n - 1) as nat;
        services_migrate_once(names, old_labels, new_labels, before);
        assert(numbers(n).drop_last() =~= numbers(before));
        assert(numbers(n).last() == n - 1);
        let rest = numbers(before).filter(first);
        assert(rest.push(n - 1).map_values(migration) =~= rest.map_values(migration).push(
            migration(n - 1),
        ));
        let seen = names.take(n - 1);
        if seen.contains(names[n - 1]) {
            let j = seen.index_of(names[n - 1]);
            assert(names[j] == names[n - 1]);
        }
        assert forall|j: int| 0 <= j < n - 1 && !seen.contains(names[n - 1]) implies #[trigger] names[j]
            != names[n - 1] by {
            assert(seen[j] == names[j]);
        }
        if old_labels[n - 1] is None {
            assert(text_or_none(old_labels[n - 1]) =~= Seq::<char>::empty());
        }
    }
    assert(migrations_of(names, old_labels, new_labels, n as int) =~= numbers(n).filter(
        first,
    ).map_values(migration));
}

/// The dependents of every rescoped service are woken under its old label, the empty one where it
/// had none, and then under the new one, where it has one.
pub proof fn dependents_are_woken(
    names: Seq<Seq<char>>,
    old_labels: Seq<Option<Seq<char>>>,
    new_labels: Seq<Option<Seq<char>>>,
    i: int,
)
    requires
        0 <= i < names.len(),
    ensures
        scope_notices(names, old_labels, new_labels).len() == names.len(),
        ({
            let notice = scope_notices(names, old_labels, new_labels)[i];
            &&& notice.name == names[i]
            &&& notice.labels.len() == (if new_labels[i] is Some {
                2nat
            } else {
                1
            })
            &&& notice.labels[0] == text_or_none(old_labels[i])
            &&& new_labels[i] is Some ==> notice.labels[1] == new_labels[i]->0
        }),
{
    if old_labels[i] is None {
        assert(text_or_none(old_labels[i]) =~= Seq::<char>::empty());
    }
}

/// What is refreshed is the fiber of a group, if it is alive.
pub proof fn living_groups_are_refreshed(e: EntryView, alive: bool)
    ensures
        refreshed_fiber(e, alive) is Some <==> e.options.group == Some(true) && alive
            && e.fiber is Some,
        refreshed_fiber(e, alive) is Some ==> refreshed_fiber(e, alive) == e.fiber,
{
}

/// An entry that is put at a place is there, and every other stays, if what is below stays.
pub proof fn entries_are_exchanged(tree: TreeView, p: Seq<usize>, to: EntryView, o: Seq<usize>)
    requires
        has_entry(tree.root, p),
    ensures
        has_entry(with_entry(tree, p, to).root, p),
        entry_at(with_entry(tree, p, to).root, p) == to,
        with_entry(tree, p, to) == (TreeView { root: set_entry_at(tree.root, p, to), ..tree }),
        has_entry(tree.root, o) && o != p && to.subgroup == entry_at(tree.root, p).subgroup
            ==> has_entry(with_entry(tree, p, to).root, o) && same_entry(
            entry_at(with_entry(tree, p, to).root, o),
            entry_at(tree.root, o),
        ),
{
    let q = p.drop_last();
    let g = group_at(tree.root, q)->0;
    lemma_get_set_group(tree.root, q, g.update(p.last() as int, to));
    if has_entry(tree.root, o) && o != p && to.subgroup == entry_at(tree.root, p).subgroup {
        crate::forest::other_entries_stay(tree.root, p, to, o);
    }
}

/// An entry that is made a group keeps the subgroup that it has; without one it gets an empty one.
pub proof fn groups_keep_their_entries(tree: TreeView, p: Seq<usize>)
    requires
        has_entry(tree.root, p),
    ensures
        ({
            let before = entry_at(tree.root, p);
            let after = entry_at(with_subgroup(tree, p).root, p);
            &&& after == (EntryView { subgroup: after.subgroup, ..before })
            &&& before.subgroup is Some ==> after.subgroup == before.subgroup
            &&& before.subgroup is None ==> after.subgroup is Some && after.subgroup->0.len() == 0
        }),
{
    let q = p.drop_last();
    let g = group_at(tree.root, q)->0;
    let to = crate::lifecycle::with_subgroup_entry(entry_at(tree.root, p));
    lemma_get_set_group(tree.root, q, g.update(p.last() as int, to));
}

/// The entry that mounts a file is the first of the list whose file it is and that has a subgroup.
pub proof fn files_belong_to_the_first_mount(
    es: Seq<EntryView>,
    list: Seq<Seq<usize>>,
    files: Seq<Option<Seq<char>>>,
    file: Seq<char>,
    n: int,
)
    ensures
        match mounted_place(es, list, files, file, n) {
            Some(p) => exists|i: int|
                {
                    &&& 0 <= i < n
                    &&& #[trigger] list[i] == p
                    &&& files[i] == Some(file)
                    &&& entry_at(es, p).subgroup is Some
                    &&& forall|j: int|
                        0 <= j < i ==> files[j] != Some(file) || entry_at(
                            es,
                            #[trigger] list[j],
                        ).subgroup is None
                },
            None => forall|j: int|
                0 <= j < n ==> files[j] != Some(file) || entry_at(
                    es,
                    #[trigger] list[j],
                ).subgroup is None,
        },
    decreases n,
{
    if n > 0 {
        files_belong_to_the_first_mount(es, list, files, file, n - 1);
        match mounted_place(es, list, files, file, n - 1) {
            Some(p) => {},
            None => {
                if files[n - 1] == Some(file) && entry_at(es, list[n - 1]).subgroup is Some {
                    assert(list[n - 1] == mounted_place(es, list, files, file, n)->0);
                }
            },
        }
    }
}

/// A file that cannot be written is not; any other is written with the notation that there is.
pub proof fn readonly_files_are_not_written(
    readonly: bool,
    notation: Result<Seq<char>, Seq<char>>,
)
    ensures
        readonly ==> written(readonly, notation) is Err,
        !readonly && notation is Ok ==> written(readonly, notation) == notation,
        !readonly && notation is Err ==> written(readonly, notation) is Err,
{
}

} // verus!
