//! What updates of options, and changes of the tree, do.

use crate::changes::{
    counted, disposal, entry_updated, one_less, one_more, plan_actions, smaller, tree_updated,
    tree_with_new, tree_without, update_actions, with_id, ActionView,
};
use crate::dict::{distinct, keys_of, lemma_place, lookup};
use crate::entry::{
    entry_after, intercepts_of, labels_of, options_after, overrides_of, plan_of, rescoped_names,
    untagged, PlanView,
};
use crate::forest::{
    entry_at, group_at, has_entry, inherits_disabled, lemma_get_set_group, other_groups_stay,
    same_entry, EntryView,
};
use crate::options::{
    any_reaches_fiber, changed_fields, reaches_fiber, same_extra, IsolateView, OptionsView,
    PartialView,
};
use crate::tree::{group_place_of, place_of, plugin_named, TreeView};
use crate::value::{same_option, YamlView};
use vstd::prelude::*;

verus! {

/// What an update mentions is set; what it does not mention stays.
pub open spec fn mentioned_or_kept<A>(
    before: Option<A>,
    update: Option<A>,
    after: Option<A>,
) -> bool {
    &&& update is Some ==> after == update
    &&& update is None ==> after == before
}

/// A partial update sets the fields that it mentions, all of them and no others.
pub proof fn partial_updates_set_what_they_mention(before: OptionsView, update: PartialView)
    ensures
        ({
            let after = before.patched(update);
            &&& mentioned_or_kept(Some(before.id), update.id, Some(after.id))
            &&& mentioned_or_kept(Some(before.name), update.name, Some(after.name))
            &&& mentioned_or_kept(before.config, update.config, after.config)
            &&& mentioned_or_kept(before.group, update.group, after.group)
            &&& mentioned_or_kept(before.disabled, update.disabled, after.disabled)
            &&& mentioned_or_kept(before.inject, update.inject, after.inject)
            &&& mentioned_or_kept(before.isolate, update.isolate, after.isolate)
            &&& mentioned_or_kept(before.intercept, update.intercept, after.intercept)
            &&& mentioned_or_kept(Some(before.extra), update.extra, Some(after.extra))
        }),
{
}

/// A full update sets every field to what it mentions and clears the others, but for the id and
/// the name, which stay where it does not mention them.
pub proof fn full_updates_clear_the_rest(before: OptionsView, update: PartialView)
    ensures
        ({
            let after = before.replaced(update);
            &&& mentioned_or_kept(Some(before.id), update.id, Some(after.id))
            &&& mentioned_or_kept(Some(before.name), update.name, Some(after.name))
            &&& after.config == update.config
            &&& after.group == update.group
            &&& after.disabled == update.disabled
            &&& after.inject == update.inject
            &&& after.isolate == update.isolate
            &&& after.intercept == update.intercept
            &&& mentioned_or_kept(Some(Seq::empty()), update.extra, Some(after.extra))
            &&& update.full(before.id, before.name) == after
        }),
{
}

/// An update of an entry that is made sets all its options; one that clears what is missing is a
/// full one; any other is partial.
pub proof fn updates_are_full_or_partial(before: OptionsView, update: PartialView, clear: bool)
    ensures
        options_after(before, update, true, clear) == before.replaced(update),
        options_after(before, update, false, true) == before.replaced(update),
        options_after(before, update, false, false) == before.patched(update),
{
}

proof fn lemma_field_keys()
    ensures
        seq!["config"@, "disabled"@, "inject"@, "name"@, "isolate"@, "intercept"@, "id"@, "group"@, "extra"@].no_duplicates(),
{
    reveal_strlit("config");
    reveal_strlit("disabled");
    reveal_strlit("inject");
    reveal_strlit("name");
    reveal_strlit("isolate");
    reveal_strlit("intercept");
    reveal_strlit("id");
    reveal_strlit("group");
    reveal_strlit("extra");
    assert("config"@[0] != "intercept"@[0]);
    assert("inject"@[2] != "intercept"@[2]);
    assert("inject"@[1] != "isolate"@[1]);
    assert("intercept"@[1] != "isolate"@[1]);
    assert("name"@[0] == 'n');
    assert("config"@[0] == 'c');
    assert("disabled"@[0] == 'd');
    assert("inject"@[0] == 'i');
    assert("isolate"@[0] == 'i');
    assert("intercept"@[0] == 'i');
    assert("id"@[0] == 'i');
    assert("group"@[0] == 'g');
    assert("extra"@[0] == 'e');
    assert("id"@.len() == 2 && "inject"@.len() == 6 && "isolate"@.len() == 7 && "intercept"@.len()
        == 9);
}

/// The keys of the changed fields are those of the fields in which the options differ, each once.
pub proof fn differences_are_listed(now: OptionsView, before: OptionsView)
    ensures
        ({
            let keys = changed_fields(now, before);
            &&& keys.contains("config"@) <==> !same_option(now.config, before.config)
            &&& keys.contains("disabled"@) <==> now.disabled != before.disabled
            &&& keys.contains("inject"@) <==> now.inject != before.inject
            &&& keys.contains("name"@) <==> now.name != before.name
            &&& keys.contains("isolate"@) <==> now.isolate_differs(before)
            &&& keys.contains("intercept"@) <==> !same_option(now.intercept, before.intercept)
            &&& keys.contains("id"@) <==> now.id != before.id
            &&& keys.contains("group"@) <==> now.group != before.group
            &&& keys.contains("extra"@) <==> !same_extra(now.extra, before.extra)
            &&& keys.no_duplicates()
        }),
{
    lemma_field_keys();
    let all = seq!["config"@, "disabled"@, "inject"@, "name"@, "isolate"@, "intercept"@, "id"@, "group"@, "extra"@];
    assert forall|i: int, j: int| 0 <= i < j < 9 implies all[i] != all[j] by {}
    assert(all[0] == "config"@ && all[1] == "disabled"@ && all[2] == "inject"@ && all[3] == "name"@
        && all[4] == "isolate"@ && all[5] == "intercept"@ && all[6] == "id"@ && all[7] == "group"@
        && all[8] == "extra"@);
    let none = Seq::<Seq<char>>::empty();
    let a = lemma_push_if(none, !same_option(now.config, before.config), all, 0);
    let b = lemma_push_if(a, now.disabled != before.disabled, all, 1);
    let c = lemma_push_if(b, now.inject != before.inject, all, 2);
    let d = lemma_push_if(c, now.name != before.name, all, 3);
    let e = lemma_push_if(d, now.isolate_differs(before), all, 4);
    let f = lemma_push_if(e, !same_option(now.intercept, before.intercept), all, 5);
    let g = lemma_push_if(f, now.id != before.id, all, 6);
    let h = lemma_push_if(g, now.group != before.group, all, 7);
    let i = lemma_push_if(h, !same_extra(now.extra, before.extra), all, 8);
}

/// One more key at the end, where the list holds earlier ones only.
proof fn lemma_push_if(
    list: Seq<Seq<char>>,
    changed: bool,
    all: Seq<Seq<char>>,
    at: int,
) -> (r: Seq<Seq<char>>)
    requires
        0 <= at < all.len(),
        forall|i: int, j: int| 0 <= i < j < all.len() ==> #[trigger] all[i] != #[trigger] all[j],
        list.no_duplicates(),
        forall|k: int| at <= k < all.len() ==> !list.contains(#[trigger] all[k]),
    ensures
        r == crate::options::push_if(list, changed, all[at]),
        r.no_duplicates(),
        r.contains(all[at]) <==> changed,
        forall|k: int| at < k < all.len() ==> !r.contains(#[trigger] all[k]),
        forall|k: int| 0 <= k < at ==> (r.contains(#[trigger] all[k]) <==> list.contains(all[k])),
{
    let r = crate::options::push_if(list, changed, all[at]);
    assert forall|k: int| 0 <= k < all.len() implies (r.contains(#[trigger] all[k]) <==> list.contains(
        all[k],
    ) || (changed && k == at)) by {
        vstd::seq_lib::lemma_seq_contains_after_push(list, all[at], all[k]);
        if k < at {
            assert(all[k] != all[at]);
        } else if at < k {
            assert(all[at] != all[k]);
        }
    }
    if changed {
        assert(!list.contains(all[at]));
    }
    r
}

/// What runs is reached by a change of the config, of being disabled, of the inject list, of the
/// name, of the isolate declarations or of the intercepts, and by no other.
pub proof fn changes_reach_what_runs(now: OptionsView, before: OptionsView)
    ensures
        any_reaches_fiber(changed_fields(now, before)) <==> {
            ||| !same_option(now.config, before.config)
            ||| now.disabled != before.disabled
            ||| now.inject != before.inject
            ||| now.name != before.name
            ||| now.isolate_differs(before)
            ||| !same_option(now.intercept, before.intercept)
        },
{
    differences_are_listed(now, before);
    lemma_field_keys();
    let all = seq!["config"@, "disabled"@, "inject"@, "name"@, "isolate"@, "intercept"@, "id"@, "group"@, "extra"@];
    assert forall|i: int, j: int| 0 <= i < j < 9 implies all[i] != all[j] by {}
    assert(all[0] != all[6] && all[0] != all[7] && all[0] != all[8]);
    assert(all[1] != all[6] && all[1] != all[7] && all[1] != all[8]);
    assert(all[2] != all[6] && all[2] != all[7] && all[2] != all[8]);
    assert(all[3] != all[6] && all[3] != all[7] && all[3] != all[8]);
    assert(all[4] != all[6] && all[4] != all[7] && all[4] != all[8]);
    assert(all[5] != all[6] && all[5] != all[7] && all[5] != all[8]);
    let keys = changed_fields(now, before);
    if any_reaches_fiber(keys) {
        let i = choose|i: int| 0 <= i < keys.len() && reaches_fiber(#[trigger] keys[i]);
        assert(keys.contains(keys[i]));
    }
    assert forall|key: Seq<char>| #[trigger] keys.contains(key) && reaches_fiber(
        key,
    ) implies any_reaches_fiber(keys) by {
        let i = keys.index_of(key);
        assert(reaches_fiber(keys[i]));
    }
}

/// An update stops an entry where its options then say that it is disabled, or, unless it is a
/// group, where an entry above it is. A stopped entry loses its fiber, which is to be disposed;
/// every other entry keeps its fiber. The key and what is below the entry stay.
pub proof fn updates_stop_the_disabled(
    e: EntryView,
    inherited: bool,
    update: PartialView,
    create: bool,
    clear: bool,
)
    ensures
        ({
            let now = options_after(e.options, update, create, clear);
            let stopped = now.disabled == Some(true) || (inherited && now.group != Some(true));
            let after = entry_after(e, inherited, update, create, clear);
            let plan = plan_of(e, inherited, update, create, clear);
            &&& after.options == now
            &&& stopped ==> after.fiber is None && plan == PlanView::Stop(e.fiber)
            &&& !stopped ==> after.fiber == e.fiber && !(plan is Stop)
            &&& after.key == e.key
            &&& after.subgroup == e.subgroup
            &&& after.init_task == e.init_task
        }),
{
}

/// An entry that is not stopped is rescoped where its isolate declarations or its intercepts
/// change. Where they do not, and it runs, it gets its config anew if the config, being disabled,
/// the inject list or the name changes. Else nothing follows.
pub proof fn updates_rescope_or_reconfigure(
    e: EntryView,
    inherited: bool,
    update: PartialView,
    create: bool,
    clear: bool,
)
    requires
        !(plan_of(e, inherited, update, create, clear) is Stop),
    ensures
        ({
            let before = e.options;
            let now = options_after(before, update, create, clear);
            let plan = plan_of(e, inherited, update, create, clear);
            let scope = now.isolate_differs(before) || !same_option(
                now.intercept,
                before.intercept,
            );
            let run = !same_option(now.config, before.config) || now.disabled != before.disabled
                || now.inject != before.inject || now.name != before.name;
            &&& scope <==> plan is Rescope
            &&& !scope && run && e.fiber is Some <==> plan is Reconfigure
            &&& plan is Reconfigure ==> Some(plan->Reconfigure_0) == e.fiber
            &&& plan is Rescope ==> plan->Rescope_0 == rescoped_names(now, before)
        }),
{
    let now = options_after(e.options, update, create, clear);
    changes_reach_what_runs(now, e.options);
}

/// The services that are rescoped are those whose declaration differs.
pub proof fn differing_services_are_rescoped(
    now: OptionsView,
    before: OptionsView,
    name: Seq<char>,
)
    ensures
        rescoped_names(now, before).contains(name) <==> lookup(now.isolates(), name) != lookup(
            before.isolates(),
            name,
        ),
{
    let differs = |name: Seq<char>|
        lookup(now.isolates(), name) != lookup(before.isolates(), name);
    let a = keys_of(now.isolates());
    let b = keys_of(before.isolates());
    let all = a + b;
    if all.filter(differs).contains(name) {
        let k = all.filter(differs).index_of(name);
        all.lemma_filter_pred(differs, k);
    }
    if differs(name) {
        lemma_place(now.isolates(), name);
        lemma_place(before.isolates(), name);
        let i = crate::dict::place(now.isolates(), name);
        let j = crate::dict::place(before.isolates(), name);
        if i < now.isolates().len() {
            assert(all[i] == name);
            all.lemma_filter_contains(differs, i);
        } else {
            assert(all[a.len() + j] == name);
            all.lemma_filter_contains(differs, a.len() + j);
        }
    }
}

/// An isolate declaration makes a label of the service: of the entry's own where it is set, of the
/// name given where one is, and none where it is unset. Labels stand in the order of declarations.
pub proof fn isolates_make_labels(isolates: Seq<(Seq<char>, IsolateView)>, id: Seq<char>)
    requires
        distinct(isolates),
    ensures
        forall|i: int|
            0 <= i < isolates.len() ==> match (#[trigger] isolates[i]).1 {
                IsolateView::Flag(true) => labels_of(isolates, id).contains(
                    (isolates[i].0, isolates[i].0 + seq!['#'] + id),
                ),
                IsolateView::Label(label) => labels_of(isolates, id).contains(
                    (isolates[i].0, isolates[i].0 + seq!['@'] + label),
                ),
                IsolateView::Flag(false) => forall|k: int|
                    0 <= k < labels_of(isolates, id).len() ==> (
                    #[trigger] labels_of(isolates, id)[k]).0 != isolates[i].0,
            },
        forall|k: int|
            0 <= k < labels_of(isolates, id).len() ==> exists|i: int|
                0 <= i < isolates.len() && (#[trigger] isolates[i]).0 == (
                #[trigger] labels_of(isolates, id)[k]).0,
    decreases isolates.len(),
{
    reveal_strlit("#");
    reveal_strlit("@");
    assert("#"@ =~= seq!['#']);
    assert("@"@ =~= seq!['@']);
    if isolates.len() > 0 {
        let front = isolates.drop_last();
        let last = isolates.last();
        let n: int = isolates.len() - 1;
        assert(distinct(front));
        isolates_make_labels(front, id);
        let rest = labels_of(front, id);
        let all = labels_of(isolates, id);
        assert forall|pair: (Seq<char>, Seq<char>)| #[trigger] rest.contains(
            pair,
        ) implies all.contains(pair) by {
            let k = rest.index_of(pair);
            assert(all[k] == pair);
        }
        if all.len() > rest.len() {
            assert(all.contains(all[all.len() - 1]));
        }
        assert forall|k: int| 0 <= k < all.len() implies exists|i: int|
            0 <= i < isolates.len() && (#[trigger] isolates[i]).0 == (#[trigger] all[k]).0 by {
            if k < rest.len() {
                assert(rest[k] == all[k]);
                let i = choose|i: int|
                    0 <= i < front.len() && (#[trigger] front[i]).0 == (rest[k]).0;
                assert(isolates[i].0 == all[k].0);
            } else {
                assert(isolates[n].0 == all[k].0);
            }
        }
        assert forall|i: int| 0 <= i < isolates.len() implies match (#[trigger] isolates[i]).1 {
            IsolateView::Flag(true) => all.contains((isolates[i].0, isolates[i].0 + seq!['#'] + id)),
            IsolateView::Label(label) => all.contains(
                (isolates[i].0, isolates[i].0 + seq!['@'] + label),
            ),
            IsolateView::Flag(false) => forall|k: int|
                0 <= k < all.len() ==> (#[trigger] all[k]).0 != isolates[i].0,
        } by {
            if i < n {
                assert(front[i] == isolates[i]);
                assert(isolates[i].0 != isolates[n].0);
                assert forall|k: int| 0 <= k < rest.len() implies #[trigger] all[k] == rest[k] by {}
            } else if isolates[i].1 == IsolateView::Flag(false) {
                assert forall|k: int| 0 <= k < all.len() implies (#[trigger] all[k]).0
                    != isolates[i].0 by {
                    assert(rest[k] == all[k]);
                    let j = choose|j: int|
                        0 <= j < front.len() && (#[trigger] front[j]).0 == (rest[k]).0;
                    assert(isolates[j].0 != isolates[n].0);
                }
            }
        }
    }
}

/// An intercept that is a mapping overrides the services that its keys name, with the last value
/// given for each; keys that are no text count for nothing. Any other intercept overrides nothing.
pub proof fn intercepts_override_by_name(pairs: Seq<(YamlView, YamlView)>, name: Seq<char>)
    ensures
        intercepts_of(Some(YamlView::Mapping(pairs))) == overrides_of(pairs),
        match lookup(overrides_of(pairs), name) {
            Some(value) => exists|i: int|
                {
                    &&& 0 <= i < pairs.len()
                    &&& untagged((#[trigger] pairs[i]).0) == YamlView::Text(name)
                    &&& pairs[i].1 == value
                    &&& forall|j: int|
                        i < j < pairs.len() ==> untagged((#[trigger] pairs[j]).0)
                            != YamlView::Text(name)
                },
            None => forall|i: int|
                0 <= i < pairs.len() ==> untagged((#[trigger] pairs[i]).0) != YamlView::Text(name),
        },
    decreases pairs.len(),
{
    if pairs.len() > 0 {
        let front = pairs.drop_last();
        let n: int = pairs.len() - 1;
        intercepts_override_by_name(front, name);
        let rest = overrides_of(front);
        if let YamlView::Text(key) = untagged(pairs.last().0) {
            crate::dict::lookup_after_assign(rest, key, pairs.last().1, name);
        }
        if untagged(pairs[n].0) == YamlView::Text(name) {
            assert(lookup(overrides_of(pairs), name) == Some(pairs[n].1));
        } else {
            assert(lookup(overrides_of(pairs), name) == lookup(rest, name));
            match lookup(rest, name) {
                Some(value) => {
                    let i = choose|i: int|
                        {
                            &&& 0 <= i < front.len()
                            &&& untagged((#[trigger] front[i]).0) == YamlView::Text(name)
                            &&& front[i].1 == value
                            &&& forall|j: int|
                                i < j < front.len() ==> untagged((#[trigger] front[j]).0)
                                    != YamlView::Text(name)
                        };
                    assert(untagged(pairs[i].0) == YamlView::Text(name));
                    assert forall|j: int| i < j < pairs.len() implies untagged(
                        (#[trigger] pairs[j]).0,
                    ) != YamlView::Text(name) by {
                        if j < n {
                            assert(front[j] == pairs[j]);
                        }
                    }
                },
                None => {
                    assert forall|i: int| 0 <= i < pairs.len() implies untagged(
                        (#[trigger] pairs[i]).0,
                    ) != YamlView::Text(name) by {
                        if i < n {
                            assert(front[i] == pairs[i]);
                        }
                    }
                },
            }
        }
    } else {
        lemma_place(overrides_of(pairs), name);
    }
}

/// An intercept that is no mapping overrides nothing.
pub proof fn other_intercepts_override_nothing(intercept: Option<YamlView>)
    requires
        intercept is None || !(intercept->0 is Mapping),
    ensures
        intercepts_of(intercept).len() == 0,
{
}

/// A task that is counted and settled, or settled and counted, leaves the counter as it was; one
/// more is one more as long as the counter can hold it.
pub proof fn tasks_settle(tasks: usize)
    ensures
        one_less(one_more(tasks)) == tasks,
        one_more(one_less(tasks)) == tasks,
        tasks < usize::MAX ==> one_more(tasks) == tasks + 1,
        tasks > 0 ==> one_less(tasks) == tasks - 1,
        counted(tasks, None) == tasks,
        forall|fiber: u64| counted(tasks, Some(fiber)) == one_more(tasks),
{
}

/// Options keep an id of their own; without one they get the one given, and keep the rest.
pub proof fn missing_ids_are_filled_in(options: OptionsView, id: Seq<char>)
    ensures
        options.id.len() > 0 ==> with_id(options, id) == options,
        options.id.len() == 0 ==> with_id(options, id).id == id && (OptionsView {
            id: options.id,
            ..with_id(options, id)
        }) == options,
{
}

/// A new entry stands at the position asked for, or at the end where the group is shorter. The
/// others keep their order. It has the key that is next, its options, an init under way, and
/// nothing else. Nothing outside the group changes.
pub proof fn new_entries_stand_where_asked(
    tree: TreeView,
    q: Seq<usize>,
    position: int,
    options: OptionsView,
)
    requires
        group_at(tree.root, q) is Some,
        position >= 0,
        tree.next_key < u64::MAX,
    ensures
        ({
            let g = group_at(tree.root, q)->0;
            let after = tree_with_new(tree, q, position, options);
            let now = group_at(after.root, q)->0;
            let at = if position <= g.len() {
                position
            } else {
                g.len() as int
            };
            &&& smaller(position, g.len() as int) == at
            &&& group_at(after.root, q) is Some
            &&& now.len() == g.len() + 1
            &&& forall|i: int| 0 <= i < at ==> #[trigger] now[i] == g[i]
            &&& forall|i: int| at <= i < g.len() ==> now[i + 1] == #[trigger] g[i]
            &&& now[at].key == tree.next_key
            &&& now[at].options == options
            &&& now[at].fiber is None
            &&& now[at].subgroup is None
            &&& now[at].init_task
            &&& after.next_key == tree.next_key + 1
            &&& after.tasks == tree.tasks
            &&& after == (TreeView { root: after.root, next_key: after.next_key, ..tree })
            &&& forall|p: Seq<usize>|
                #[trigger] has_entry(tree.root, p) && !(q.len() < p.len() && p.take(q.len() as int)
                    == q) ==> has_entry(after.root, p) && same_entry(
                    entry_at(after.root, p),
                    entry_at(tree.root, p),
                )
        }),
{
    let g = group_at(tree.root, q)->0;
    let after = tree_with_new(tree, q, position, options);
    let e = EntryView {
        init_task: true,
        ..crate::entry::fresh_entry(tree.next_key, options)
    };
    let now = g.insert(smaller(position, g.len() as int), e);
    lemma_get_set_group(tree.root, q, now);
    assert forall|p: Seq<usize>|
        #[trigger] has_entry(tree.root, p) && !(q.len() < p.len() && p.take(q.len() as int)
            == q) implies has_entry(after.root, p) && same_entry(
        entry_at(after.root, p),
        entry_at(tree.root, p),
    ) by {
        other_groups_stay(tree.root, q, now, p);
    }
}

/// Removing an entry takes it, and what is below it, out of its group; the others keep their order.
/// Its fiber, where it has one, is disposed as a counted task, before the write. Nothing outside the
/// group changes.
pub proof fn removal_takes_one_entry(tree: TreeView, p: Seq<usize>)
    requires
        has_entry(tree.root, p),
    ensures
        ({
            let q = p.drop_last();
            let g = group_at(tree.root, q)->0;
            let after = tree_without(tree, p);
            let now = group_at(after.root, q)->0;
            let fiber = entry_at(tree.root, p).fiber;
            &&& group_at(after.root, q) is Some
            &&& now.len() == g.len() - 1
            &&& forall|i: int| 0 <= i < p.last() ==> #[trigger] now[i] == g[i]
            &&& forall|i: int| p.last() < i < g.len() ==> now[i - 1] == #[trigger] g[i]
            &&& fiber is None ==> after.tasks == tree.tasks && disposal(fiber).len() == 0
            &&& fiber is Some ==> after.tasks == one_more(tree.tasks) && disposal(fiber) == seq![
                ActionView::Dispose(fiber->0),
            ]
            &&& after == (TreeView { root: after.root, tasks: after.tasks, ..tree })
            &&& forall|o: Seq<usize>|
                #[trigger] has_entry(tree.root, o) && !(q.len() < o.len() && o.take(q.len() as int)
                    == q) ==> has_entry(after.root, o) && same_entry(
                    entry_at(after.root, o),
                    entry_at(tree.root, o),
                )
        }),
{
    let q = p.drop_last();
    let g = group_at(tree.root, q)->0;
    let after = tree_without(tree, p);
    let now = g.remove(p.last() as int);
    lemma_get_set_group(tree.root, q, now);
    assert forall|o: Seq<usize>|
        #[trigger] has_entry(tree.root, o) && !(q.len() < o.len() && o.take(q.len() as int)
            == q) implies has_entry(after.root, o) && same_entry(
        entry_at(after.root, o),
        entry_at(tree.root, o),
    ) by {
        other_groups_stay(tree.root, q, now, o);
    }
}

/// An update of an entry changes that entry alone. It is initialized where it then has no fiber and
/// neither it nor, unless it is a group, an entry above it is disabled. What follows from the
/// update comes first. A disposed fiber is counted.
pub proof fn updates_change_one_entry(tree: TreeView, p: Seq<usize>, update: PartialView)
    requires
        has_entry(tree.root, p),
    ensures
        ({
            let before = entry_at(tree.root, p);
            let inherited = inherits_disabled(tree.root, p);
            let now = before.options.patched(update);
            let stopped = now.disabled == Some(true) || (inherited && now.group != Some(true));
            let starts = before.fiber is None && !stopped;
            let after = tree_updated(tree, p, update);
            let e = entry_at(after.root, p);
            let actions = update_actions(tree, p, update);
            let planned = plan_actions(before.key, plan_of(before, inherited, update, false, false));
            &&& has_entry(after.root, p)
            &&& e.options == now
            &&& e.key == before.key
            &&& e.subgroup == before.subgroup
            &&& e.fiber == (if stopped {
                None
            } else {
                before.fiber
            })
            &&& e.init_task == (before.init_task || starts)
            &&& starts ==> actions == planned + seq![ActionView::Init(before.key)]
            &&& !starts ==> actions == planned
            &&& stopped && before.fiber is Some ==> after.tasks == one_more(tree.tasks) && actions
                == seq![ActionView::Dispose(before.fiber->0)]
            &&& !(stopped && before.fiber is Some) ==> after.tasks == tree.tasks
            &&& after == (TreeView { root: after.root, tasks: after.tasks, ..tree })
        }),
        forall|o: Seq<usize>|
            #[trigger] has_entry(tree.root, o) && o != p ==> has_entry(
                tree_updated(tree, p, update).root,
                o,
            ) && same_entry(
                entry_at(tree_updated(tree, p, update).root, o),
                entry_at(tree.root, o),
            ),
{
    let q = p.drop_last();
    let g = group_at(tree.root, q)->0;
    let to = entry_updated(tree, p, update);
    let now = g.update(p.last() as int, to);
    let after = tree_updated(tree, p, update);
    lemma_get_set_group(tree.root, q, now);
    let before = entry_at(tree.root, p);
    let inherited = inherits_disabled(tree.root, p);
    let planned = plan_actions(before.key, plan_of(before, inherited, update, false, false));
    assert(planned.push(ActionView::Init(before.key)) =~= planned + seq![
        ActionView::Init(before.key),
    ]);
    assert forall|o: Seq<usize>| #[trigger] has_entry(tree.root, o) && o != p implies has_entry(
        after.root,
        o,
    ) && same_entry(entry_at(after.root, o), entry_at(tree.root, o)) by {
        crate::forest::other_entries_stay(tree.root, p, to, o);
    }
}

/// A parent id leads to the subgroup of the entry that it leads to; without an id the root group is
/// meant.
pub proof fn parents_are_groups(es: Seq<EntryView>, parent: Option<Seq<char>>)
    ensures
        parent is None ==> group_place_of(es, parent) == Some(Seq::<usize>::empty()),
        parent matches Some(id) ==> {
            let p = place_of(es, id);
            &&& p is Some && entry_at(es, p->0).subgroup is Some ==> group_place_of(es, parent) == p
            &&& p is None || entry_at(es, p->0).subgroup is None ==> group_place_of(
                es,
                parent,
            ) is None
        },
{
}

/// A name with the prefix `cordis:` means the builtin of the rest of the name and nothing else. Any
/// other name means the plugin registered under it, before a builtin.
pub proof fn names_mean_plugins_before_builtins(tree: TreeView, name: Seq<char>)
    ensures
        ({
            let prefix = seq!['c', 'o', 'r', 'd', 'i', 's', ':'];
            if name.len() >= 7 && name.take(7) == prefix {
                match lookup(tree.builtins, name.skip(7)) {
                    Some(plugin) => plugin_named(tree, name) == Ok::<_, Seq<char>>(plugin),
                    None => plugin_named(tree, name) is Err && plugin_named(tree, name)->Err_0
                        == "cannot resolve builtin \""@ + name + "\""@,
                }
            } else if lookup(tree.plugins, name) is Some {
                plugin_named(tree, name) == Ok::<_, Seq<char>>(lookup(tree.plugins, name)->0)
            } else if lookup(tree.builtins, name) is Some {
                plugin_named(tree, name) == Ok::<_, Seq<char>>(lookup(tree.builtins, name)->0)
            } else {
                plugin_named(tree, name) is Err && plugin_named(tree, name)->Err_0
                    == "cannot resolve plugin \""@ + name + "\""@
            }
        }),
{
    reveal_strlit("cordis:");
    assert("cordis:"@ =~= seq!['c', 'o', 'r', 'd', 'i', 's', ':']);
}

/// Isolate declarations differ where one side has none at all, or a service is declared otherwise
/// or on one side only; further keys where a value is not the same.
pub proof fn differences_are_found_by_key(now: OptionsView, before: OptionsView)
    ensures
        now.isolate_differs(before) <==> {
            ||| now.isolate is Some && before.isolate is None
            ||| now.isolate is None && before.isolate is Some
            ||| now.isolate is Some && before.isolate is Some && exists|name: Seq<char>| #[trigger]
                lookup(now.isolate->0, name) != lookup(before.isolate->0, name)
        },
        same_extra(now.extra, before.extra) <==> forall|key: Seq<char>|
            same_option(#[trigger] lookup(now.extra, key), lookup(before.extra, key)),
        now.isolate is Some ==> now.isolates() == now.isolate->0,
        now.isolate is None ==> now.isolates().len() == 0,
{
}

/// The rescoped services are listed in the order of the declarations: those of the options as they
/// are now, then those as they were before.
pub proof fn rescoped_services_are_listed(now: OptionsView, before: OptionsView)
    ensures
        rescoped_names(now, before) == now.isolates().map_values(
            |declared: (Seq<char>, IsolateView)| declared.0,
        ).filter(
            |name: Seq<char>| lookup(now.isolates(), name) != lookup(before.isolates(), name),
        ) + before.isolates().map_values(
            |declared: (Seq<char>, IsolateView)| declared.0,
        ).filter(
            |name: Seq<char>| lookup(now.isolates(), name) != lookup(before.isolates(), name),
        ),
{
    let name_of = |declared: (Seq<char>, IsolateView)| declared.0;
    let differs = |name: Seq<char>|
        lookup(now.isolates(), name) != lookup(before.isolates(), name);
    assert(keys_of(now.isolates()) =~= now.isolates().map_values(name_of));
    assert(keys_of(before.isolates()) =~= before.isolates().map_values(name_of));
    crate::entry::lemma_filter_concat(
        keys_of(now.isolates()),
        keys_of(before.isolates()),
        differs,
    );
}

/// The labels stand in the order of the declarations that make one.
pub proof fn labels_stand_in_order(isolates: Seq<(Seq<char>, IsolateView)>, id: Seq<char>)
    ensures
        labels_of(isolates, id) == isolates.filter(
            |declared: (Seq<char>, IsolateView)| declared.1 != IsolateView::Flag(false),
        ).map_values(
            |declared: (Seq<char>, IsolateView)|
                (
                    declared.0,
                    match declared.1 {
                        IsolateView::Flag(_) => declared.0 + seq!['#'] + id,
                        IsolateView::Label(label) => declared.0 + seq!['@'] + label,
                    },
                ),
        ),
    decreases isolates.len(),
{
    reveal(Seq::filter);
    reveal_strlit("#");
    reveal_strlit("@");
    assert("#"@ =~= seq!['#']);
    assert("@"@ =~= seq!['@']);
    let makes = |declared: (Seq<char>, IsolateView)| declared.1 != IsolateView::Flag(false);
    let label = |declared: (Seq<char>, IsolateView)|
        (
            declared.0,
            match declared.1 {
                IsolateView::Flag(_) => declared.0 + seq!['#'] + id,
                IsolateView::Label(label) => declared.0 + seq!['@'] + label,
            },
        );
    if isolates.len() > 0 {
        labels_stand_in_order(isolates.drop_last(), id);
        let rest = isolates.drop_last().filter(makes);
        assert(rest.push(isolates.last()).map_values(label) =~= rest.map_values(label).push(
            label(isolates.last()),
        ));
    }
    assert(labels_of(isolates, id) =~= isolates.filter(makes).map_values(label));
}

} // verus!
