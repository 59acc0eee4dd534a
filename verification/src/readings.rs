//! What a reading does to the entries of a group, and what it asks of the host.

use crate::changes::{plan_actions, ActionView};
use crate::entry::{lemma_filter_concat, must_stop, PlanView};
use crate::forest::{
    entry_at, group_at, has_entry, lemma_get_set_group, other_groups_stay, same_entry, EntryView,
};
use crate::options::OptionsView;
use crate::reconcile::{
    lemma_created_len, lemma_matching, lemma_updated_len, matching, speaks_of, tree_read, Reading,
};
use crate::tree::TreeView;
use vstd::prelude::*;

verus! {

/// Options with an id speak of the entries with that id; those without one of the entries with
/// their name that are groups where they are.
pub proof fn options_speak_by_id_or_name(options: OptionsView, e: EntryView)
    ensures
        options.id.len() > 0 ==> (speaks_of(options, e) <==> options.id == e.options.id),
        options.id.len() == 0 ==> (speaks_of(options, e) <==> options.name == e.options.name
            && options.group == e.options.group),
{
}

/// Whether the entry at `j` is the first that the options speak of.
pub open spec fn first_spoken_of(group: Seq<EntryView>, options: OptionsView, j: int) -> bool {
    &&& 0 <= j < group.len()
    &&& speaks_of(options, group[j])
    &&& forall|k: int| 0 <= k < j ==> !speaks_of(options, #[trigger] group[k])
}

/// Options update the first entry that they speak of, and none only where they speak of none.
pub proof fn options_match_the_first(group: Seq<EntryView>, options: OptionsView)
    ensures
        0 <= matching(group, options) <= group.len(),
        matching(group, options) < group.len() ==> first_spoken_of(
            group,
            options,
            matching(group, options),
        ),
        matching(group, options) == group.len() ==> forall|k: int|
            0 <= k < group.len() ==> !speaks_of(options, #[trigger] group[k]),
{
    lemma_matching(group, options);
}

/// Options are looked up as they are, but for those of a group without an id: these get the id
/// that is theirs in the list of unused ones.
pub proof fn groups_are_looked_up_by_id(reading: Reading, i: int)
    ensures
        reading.configs[i].group != Some(true) || reading.configs[i].id.len() > 0
            ==> reading.wanted(i) == reading.configs[i],
        reading.configs[i].group == Some(true) && reading.configs[i].id.len() == 0
            ==> reading.wanted(i) == (OptionsView {
            id: reading.fresh[i],
            ..reading.configs[i]
        }),
        reading.target(i) == matching(reading.group, reading.wanted(i)),
{
}

/// Whether some options update the entry at `j`.
pub open spec fn stays(reading: Reading, j: int) -> bool {
    exists|i: int|
        0 <= i < reading.configs.len() && first_spoken_of(
            reading.group,
            #[trigger] reading.wanted(i),
            j,
        )
}

/// Whether the options at `i` speak of no entry.
pub open spec fn is_new(reading: Reading, i: int) -> bool {
    forall|k: int|
        0 <= k < reading.group.len() ==> !speaks_of(
            reading.wanted(i),
            #[trigger] reading.group[k],
        )
}

proof fn lemma_stays(reading: Reading, j: int)
    requires
        0 <= j < reading.group.len(),
    ensures
        reading.keeps(j) <==> stays(reading, j),
{
    if reading.keeps(j) {
        let i = choose|i: int| 0 <= i < reading.configs.len() && #[trigger] reading.target(i) == j;
        lemma_matching(reading.group, reading.wanted(i));
        assert(first_spoken_of(reading.group, reading.wanted(i), j));
    }
    if stays(reading, j) {
        let i = choose|i: int|
            0 <= i < reading.configs.len() && first_spoken_of(
                reading.group,
                #[trigger] reading.wanted(i),
                j,
            );
        lemma_matching(reading.group, reading.wanted(i));
        let t = matching(reading.group, reading.wanted(i));
        if t < j {
            assert(!speaks_of(reading.wanted(i), reading.group[t]));
        }
        assert(reading.target(i) == j);
    }
}

proof fn lemma_new(reading: Reading, i: int)
    ensures
        reading.hits(i) <==> !is_new(reading, i),
{
    lemma_matching(reading.group, reading.wanted(i));
    if reading.hits(i) {
        assert(speaks_of(reading.wanted(i), reading.group[reading.target(i)]));
    }
}

/// The numbers below `n`, in order.
pub open spec fn numbers(n: nat) -> Seq<int> {
    Seq::new(n, |i: int| i)
}

/// After a reading the group holds the entries that options spoke of, in the order that they had,
/// then a new entry for each of the options that spoke of none, in the order of the options. New
/// entries have the keys that follow, the options with their own id or the unused one, and nothing
/// else.
pub proof fn readings_lay_out_the_group(reading: Reading)
    requires
        reading.is_valid(),
    ensures
        ({
            let old = numbers(reading.group.len()).filter(|j: int| stays(reading, j));
            let new = numbers(reading.configs.len()).filter(|i: int| is_new(reading, i));
            let after = reading.result();
            &&& after.len() == old.len() + new.len()
            &&& forall|k: int|
                0 <= k < old.len() ==> (#[trigger] after[k]).key == reading.group[old[k]].key
                    && after[k].subgroup == reading.group[old[k]].subgroup && after[k].init_task
                    == reading.group[old[k]].init_task
            &&& forall|k: int|
                0 <= k < new.len() ==> {
                    let e = #[trigger] after[old.len() + k];
                    let options = reading.configs[new[k]];
                    &&& e.key == reading.next_key + k
                    &&& e.options == (OptionsView { id: e.options.id, ..options })
                    &&& e.options.id == (if options.id.len() > 0 {
                        options.id
                    } else {
                        reading.fresh[new[k]]
                    })
                    &&& e.fiber is None
                    &&& e.subgroup is None
                    &&& !e.init_task
                }
        }),
{
    let m = reading.group.len();
    let n = reading.configs.len();
    let old = numbers(m).filter(|j: int| stays(reading, j));
    let new = numbers(n).filter(|i: int| is_new(reading, i));
    let updated = reading.updated(n as int);
    lemma_updated_len(reading, n as int);
    lemma_kept_is(reading, updated, m);
    lemma_created_is(reading, n);
    lemma_updated_tasks(reading, n as int);
    let after = reading.result();
    assert forall|k: int| 0 <= k < old.len() implies (#[trigger] after[k]).key
        == reading.group[old[k]].key && after[k].subgroup == reading.group[old[k]].subgroup
        && after[k].init_task == reading.group[old[k]].init_task by {
        lemma_number(m, |j: int| stays(reading, j), k);
        assert(after[k] == updated[old[k]]);
    }
    assert forall|k: int| 0 <= k < new.len() implies after[old.len() + k] == #[trigger] reading.created(
        n as int,
    )[k] by {}
}

/// What a filter leaves of the numbers below `n` is below `n`.
proof fn lemma_number(n: nat, keep: spec_fn(int) -> bool, k: int)
    requires
        0 <= k < numbers(n).filter(keep).len(),
    ensures
        0 <= numbers(n).filter(keep)[k] < n,
        keep(numbers(n).filter(keep)[k]),
{
    let all = numbers(n).filter(keep);
    numbers(n).lemma_filter_pred(keep, k);
    assert(all.contains(all[k]));
    numbers(n).lemma_filter_contains_rev(keep, all[k]);
}

proof fn lemma_number_kept(n: nat, keep: spec_fn(int) -> bool, i: int)
    requires
        0 <= i < n,
        keep(i),
    ensures
        numbers(n).filter(keep).contains(i),
{
    assert(numbers(n)[i] == i);
    numbers(n).lemma_filter_contains(keep, i);
}

proof fn lemma_kept_is(reading: Reading, es: Seq<EntryView>, n: nat)
    requires
        n <= reading.group.len(),
        n <= es.len(),
    ensures
        reading.kept(es, n as int) == numbers(n).filter(|j: int| stays(reading, j)).map_values(
            |j: int| es[j],
        ),
    decreases n,
{
    reveal(Seq::filter);
    let keep = |j: int| stays(reading, j);
    let at = |j: int| es[j];
    if n > 0 {
        let before = (n - 1) as nat;
        lemma_kept_is(reading, es, before);
        lemma_stays(reading, n - 1);
        assert(numbers(n).drop_last() =~= numbers(before));
        assert(numbers(n).last() == n - 1);
        let rest = numbers(before).filter(keep);
        assert(rest.push(n - 1).map_values(at) =~= rest.map_values(at).push(es[n - 1]));
    }
    assert(reading.kept(es, n as int) =~= numbers(n).filter(keep).map_values(at));
}

proof fn lemma_created_is(reading: Reading, n: nat)
    requires
        reading.is_valid(),
        n <= reading.configs.len(),
    ensures
        ({
            let new = numbers(n).filter(|i: int| is_new(reading, i));
            let made = reading.created(n as int);
            &&& made.len() == new.len()
            &&& forall|k: int|
                0 <= k < new.len() ==> {
                    let e = #[trigger] made[k];
                    let options = reading.configs[new[k]];
                    &&& e.key == reading.next_key + k
                    &&& e.options == (OptionsView { id: e.options.id, ..options })
                    &&& e.options.id == (if options.id.len() > 0 {
                        options.id
                    } else {
                        reading.fresh[new[k]]
                    })
                    &&& e.fiber is None
                    &&& e.subgroup is None
                    &&& !e.init_task
                }
        }),
    decreases n,
{
    reveal(Seq::filter);
    if n > 0 {
        let before = (n - 1) as nat;
        lemma_created_is(reading, before);
        lemma_new(reading, n - 1);
        lemma_created_len(reading, n - 1);
        assert(numbers(n).drop_last() =~= numbers(before));
        assert(numbers(n).last() == n - 1);
    }
}

proof fn lemma_updated_tasks(reading: Reading, n: int)
    ensures
        forall|j: int|
            0 <= j < reading.group.len() ==> (#[trigger] reading.updated(n)[j]).init_task
                == reading.group[j].init_task,
    decreases n,
{
    if n > 0 {
        lemma_updated_tasks(reading, n - 1);
        lemma_updated_len(reading, n - 1);
        lemma_matching(reading.group, reading.wanted(n - 1));
    }
}

/// The entries of the group have different keys, all given out before the next one.
pub open spec fn keys_apart(reading: Reading) -> bool {
    &&& forall|j: int, k: int|
        0 <= j < reading.group.len() && 0 <= k < reading.group.len() && j != k ==> (
        #[trigger] reading.group[j]).key != (#[trigger] reading.group[k]).key
    &&& forall|j: int|
        0 <= j < reading.group.len() ==> (#[trigger] reading.group[j]).key < reading.next_key
}

/// An entry that some options speak of stays under its key; one that none speaks of is gone.
pub proof fn readings_remove_the_unspoken(reading: Reading, j: int)
    requires
        reading.is_valid(),
        keys_apart(reading),
        0 <= j < reading.group.len(),
    ensures
        stays(reading, j) <==> exists|k: int|
            0 <= k < reading.result().len() && (#[trigger] reading.result()[k]).key
                == reading.group[j].key,
{
    let m = reading.group.len();
    let keep = |j: int| stays(reading, j);
    let old = numbers(m).filter(keep);
    let after = reading.result();
    readings_lay_out_the_group(reading);
    if stays(reading, j) {
        lemma_number_kept(m, keep, j);
        let k = choose|k: int| 0 <= k < old.len() && old[k] == j;
        assert(after[k].key == reading.group[j].key);
    }
    if exists|k: int| 0 <= k < after.len() && (#[trigger] after[k]).key == reading.group[j].key {
        let k = choose|k: int|
            0 <= k < after.len() && (#[trigger] after[k]).key == reading.group[j].key;
        if k < old.len() {
            lemma_number(m, keep, k);
            assert(reading.group[old[k]].key == reading.group[j].key);
            assert(old[k] == j);
        } else {
            assert(after[old.len() + (k - old.len())].key == reading.next_key + (k - old.len()));
        }
    }
}

proof fn lemma_fiber_kept(reading: Reading, n: int, j: int)
    requires
        0 <= j < reading.group.len(),
    ensures
        reading.updated(n)[j].fiber is Some ==> reading.updated(n)[j].fiber
            == reading.group[j].fiber,
        reading.group[j].fiber is Some ==> reading.updated(n)[j].fiber is Some
            || reading.plan_actions(n).contains(ActionView::Dispose(reading.group[j].fiber->0)),
    decreases n,
{
    if n > 0 {
        lemma_fiber_kept(reading, n - 1, j);
        lemma_updated_len(reading, n - 1);
        lemma_matching(reading.group, reading.wanted(n - 1));
        if reading.group[j].fiber is Some {
            let action = ActionView::Dispose(reading.group[j].fiber->0);
            let before = reading.plan_actions(n - 1);
            let now = reading.plan_actions(n);
            if before.contains(action) {
                let i = before.index_of(action);
                assert(now[i] == action);
            } else if reading.updated(n)[j].fiber is None {
                assert(reading.target(n - 1) == j);
                assert(reading.plan(n - 1) == PlanView::Stop(reading.group[j].fiber));
                assert(now[before.len() as int] == action);
            }
        }
    }
}

proof fn lemma_removed(reading: Reading, n: int, j: int)
    requires
        0 <= j < n <= reading.group.len(),
        !reading.keeps(j),
        reading.group[j].fiber is Some,
    ensures
        reading.removal_actions(n).contains(ActionView::Dispose(reading.group[j].fiber->0)),
    decreases n,
{
    let action = ActionView::Dispose(reading.group[j].fiber->0);
    let now = reading.removal_actions(n);
    if j == n - 1 {
        assert(now[now.len() - 1] == action);
    } else {
        lemma_removed(reading, n - 1, j);
        let before = reading.removal_actions(n - 1);
        let i = before.index_of(action);
        assert(now[i] == action);
    }
}

/// No fiber is forgotten: that of an entry of the group is afterwards the fiber of the entry with
/// the same key, or it is disposed. That of an entry that no options speak of is disposed, whatever
/// the entry is.
pub proof fn readings_forget_no_fiber(reading: Reading, j: int)
    requires
        0 <= j < reading.group.len(),
        reading.group[j].fiber is Some,
    ensures
        !stays(reading, j) ==> reading.actions().contains(
            ActionView::Dispose(reading.group[j].fiber->0),
        ),
        reading.actions().contains(ActionView::Dispose(reading.group[j].fiber->0)) || exists|k: int|
            0 <= k < reading.result().len() && (#[trigger] reading.result()[k]).key
                == reading.group[j].key && reading.result()[k].fiber == reading.group[j].fiber,
{
    let n = reading.configs.len() as int;
    let m = reading.group.len();
    let action = ActionView::Dispose(reading.group[j].fiber->0);
    let attached = reading.attach_actions(n);
    let planned = reading.plan_actions(n);
    let removed = reading.removal_actions(m as int);
    let all = reading.actions();
    let keep = |j: int| stays(reading, j);
    lemma_stays(reading, j);
    if !stays(reading, j) {
        lemma_removed(reading, m as int, j);
        let i = removed.index_of(action);
        assert(all[attached.len() + planned.len() + i] == action);
    } else {
        lemma_fiber_kept(reading, n, j);
        if planned.contains(action) {
            let i = planned.index_of(action);
            assert(all[attached.len() + i] == action);
        } else {
            let updated = reading.updated(n);
            lemma_updated_len(reading, n);
            lemma_kept_is(reading, updated, m);
            lemma_number_kept(m, keep, j);
            let old = numbers(m).filter(keep);
            let k = old.index_of(j);
            assert(reading.result()[k] == updated[j]);
        }
    }
}

proof fn lemma_planned_disposal(reading: Reading, n: int, fiber: u64)
    requires
        0 <= n <= reading.configs.len(),
        reading.plan_actions(n).contains(ActionView::Dispose(fiber)),
    ensures
        exists|j: int|
            0 <= j < reading.group.len() && reading.keeps(j) && (
            #[trigger] reading.group[j]).fiber == Some(fiber) && reading.updated(n)[j].fiber is None,
    decreases n,
{
    let action = ActionView::Dispose(fiber);
    if n > 0 {
        let before = reading.plan_actions(n - 1);
        let now = reading.plan_actions(n);
        let i = now.index_of(action);
        lemma_updated_len(reading, n - 1);
        lemma_matching(reading.group, reading.wanted(n - 1));
        if i < before.len() {
            assert(before[i] == action);
            lemma_planned_disposal(reading, n - 1, fiber);
            let j = choose|j: int|
                0 <= j < reading.group.len() && reading.keeps(j) && (
                #[trigger] reading.group[j]).fiber == Some(fiber) && reading.updated(
                    n - 1,
                )[j].fiber is None;
            assert(reading.updated(n)[j].fiber is None);
            assert(reading.group[j].fiber == Some(fiber));
        } else {
            let t = reading.target(n - 1);
            let more = plan_actions(reading.group[t].key, reading.plan(n - 1));
            assert(now[i] == more[i - before.len()]);
            lemma_fiber_kept(reading, n - 1, t);
            assert(reading.keeps(t));
            assert(reading.plan(n - 1) == PlanView::Stop(Some(fiber)));
            assert(reading.group[t].fiber == Some(fiber));
        }
    }
}

proof fn lemma_removal_disposal(reading: Reading, n: int, action: ActionView)
    requires
        0 <= n <= reading.group.len(),
        reading.removal_actions(n).contains(action),
    ensures
        action is Dispose,
        exists|j: int|
            0 <= j < n && !reading.keeps(j) && (#[trigger] reading.group[j]).fiber == Some(
                action->Dispose_0,
            ),
    decreases n,
{
    if n > 0 {
        let before = reading.removal_actions(n - 1);
        let now = reading.removal_actions(n);
        let i = now.index_of(action);
        if i < before.len() {
            assert(before[i] == action);
            lemma_removal_disposal(reading, n - 1, action);
            let j = choose|j: int|
                0 <= j < n - 1 && !reading.keeps(j) && (#[trigger] reading.group[j]).fiber
                    == Some(action->Dispose_0);
            assert(reading.group[j].fiber == Some(action->Dispose_0));
        } else {
            assert(reading.group[n - 1].fiber == Some(action->Dispose_0));
        }
    }
}

/// What kinds of actions the parts of a reading ask for.
proof fn lemma_kinds(reading: Reading, n: int)
    requires
        0 <= n <= reading.configs.len(),
    ensures
        forall|i: int|
            0 <= i < reading.plan_actions(n).len() ==> {
                ||| (#[trigger] reading.plan_actions(n)[i]) is Dispose
                ||| reading.plan_actions(n)[i] is Rescope
                ||| reading.plan_actions(n)[i] is Reconfigure
            },
        forall|i: int|
            0 <= i < reading.start_actions(n).len() ==> (
            #[trigger] reading.start_actions(n)[i]) is Start,
    decreases n,
{
    if n > 0 {
        lemma_kinds(reading, n - 1);
    }
}

/// Where the action of a reading comes from.
proof fn lemma_part(reading: Reading, action: ActionView)
    requires
        reading.actions().contains(action),
    ensures
        ({
            let n = reading.configs.len() as int;
            ||| action is Attach && reading.attach_actions(n).contains(action)
            ||| (action is Dispose || action is Rescope || action is Reconfigure)
                && reading.plan_actions(n).contains(action)
            ||| action is Dispose && reading.removal_actions(reading.group.len() as int).contains(
                action,
            )
            ||| action is Start && reading.start_actions(n).contains(action)
        }),
{
    let n = reading.configs.len() as int;
    let m = reading.group.len() as int;
    let attached = reading.attach_actions(n);
    let planned = reading.plan_actions(n);
    let removed = reading.removal_actions(m);
    let started = reading.start_actions(n);
    let all = reading.actions();
    lemma_kinds(reading, n);
    let i = all.index_of(action);
    let p = attached.len() as int;
    let r = p + planned.len();
    let s = r + removed.len();
    if i < p {
        assert(attached[i] == action);
    } else if i < r {
        assert(planned[i - p] == action);
    } else if i < s {
        assert(removed[i - r] == action);
        lemma_removal_disposal(reading, m, action);
    } else {
        assert(started[i - s] == action);
    }
}

/// A reading disposes no other fibers than those of entries of the group that are gone afterwards,
/// or that have no fiber any more.
pub proof fn readings_dispose_nothing_else(reading: Reading, fiber: u64)
    requires
        reading.is_valid(),
        keys_apart(reading),
        reading.actions().contains(ActionView::Dispose(fiber)),
    ensures
        exists|j: int|
            {
                &&& 0 <= j < reading.group.len()
                &&& (#[trigger] reading.group[j]).fiber == Some(fiber)
                &&& forall|k: int|
                    0 <= k < reading.result().len() && (#[trigger] reading.result()[k]).key
                        == reading.group[j].key ==> reading.result()[k].fiber is None
            },
{
    let n = reading.configs.len() as int;
    let m = reading.group.len();
    let action = ActionView::Dispose(fiber);
    let updated = reading.updated(n);
    let after = reading.result();
    let keep = |j: int| stays(reading, j);
    let old = numbers(m).filter(keep);
    lemma_part(reading, action);
    lemma_updated_len(reading, n);
    lemma_kept_is(reading, updated, m);
    readings_lay_out_the_group(reading);
    let j = if reading.plan_actions(n).contains(action) {
        lemma_planned_disposal(reading, n, fiber);
        choose|j: int|
            0 <= j < reading.group.len() && reading.keeps(j) && (
            #[trigger] reading.group[j]).fiber == Some(fiber) && reading.updated(n)[j].fiber is None
    } else {
        lemma_removal_disposal(reading, m as int, action);
        choose|j: int|
            0 <= j < m && !reading.keeps(j) && (#[trigger] reading.group[j]).fiber == Some(fiber)
    };
    lemma_stays(reading, j);
    assert forall|k: int|
        0 <= k < after.len() && (#[trigger] after[k]).key
            == reading.group[j].key implies after[k].fiber is None by {
        if k < old.len() {
            lemma_number(m, keep, k);
            assert(after[k] == updated[old[k]]);
            assert(reading.group[old[k]].key == reading.group[j].key);
            assert(old[k] == j);
        } else {
            assert(after[old.len() + (k - old.len())].fiber is None);
        }
    }
    assert(reading.group[j].fiber == Some(fiber));
}

/// The number of disposals in a list of actions.
pub open spec fn disposals(actions: Seq<ActionView>) -> nat {
    actions.filter(|a: ActionView| a is Dispose).len()
}

proof fn lemma_disposals_concat(a: Seq<ActionView>, b: Seq<ActionView>)
    ensures
        disposals(a + b) == disposals(a) + disposals(b),
{
    lemma_filter_concat(a, b, |a: ActionView| a is Dispose);
}

proof fn lemma_no_disposals(a: Seq<ActionView>)
    requires
        forall|i: int| 0 <= i < a.len() ==> !((#[trigger] a[i]) is Dispose),
    ensures
        disposals(a) == 0,
    decreases a.len(),
{
    reveal(Seq::filter);
    if a.len() > 0 {
        let front = a.drop_last();
        assert forall|i: int| 0 <= i < front.len() implies !((#[trigger] front[i]) is Dispose) by {
            assert(front[i] == a[i]);
        }
        lemma_no_disposals(front);
        assert(!(a[a.len() - 1] is Dispose));
    }
}

proof fn lemma_one_disposal(action: ActionView)
    ensures
        disposals(seq![action]) == (if action is Dispose {
            1nat
        } else {
            0
        }),
{
    reveal(Seq::filter);
    let one = seq![action];
    assert(one.drop_last() =~= Seq::<ActionView>::empty());
    assert(Seq::<ActionView>::empty().filter(|a: ActionView| a is Dispose).len() == 0);
    assert(one.last() == action);
}

proof fn lemma_planned_tasks(reading: Reading, tasks: usize, n: int)
    requires
        tasks + disposals(reading.plan_actions(n)) <= usize::MAX,
    ensures
        reading.planned_tasks(tasks, n) == tasks + disposals(reading.plan_actions(n)),
    decreases n,
{
    if n > 0 {
        let more = plan_actions(reading.group[reading.target(n - 1)].key, reading.plan(n - 1));
        if reading.hits(n - 1) {
            lemma_disposals_concat(reading.plan_actions(n - 1), more);
            match reading.plan(n - 1) {
                PlanView::Stop(Some(fiber)) => {
                    lemma_one_disposal(ActionView::Dispose(fiber));
                },
                _ => {
                    lemma_no_disposals(more);
                },
            }
        }
        lemma_planned_tasks(reading, tasks, n - 1);
    } else {
        lemma_no_disposals(reading.plan_actions(n));
    }
}

proof fn lemma_removed_tasks(reading: Reading, tasks: usize, n: int)
    requires
        tasks + disposals(reading.removal_actions(n)) <= usize::MAX,
    ensures
        reading.removed_tasks(tasks, n) == tasks + disposals(reading.removal_actions(n)),
    decreases n,
{
    if n > 0 {
        let before = reading.removal_actions(n - 1);
        if !reading.keeps(n - 1) && reading.group[n - 1].fiber is Some {
            let action = ActionView::Dispose(reading.group[n - 1].fiber->0);
            assert(before.push(action) =~= before + seq![action]);
            lemma_disposals_concat(before, seq![action]);
            lemma_one_disposal(action);
        }
        lemma_removed_tasks(reading, tasks, n - 1);
    } else {
        lemma_no_disposals(reading.removal_actions(n));
    }
}

/// Every disposal that a reading asks for is counted as a task, and nothing else is.
pub proof fn readings_count_disposals(tree: TreeView, q: Seq<usize>, reading: Reading)
    requires
        tree.tasks + disposals(reading.actions()) <= usize::MAX,
    ensures
        tree_read(tree, q, reading).tasks == tree.tasks + disposals(reading.actions()),
{
    let n = reading.configs.len() as int;
    let m = reading.group.len() as int;
    let attached = reading.attach_actions(n);
    let planned = reading.plan_actions(n);
    let removed = reading.removal_actions(m);
    let started = reading.start_actions(n);
    lemma_kinds(reading, n);
    lemma_no_disposals(attached);
    lemma_no_disposals(started);
    lemma_disposals_concat(attached, planned);
    lemma_disposals_concat(attached + planned, removed);
    lemma_disposals_concat(attached + planned + removed, started);
    lemma_planned_tasks(reading, tree.tasks, n);
    lemma_removed_tasks(reading, reading.planned_tasks(tree.tasks, n), m);
}

/// A reading asks for actions in this order: it attaches the new entries, in the order of their
/// keys, then changes and disposes, then starts.
pub proof fn readings_act_in_order(reading: Reading)
    requires
        reading.is_valid(),
    ensures
        ({
            let all = reading.actions();
            let made = numbers(reading.configs.len()).filter(|i: int| is_new(reading, i)).len();
            &&& made <= all.len()
            &&& forall|i: int|
                0 <= i < made ==> #[trigger] all[i] == ActionView::Attach(
                    (reading.next_key + i) as u64,
                )
            &&& forall|i: int|
                made <= i < all.len() ==> (#[trigger] all[i]) is Dispose || all[i] is Rescope
                    || all[i] is Reconfigure || all[i] is Start
            &&& forall|i: int, k: int|
                0 <= i < k < all.len() && (#[trigger] all[i]) is Start ==> (
                #[trigger] all[k]) is Start
        }),
{
    let n = reading.configs.len() as int;
    let m = reading.group.len() as int;
    let attached = reading.attach_actions(n);
    let planned = reading.plan_actions(n);
    let removed = reading.removal_actions(m);
    let started = reading.start_actions(n);
    let all = reading.actions();
    let made = numbers(reading.configs.len()).filter(|i: int| is_new(reading, i)).len();
    lemma_created_is(reading, reading.configs.len());
    assert forall|i: int| 0 <= i < made implies #[trigger] all[i] == ActionView::Attach(
        (reading.next_key + i) as u64,
    ) by {
        assert(reading.created(n)[i].key == reading.next_key + i);
        assert(attached[i] == ActionView::Attach(reading.created(n)[i].key));
    }
    lemma_kinds(reading, n);
    let s = attached.len() + planned.len() + removed.len();
    assert forall|i: int| made <= i < s implies (#[trigger] all[i]) is Dispose || all[i] is Rescope
        || all[i] is Reconfigure by {
        if i < attached.len() + planned.len() {
            assert(all[i] == planned[i - attached.len()]);
        } else {
            let k = i - attached.len() - planned.len();
            assert(all[i] == removed[k]);
            assert(removed.contains(removed[k]));
            lemma_removal_disposal(reading, m, removed[k]);
        }
    }
    assert forall|i: int| s <= i < all.len() implies (#[trigger] all[i]) is Start by {
        assert(all[i] == started[i - s]);
    }
    assert forall|i: int, k: int|
        0 <= i < k < all.len() && (#[trigger] all[i]) is Start implies (
    #[trigger] all[k]) is Start by {
        if i < made {
            assert(all[i] is Attach);
        }
    }
}

/// Whether the options at `i` lead to a start under `key`: that of the entry that they make, or of
/// the entry that they speak of where it has no fiber.
spec fn starts(reading: Reading, i: int, key: u64) -> bool {
    if reading.hits(i) {
        reading.group[reading.target(i)].fiber is None && reading.group[reading.target(i)].key
            == key
    } else {
        key == (reading.next_key + reading.created(i).len()) as u64
    }
}

proof fn lemma_starts(reading: Reading, n: int, key: u64)
    requires
        0 <= n <= reading.configs.len(),
    ensures
        reading.start_actions(n).contains(ActionView::Start(key)) <==> exists|i: int|
            0 <= i < n && #[trigger] starts(reading, i, key),
    decreases n,
{
    let action = ActionView::Start(key);
    if n > 0 {
        lemma_starts(reading, n - 1, key);
        let before = reading.start_actions(n - 1);
        let now = reading.start_actions(n);
        if before.contains(action) {
            let i = before.index_of(action);
            assert(now[i] == action);
        }
        if starts(reading, n - 1, key) {
            assert(now[now.len() - 1] == action);
        }
        if now.contains(action) {
            let i = now.index_of(action);
            if i < before.len() {
                assert(before[i] == action);
            } else {
                assert(starts(reading, n - 1, key));
            }
        }
    }
}

/// How many entries the options before `i` make.
proof fn lemma_made_before(reading: Reading, n: int, i: int)
    requires
        reading.is_valid(),
        0 <= i < n <= reading.configs.len(),
        !reading.hits(i),
    ensures
        reading.created(i).len() < reading.created(n).len(),
    decreases n,
{
    if i < n - 1 {
        lemma_made_before(reading, n - 1, i);
    }
}

proof fn lemma_made_by(reading: Reading, n: int, k: int) -> (i: int)
    requires
        reading.is_valid(),
        0 <= n <= reading.configs.len(),
        0 <= k < reading.created(n).len(),
    ensures
        0 <= i < n,
        !reading.hits(i),
        reading.created(i).len() == k,
    decreases n,
{
    if k < reading.created(n - 1).len() {
        lemma_made_by(reading, n - 1, k)
    } else {
        n - 1
    }
}

/// A reading starts the new entries, and those without a fiber that options speak of, and no
/// others.
pub proof fn readings_start_what_does_not_run(reading: Reading, key: u64)
    requires
        reading.is_valid(),
        keys_apart(reading),
    ensures
        reading.actions().contains(ActionView::Start(key)) <==> {
            ||| exists|j: int|
                0 <= j < reading.group.len() && stays(reading, j) && (
                #[trigger] reading.group[j]).key == key && reading.group[j].fiber is None
            ||| reading.next_key <= key < reading.next_key + numbers(
                reading.configs.len(),
            ).filter(|i: int| is_new(reading, i)).len()
        },
{
    let n = reading.configs.len() as int;
    let action = ActionView::Start(key);
    let all = reading.actions();
    let started = reading.start_actions(n);
    lemma_starts(reading, n, key);
    lemma_created_is(reading, reading.configs.len());
    lemma_created_len(reading, n);
    if all.contains(action) {
        lemma_part(reading, action);
        let i = choose|i: int| 0 <= i < n && #[trigger] starts(reading, i, key);
        lemma_matching(reading.group, reading.wanted(i));
        if reading.hits(i) {
            let j = reading.target(i);
            assert(reading.keeps(j));
            lemma_stays(reading, j);
            assert(reading.group[j].key == key);
        } else {
            lemma_made_before(reading, n, i);
        }
    }
    if exists|j: int|
        0 <= j < reading.group.len() && stays(reading, j) && (#[trigger] reading.group[j]).key
            == key && reading.group[j].fiber is None {
        let j = choose|j: int|
            0 <= j < reading.group.len() && stays(reading, j) && (
            #[trigger] reading.group[j]).key == key && reading.group[j].fiber is None;
        lemma_stays(reading, j);
        let i = choose|i: int| 0 <= i < reading.configs.len() && #[trigger] reading.target(i) == j;
        assert(starts(reading, i, key));
    } else if reading.next_key <= key < reading.next_key + reading.created(n).len() {
        let i = lemma_made_by(reading, n, key - reading.next_key);
        assert(starts(reading, i, key));
    }
    if started.contains(action) {
        let i = started.index_of(action);
        assert(all[all.len() - started.len() + i] == action);
    }
}

/// A reading attaches the new entries and no others.
pub proof fn readings_attach_the_new(reading: Reading, key: u64)
    requires
        reading.is_valid(),
    ensures
        reading.actions().contains(ActionView::Attach(key)) <==> reading.next_key <= key
            < reading.next_key + numbers(reading.configs.len()).filter(
            |i: int| is_new(reading, i),
        ).len(),
{
    let n = reading.configs.len() as int;
    let action = ActionView::Attach(key);
    let all = reading.actions();
    let attached = reading.attach_actions(n);
    lemma_created_is(reading, reading.configs.len());
    if all.contains(action) {
        lemma_part(reading, action);
        let i = attached.index_of(action);
        assert(reading.created(n)[i].key == key);
    }
    if reading.next_key <= key < reading.next_key + reading.created(n).len() {
        let i = key - reading.next_key;
        assert(reading.created(n)[i].key == key);
        assert(all[i] == action);
    }
}

/// Where one list of options alone speaks of an entry, the entry gets these options, under its own
/// key; its fiber is gone where they stop it, else it stays. Further options clear what they do not
/// mention.
pub proof fn readings_give_the_options(reading: Reading, i: int)
    requires
        0 <= i < reading.configs.len(),
        !is_new(reading, i),
        forall|k: int|
            0 <= k < reading.configs.len() && k != i ==> #[trigger] reading.target(k)
                != reading.target(i),
    ensures
        ({
            let before = reading.group[reading.target(i)];
            let stopped = reading.wanted(i).disabled == Some(true) || (reading.inherited
                && reading.wanted(i).group != Some(true));
            exists|k: int|
                {
                    &&& 0 <= k < reading.result().len()
                    &&& (#[trigger] reading.result()[k]).key == before.key
                    &&& reading.result()[k].options == reading.wanted(i)
                    &&& reading.result()[k].fiber == (if stopped {
                        None
                    } else {
                        before.fiber
                    })
                    &&& reading.result()[k].subgroup == before.subgroup
                }
        }),
{
    let n = reading.configs.len() as int;
    let m = reading.group.len();
    let j = reading.target(i);
    lemma_new(reading, i);
    lemma_matching(reading.group, reading.wanted(i));
    assert(reading.keeps(j));
    lemma_stays(reading, j);
    lemma_only_update(reading, i, n);
    lemma_updated_len(reading, n);
    let updated = reading.updated(n);
    let keep = |j: int| stays(reading, j);
    lemma_kept_is(reading, updated, m);
    lemma_number_kept(m, keep, j);
    let old = numbers(m).filter(keep);
    let k = old.index_of(j);
    assert(reading.result()[k] == updated[j]);
}

proof fn lemma_only_update(reading: Reading, i: int, n: int)
    requires
        0 <= i < reading.configs.len(),
        0 <= n <= reading.configs.len(),
        reading.hits(i),
        forall|k: int|
            0 <= k < reading.configs.len() && k != i ==> #[trigger] reading.target(k)
                != reading.target(i),
    ensures
        ({
            let j = reading.target(i);
            let after = reading.updated(n)[j];
            &&& n <= i ==> after == reading.group[j]
            &&& n > i ==> after.options == reading.wanted(i) && after.fiber == (if must_stop(
                reading.wanted(i),
                reading.inherited,
            ) {
                None
            } else {
                reading.group[j].fiber
            })
        }),
    decreases n,
{
    lemma_matching(reading.group, reading.wanted(i));
    if n > 0 {
        lemma_only_update(reading, i, n - 1);
        lemma_updated_len(reading, n - 1);
        lemma_matching(reading.group, reading.wanted(n - 1));
        if n - 1 == i {
            crate::options::full_update_replaces(
                reading.updated(i)[reading.target(i)].options,
                reading.wanted(i),
            );
        } else {
            assert(reading.target(n - 1) != reading.target(i));
        }
    }
}

proof fn lemma_planned(reading: Reading, n: int, i: int, action: ActionView)
    requires
        0 <= i < n <= reading.configs.len(),
        reading.hits(i),
        plan_actions(reading.group[reading.target(i)].key, reading.plan(i)).contains(action),
    ensures
        reading.plan_actions(n).contains(action),
    decreases n,
{
    let before = reading.plan_actions(n - 1);
    let now = reading.plan_actions(n);
    if i < n - 1 {
        lemma_planned(reading, n - 1, i, action);
        let k = before.index_of(action);
        assert(now[k] == action);
    } else {
        let more = plan_actions(reading.group[reading.target(i)].key, reading.plan(i));
        let k = more.index_of(action);
        assert(now[before.len() + k] == action);
    }
}

proof fn lemma_planned_by(reading: Reading, n: int, action: ActionView) -> (i: int)
    requires
        0 <= n <= reading.configs.len(),
        reading.plan_actions(n).contains(action),
    ensures
        0 <= i < n,
        reading.hits(i),
        plan_actions(reading.group[reading.target(i)].key, reading.plan(i)).contains(action),
    decreases n,
{
    let before = reading.plan_actions(n - 1);
    let now = reading.plan_actions(n);
    let k = now.index_of(action);
    if k < before.len() {
        assert(before[k] == action);
        lemma_planned_by(reading, n - 1, action)
    } else {
        let more = plan_actions(reading.group[reading.target(n - 1)].key, reading.plan(n - 1));
        assert(more[k - before.len()] == action);
        n - 1
    }
}

/// Entries that are spoken of are rescoped and reconfigured as the updates of their options ask
/// for, and no others are.
pub proof fn readings_carry_out_plans(reading: Reading)
    ensures
        forall|i: int|
            0 <= i < reading.configs.len() && #[trigger] reading.hits(i) ==> {
                let key = reading.group[reading.target(i)].key;
                match reading.plan(i) {
                    PlanView::Stop(fiber) => fiber is Some ==> reading.actions().contains(
                        ActionView::Dispose(fiber->0),
                    ),
                    PlanView::Rescope(names) => reading.actions().contains(
                        ActionView::Rescope(key, names),
                    ),
                    PlanView::Reconfigure(fiber) => reading.actions().contains(
                        ActionView::Reconfigure(key, fiber),
                    ),
                    PlanView::Keep => true,
                }
            },
        forall|key: u64, names: Seq<Seq<char>>| #[trigger]
            reading.actions().contains(ActionView::Rescope(key, names)) ==> exists|i: int|
                0 <= i < reading.configs.len() && #[trigger] reading.hits(i) && reading.plan(i)
                    == PlanView::Rescope(names) && reading.group[reading.target(i)].key == key,
        forall|key: u64, fiber: u64| #[trigger]
            reading.actions().contains(ActionView::Reconfigure(key, fiber)) ==> exists|i: int|
                0 <= i < reading.configs.len() && #[trigger] reading.hits(i) && reading.plan(i)
                    == PlanView::Reconfigure(fiber) && reading.group[reading.target(i)].key == key,
{
    let n = reading.configs.len() as int;
    let all = reading.actions();
    let planned = reading.plan_actions(n);
    let attached = reading.attach_actions(n);
    assert forall|action: ActionView| #[trigger] planned.contains(action) implies all.contains(
        action,
    ) by {
        let k = planned.index_of(action);
        assert(all[attached.len() + k] == action);
    }
    assert forall|i: int| 0 <= i < n && #[trigger] reading.hits(i) implies {
        let key = reading.group[reading.target(i)].key;
        match reading.plan(i) {
            PlanView::Stop(fiber) => fiber is Some ==> all.contains(ActionView::Dispose(fiber->0)),
            PlanView::Rescope(names) => all.contains(ActionView::Rescope(key, names)),
            PlanView::Reconfigure(fiber) => all.contains(ActionView::Reconfigure(key, fiber)),
            PlanView::Keep => true,
        }
    } by {
        let more = plan_actions(reading.group[reading.target(i)].key, reading.plan(i));
        if more.len() > 0 {
            assert(more.contains(more[0]));
            lemma_planned(reading, n, i, more[0]);
            assert(planned.contains(more[0]));
        }
    }
    assert forall|key: u64, names: Seq<Seq<char>>| #[trigger]
        all.contains(ActionView::Rescope(key, names)) implies exists|i: int|
        0 <= i < n && #[trigger] reading.hits(i) && reading.plan(i) == PlanView::Rescope(names)
            && reading.group[reading.target(i)].key == key by {
        lemma_part(reading, ActionView::Rescope(key, names));
        let i = lemma_planned_by(reading, n, ActionView::Rescope(key, names));
        assert(reading.hits(i));
    }
    assert forall|key: u64, fiber: u64| #[trigger]
        all.contains(ActionView::Reconfigure(key, fiber)) implies exists|i: int|
        0 <= i < n && #[trigger] reading.hits(i) && reading.plan(i) == PlanView::Reconfigure(fiber)
            && reading.group[reading.target(i)].key == key by {
        lemma_part(reading, ActionView::Reconfigure(key, fiber));
        let i = lemma_planned_by(reading, n, ActionView::Reconfigure(key, fiber));
        assert(reading.hits(i));
    }
}

/// The entries of the group have different fibers.
pub open spec fn fibers_apart(reading: Reading) -> bool {
    forall|j: int, k: int|
        0 <= j < reading.group.len() && 0 <= k < reading.group.len() && j != k && (
        #[trigger] reading.group[j]).fiber is Some ==> (#[trigger] reading.group[k]).fiber
            != reading.group[j].fiber
}

proof fn lemma_planned_once(reading: Reading, n: int)
    requires
        fibers_apart(reading),
        0 <= n <= reading.configs.len(),
    ensures
        forall|i: int, k: int|
            0 <= i < k < reading.plan_actions(n).len() && (
            #[trigger] reading.plan_actions(n)[i]) is Dispose ==> reading.plan_actions(n)[i] != (
            #[trigger] reading.plan_actions(n)[k]),
    decreases n,
{
    if n > 0 {
        lemma_planned_once(reading, n - 1);
        let before = reading.plan_actions(n - 1);
        let now = reading.plan_actions(n);
        assert forall|i: int, k: int|
            0 <= i < k < now.len() && (#[trigger] now[i]) is Dispose implies now[i] != (
        #[trigger] now[k]) by {
            if k < before.len() {
                assert(now[i] == before[i] && now[k] == before[k]);
            } else if i < before.len() && now[k] is Dispose {
                assert(now[i] == before[i]);
                let t = reading.target(n - 1);
                lemma_matching(reading.group, reading.wanted(n - 1));
                lemma_fiber_kept(reading, n - 1, t);
                let f = now[k]->Dispose_0;
                assert(reading.plan(n - 1) == PlanView::Stop(Some(f)));
                assert(reading.updated(n - 1)[t].fiber == Some(f));
                if now[i] == now[k] {
                    assert(before.contains(before[i]));
                    lemma_planned_disposal(reading, n - 1, f);
                    let j = choose|j: int|
                        0 <= j < reading.group.len() && reading.keeps(j) && (
                        #[trigger] reading.group[j]).fiber == Some(f) && reading.updated(
                            n - 1,
                        )[j].fiber is None;
                    assert(reading.group[j].fiber == reading.group[t].fiber);
                    assert(j == t);
                }
            }
        }
    }
}

proof fn lemma_removed_once(reading: Reading, n: int)
    requires
        fibers_apart(reading),
        0 <= n <= reading.group.len(),
    ensures
        reading.removal_actions(n).no_duplicates(),
    decreases n,
{
    if n > 0 {
        lemma_removed_once(reading, n - 1);
        let before = reading.removal_actions(n - 1);
        let now = reading.removal_actions(n);
        if now.len() > before.len() {
            let last = now.last();
            assert forall|i: int| 0 <= i < before.len() implies before[i] != last by {
                if before[i] == last {
                    assert(before.contains(last));
                    lemma_removal_disposal(reading, n - 1, last);
                    let j = choose|j: int|
                        0 <= j < n - 1 && !reading.keeps(j) && (
                        #[trigger] reading.group[j]).fiber == Some(last->Dispose_0);
                    assert(reading.group[j].fiber == reading.group[n - 1].fiber);
                }
            }
        }
    }
}

/// A reading disposes no fiber twice, where the entries of the group have different ones.
pub proof fn readings_dispose_once(reading: Reading, i: int, k: int)
    requires
        fibers_apart(reading),
        0 <= i < k < reading.actions().len(),
        reading.actions()[i] is Dispose,
    ensures
        reading.actions()[k] != reading.actions()[i],
{
    let n = reading.configs.len() as int;
    let m = reading.group.len() as int;
    let attached = reading.attach_actions(n);
    let planned = reading.plan_actions(n);
    let removed = reading.removal_actions(m);
    let started = reading.start_actions(n);
    let all = reading.actions();
    lemma_kinds(reading, n);
    lemma_planned_once(reading, n);
    lemma_removed_once(reading, m);
    let p = attached.len() as int;
    let r = p + planned.len();
    let s = r + removed.len();
    if i < p {
        assert(all[i] == attached[i]);
    } else if i >= s {
        assert(all[i] == started[i - s]);
    } else if k >= s {
        assert(all[k] == started[k - s]);
    } else if k < r {
        assert(all[i] == planned[i - p]);
        assert(all[k] == planned[k - p]);
    } else if i >= r {
        assert(all[i] == removed[i - r]);
        assert(all[k] == removed[k - r]);
    } else {
        assert(all[i] == planned[i - p]);
        assert(all[k] == removed[k - r]);
        if all[i] == all[k] {
            let f = all[i]->Dispose_0;
            assert(planned.contains(planned[i - p]));
            assert(removed.contains(removed[k - r]));
            lemma_planned_disposal(reading, n, f);
            lemma_removal_disposal(reading, m, all[k]);
            let a = choose|j: int|
                0 <= j < reading.group.len() && reading.keeps(j) && (
                #[trigger] reading.group[j]).fiber == Some(f) && reading.updated(
                    n,
                )[j].fiber is None;
            let b = choose|j: int|
                0 <= j < m && !reading.keeps(j) && (#[trigger] reading.group[j]).fiber == Some(f);
            assert(reading.group[a].fiber == reading.group[b].fiber);
            assert(a == b);
        }
    }
}

/// A reading changes the entries of its group, the task counter and the next key, which grows by
/// the number of new entries, and nothing else.
pub proof fn readings_change_one_group(tree: TreeView, q: Seq<usize>, reading: Reading)
    requires
        reading.is_valid(),
        reading.next_key == tree.next_key,
        group_at(tree.root, q) is Some,
    ensures
        ({
            let after = tree_read(tree, q, reading);
            let made = numbers(reading.configs.len()).filter(|i: int| is_new(reading, i)).len();
            &&& group_at(after.root, q) == Some(reading.result())
            &&& after.next_key == tree.next_key + made
            &&& after == (TreeView {
                root: after.root,
                tasks: after.tasks,
                next_key: after.next_key,
                ..tree
            })
            &&& forall|p: Seq<usize>|
                #[trigger] has_entry(tree.root, p) && !(q.len() < p.len() && p.take(q.len() as int)
                    == q) ==> has_entry(after.root, p) && same_entry(
                    entry_at(after.root, p),
                    entry_at(tree.root, p),
                )
        }),
{
    let after = tree_read(tree, q, reading);
    lemma_created_is(reading, reading.configs.len());
    lemma_created_len(reading, reading.configs.len() as int);
    lemma_get_set_group(tree.root, q, reading.result());
    assert forall|p: Seq<usize>|
        #[trigger] has_entry(tree.root, p) && !(q.len() < p.len() && p.take(q.len() as int)
            == q) implies has_entry(after.root, p) && same_entry(
        entry_at(after.root, p),
        entry_at(tree.root, p),
    ) by {
        other_groups_stay(tree.root, q, reading.result(), p);
    }
}

/// Whether the options at `i` stop the entry that they speak of.
pub open spec fn stops(reading: Reading, i: int) -> bool {
    reading.wanted(i).disabled == Some(true) || (reading.inherited && reading.wanted(i).group
        != Some(true))
}

proof fn lemma_last_update(reading: Reading, j: int, n: int)
    requires
        0 <= j < reading.group.len(),
        0 <= n <= reading.configs.len(),
    ensures
        ({
            let after = reading.updated(n)[j];
            &&& after.fiber == (if exists|k: int|
                0 <= k < n && #[trigger] reading.target(k) == j && stops(reading, k) {
                None
            } else {
                reading.group[j].fiber
            })
            &&& forall|i: int|
                0 <= i < n && #[trigger] reading.target(i) == j && (forall|k: int|
                    i < k < n ==> #[trigger] reading.target(k) != j) ==> after.options
                    == reading.wanted(i)
        }),
    decreases n,
{
    if n > 0 {
        lemma_last_update(reading, j, n - 1);
        lemma_updated_len(reading, n - 1);
        lemma_matching(reading.group, reading.wanted(n - 1));
        let before = reading.updated(n - 1)[j];
        let after = reading.updated(n)[j];
        if reading.target(n - 1) == j {
            crate::options::full_update_replaces(before.options, reading.wanted(n - 1));
            assert(after.options == reading.wanted(n - 1));
            assert(must_stop(reading.wanted(n - 1), reading.inherited) == stops(reading, n - 1));
            if stops(reading, n - 1) {
                assert(reading.target(n - 1) == j && stops(reading, n - 1));
            }
        } else {
            assert(after == before);
        }
        if exists|k: int| 0 <= k < n && #[trigger] reading.target(k) == j && stops(reading, k) {
            let k = choose|k: int|
                0 <= k < n && #[trigger] reading.target(k) == j && stops(reading, k);
            if k < n - 1 {
                assert(reading.target(k) == j && stops(reading, k));
            }
        }
        assert forall|i: int|
            0 <= i < n && #[trigger] reading.target(i) == j && (forall|k: int|
                i < k < n ==> #[trigger] reading.target(k) != j) implies after.options
            == reading.wanted(i) by {
            if i < n - 1 {
                assert(reading.target(n - 1) != j);
                assert(forall|k: int| i < k < n - 1 ==> #[trigger] reading.target(k) != j);
            }
        }
    }
}

/// Where several options speak of one entry, the last of them gives it its options, and it keeps
/// its fiber only where none of them stops it.
pub proof fn the_last_options_count(reading: Reading, i: int)
    requires
        0 <= i < reading.configs.len(),
        !is_new(reading, i),
        forall|k: int|
            i < k < reading.configs.len() ==> #[trigger] reading.target(k) != reading.target(i),
    ensures
        ({
            let j = reading.target(i);
            exists|k: int|
                {
                    &&& 0 <= k < reading.result().len()
                    &&& (#[trigger] reading.result()[k]).key == reading.group[j].key
                    &&& reading.result()[k].options == reading.wanted(i)
                    &&& reading.result()[k].fiber == (if exists|m: int|
                        0 <= m < reading.configs.len() && #[trigger] reading.target(m) == j
                            && stops(reading, m) {
                        None
                    } else {
                        reading.group[j].fiber
                    })
                }
        }),
{
    let n = reading.configs.len() as int;
    let m = reading.group.len();
    let j = reading.target(i);
    lemma_new(reading, i);
    lemma_matching(reading.group, reading.wanted(i));
    assert(reading.keeps(j));
    lemma_stays(reading, j);
    lemma_last_update(reading, j, n);
    lemma_updated_len(reading, n);
    let updated = reading.updated(n);
    let keep = |j: int| stays(reading, j);
    lemma_kept_is(reading, updated, m);
    lemma_number_kept(m, keep, j);
    let old = numbers(m).filter(keep);
    let k = old.index_of(j);
    assert(reading.result()[k] == updated[j]);
}

/// Whether an entry is started for the options at `i`: a new one, or the one that they speak of
/// where it has no fiber.
pub open spec fn is_started(reading: Reading, i: int) -> bool {
    is_new(reading, i) || reading.group[matching(reading.group, reading.wanted(i))].fiber is None
}

/// The key of the entry that the options at `i` are for: a new one has the key that follows those of
/// the new ones before it.
pub open spec fn key_for(reading: Reading, i: int) -> u64 {
    if is_new(reading, i) {
        (reading.next_key + numbers(i as nat).filter(|k: int| is_new(reading, k)).len()) as u64
    } else {
        reading.group[matching(reading.group, reading.wanted(i))].key
    }
}

/// Removed entries are disposed in the order of the group, and entries are started in the order of
/// the options; these disposals and starts end the actions.
pub proof fn readings_end_in_order(reading: Reading)
    requires
        reading.is_valid(),
    ensures
        ({
            let removed = numbers(reading.group.len()).filter(
                |j: int| !stays(reading, j) && reading.group[j].fiber is Some,
            ).map_values(|j: int| ActionView::Dispose(reading.group[j].fiber->0));
            let started = numbers(reading.configs.len()).filter(
                |i: int| is_started(reading, i),
            ).map_values(|i: int| ActionView::Start(key_for(reading, i)));
            let all = reading.actions();
            &&& removed.len() + started.len() <= all.len()
            &&& all.skip(all.len() - removed.len() - started.len()) == removed + started
        }),
{
    let n = reading.configs.len();
    let m = reading.group.len();
    lemma_removal_order(reading, m);
    lemma_start_order(reading, n);
    let all = reading.actions();
    let removed = reading.removal_actions(m as int);
    let started = reading.start_actions(n as int);
    assert(all.skip(all.len() - removed.len() - started.len()) =~= removed + started);
}

proof fn lemma_removal_order(reading: Reading, n: nat)
    requires
        n <= reading.group.len(),
    ensures
        reading.removal_actions(n as int) == numbers(n).filter(
            |j: int| !stays(reading, j) && reading.group[j].fiber is Some,
        ).map_values(|j: int| ActionView::Dispose(reading.group[j].fiber->0)),
    decreases n,
{
    reveal(Seq::filter);
    let gone = |j: int| !stays(reading, j) && reading.group[j].fiber is Some;
    let dispose = |j: int| ActionView::Dispose(reading.group[j].fiber->0);
    if n > 0 {
        let before = (n - 1) as nat;
        lemma_removal_order(reading, before);
        lemma_stays(reading, n - 1);
        assert(numbers(n).drop_last() =~= numbers(before));
        assert(numbers(n).last() == n - 1);
        let rest = numbers(before).filter(gone);
        assert(rest.push(n - 1).map_values(dispose) =~= rest.map_values(dispose).push(
            dispose(n - 1),
        ));
    }
    assert(reading.removal_actions(n as int) =~= numbers(n).filter(gone).map_values(dispose));
}

proof fn lemma_start_order(reading: Reading, n: nat)
    requires
        reading.is_valid(),
        n <= reading.configs.len(),
    ensures
        reading.start_actions(n as int) == numbers(n).filter(
            |i: int| is_started(reading, i),
        ).map_values(|i: int| ActionView::Start(key_for(reading, i))),
    decreases n,
{
    reveal(Seq::filter);
    let starts_it = |i: int| is_started(reading, i);
    let start = |i: int| ActionView::Start(key_for(reading, i));
    if n > 0 {
        let before = (n - 1) as nat;
        lemma_start_order(reading, before);
        lemma_new(reading, n - 1);
        lemma_created_is(reading, before);
        assert(numbers(n).drop_last() =~= numbers(before));
        assert(numbers(n).last() == n - 1);
        let rest = numbers(before).filter(starts_it);
        assert(rest.push(n - 1).map_values(start) =~= rest.map_values(start).push(start(n - 1)));
    }
    assert(reading.start_actions(n as int) =~= numbers(n).filter(starts_it).map_values(start));
}

/// What the updates of the options ask for comes after the new entries are attached, one option
/// after another.
pub proof fn readings_update_in_order(reading: Reading, n: int)
    requires
        0 <= n < reading.configs.len(),
        reading.is_valid(),
    ensures
        ({
            let made = numbers(reading.configs.len()).filter(|i: int| is_new(reading, i)).len();
            let before = reading.plan_actions(n);
            let now = reading.plan_actions(n + 1);
            let all = reading.actions();
            let whole = reading.plan_actions(reading.configs.len() as int);
            &&& is_new(reading, n) ==> now == before
            &&& !is_new(reading, n) ==> now == before + plan_actions(
                reading.group[reading.target(n)].key,
                reading.plan(n),
            )
            &&& reading.plan_actions(0).len() == 0
            &&& all.skip(made as int).take(whole.len() as int) == whole
        }),
{
    lemma_new(reading, n);
    lemma_created_is(reading, reading.configs.len());
    let all = reading.actions();
    let made = reading.created(reading.configs.len() as int).len();
    let whole = reading.plan_actions(reading.configs.len() as int);
    assert(all.skip(made as int).take(whole.len() as int) =~= whole);
}

} // verus!
