//! Moving an entry to another group.

use crate::changes::{
    action_views, counted, disposal, lemma_actions_push, lemma_views_push, lemma_views_remove,
    notice_views, replacement_keeps_keys, Action, ActionView, Notice, NoticeView,
};
use crate::entry::{entry_mut, group_mut, lemma_entry_view, parent_place};
use crate::forest::{
    disabled_at, entry_at, group_at, has_entry, key_count, keys_ok, lemma_count_edit,
    lemma_count_set_group, lemma_get_set_group, lemma_group_step, set_entry_at, set_group_at,
    without_entry_at, EntryView,
};
use crate::options::{is_true, text_option, text_options, OptionsView};
use crate::text::{clone_texts, contains_text, texts};
use crate::tree::{group_place_of, place_of, plugin_named, str_option, EntryTree, TreeView};
use vstd::prelude::*;

verus! {

/// `p` is the beginning of `q`.
pub open spec fn leads(p: Seq<usize>, q: Seq<usize>) -> bool {
    p.len() <= q.len() && q.take(p.len() as int) == p
}

/// Where the group at `q` is once the entry at `p` is gone: behind it in the same list, one place
/// earlier.
pub open spec fn shifted(p: Seq<usize>, q: Seq<usize>) -> Seq<usize>
    decreases p.len(),
{
    if p.len() == 0 || q.len() == 0 {
        q
    } else if p.len() == 1 {
        if q[0] > p[0] {
            q.update(0, (q[0] - 1) as usize)
        } else {
            q
        }
    } else if q[0] == p[0] {
        seq![q[0]] + shifted(p.drop_first(), q.drop_first())
    } else {
        q
    }
}

/// The forest after the entry at `p` was moved to the end of the group at `q`.
pub open spec fn moved(es: Seq<EntryView>, p: Seq<usize>, q: Seq<usize>) -> Seq<EntryView> {
    let rest = without_entry_at(es, p);
    let to = shifted(p, q);
    set_group_at(rest, to, group_at(rest, to)->0.push(entry_at(es, p)))
}

/// The place of the moved entry.
pub open spec fn moved_place(es: Seq<EntryView>, p: Seq<usize>, q: Seq<usize>) -> Seq<usize> {
    let to = shifted(p, q);
    to.push(group_at(without_entry_at(es, p), to)->0.len() as usize)
}

/// A group that is not below the entry at `p` is still there once that entry is gone.
pub proof fn lemma_group_survives(es: Seq<EntryView>, p: Seq<usize>, q: Seq<usize>)
    requires
        has_entry(es, p),
        group_at(es, q) is Some,
        !leads(p, q),
    ensures
        group_at(without_entry_at(es, p), shifted(p, q)) is Some,
        shifted(p, q).len() == q.len(),
    decreases p.len(),
{
    let rest = without_entry_at(es, p);
    if p.len() == 1 {
        assert(p.drop_last() =~= Seq::<usize>::empty());
        if q.len() > 0 {
            assert(q[0] != p[0]) by {
                if q[0] == p[0] {
                    assert(q.take(1) =~= p);
                }
            }
            assert(shifted(p, q).drop_first() =~= q.drop_first());
        }
    } else {
        lemma_group_step(es, p);
        let g = es[p[0] as int].subgroup->0;
        let inner = p.drop_first();
        if q.len() > 0 {
            if q[0] == p[0] {
                assert(!leads(inner, q.drop_first())) by {
                    if leads(inner, q.drop_first()) {
                        assert(q.take(p.len() as int) =~= seq![p[0]] + q.drop_first().take(
                            inner.len() as int,
                        ));
                        assert(p =~= seq![p[0]] + inner);
                    }
                }
                lemma_group_survives(g, inner, q.drop_first());
                assert(shifted(p, q).drop_first() =~= shifted(inner, q.drop_first()));
            }
        }
    }
}

/// A move neither loses an entry nor makes one: every key occurs as often as before.
pub proof fn move_keeps_counts(es: Seq<EntryView>, p: Seq<usize>, q: Seq<usize>, key: u64)
    requires
        has_entry(es, p),
        group_at(es, q) is Some,
        !leads(p, q),
    ensures
        key_count(moved(es, p, q), key) == key_count(es, key),
{
    let g = group_at(es, p.drop_last())->0;
    let i = p.last() as int;
    let e = entry_at(es, p);
    let rest = without_entry_at(es, p);
    let to = shifted(p, q);
    lemma_group_survives(es, p, q);
    lemma_count_set_group(es, p.drop_last(), g.remove(i), key);
    lemma_count_edit(g, i, e, key);
    let target = group_at(rest, to)->0;
    lemma_count_set_group(rest, to, target.push(e), key);
    lemma_count_edit(target, 0, e, key);
}

/// The moved entry is the last one of its new group, unchanged with everything below it.
pub proof fn moved_entry_arrives(es: Seq<EntryView>, p: Seq<usize>, q: Seq<usize>)
    requires
        has_entry(es, p),
        group_at(es, q) is Some,
        !leads(p, q),
        group_at(without_entry_at(es, p), shifted(p, q))->0.len() < usize::MAX,
    ensures
        has_entry(moved(es, p, q), moved_place(es, p, q)),
        entry_at(moved(es, p, q), moved_place(es, p, q)) == entry_at(es, p),
{
    let rest = without_entry_at(es, p);
    let to = shifted(p, q);
    lemma_group_survives(es, p, q);
    let target = group_at(rest, to)->0;
    lemma_get_set_group(rest, to, target.push(entry_at(es, p)));
    assert(moved_place(es, p, q).drop_last() =~= to);
}

/// `list` with those of `more` at its end that it does not hold yet.
pub open spec fn joined_names(list: Seq<Seq<char>>, more: Seq<Seq<char>>) -> Seq<Seq<char>>
    decreases more.len(),
{
    if more.len() == 0 {
        list
    } else {
        let rest = joined_names(list, more.drop_last());
        if rest.contains(more.last()) {
            rest
        } else {
            rest.push(more.last())
        }
    }
}

/// The services whose realm may change when an entry moves: those that the entry injects, those
/// that its plugin injects, and the one named like the plugin.
pub open spec fn names_at_stake(tree: TreeView, options: OptionsView) -> Seq<Seq<char>> {
    let own = match options.inject {
        Some(inject) => inject,
        None => Seq::empty(),
    };
    let with_plugin = match plugin_named(tree, options.name) {
        Ok(plugin) => joined_names(own, plugin.inject),
        Err(_) => own,
    };
    joined_names(with_plugin, seq![options.name])
}

/// The labels before and after that there are.
pub open spec fn labels_given(old_label: Option<Seq<char>>, new_label: Option<Seq<char>>) -> Seq<
    Seq<char>,
> {
    let first = match old_label {
        Some(label) => seq![label],
        None => Seq::empty(),
    };
    match new_label {
        Some(label) => first.push(label),
        None => first,
    }
}

/// A notice for every service whose label changed.
pub open spec fn label_changes(
    names: Seq<Seq<char>>,
    old_labels: Seq<Option<Seq<char>>>,
    new_labels: Seq<Option<Seq<char>>>,
) -> Seq<NoticeView>
    decreases names.len(),
{
    if names.len() == 0 {
        Seq::empty()
    } else {
        let last = names.len() - 1;
        let rest = label_changes(names.drop_last(), old_labels, new_labels);
        if old_labels[last] != new_labels[last] {
            rest.push(
                NoticeView {
                    name: names[last],
                    labels: labels_given(old_labels[last], new_labels[last]),
                },
            )
        } else {
            rest
        }
    }
}

/// What becomes of an entry after its move.
pub enum MoveFate {
    /// Its realm changed: the fiber is disposed and the entry initialized again, if it may run.
    Restart,
    /// It is disabled where it is now: the fiber is disposed.
    Stop,
    /// It has no fiber: it is initialized.
    Init,
    /// It runs on.
    Keep,
}

/// The fate of a moved entry.
pub open spec fn fate(e: EntryView, disabled: bool, changed: bool) -> MoveFate {
    if changed {
        MoveFate::Restart
    } else if disabled {
        MoveFate::Stop
    } else if e.fiber is None && e.options.group != Some(true) {
        MoveFate::Init
    } else {
        MoveFate::Keep
    }
}

/// The moved entry once its fate is settled.
pub open spec fn entry_settled(e: EntryView, disabled: bool, changed: bool) -> EntryView {
    match fate(e, disabled, changed) {
        MoveFate::Restart => EntryView {
            fiber: None,
            init_task: e.init_task || (!disabled && e.options.group != Some(true)),
            ..e
        },
        MoveFate::Stop => EntryView { fiber: None, ..e },
        MoveFate::Init => EntryView { init_task: true, ..e },
        MoveFate::Keep => e,
    }
}

/// What the host does to settle the fate of a moved entry.
pub open spec fn settle_actions(
    e: EntryView,
    disabled: bool,
    changes: Seq<NoticeView>,
) -> Seq<ActionView> {
    match fate(e, disabled, changes.len() > 0) {
        MoveFate::Restart => if !disabled && e.options.group != Some(true) {
            disposal(e.fiber).push(ActionView::InitThenNotify(e.key, changes))
        } else {
            disposal(e.fiber)
        },
        MoveFate::Stop => disposal(e.fiber),
        MoveFate::Init => seq![ActionView::Init(e.key)],
        MoveFate::Keep => Seq::empty(),
    }
}

/// The counter once the fate of a moved entry is settled.
pub open spec fn settle_count(tasks: usize, e: EntryView, disabled: bool, changed: bool) -> usize {
    match fate(e, disabled, changed) {
        MoveFate::Restart => counted(tasks, e.fiber),
        MoveFate::Stop => counted(tasks, e.fiber),
        _ => tasks,
    }
}

fn shift_place(p: &Vec<usize>, q: &Vec<usize>) -> (r: Vec<usize>)
    requires
        p@.len() > 0,
    ensures
        r@ == shifted(p@, q@),
{
    let mut out = q.clone();
    assert(out@ =~= q@);
    let mut i: usize = 0;
    assert(p@.skip(0) =~= p@);
    assert(q@.skip(0) =~= q@);
    assert(q@.take(0) + shifted(p@, q@) =~= shifted(p@, q@));
    while i < p.len() - 1 && i < q.len() && p[i] == q[i]
        invariant
            i < p@.len(),
            i <= q@.len(),
            shifted(p@, q@) == q@.take(i as int) + shifted(p@.skip(i as int), q@.skip(i as int)),
        decreases p@.len() - i,
    {
        let ghost pt = p@.skip(i as int);
        let ghost qt = q@.skip(i as int);
        assert(pt.drop_first() =~= p@.skip(i + 1));
        assert(qt.drop_first() =~= q@.skip(i + 1));
        assert(q@.take(i as int) + (seq![qt[0]] + shifted(pt.drop_first(), qt.drop_first()))
            =~= q@.take(i + 1) + shifted(pt.drop_first(), qt.drop_first()));
        i += 1;
    }
    let ghost pt = p@.skip(i as int);
    let ghost qt = q@.skip(i as int);
    if i == p.len() - 1 && i < q.len() && q[i] > p[i] {
        let at: usize = q[i] - 1;
        out.set(i, at);
        assert(out@ =~= q@.take(i as int) + qt.update(0, at));
    } else {
        assert(q@.take(i as int) + qt =~= q@);
    }
    out
}

fn same_place(p: &Vec<usize>, q: &Vec<usize>) -> (r: bool)
    ensures
        r == (p@ == q@),
{
    if p.len() != q.len() {
        return false;
    }
    let mut i: usize = 0;
    while i < p.len()
        invariant
            i <= p@.len(),
            p@.len() == q@.len(),
            forall|j: int| 0 <= j < i ==> p@[j] == q@[j],
        decreases p@.len() - i,
    {
        if p[i] != q[i] {
            return false;
        }
        i += 1;
    }
    assert(p@ =~= q@);
    true
}

fn add_names(list: &mut Vec<String>, more: &Vec<String>)
    ensures
        texts(final(list)@) == joined_names(texts(old(list)@), texts(more@)),
{
    let ghost start = texts(list@);
    let ghost all = texts(more@);
    let mut i: usize = 0;
    assert(all.take(0) =~= Seq::<Seq<char>>::empty());
    while i < more.len()
        invariant
            i <= more@.len(),
            all == texts(more@),
            texts(list@) == joined_names(start, all.take(i as int)),
        decreases more@.len() - i,
    {
        assert(all.take(i + 1).drop_last() =~= all.take(i as int));
        assert(all.take(i + 1).last() == more@[i as int]@);
        let ghost was = texts(list@);
        if !contains_text(list, more[i].as_str()) {
            list.push(more[i].clone());
            assert(texts(list@) =~= was.push(more@[i as int]@));
        }
        i += 1;
    }
    assert(all.take(i as int) =~= all);
}

/// A copy of the labels that there are, the old one first.
fn given(old_label: &Option<String>, new_label: &Option<String>) -> (r: Vec<String>)
    ensures
        texts(r@) == labels_given(text_option(*old_label), text_option(*new_label)),
{
    let mut out: Vec<String> = Vec::new();
    if let Some(label) = old_label {
        out.push(label.clone());
    }
    if let Some(label) = new_label {
        out.push(label.clone());
    }
    assert(texts(out@) =~= labels_given(text_option(*old_label), text_option(*new_label)));
    out
}

fn same_label(a: &Option<String>, b: &Option<String>) -> (r: bool)
    ensures
        r == (text_option(*a) == text_option(*b)),
{
    match (a, b) {
        (Some(x), Some(y)) => *x == *y,
        (None, None) => true,
        _ => false,
    }
}

/// The services whose label differs between two readings, with both labels.
pub fn changed_labels(
    names: &Vec<String>,
    old_labels: &Vec<Option<String>>,
    new_labels: &Vec<Option<String>>,
) -> (r: Vec<Notice>)
    requires
        old_labels@.len() == names@.len(),
        new_labels@.len() == names@.len(),
    ensures
        notice_views(r@) == label_changes(
            texts(names@),
            text_options(old_labels@),
            text_options(new_labels@),
        ),
{
    let ghost all = texts(names@);
    let ghost olds = text_options(old_labels@);
    let ghost news = text_options(new_labels@);
    let mut out: Vec<Notice> = Vec::new();
    let mut i: usize = 0;
    assert(all.take(0) =~= Seq::<Seq<char>>::empty());
    assert(notice_views(out@) =~= Seq::<NoticeView>::empty());
    while i < names.len()
        invariant
            i <= names@.len(),
            old_labels@.len() == names@.len(),
            new_labels@.len() == names@.len(),
            all == texts(names@),
            olds == text_options(old_labels@),
            news == text_options(new_labels@),
            notice_views(out@) == label_changes(all.take(i as int), olds, news),
        decreases names@.len() - i,
    {
        assert(all.take(i + 1).drop_last() =~= all.take(i as int));
        let ghost was = notice_views(out@);
        if !same_label(&old_labels[i], &new_labels[i]) {
            let notice = Notice {
                name: names[i].clone(),
                labels: given(&old_labels[i], &new_labels[i]),
            };
            let ghost said = notice@;
            out.push(notice);
            assert(notice_views(out@) =~= was.push(said));
        }
        i += 1;
    }
    assert(all.take(i as int) =~= all);
    out
}

impl EntryTree {
    /// The services whose labels are to be read before and after a move of the entry at `place`.
    pub fn names_for_move(&self, place: &Vec<usize>) -> (r: Vec<String>)
        requires
            has_entry(self@.root, place@),
        ensures
            texts(r@) == names_at_stake(self@, entry_at(self@.root, place@).options),
    {
        broadcast use lemma_entry_view;

        let entry = self.entry(place);
        let mut names: Vec<String> = match &entry.options.inject {
            Some(inject) => clone_texts(inject),
            None => Vec::new(),
        };
        assert(texts(names@) =~= match entry@.options.inject {
            Some(inject) => inject,
            None => Seq::empty(),
        });
        if let Ok(plugin) = self.import(entry.options.name.as_str()) {
            add_names(&mut names, &plugin.inject);
        }
        let mut own: Vec<String> = Vec::new();
        own.push(entry.options.name.clone());
        assert(texts(own@) =~= seq![entry@.options.name]);
        add_names(&mut names, &own);
        names
    }

    /// Moves the entry that `id` leads to to the end of another group. Where it is in that group
    /// already nothing happens; else the new place comes back, and what the host does. An entry
    /// cannot move into a group below itself.
    pub fn move_entry(&mut self, id: &str, parent: Option<&str>) -> (r: Option<
        (Vec<usize>, Vec<Action>),
    >)
        requires
            place_of(old(self)@.root, id@) is Some,
            group_place_of(old(self)@.root, str_option(parent)) is Some,
            !leads(
                place_of(old(self)@.root, id@)->0,
                group_place_of(old(self)@.root, str_option(parent))->0,
            ),
        ensures
            ({
                let p = place_of(old(self)@.root, id@)->0;
                let q = group_place_of(old(self)@.root, str_option(parent))->0;
                match r {
                    None => q == p.drop_last() && final(self)@ == old(self)@,
                    Some((place, actions)) => {
                        &&& q != p.drop_last()
                        &&& final(self)@ == (TreeView {
                            root: moved(old(self)@.root, p, q),
                            ..old(self)@
                        })
                        &&& place@ == moved_place(old(self)@.root, p, q)
                        &&& has_entry(final(self)@.root, place@)
                        &&& entry_at(final(self)@.root, place@) == entry_at(old(self)@.root, p)
                        &&& action_views(actions@) == seq![
                            ActionView::Reparent(entry_at(old(self)@.root, p).key),
                            ActionView::Write,
                        ]
                    },
                }
            }),
            old(self)@.well_formed() ==> final(self)@.well_formed(),
    {
        broadcast use {lemma_entry_view, lemma_views_remove, lemma_views_push};

        let ghost before = self@.root;
        let place = match self.locate_path(id) {
            Ok(place) => place,
            Err(_) => vstd::pervasive::unreached(),
        };
        let target = match self.resolve_group(parent) {
            Ok(target) => target,
            Err(_) => vstd::pervasive::unreached(),
        };
        let source = parent_place(&place);
        if same_place(&source, &target) {
            return None;
        }
        proof {
            lemma_group_survives(before, place@, target@);
        }
        assert(source@.skip(0) =~= source@);
        let from = group_mut(&mut self.root.entries, &source, 0);
        let entry = from.remove(place[place.len() - 1]);
        let key = entry.key;
        let mut to = shift_place(&place, &target);
        assert(to@.skip(0) =~= to@);
        assert(self@.root == without_entry_at(before, place@));
        let group = group_mut(&mut self.root.entries, &to, 0);
        let at: usize = group.len();
        group.push(entry);
        let ghost q = to@;
        to.push(at);
        let mut actions: Vec<Action> = Vec::new();
        actions.push(Action::Reparent(key));
        actions.push(Action::Write);
        proof {
            assert(action_views(actions@) =~= seq![
                ActionView::Reparent(key),
                ActionView::Write,
            ]);
            let rest = without_entry_at(before, place@);
            lemma_get_set_group(rest, q, group_at(rest, q)->0.push(entry_at(before, place@)));
            assert(to@.drop_last() =~= q);
            if keys_ok(before, self@.next_key) {
                assert forall|key: u64|
                    (#[trigger] key_count(self@.root, key)) <= 1 && (key >= self@.next_key
                        ==> key_count(self@.root, key) == 0) by {
                    move_keeps_counts(before, place@, target@, key);
                    assert(key_count(before, key) <= 1);
                }
            }
        }
        Some((to, actions))
    }

    /// Settles the fate of the entry at `place` after its move, from the labels of the services at
    /// stake before and after it.
    pub fn settle_move(
        &mut self,
        place: &Vec<usize>,
        names: &Vec<String>,
        old_labels: &Vec<Option<String>>,
        new_labels: &Vec<Option<String>>,
    ) -> (r: Vec<Action>)
        requires
            has_entry(old(self)@.root, place@),
            old_labels@.len() == names@.len(),
            new_labels@.len() == names@.len(),
        ensures
            ({
                let e = entry_at(old(self)@.root, place@);
                let disabled = disabled_at(old(self)@.root, place@);
                let changes = label_changes(
                    texts(names@),
                    text_options(old_labels@),
                    text_options(new_labels@),
                );
                &&& final(self)@ == (TreeView {
                    root: set_entry_at(
                        old(self)@.root,
                        place@,
                        entry_settled(e, disabled, changes.len() > 0),
                    ),
                    tasks: settle_count(old(self)@.tasks, e, disabled, changes.len() > 0),
                    ..old(self)@
                })
                &&& action_views(r@) == settle_actions(e, disabled, changes)
            }),
            old(self)@.well_formed() ==> final(self)@.well_formed(),
    {
        broadcast use {lemma_entry_view, lemma_actions_push};

        let ghost before = self@;
        let changed = changed_labels(names, old_labels, new_labels);
        let ghost changes = notice_views(changed@);
        assert(notice_views(changed@).len() == changed@.len());
        let disabled = self.disabled(place);
        let mut actions: Vec<Action> = Vec::new();
        assert(action_views(actions@) =~= Seq::<ActionView>::empty());
        let entry = entry_mut(&mut self.root.entries, place);
        let ghost e = entry@;
        let key = entry.key;
        let fiber = entry.fiber;
        let is_group = is_true(entry.options.group);
        if changed.len() > 0 {
            entry.fiber = None;
            if !disabled && !is_group {
                entry.init_task = true;
            }
            self.spawn_dispose(fiber, &mut actions);
            assert(action_views(actions@) =~= disposal(fiber));
            if !disabled && !is_group {
                actions.push(Action::InitThenNotify(key, changed));
            }
        } else if disabled {
            entry.fiber = None;
            self.spawn_dispose(fiber, &mut actions);
            assert(action_views(actions@) =~= disposal(fiber));
        } else if fiber.is_none() && !is_group {
            entry.init_task = true;
            actions.push(Action::Init(key));
            assert(action_views(actions@) =~= seq![ActionView::Init(key)]);
        }
        proof {
            let q = place@.drop_last();
            let g = group_at(before.root, q)->0;
            assert(g.update(place@.last() as int, g[place@.last() as int]) =~= g);
            crate::forest::lemma_set_same_group(before.root, q);
            replacement_keeps_keys(
                before,
                place@,
                entry_settled(e, disabled, changes.len() > 0),
            );
        }
        actions
    }
}

} // verus!
