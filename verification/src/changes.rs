//! Changes of the entry tree, and what the host has to do after each of them.

use crate::entry::{
    entry_after, entry_mut, entry_view, entry_views, fresh_entry, group_mut, lemma_entry_view,
    parent_place, plan_of, unchanged_update, Entry, PlanView, UpdatePlan,
};
use crate::forest::{
    entry_at, group_at, has_entry, inherits_disabled, key_count, keys_ok, lemma_count_edit,
    lemma_count_one, lemma_count_same_shape, lemma_count_set_group, set_entry_at, set_group_at,
    without_entry_at, EntryView,
};
use crate::options::{is_true, EntryOptions, OptionsView, PartialEntryOptions, PartialView};
use crate::text::texts;
use crate::tree::{group_place_of, place_of, str_option, uses_id, EntryTree, TreeView};
use vstd::prelude::*;

verus! {

/// Something that the host does on behalf of the tree. Entries are named by key, fibers by number.
pub enum Action {
    /// Give the entry a context below that of its group and apply its overlay layers.
    Attach(u64),
    /// Move the entry's context below that of its new group and apply its overlay layers.
    Reparent(u64),
    /// Run the write callback.
    Write,
    /// Dispose the fiber as a counted task.
    Dispose(u64),
    /// Dispose the fiber without counting it.
    Release(u64),
    /// Apply the overlay layers, then settle the scope change of these services.
    Rescope(u64, Vec<String>),
    /// Hand the entry's resolved config to the fiber.
    Reconfigure(u64, u64),
    /// Import and apply the plugin of the entry, whose init task is already marked.
    Init(u64),
    /// As `Init`, then wake the dependents of these services under these labels.
    InitThenNotify(u64, Vec<Notice>),
    /// Start the initialization of the entry, unless one is under way.
    Start(u64),
}

/// A service and the labels under which its dependents are to be woken.
pub struct Notice {
    pub name: String,
    pub labels: Vec<String>,
}

/// What a notice says.
pub struct NoticeView {
    pub name: Seq<char>,
    pub labels: Seq<Seq<char>>,
}

/// What an action is.
pub enum ActionView {
    Attach(u64),
    Reparent(u64),
    Write,
    Dispose(u64),
    Release(u64),
    Rescope(u64, Seq<Seq<char>>),
    Reconfigure(u64, u64),
    Init(u64),
    InitThenNotify(u64, Seq<NoticeView>),
    Start(u64),
}

impl View for Notice {
    type V = NoticeView;

    open spec fn view(&self) -> NoticeView {
        NoticeView { name: self.name@, labels: texts(self.labels@) }
    }
}

/// The views of a list of notices.
pub open spec fn notice_views(list: Seq<Notice>) -> Seq<NoticeView> {
    Seq::new(list.len(), |i: int| list[i]@)
}

impl View for Action {
    type V = ActionView;

    open spec fn view(&self) -> ActionView {
        match self {
            Action::Attach(key) => ActionView::Attach(*key),
            Action::Reparent(key) => ActionView::Reparent(*key),
            Action::Write => ActionView::Write,
            Action::Dispose(fiber) => ActionView::Dispose(*fiber),
            Action::Release(fiber) => ActionView::Release(*fiber),
            Action::Rescope(key, names) => ActionView::Rescope(*key, texts(names@)),
            Action::Reconfigure(key, fiber) => ActionView::Reconfigure(*key, *fiber),
            Action::Init(key) => ActionView::Init(*key),
            Action::InitThenNotify(key, notices) => ActionView::InitThenNotify(
                *key,
                notice_views(notices@),
            ),
            Action::Start(key) => ActionView::Start(*key),
        }
    }
}

/// The views of a list of actions.
pub open spec fn action_views(list: Seq<Action>) -> Seq<ActionView> {
    Seq::new(list.len(), |i: int| list[i]@)
}

/// What a plan asks of the host.
pub open spec fn plan_actions(key: u64, plan: PlanView) -> Seq<ActionView> {
    match plan {
        PlanView::Stop(Some(fiber)) => seq![ActionView::Dispose(fiber)],
        PlanView::Stop(None) => Seq::empty(),
        PlanView::Rescope(names) => seq![ActionView::Rescope(key, names)],
        PlanView::Reconfigure(fiber) => seq![ActionView::Reconfigure(key, fiber)],
        PlanView::Keep => Seq::empty(),
    }
}

/// The counter after one more task.
pub open spec fn one_more(tasks: usize) -> usize {
    if tasks == usize::MAX {
        0
    } else {
        (tasks + 1) as usize
    }
}

/// The counter after one task less.
pub open spec fn one_less(tasks: usize) -> usize {
    if tasks == 0 {
        usize::MAX
    } else {
        (tasks - 1) as usize
    }
}

/// The counter after a disposal, if there was a fiber to dispose.
pub open spec fn counted(tasks: usize, fiber: Option<u64>) -> usize {
    if fiber is Some {
        one_more(tasks)
    } else {
        tasks
    }
}

/// The counter after the disposal that a plan asks for, if it does.
pub open spec fn counted_plan(tasks: usize, plan: PlanView) -> usize {
    match plan {
        PlanView::Stop(fiber) => counted(tasks, fiber),
        _ => tasks,
    }
}

/// The disposal of a fiber, if there is one.
pub open spec fn disposal(fiber: Option<u64>) -> Seq<ActionView> {
    match fiber {
        Some(f) => seq![ActionView::Dispose(f)],
        None => Seq::empty(),
    }
}

/// Options with an id: their own, or else the given one.
pub open spec fn with_id(options: OptionsView, id: Seq<char>) -> OptionsView {
    if options.id.len() == 0 {
        OptionsView { id, ..options }
    } else {
        options
    }
}

/// The smaller of two numbers.
pub open spec fn smaller(a: int, b: int) -> int {
    if a <= b {
        a
    } else {
        b
    }
}

/// The tree after a new entry was put into the group at `q`.
pub open spec fn tree_with_new(
    tree: TreeView,
    q: Seq<usize>,
    position: int,
    options: OptionsView,
) -> TreeView {
    let g = group_at(tree.root, q)->0;
    let e = EntryView { init_task: true, ..fresh_entry(tree.next_key, options) };
    TreeView {
        root: set_group_at(tree.root, q, g.insert(smaller(position, g.len() as int), e)),
        next_key: (tree.next_key + 1) as u64,
        ..tree
    }
}

/// The tree after the entry at `p` was taken out.
pub open spec fn tree_without(tree: TreeView, p: Seq<usize>) -> TreeView {
    TreeView {
        root: without_entry_at(tree.root, p),
        tasks: counted(tree.tasks, entry_at(tree.root, p).fiber),
        ..tree
    }
}

/// Whether an entry that was just updated is to be initialized.
pub open spec fn wants_init(e: EntryView, inherited: bool) -> bool {
    e.fiber is None && !e.is_disabled(inherited) && e.options.disabled != Some(true)
}

/// The entry at `p` after a partial update.
pub open spec fn entry_updated(tree: TreeView, p: Seq<usize>, update: PartialView) -> EntryView {
    let inherited = inherits_disabled(tree.root, p);
    let e = entry_after(entry_at(tree.root, p), inherited, update, false, false);
    EntryView { init_task: e.init_task || wants_init(e, inherited), ..e }
}

/// The tree after a partial update of the entry at `p`.
pub open spec fn tree_updated(tree: TreeView, p: Seq<usize>, update: PartialView) -> TreeView {
    let plan = plan_of(
        entry_at(tree.root, p),
        inherits_disabled(tree.root, p),
        update,
        false,
        false,
    );
    TreeView {
        root: set_entry_at(tree.root, p, entry_updated(tree, p, update)),
        tasks: counted_plan(tree.tasks, plan),
        ..tree
    }
}

/// What the host does after a partial update of the entry at `p`.
pub open spec fn update_actions(tree: TreeView, p: Seq<usize>, update: PartialView) -> Seq<
    ActionView,
> {
    let before = entry_at(tree.root, p);
    let inherited = inherits_disabled(tree.root, p);
    let after = entry_after(before, inherited, update, false, false);
    let planned = plan_actions(before.key, plan_of(before, inherited, update, false, false));
    if wants_init(after, inherited) {
        planned.push(ActionView::Init(before.key))
    } else {
        planned
    }
}

/// Putting an entry into a list puts its view into the list of views.
pub broadcast proof fn lemma_views_insert(es: Seq<Entry>, i: int, e: Entry)
    requires
        0 <= i <= es.len(),
    ensures
        #[trigger] entry_views(es.insert(i, e)) == entry_views(es).insert(i, entry_view(e)),
{
    assert(entry_views(es.insert(i, e)) =~= entry_views(es).insert(i, entry_view(e)));
}

/// Taking an entry out of a list takes its view out of the list of views.
pub broadcast proof fn lemma_views_remove(es: Seq<Entry>, i: int)
    requires
        0 <= i < es.len(),
    ensures
        #[trigger] entry_views(es.remove(i)) == entry_views(es).remove(i),
{
    assert(entry_views(es.remove(i)) =~= entry_views(es).remove(i));
}

/// Adding an entry to a list adds its view to the list of views.
pub broadcast proof fn lemma_views_push(es: Seq<Entry>, e: Entry)
    ensures
        #[trigger] entry_views(es.push(e)) == entry_views(es).push(entry_view(e)),
{
    assert(entry_views(es.push(e)) =~= entry_views(es).push(entry_view(e)));
}

/// The actions after one more.
pub broadcast proof fn lemma_actions_push(list: Seq<Action>, action: Action)
    ensures
        #[trigger] action_views(list.push(action)) == action_views(list).push(action@),
{
    assert(action_views(list.push(action)) =~= action_views(list).push(action@));
}

/// A new entry keeps the keys distinct.
pub proof fn new_entry_keeps_keys(
    tree: TreeView,
    q: Seq<usize>,
    position: int,
    options: OptionsView,
)
    requires
        keys_ok(tree.root, tree.next_key),
        tree.next_key < u64::MAX,
        group_at(tree.root, q) is Some,
        position >= 0,
    ensures
        keys_ok(
            tree_with_new(tree, q, position, options).root,
            tree_with_new(tree, q, position, options).next_key,
        ),
{
    let after = tree_with_new(tree, q, position, options);
    let g = group_at(tree.root, q)->0;
    let e = EntryView { init_task: true, ..fresh_entry(tree.next_key, options) };
    let at = smaller(position, g.len() as int);
    assert forall|key: u64|
        (#[trigger] key_count(after.root, key)) <= 1 && (key >= after.next_key ==> key_count(
            after.root,
            key,
        ) == 0) by {
        lemma_count_set_group(tree.root, q, g.insert(at, e), key);
        lemma_count_edit(g, at, e, key);
        lemma_count_one(e, key);
        assert(key_count(tree.root, key) <= 1);
    }
}

/// Taking an entry out keeps the keys distinct, and takes out exactly its keys and those below it.
pub proof fn removal_keeps_keys(tree: TreeView, p: Seq<usize>)
    requires
        has_entry(tree.root, p),
    ensures
        keys_ok(tree.root, tree.next_key) ==> keys_ok(
            tree_without(tree, p).root,
            tree.next_key,
        ),
        forall|key: u64|
            (#[trigger] key_count(tree_without(tree, p).root, key)) + key_count(
                seq![entry_at(tree.root, p)],
                key,
            ) == key_count(tree.root, key),
{
    let q = p.drop_last();
    let g = group_at(tree.root, q)->0;
    let i = p.last() as int;
    let after = tree_without(tree, p).root;
    assert forall|key: u64|
        (#[trigger] key_count(after, key)) + key_count(seq![entry_at(tree.root, p)], key)
            == key_count(tree.root, key) by {
        lemma_count_set_group(tree.root, q, g.remove(i), key);
        lemma_count_edit(g, i, g[i], key);
    }
    if keys_ok(tree.root, tree.next_key) {
        assert forall|key: u64|
            (#[trigger] key_count(after, key)) <= 1 && (key >= tree.next_key ==> key_count(
                after,
                key,
            ) == 0) by {
            assert(key_count(tree.root, key) <= 1);
        }
    }
}

/// Replacing an entry by one with the same key and subgroup keeps every count.
pub proof fn replacement_keeps_counts(es: Seq<EntryView>, p: Seq<usize>, to: EntryView, key: u64)
    requires
        has_entry(es, p),
        to.key == entry_at(es, p).key,
        to.subgroup == entry_at(es, p).subgroup,
    ensures
        key_count(set_entry_at(es, p, to), key) == key_count(es, key),
{
    let q = p.drop_last();
    let g = group_at(es, q)->0;
    let i = p.last() as int;
    lemma_count_set_group(es, q, g.update(i, to), key);
    lemma_count_edit(g, i, to, key);
    lemma_count_one(to, key);
    lemma_count_one(g[i], key);
}

/// Replacing an entry by one with the same key and subgroup keeps the keys distinct.
pub proof fn replacement_keeps_keys(tree: TreeView, p: Seq<usize>, to: EntryView)
    requires
        has_entry(tree.root, p),
        to.key == entry_at(tree.root, p).key,
        to.subgroup == entry_at(tree.root, p).subgroup,
    ensures
        tree.well_formed() ==> keys_ok(set_entry_at(tree.root, p, to), tree.next_key),
{
    let after = set_entry_at(tree.root, p, to);
    if tree.well_formed() {
        assert forall|key: u64|
            (#[trigger] key_count(after, key)) <= 1 && (key >= tree.next_key ==> key_count(
                after,
                key,
            ) == 0) by {
            replacement_keeps_counts(tree.root, p, to, key);
            assert(key_count(tree.root, key) <= 1);
        }
    }
}

/// Replacing the entries of a group by ones with the same keys and subgroups keeps the keys
/// distinct.
pub proof fn same_shape_keeps_keys(tree: TreeView, q: Seq<usize>, to: Seq<EntryView>)
    requires
        group_at(tree.root, q) is Some,
        to.len() == group_at(tree.root, q)->0.len(),
        forall|i: int|
            0 <= i < to.len() ==> (#[trigger] to[i]).key == group_at(tree.root, q)->0[i].key
                && to[i].subgroup == group_at(tree.root, q)->0[i].subgroup,
    ensures
        tree.well_formed() ==> keys_ok(set_group_at(tree.root, q, to), tree.next_key),
{
    let after = set_group_at(tree.root, q, to);
    if tree.well_formed() {
        assert forall|key: u64|
            (#[trigger] key_count(after, key)) <= 1 && (key >= tree.next_key ==> key_count(
                after,
                key,
            ) == 0) by {
            lemma_count_set_group(tree.root, q, to, key);
            lemma_count_same_shape(to, group_at(tree.root, q)->0, key);
            assert(key_count(tree.root, key) <= 1);
        }
    }
}

/// An update keeps the keys distinct.
pub proof fn update_keeps_keys(tree: TreeView, p: Seq<usize>, update: PartialView)
    requires
        has_entry(tree.root, p),
        keys_ok(tree.root, tree.next_key),
    ensures
        keys_ok(tree_updated(tree, p, update).root, tree.next_key),
{
    let after = tree_updated(tree, p, update).root;
    assert forall|key: u64|
        (#[trigger] key_count(after, key)) <= 1 && (key >= tree.next_key ==> key_count(after, key)
            == 0) by {
        replacement_keeps_counts(tree.root, p, entry_updated(tree, p, update), key);
        assert(key_count(tree.root, key) <= 1);
    }
}

/// Adds what a plan asks of the host.
pub fn push_plan(actions: &mut Vec<Action>, key: u64, plan: UpdatePlan)
    ensures
        action_views(final(actions)@) == action_views(old(actions)@) + plan_actions(key, plan@),
{
    broadcast use lemma_actions_push;

    let ghost start = action_views(actions@);
    let ghost planned = plan_actions(key, plan@);
    match plan {
        UpdatePlan::Stop(fiber) => {
            if let Some(fiber) = fiber {
                actions.push(Action::Dispose(fiber));
            }
        },
        UpdatePlan::Rescope(names) => {
            actions.push(Action::Rescope(key, names));
        },
        UpdatePlan::Reconfigure(fiber) => {
            actions.push(Action::Reconfigure(key, fiber));
        },
        UpdatePlan::Keep => {},
    }
    assert(action_views(actions@) =~= start + planned);
}

impl EntryTree {
    /// Counts one more task.
    pub fn begin_task(&mut self)
        ensures
            final(self)@ == (TreeView { tasks: one_more(old(self)@.tasks), ..old(self)@ }),
    {
        self.tasks = if self.tasks == usize::MAX {
            0
        } else {
            self.tasks + 1
        };
    }

    /// Counts one task less.
    pub fn settle_task(&mut self)
        ensures
            final(self)@ == (TreeView { tasks: one_less(old(self)@.tasks), ..old(self)@ }),
    {
        self.tasks = if self.tasks == 0 {
            usize::MAX
        } else {
            self.tasks - 1
        };
    }

    /// Counts the disposal of a fiber, if there is one, and asks the host for it.
    pub fn spawn_dispose(&mut self, fiber: Option<u64>, actions: &mut Vec<Action>)
        ensures
            final(self)@ == (TreeView {
                tasks: counted(old(self)@.tasks, fiber),
                ..old(self)@
            }),
            action_views(final(actions)@) == action_views(old(actions)@) + disposal(fiber),
    {
        broadcast use lemma_actions_push;

        let ghost start = action_views(actions@);
        if let Some(fiber) = fiber {
            self.begin_task();
            actions.push(Action::Dispose(fiber));
        }
        assert(action_views(actions@) =~= start + disposal(fiber));
    }

    /// Creates an entry under a parent group. Options without an id get `fresh`.
    pub fn create(
        &mut self,
        options: EntryOptions,
        parent: Option<&str>,
        position: usize,
        fresh: &str,
    ) -> (r: (Vec<usize>, Vec<Action>))
        requires
            group_place_of(old(self)@.root, str_option(parent)) is Some,
            options@.id.len() == 0 ==> !uses_id(old(self)@.root, fresh@),
            old(self)@.next_key < u64::MAX,
        ensures
            ({
                let q = group_place_of(old(self)@.root, str_option(parent))->0;
                let g = group_at(old(self)@.root, q)->0;
                &&& final(self)@ == tree_with_new(
                    old(self)@,
                    q,
                    position as int,
                    with_id(options@, fresh@),
                )
                &&& r.0@ == q.push(smaller(position as int, g.len() as int) as usize)
                &&& action_views(r.1@) == seq![
                    ActionView::Attach(old(self)@.next_key),
                    ActionView::Write,
                    ActionView::Init(old(self)@.next_key),
                ]
            }),
            old(self)@.well_formed() ==> final(self)@.well_formed(),
    {
        broadcast use {lemma_entry_view, lemma_views_insert};

        let ghost before = self@;
        let mut options = options;
        if options.id.as_str().is_empty() {
            options.id = fresh.to_owned();
        }
        let mut place = match self.resolve_group(parent) {
            Ok(place) => place,
            Err(_) => vstd::pervasive::unreached(),
        };
        let key = self.next_key;
        self.next_key = key + 1;
        let full = PartialEntryOptions::from_options(&options);
        let mut entry = Entry::new(key, options);
        let ghost bare = entry@;
        // A new entry has no fiber: whatever its ancestors, the plan asks for nothing.
        let plan = entry.update(false, &full, true, false);
        proof {
            unchanged_update(bare, false);
        }
        entry.init_task = true;
        let ghost e = entry@;
        assert(place@.skip(0) =~= place@);
        let group = group_mut(&mut self.root.entries, &place, 0);
        let at: usize = if position <= group.len() {
            position
        } else {
            group.len()
        };
        group.insert(at, entry);
        let ghost q = place@;
        place.push(at);
        let mut actions: Vec<Action> = Vec::new();
        actions.push(Action::Attach(key));
        actions.push(Action::Write);
        actions.push(Action::Init(key));
        proof {
            assert(action_views(actions@) =~= seq![
                ActionView::Attach(key),
                ActionView::Write,
                ActionView::Init(key),
            ]);
            if before.well_formed() {
                new_entry_keeps_keys(before, q, position as int, e.options);
            }
        }
        (place, actions)
    }

    /// Removes the entry that `id` leads to.
    pub fn remove(&mut self, id: &str) -> (r: Vec<Action>)
        requires
            place_of(old(self)@.root, id@) is Some,
        ensures
            final(self)@ == tree_without(old(self)@, place_of(old(self)@.root, id@)->0),
            action_views(r@) == disposal(
                entry_at(old(self)@.root, place_of(old(self)@.root, id@)->0).fiber,
            ).push(ActionView::Write),
            old(self)@.well_formed() ==> final(self)@.well_formed(),
    {
        broadcast use {lemma_entry_view, lemma_views_remove, lemma_actions_push};

        let ghost before = self@;
        let place = match self.locate_path(id) {
            Ok(place) => place,
            Err(_) => vstd::pervasive::unreached(),
        };
        let q = parent_place(&place);
        assert(q@.skip(0) =~= q@);
        let group = group_mut(&mut self.root.entries, &q, 0);
        let entry = group.remove(place[place.len() - 1]);
        let mut actions: Vec<Action> = Vec::new();
        assert(action_views(actions@) =~= Seq::<ActionView>::empty());
        self.spawn_dispose(entry.fiber, &mut actions);
        assert(action_views(actions@) =~= disposal(entry.fiber));
        actions.push(Action::Write);
        proof {
            removal_keeps_keys(before, place@);
        }
        actions
    }

    /// Updates the options of the entry that `id` leads to.
    pub fn update_entry(&mut self, id: &str, options: &PartialEntryOptions) -> (r: Vec<Action>)
        requires
            place_of(old(self)@.root, id@) is Some,
        ensures
            final(self)@ == tree_updated(
                old(self)@,
                place_of(old(self)@.root, id@)->0,
                options@,
            ),
            action_views(r@) == update_actions(
                old(self)@,
                place_of(old(self)@.root, id@)->0,
                options@,
            ),
            old(self)@.well_formed() ==> final(self)@.well_formed(),
    {
        broadcast use {lemma_entry_view, lemma_actions_push};

        let ghost before = self@;
        let place = match self.locate_path(id) {
            Ok(place) => place,
            Err(_) => vstd::pervasive::unreached(),
        };
        let inherited = self.inherits(&place);
        let entry = entry_mut(&mut self.root.entries, &place);
        let key = entry.key;
        let plan = entry.update(inherited, options, false, false);
        let start = entry.fiber.is_none() && !entry.disabled(inherited) && !is_true(
            entry.options.disabled,
        );
        if start {
            entry.init_task = true;
        }
        if let UpdatePlan::Stop(Some(_)) = &plan {
            self.begin_task();
        }
        let mut actions: Vec<Action> = Vec::new();
        assert(action_views(actions@) =~= Seq::<ActionView>::empty());
        let ghost planned = plan_actions(key, plan@);
        push_plan(&mut actions, key, plan);
        assert(action_views(actions@) =~= planned);
        if start {
            actions.push(Action::Init(key));
        }
        proof {
            if before.well_formed() {
                update_keeps_keys(before, place@, options@);
            }
        }
        actions
    }
}

} // verus!
