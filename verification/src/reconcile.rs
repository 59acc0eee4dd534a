//! Reading a list of options into a group: entries that match are updated, new ones are created,
//! the others are removed.

use crate::changes::{
    action_views, counted, counted_plan, lemma_actions_push, lemma_views_push, lemma_views_remove,
    plan_actions, push_plan, with_id, Action, ActionView,
};
use crate::dict::Duplicate;
use crate::entry::{
    entry_after, entry_view, entry_views, fresh_entry, group_mut, group_ref, lemma_entry_view,
    lemma_views_update, plan_of, unchanged_update, Entry, PlanView, UpdatePlan,
};
use crate::forest::{
    group_at, inherits_disabled, key_count, keys_ok, lemma_count_concat, lemma_count_edit,
    lemma_count_one, lemma_count_same_shape, lemma_count_set_group, set_group_at, EntryView,
};
use crate::options::{is_true, same_flag, EntryOptions, OptionsView, PartialEntryOptions};
use crate::text::texts;
use crate::tree::{uses_id, EntryTree, TreeView};
use vstd::prelude::*;

verus! {

/// The views of a list of options.
pub open spec fn options_views(list: Seq<EntryOptions>) -> Seq<OptionsView> {
    Seq::new(list.len(), |i: int| list[i]@)
}

/// Whether options speak of an existing entry: by id, or by name and kind where they have no id.
pub open spec fn speaks_of(options: OptionsView, e: EntryView) -> bool {
    if options.id.len() > 0 {
        e.options.id == options.id
    } else {
        e.options.name == options.name && e.options.group == options.group
    }
}

/// The place of the first entry that the options speak of, the length where there is none.
pub open spec fn matching(es: Seq<EntryView>, options: OptionsView) -> int
    decreases es.len(),
{
    if es.len() == 0 || speaks_of(options, es[0]) {
        0
    } else {
        1 + matching(es.drop_first(), options)
    }
}

/// One reading: the entries of the group before it, the options, an unused id for each of them,
/// whether the group is below a disabled entry, and the key of the next new entry.
pub struct Reading {
    pub group: Seq<EntryView>,
    pub configs: Seq<OptionsView>,
    pub fresh: Seq<Seq<char>>,
    pub inherited: bool,
    pub next_key: u64,
}

impl Reading {
    /// The options that are looked up: those of a group get an id beforehand.
    pub open spec fn wanted(self, i: int) -> OptionsView {
        if self.configs[i].group == Some(true) {
            with_id(self.configs[i], self.fresh[i])
        } else {
            self.configs[i]
        }
    }

    /// The entry that the options at `i` update, the length of the group where they create one.
    pub open spec fn target(self, i: int) -> int {
        matching(self.group, self.wanted(i))
    }

    /// Whether the options at `i` update an entry.
    pub open spec fn hits(self, i: int) -> bool {
        self.target(i) < self.group.len()
    }

    /// Whether the entry at `j` is kept.
    pub open spec fn keeps(self, j: int) -> bool {
        exists|i: int| 0 <= i < self.configs.len() && #[trigger] self.target(i) == j
    }

    /// The group after the updates of the first `n` options.
    pub open spec fn updated(self, n: int) -> Seq<EntryView>
        decreases n,
    {
        if n <= 0 {
            self.group
        } else {
            let before = self.updated(n - 1);
            let t = self.target(n - 1);
            if t < self.group.len() {
                before.update(
                    t,
                    entry_after(
                        before[t],
                        self.inherited,
                        self.wanted(n - 1).as_partial(),
                        false,
                        true,
                    ),
                )
            } else {
                before
            }
        }
    }

    /// The plan of the update by the options at `i`.
    pub open spec fn plan(self, i: int) -> PlanView {
        plan_of(
            self.updated(i)[self.target(i)],
            self.inherited,
            self.wanted(i).as_partial(),
            false,
            true,
        )
    }

    /// The entries that the first `n` options create.
    pub open spec fn created(self, n: int) -> Seq<EntryView>
        decreases n,
    {
        if n <= 0 {
            Seq::empty()
        } else {
            let before = self.created(n - 1);
            if self.hits(n - 1) {
                before
            } else {
                before.push(
                    fresh_entry(
                        (self.next_key + before.len()) as u64,
                        with_id(self.configs[n - 1], self.fresh[n - 1]),
                    ),
                )
            }
        }
    }

    /// The kept ones among the first `n` entries of `es`.
    pub open spec fn kept(self, es: Seq<EntryView>, n: int) -> Seq<EntryView>
        decreases n,
    {
        if n <= 0 {
            Seq::empty()
        } else if self.keeps(n - 1) {
            self.kept(es, n - 1).push(es[n - 1])
        } else {
            self.kept(es, n - 1)
        }
    }

    /// The entries of the group after the reading: the kept ones, updated and in their old order,
    /// then the created ones.
    pub open spec fn result(self) -> Seq<EntryView> {
        self.kept(
            self.updated(self.configs.len() as int),
            self.group.len() as int,
        ) + self.created(self.configs.len() as int)
    }

    /// The created entries among the first `n` options, attached.
    pub open spec fn attach_actions(self, n: int) -> Seq<ActionView> {
        Seq::new(
            self.created(n).len(),
            |i: int| ActionView::Attach(self.created(n)[i].key),
        )
    }

    /// What the updates of the first `n` options ask for.
    pub open spec fn plan_actions(self, n: int) -> Seq<ActionView>
        decreases n,
    {
        if n <= 0 {
            Seq::empty()
        } else if self.hits(n - 1) {
            self.plan_actions(n - 1) + plan_actions(
                self.group[self.target(n - 1)].key,
                self.plan(n - 1),
            )
        } else {
            self.plan_actions(n - 1)
        }
    }

    /// The disposals of the fibers of the removed ones among the first `n` entries.
    pub open spec fn removal_actions(self, n: int) -> Seq<ActionView>
        decreases n,
    {
        if n <= 0 {
            Seq::empty()
        } else if self.keeps(n - 1) || self.group[n - 1].fiber is None {
            self.removal_actions(n - 1)
        } else {
            self.removal_actions(n - 1).push(ActionView::Dispose(self.group[n - 1].fiber->0))
        }
    }

    /// The starts of the entries without a fiber that the first `n` options speak of.
    pub open spec fn start_actions(self, n: int) -> Seq<ActionView>
        decreases n,
    {
        if n <= 0 {
            Seq::empty()
        } else {
            let before = self.start_actions(n - 1);
            if !self.hits(n - 1) {
                before.push(
                    ActionView::Start((self.next_key + self.created(n - 1).len()) as u64),
                )
            } else if self.group[self.target(n - 1)].fiber is None {
                before.push(ActionView::Start(self.group[self.target(n - 1)].key))
            } else {
                before
            }
        }
    }

    /// All that the host does, in order.
    pub open spec fn actions(self) -> Seq<ActionView> {
        let n = self.configs.len() as int;
        self.attach_actions(n) + self.plan_actions(n) + self.removal_actions(
            self.group.len() as int,
        ) + self.start_actions(n)
    }

    /// The task counter after the updates of the first `n` options.
    pub open spec fn planned_tasks(self, tasks: usize, n: int) -> usize
        decreases n,
    {
        if n <= 0 {
            tasks
        } else if self.hits(n - 1) {
            counted_plan(self.planned_tasks(tasks, n - 1), self.plan(n - 1))
        } else {
            self.planned_tasks(tasks, n - 1)
        }
    }

    /// The task counter after the removals among the first `n` entries.
    pub open spec fn removed_tasks(self, tasks: usize, n: int) -> usize
        decreases n,
    {
        if n <= 0 {
            tasks
        } else if self.keeps(n - 1) {
            self.removed_tasks(tasks, n - 1)
        } else {
            counted(self.removed_tasks(tasks, n - 1), self.group[n - 1].fiber)
        }
    }

    /// The reading fits the machine: an id for every option, and keys for all new entries.
    pub open spec fn is_valid(self) -> bool {
        self.fresh.len() == self.configs.len() && self.next_key + self.configs.len() <= u64::MAX
    }
}

/// The reading of `configs` into the group at `q` of a tree.
pub open spec fn reading_of(
    tree: TreeView,
    q: Seq<usize>,
    configs: Seq<OptionsView>,
    fresh: Seq<Seq<char>>,
) -> Reading {
    Reading {
        group: group_at(tree.root, q)->0,
        configs,
        fresh,
        inherited: inherits_disabled(tree.root, q.push(0)),
        next_key: tree.next_key,
    }
}

/// The tree after a reading into the group at `q`.
pub open spec fn tree_read(tree: TreeView, q: Seq<usize>, reading: Reading) -> TreeView {
    TreeView {
        root: set_group_at(tree.root, q, reading.result()),
        tasks: reading.removed_tasks(
            reading.planned_tasks(tree.tasks, reading.configs.len() as int),
            reading.group.len() as int,
        ),
        next_key: (tree.next_key + reading.created(reading.configs.len() as int).len()) as u64,
        ..tree
    }
}

/// What `matching` finds.
pub proof fn lemma_matching(es: Seq<EntryView>, options: OptionsView)
    ensures
        0 <= matching(es, options) <= es.len(),
        matching(es, options) < es.len() ==> speaks_of(options, es[matching(es, options)]),
        forall|i: int| 0 <= i < matching(es, options) ==> !speaks_of(options, #[trigger] es[i]),
    decreases es.len(),
{
    if es.len() > 0 && !speaks_of(options, es[0]) {
        let rest = es.drop_first();
        lemma_matching(rest, options);
        assert forall|i: int| 0 <= i < matching(es, options) implies !speaks_of(
            options,
            #[trigger] es[i],
        ) by {
            if i > 0 {
                assert(rest[i - 1] == es[i]);
            }
        }
    }
}

proof fn lemma_matching_is(es: Seq<EntryView>, options: OptionsView, at: int)
    requires
        0 <= at <= es.len(),
        at < es.len() ==> speaks_of(options, es[at]),
        forall|i: int| 0 <= i < at ==> !speaks_of(options, #[trigger] es[i]),
    ensures
        matching(es, options) == at,
{
    lemma_matching(es, options);
    let found = matching(es, options);
    if found < at {
        assert(!speaks_of(options, es[found]));
    }
}

/// No more entries are created than there are options.
pub proof fn lemma_created_len(reading: Reading, n: int)
    requires
        0 <= n,
    ensures
        reading.created(n).len() <= n,
    decreases n,
{
    if n > 0 {
        lemma_created_len(reading, n - 1);
    }
}

/// Updates keep the entries, their keys and their subgroups.
pub proof fn lemma_updated_len(reading: Reading, n: int)
    ensures
        reading.updated(n).len() == reading.group.len(),
        forall|j: int|
            0 <= j < reading.group.len() ==> (#[trigger] reading.updated(n)[j]).key
                == reading.group[j].key && reading.updated(n)[j].subgroup
                == reading.group[j].subgroup,
    decreases n,
{
    if n > 0 {
        lemma_updated_len(reading, n - 1);
        lemma_matching(reading.group, reading.wanted(n - 1));
    }
}

/// Finds the entry of the group that the options speak of.
pub fn find_matching(group: &Vec<Entry>, options: &EntryOptions) -> (r: Option<usize>)
    ensures
        match r {
            Some(i) => i < group@.len() && i == matching(entry_views(group@), options@),
            None => matching(entry_views(group@), options@) == group@.len(),
        },
{
    broadcast use lemma_entry_view;

    let ghost es = entry_views(group@);
    let mut i: usize = 0;
    while i < group.len()
        invariant
            i <= group@.len(),
            es == entry_views(group@),
            forall|j: int| 0 <= j < i ==> !speaks_of(options@, #[trigger] es[j]),
        decreases group@.len() - i,
    {
        let e = &group[i];
        let hit = if !options.id.as_str().is_empty() {
            e.options.id == options.id
        } else {
            e.options.name == options.name && same_flag(e.options.group, options.group)
        };
        if hit {
            proof {
                lemma_matching_is(es, options@, i as int);
            }
            return Some(i);
        }
        i += 1;
    }
    proof {
        lemma_matching_is(es, options@, i as int);
    }
    None
}

/// The options that are looked up.
fn wanted_options(options: &EntryOptions, fresh: &String) -> (r: EntryOptions)
    ensures
        r@ == (if options@.group == Some(true) {
            with_id(options@, fresh@)
        } else {
            options@
        }),
{
    let mut out = options.duplicate();
    if is_true(options.group) && options.id.as_str().is_empty() {
        out.id = fresh.clone();
    }
    out
}

/// Whether one of the targets is `index`.
fn is_target(targets: &Vec<Option<usize>>, index: usize) -> (r: bool)
    ensures
        r == exists|i: int| 0 <= i < targets@.len() && #[trigger] targets@[i] == Some(index),
{
    let mut i: usize = 0;
    while i < targets.len()
        invariant
            i <= targets@.len(),
            forall|j: int| 0 <= j < i ==> #[trigger] targets@[j] != Some(index),
        decreases targets@.len() - i,
    {
        if let Some(target) = targets[i] {
            if target == index {
                return true;
            }
        }
        i += 1;
    }
    false
}

/// Whether an exec target stands for the target of the reading at `i`.
spec fn stands_for(target: Option<usize>, reading: Reading, i: int) -> bool {
    match target {
        Some(t) => reading.target(i) == t && t < reading.group.len(),
        None => reading.target(i) == reading.group.len(),
    }
}

/// The targets found are the targets of the reading.
proof fn lemma_target(targets: Seq<Option<usize>>, reading: Reading, index: usize)
    requires
        targets.len() == reading.configs.len(),
        index < reading.group.len(),
        forall|i: int| 0 <= i < targets.len() ==> stands_for(#[trigger] targets[i], reading, i),
    ensures
        reading.keeps(index as int) == exists|i: int|
            0 <= i < targets.len() && #[trigger] targets[i] == Some(index),
{
    if reading.keeps(index as int) {
        let i = choose|i: int|
            0 <= i < reading.configs.len() && #[trigger] reading.target(i) == index as int;
        assert(stands_for(targets[i], reading, i));
        assert(targets[i] == Some(index));
    }
    if exists|i: int| 0 <= i < targets.len() && #[trigger] targets[i] == Some(index) {
        let i = choose|i: int| 0 <= i < targets.len() && #[trigger] targets[i] == Some(index);
        assert(stands_for(targets[i], reading, i));
        assert(reading.target(i) == index as int);
    }
}

/// An entry that no options speak of is not updated.
proof fn lemma_untouched(reading: Reading, j: int, n: int)
    requires
        0 <= n <= reading.configs.len(),
        0 <= j < reading.group.len(),
        !reading.keeps(j),
    ensures
        reading.updated(n)[j] == reading.group[j],
    decreases n,
{
    if n > 0 {
        lemma_untouched(reading, j, n - 1);
        lemma_updated_len(reading, n - 1);
        lemma_matching(reading.group, reading.wanted(n - 1));
        assert(reading.target(n - 1) != j);
    }
}

proof fn lemma_count_kept(reading: Reading, es: Seq<EntryView>, n: int, key: u64)
    requires
        0 <= n <= es.len(),
    ensures
        key_count(reading.kept(es, n), key) <= key_count(es.take(n), key),
    decreases n,
{
    if n > 0 {
        lemma_count_kept(reading, es, n - 1, key);
        assert(es.take(n).drop_last() =~= es.take(n - 1));
        assert(es.take(n) =~= es.take(n - 1).push(es[n - 1]));
        lemma_count_edit(es.take(n - 1), 0, es[n - 1], key);
        lemma_count_edit(reading.kept(es, n - 1), 0, es[n - 1], key);
    }
}

proof fn lemma_count_created(reading: Reading, n: int, key: u64)
    requires
        reading.is_valid(),
        0 <= n <= reading.configs.len(),
    ensures
        key_count(reading.created(n), key) == (if reading.next_key <= key < reading.next_key
            + reading.created(n).len() {
            1nat
        } else {
            0nat
        }),
    decreases n,
{
    if n > 0 {
        lemma_count_created(reading, n - 1, key);
        lemma_created_len(reading, n - 1);
        if !reading.hits(n - 1) {
            let e = reading.created(n).last();
            lemma_count_edit(reading.created(n - 1), 0, e, key);
            lemma_count_one(e, key);
        }
    }
}

/// A reading keeps the keys distinct: no kept entry is doubled, and new entries get new keys.
pub proof fn reading_keeps_keys(tree: TreeView, q: Seq<usize>, reading: Reading)
    requires
        group_at(tree.root, q) == Some(reading.group),
        reading.next_key == tree.next_key,
        reading.is_valid(),
        keys_ok(tree.root, tree.next_key),
    ensures
        keys_ok(tree_read(tree, q, reading).root, tree_read(tree, q, reading).next_key),
{
    let n = reading.configs.len() as int;
    let after = tree_read(tree, q, reading);
    let updated = reading.updated(n);
    let kept = reading.kept(updated, reading.group.len() as int);
    lemma_created_len(reading, n);
    assert forall|key: u64|
        (#[trigger] key_count(after.root, key)) <= 1 && (key >= after.next_key ==> key_count(
            after.root,
            key,
        ) == 0) by {
        lemma_updated_len(reading, n);
        lemma_count_same_shape(updated, reading.group, key);
        lemma_count_kept(reading, updated, reading.group.len() as int, key);
        assert(updated.take(reading.group.len() as int) =~= updated);
        lemma_count_created(reading, n, key);
        lemma_count_concat(kept, reading.created(n), key);
        lemma_count_set_group(tree.root, q, reading.result(), key);
        assert(key_count(tree.root, key) <= 1);
    }
}

/// Finds what each of the options updates, creates the others, and collects what is attached and
/// started.
fn plan_reading(
    group: &Vec<Entry>,
    configs: &Vec<EntryOptions>,
    fresh: &Vec<String>,
    next_key: u64,
    Ghost(reading): Ghost<Reading>,
) -> (r: (Vec<Option<usize>>, Vec<EntryOptions>, Vec<Entry>, Vec<Action>, Vec<Action>))
    requires
        reading.group == entry_views(group@),
        reading.configs == options_views(configs@),
        reading.fresh == texts(fresh@),
        reading.next_key == next_key,
        reading.is_valid(),
    ensures
        r.0@.len() == configs@.len(),
        forall|i: int| 0 <= i < configs@.len() ==> stands_for(#[trigger] r.0@[i], reading, i),
        r.1@.len() == configs@.len(),
        forall|i: int| 0 <= i < configs@.len() ==> (#[trigger] r.1@[i])@ == reading.wanted(i),
        entry_views(r.2@) == reading.created(configs@.len() as int),
        action_views(r.3@) == reading.attach_actions(configs@.len() as int),
        action_views(r.4@) == reading.start_actions(configs@.len() as int),
{
    broadcast use {lemma_entry_view, lemma_views_push, lemma_actions_push};

    let mut targets: Vec<Option<usize>> = Vec::new();
    let mut wanted: Vec<EntryOptions> = Vec::new();
    let mut created: Vec<Entry> = Vec::new();
    let mut attached: Vec<Action> = Vec::new();
    let mut started: Vec<Action> = Vec::new();
    let mut i: usize = 0;
    assert(entry_views(created@) =~= Seq::<EntryView>::empty());
    assert(action_views(attached@) =~= reading.attach_actions(0));
    assert(action_views(started@) =~= Seq::<ActionView>::empty());
    while i < configs.len()
        invariant
            i <= configs@.len(),
            reading.group == entry_views(group@),
            reading.configs == options_views(configs@),
            reading.fresh == texts(fresh@),
            reading.next_key == next_key,
            reading.is_valid(),
            targets@.len() == i,
            forall|j: int| 0 <= j < i ==> stands_for(#[trigger] targets@[j], reading, j),
            wanted@.len() == i,
            forall|j: int| 0 <= j < i ==> (#[trigger] wanted@[j])@ == reading.wanted(j),
            entry_views(created@) == reading.created(i as int),
            created@.len() <= i,
            action_views(attached@) == reading.attach_actions(i as int),
            action_views(started@) == reading.start_actions(i as int),
        decreases configs@.len() - i,
    {
        assert(texts(fresh@).len() == fresh@.len());
        let options = wanted_options(&configs[i], &fresh[i]);
        assert(reading.configs[i as int] == configs@[i as int]@);
        assert(reading.fresh[i as int] == fresh@[i as int]@);
        assert(options@ == reading.wanted(i as int));
        let target = find_matching(group, &options);
        match target {
            Some(t) => {
                assert(reading.group[t as int] == entry_view(group@[t as int]));
                if group[t].fiber.is_none() {
                    started.push(Action::Start(group[t].key));
                }
                assert(action_views(attached@) =~= reading.attach_actions(i + 1));
            },
            None => {
                assert(entry_views(created@).len() == created@.len());
                let key: u64 = next_key + created.len() as u64;
                let mut full = options.duplicate();
                if full.id.as_str().is_empty() {
                    full.id = fresh[i].clone();
                }
                let ghost before = reading.created(i as int);
                let entry = Entry::new(key, full);
                let ghost e = entry@;
                assert(e == fresh_entry(
                    key,
                    with_id(reading.configs[i as int], reading.fresh[i as int]),
                ));
                created.push(entry);
                attached.push(Action::Attach(key));
                started.push(Action::Start(key));
                assert(reading.created(i + 1) == before.push(e));
                assert(reading.attach_actions(i + 1) =~= reading.attach_actions(i as int).push(
                    ActionView::Attach(key),
                ));
            },
        }
        targets.push(target);
        wanted.push(options);
        i += 1;
    }
    (targets, wanted, created, attached, started)
}

impl EntryTree {
    /// Reconciles `configs` against the entries of the group at `q`. Options without an id that
    /// make a new entry get the id of `fresh` at their place.
    pub fn read_group(
        &mut self,
        q: &Vec<usize>,
        configs: &Vec<EntryOptions>,
        fresh: &Vec<String>,
    ) -> (r: Vec<Action>)
        requires
            group_at(old(self)@.root, q@) is Some,
            fresh@.len() == configs@.len(),
            forall|i: int|
                0 <= i < fresh@.len() ==> !uses_id(old(self)@.root, (#[trigger] fresh@[i])@),
            old(self)@.next_key + configs@.len() <= u64::MAX,
        ensures
            ({
                let reading = reading_of(
                    old(self)@,
                    q@,
                    options_views(configs@),
                    texts(fresh@),
                );
                &&& final(self)@ == tree_read(old(self)@, q@, reading)
                &&& action_views(r@) == reading.actions()
            }),
            old(self)@.well_formed() ==> final(self)@.well_formed(),
    {
        broadcast use {lemma_entry_view, lemma_views_push, lemma_views_update, lemma_actions_push};

        let ghost before = self@;
        let ghost reading = reading_of(before, q@, options_views(configs@), texts(fresh@));
        let ghost n = configs@.len() as int;
        let mut below = q.clone();
        assert(below@ =~= q@);
        below.push(0);
        assert(below@.drop_last() =~= q@);
        let inherited = self.inherits_below(&below);
        assert(q@.skip(0) =~= q@);
        let (targets, wanted, created, attached, started) = plan_reading(
            group_ref(&self.root.entries, q, 0),
            configs,
            fresh,
            self.next_key,
            Ghost(reading),
        );
        let ghost made = entry_views(created@);
        proof {
            lemma_created_len(reading, n);
            assert(made.len() == created@.len());
        }
        self.next_key = self.next_key + created.len() as u64;
        let mut actions = attached;
        let mut tasks: usize = self.tasks;
        let group = group_mut(&mut self.root.entries, q, 0);
        let mut i: usize = 0;
        while i < wanted.len()
            invariant
                i <= wanted@.len(),
                wanted@.len() == n,
                targets@.len() == n,
                n == reading.configs.len(),
                inherited == reading.inherited,
                forall|j: int| 0 <= j < n ==> stands_for(#[trigger] targets@[j], reading, j),
                forall|j: int| 0 <= j < n ==> (#[trigger] wanted@[j])@ == reading.wanted(j),
                entry_views(group@) == reading.updated(i as int),
                action_views(actions@) == reading.attach_actions(n) + reading.plan_actions(
                    i as int,
                ),
                tasks == reading.planned_tasks(before.tasks, i as int),
            decreases wanted@.len() - i,
        {
            broadcast use {lemma_entry_view, lemma_views_update};

            assert(stands_for(targets@[i as int], reading, i as int));
            if let Some(t) = targets[i] {
                proof {
                    lemma_updated_len(reading, i as int);
                    assert(entry_views(group@).len() == group@.len());
                    assert(entry_views(group@)[t as int] == entry_view(group@[t as int]));
                }
                let update = PartialEntryOptions::from_options(&wanted[i]);
                let entry = &mut group[t];
                let key = entry.key;
                let plan = entry.update(inherited, &update, false, true);
                if let UpdatePlan::Stop(Some(_)) = &plan {
                    tasks = if tasks == usize::MAX {
                        0
                    } else {
                        tasks + 1
                    };
                }
                let ghost so_far = action_views(actions@);
                let ghost planned = plan_actions(key, plan@);
                push_plan(&mut actions, key, plan);
                assert(reading.attach_actions(n) + (reading.plan_actions(i as int) + planned)
                    =~= so_far + planned);
            }
            i += 1;
        }
        let ghost updated = reading.updated(n);
        proof {
            lemma_updated_len(reading, n);
        }
        let mut at: usize = 0;
        let mut j: usize = 0;
        let total: usize = group.len();
        let ghost planned = action_views(actions@);
        let ghost planned_tasks = tasks;
        assert(entry_views(group@).len() == group@.len());
        assert(updated.skip(0) =~= updated);
        assert(reading.kept(updated, 0) + updated =~= updated);
        assert(planned + reading.removal_actions(0) =~= planned);
        while at < group.len()
            invariant
                0 <= at <= group@.len(),
                0 <= j <= total,
                total == reading.group.len(),
                total - j == group@.len() - at,
                targets@.len() == n,
                n == reading.configs.len(),
                n >= 0,
                forall|k: int| 0 <= k < n ==> stands_for(#[trigger] targets@[k], reading, k),
                updated == reading.updated(n),
                updated.len() == total,
                at == reading.kept(updated, j as int).len(),
                entry_views(group@) == reading.kept(updated, j as int) + updated.skip(j as int),
                action_views(actions@) == planned + reading.removal_actions(j as int),
                tasks == reading.removed_tasks(planned_tasks, j as int),
            decreases total - j,
        {
            broadcast use {lemma_entry_view, lemma_views_remove, lemma_actions_push};

            let ghost front = reading.kept(updated, j as int);
            let ghost now = entry_views(group@);
            assert(now[at as int] == updated[j as int]);
            assert(entry_view(group@[at as int]) == updated[j as int]);
            let keep = is_target(&targets, j);
            proof {
                lemma_target(targets@, reading, j);
            }
            if keep {
                assert(front.push(updated[j as int]) + updated.skip(j + 1) =~= now);
                at += 1;
            } else {
                proof {
                    lemma_untouched(reading, j as int, n);
                }
                let entry = group.remove(at);
                assert(entry_views(group@) =~= front + updated.skip(j + 1));
                if let Some(fiber) = entry.fiber {
                    tasks = if tasks == usize::MAX {
                        0
                    } else {
                        tasks + 1
                    };
                    actions.push(Action::Dispose(fiber));
                    assert(planned + reading.removal_actions(j as int).push(
                        ActionView::Dispose(fiber),
                    ) =~= action_views(actions@));
                }
            }
            j += 1;
        }
        let ghost front = reading.kept(updated, total as int);
        assert(entry_views(group@) =~= front);
        let mut created = created;
        let ghost kept_entries = group@;
        let ghost new_entries = created@;
        group.append(&mut created);
        assert(entry_views(group@) =~= entry_views(kept_entries) + entry_views(new_entries));
        self.tasks = tasks;
        let ghost so_far = action_views(actions@);
        let mut started = started;
        let ghost starts = started@;
        let ghost acted = actions@;
        actions.append(&mut started);
        assert(action_views(actions@) =~= action_views(acted) + action_views(starts));
        proof {
            if before.well_formed() {
                reading_keeps_keys(before, q@, reading);
            }
        }
        actions
    }
}

impl Reading {
    /// Every option has an id, and no two have the same.
    pub open spec fn has_distinct_ids(self) -> bool {
        &&& forall|i: int| 0 <= i < self.configs.len() ==> (#[trigger] self.configs[i]).id.len() > 0
        &&& forall|i: int, j: int|
            0 <= i < self.configs.len() && 0 <= j < self.configs.len() && i != j ==> (
            #[trigger] self.configs[i]).id != (#[trigger] self.configs[j]).id
    }
}

proof fn lemma_updated_options(reading: Reading, i: int, n: int)
    requires
        reading.is_valid(),
        reading.has_distinct_ids(),
        0 <= i < n <= reading.configs.len(),
        reading.hits(i),
    ensures
        reading.updated(n)[reading.target(i)].options == reading.configs[i],
    decreases n,
{
    lemma_updated_len(reading, n - 1);
    lemma_matching(reading.group, reading.wanted(i));
    lemma_matching(reading.group, reading.wanted(n - 1));
    if i < n - 1 {
        lemma_updated_options(reading, i, n - 1);
        if reading.hits(n - 1) {
            assert(reading.configs[i].id != reading.configs[n - 1].id);
            assert(reading.target(n - 1) != reading.target(i));
        }
    } else {
        let before = reading.updated(i)[reading.target(i)].options;
        crate::options::full_update_replaces(before, reading.wanted(i));
    }
}

proof fn lemma_kept_from(reading: Reading, es: Seq<EntryView>, n: int, k: int)
    requires
        0 <= n <= es.len(),
        0 <= k < reading.kept(es, n).len(),
    ensures
        exists|j: int| 0 <= j < n && reading.keeps(j) && #[trigger] es[j] == reading.kept(es, n)[k],
    decreases n,
{
    if n > 0 {
        if k < reading.kept(es, n - 1).len() {
            lemma_kept_from(reading, es, n - 1, k);
            let j = choose|j: int|
                0 <= j < n - 1 && reading.keeps(j) && #[trigger] es[j] == reading.kept(es, n - 1)[k];
            assert(es[j] == reading.kept(es, n)[k]);
        } else {
            assert(es[n - 1] == reading.kept(es, n)[k]);
        }
    }
}

proof fn lemma_kept_holds(reading: Reading, es: Seq<EntryView>, n: int, j: int)
    requires
        0 <= j < n <= es.len(),
        reading.keeps(j),
    ensures
        reading.kept(es, n).contains(es[j]),
    decreases n,
{
    let now = reading.kept(es, n);
    if j == n - 1 {
        assert(now[now.len() - 1] == es[j]);
    } else {
        lemma_kept_holds(reading, es, n - 1, j);
        let before = reading.kept(es, n - 1);
        let k = choose|k: int| 0 <= k < before.len() && before[k] == es[j];
        assert(now[k] == es[j]);
    }
}

proof fn lemma_created_from(reading: Reading, n: int, k: int)
    requires
        reading.is_valid(),
        reading.has_distinct_ids(),
        0 <= n <= reading.configs.len(),
        0 <= k < reading.created(n).len(),
    ensures
        exists|i: int|
            0 <= i < n && #[trigger] reading.configs[i] == reading.created(n)[k].options,
    decreases n,
{
    if n > 0 {
        if k < reading.created(n - 1).len() {
            lemma_created_from(reading, n - 1, k);
            let i = choose|i: int|
                0 <= i < n - 1 && #[trigger] reading.configs[i] == reading.created(n
                    - 1)[k].options;
            assert(reading.configs[i] == reading.created(n)[k].options);
        } else {
            assert(reading.configs[n - 1] == reading.created(n)[k].options);
        }
    }
}

proof fn lemma_created_holds(reading: Reading, n: int, i: int)
    requires
        reading.is_valid(),
        reading.has_distinct_ids(),
        0 <= i < n <= reading.configs.len(),
        !reading.hits(i),
    ensures
        exists|k: int|
            0 <= k < reading.created(n).len() && (#[trigger] reading.created(n)[k]).options
                == reading.configs[i],
    decreases n,
{
    let now = reading.created(n);
    if i == n - 1 {
        assert(now[now.len() - 1].options == reading.configs[i]);
    } else {
        lemma_created_holds(reading, n - 1, i);
        let k = choose|k: int|
            0 <= k < reading.created(n - 1).len() && (#[trigger] reading.created(n - 1)[k]).options
                == reading.configs[i];
        assert(now[k].options == reading.configs[i]);
    }
}

/// After a reading of options with ids of their own, all different, the group holds an entry with
/// exactly these options for each of them, and no other entry.
pub proof fn reading_gives_the_options(reading: Reading)
    requires
        reading.is_valid(),
        reading.has_distinct_ids(),
    ensures
        forall|i: int|
            0 <= i < reading.configs.len() ==> exists|k: int|
                0 <= k < reading.result().len() && (#[trigger] reading.result()[k]).options
                    == #[trigger] reading.configs[i],
        forall|k: int|
            0 <= k < reading.result().len() ==> exists|i: int|
                0 <= i < reading.configs.len() && #[trigger] reading.configs[i] == (
                #[trigger] reading.result()[k]).options,
{
    let n = reading.configs.len() as int;
    let m = reading.group.len() as int;
    let updated = reading.updated(n);
    let kept = reading.kept(updated, m);
    let created = reading.created(n);
    lemma_updated_len(reading, n);
    assert forall|i: int| 0 <= i < n implies exists|k: int|
        0 <= k < reading.result().len() && (#[trigger] reading.result()[k]).options
            == #[trigger] reading.configs[i] by {
        lemma_matching(reading.group, reading.wanted(i));
        if reading.hits(i) {
            lemma_updated_options(reading, i, n);
            assert(reading.keeps(reading.target(i)));
            lemma_kept_holds(reading, updated, m, reading.target(i));
            let k = choose|k: int| 0 <= k < kept.len() && kept[k] == updated[reading.target(i)];
            assert(reading.result()[k] == kept[k]);
        } else {
            lemma_created_holds(reading, n, i);
            let k = choose|k: int|
                0 <= k < created.len() && (#[trigger] created[k]).options == reading.configs[i];
            assert(reading.result()[kept.len() + k] == created[k]);
        }
    }
    assert forall|k: int| 0 <= k < reading.result().len() implies exists|i: int|
        0 <= i < reading.configs.len() && #[trigger] reading.configs[i] == (
        #[trigger] reading.result()[k]).options by {
        if k < kept.len() {
            assert(reading.result()[k] == kept[k]);
            lemma_kept_from(reading, updated, m, k);
            let j = choose|j: int|
                0 <= j < m && reading.keeps(j) && #[trigger] updated[j] == kept[k];
            let i = choose|i: int|
                0 <= i < reading.configs.len() && #[trigger] reading.target(i) == j;
            lemma_updated_options(reading, i, n);
            assert(reading.configs[i] == reading.result()[k].options);
        } else {
            assert(reading.result()[k] == created[k - kept.len()]);
            lemma_created_from(reading, n, k - kept.len());
        }
    }
}

/// An entry that the options speak of stays the entry it was: it keeps its key and its subgroup,
/// and its fiber unless the options stop it.
pub proof fn reading_keeps_entries(reading: Reading, j: int)
    requires
        reading.is_valid(),
        reading.has_distinct_ids(),
        0 <= j < reading.group.len(),
        reading.keeps(j),
    ensures
        ({
            let before = reading.group[j];
            let after = reading.updated(reading.configs.len() as int)[j];
            &&& reading.result().contains(after)
            &&& after.key == before.key
            &&& after.subgroup == before.subgroup
            &&& after.fiber == (if crate::entry::must_stop(after.options, reading.inherited) {
                None
            } else {
                before.fiber
            })
        }),
{
    let n = reading.configs.len() as int;
    let updated = reading.updated(n);
    lemma_updated_len(reading, n);
    lemma_kept_holds(reading, updated, reading.group.len() as int, j);
    let kept = reading.kept(updated, reading.group.len() as int);
    let k = choose|k: int| 0 <= k < kept.len() && kept[k] == updated[j];
    assert(reading.result()[k] == updated[j]);
    let i = choose|i: int| 0 <= i < reading.configs.len() && #[trigger] reading.target(i) == j;
    lemma_updated_fiber(reading, i, n);
}

proof fn lemma_updated_fiber(reading: Reading, i: int, n: int)
    requires
        reading.is_valid(),
        reading.has_distinct_ids(),
        0 <= i < reading.configs.len(),
        0 <= n <= reading.configs.len(),
        reading.hits(i),
    ensures
        ({
            let j = reading.target(i);
            let after = reading.updated(n)[j];
            &&& n <= i ==> after == reading.group[j]
            &&& n > i ==> after.fiber == (if crate::entry::must_stop(
                after.options,
                reading.inherited,
            ) {
                None
            } else {
                reading.group[j].fiber
            })
        }),
    decreases n,
{
    if n > 0 {
        lemma_updated_fiber(reading, i, n - 1);
        lemma_updated_len(reading, n - 1);
        lemma_matching(reading.group, reading.wanted(i));
        lemma_matching(reading.group, reading.wanted(n - 1));
        if n - 1 != i && reading.hits(n - 1) {
            assert(reading.configs[i].id != reading.configs[n - 1].id);
            assert(reading.target(n - 1) != reading.target(i));
        }
    }
}

/// Reading the options that the entries of a group already have, under ids that are all different,
/// changes no entry and asks for nothing but the start of the entries that have no fiber, provided
/// that no running entry is to stop.
pub proof fn rereading_changes_nothing(reading: Reading)
    requires
        reading.is_valid(),
        reading.has_distinct_ids(),
        reading.configs.len() == reading.group.len(),
        forall|i: int|
            0 <= i < reading.group.len() ==> reading.configs[i] == (
            #[trigger] reading.group[i]).options,
        forall|i: int|
            0 <= i < reading.group.len() ==> (#[trigger] reading.group[i]).fiber is None
                || !crate::entry::must_stop(reading.group[i].options, reading.inherited),
    ensures
        reading.result() == reading.group,
        reading.actions() == reading.start_actions(reading.configs.len() as int),
{
    let n = reading.configs.len() as int;
    assert forall|i: int| 0 <= i < n implies #[trigger] reading.target(i) == i by {
        assert(reading.configs[i] == reading.group[i].options);
        assert(reading.configs[i].id.len() > 0);
        assert forall|j: int| 0 <= j < i implies !speaks_of(
            reading.wanted(i),
            #[trigger] reading.group[j],
        ) by {
            assert(reading.configs[j] == reading.group[j].options);
            assert(reading.configs[j].id != reading.configs[i].id);
        }
        lemma_matching_is(reading.group, reading.wanted(i), i);
    }
    lemma_reread(reading, n);
    let updated = reading.updated(n);
    lemma_all_kept(reading, updated, n);
    assert(updated.take(n) =~= reading.group);
    assert(reading.created(n) =~= Seq::<EntryView>::empty());
    assert(reading.result() =~= reading.group);
    lemma_none_removed(reading, n);
    assert(reading.attach_actions(n) =~= Seq::<ActionView>::empty());
    assert(reading.actions() =~= reading.start_actions(n));
}

proof fn lemma_reread(reading: Reading, n: int)
    requires
        reading.is_valid(),
        reading.has_distinct_ids(),
        reading.configs.len() == reading.group.len(),
        0 <= n <= reading.configs.len(),
        forall|i: int| 0 <= i < reading.configs.len() ==> #[trigger] reading.target(i) == i,
        forall|i: int|
            0 <= i < reading.group.len() ==> reading.configs[i] == (
            #[trigger] reading.group[i]).options,
        forall|i: int|
            0 <= i < reading.group.len() ==> (#[trigger] reading.group[i]).fiber is None
                || !crate::entry::must_stop(reading.group[i].options, reading.inherited),
    ensures
        reading.updated(n) == reading.group,
        reading.plan_actions(n) == Seq::<ActionView>::empty(),
        reading.created(n) == Seq::<EntryView>::empty(),
    decreases n,
{
    if n > 0 {
        lemma_reread(reading, n - 1);
        assert(reading.target(n - 1) == n - 1);
        let e = reading.group[n - 1];
        assert(reading.configs[n - 1] == e.options);
        assert(reading.configs[n - 1].id.len() > 0);
        assert(reading.wanted(n - 1) == e.options);
        unchanged_update(e, reading.inherited);
        let after = entry_after(e, reading.inherited, e.options.as_partial(), false, true);
        assert(after == e);
        assert(reading.group.update(n - 1, e) =~= reading.group);
        assert(plan_actions(e.key, reading.plan(n - 1)) =~= Seq::<ActionView>::empty());
        assert(reading.plan_actions(n) =~= Seq::<ActionView>::empty());
    }
}

proof fn lemma_all_kept(reading: Reading, es: Seq<EntryView>, n: int)
    requires
        0 <= n <= es.len(),
        n <= reading.configs.len(),
        forall|i: int| 0 <= i < reading.configs.len() ==> #[trigger] reading.target(i) == i,
    ensures
        reading.kept(es, n) == es.take(n),
    decreases n,
{
    if n > 0 {
        lemma_all_kept(reading, es, n - 1);
        assert(reading.target(n - 1) == n - 1);
        assert(reading.keeps(n - 1));
        assert(es.take(n - 1).push(es[n - 1]) =~= es.take(n));
    } else {
        assert(es.take(0) =~= Seq::<EntryView>::empty());
    }
}

proof fn lemma_none_removed(reading: Reading, n: int)
    requires
        0 <= n <= reading.configs.len(),
        forall|i: int| 0 <= i < reading.configs.len() ==> #[trigger] reading.target(i) == i,
    ensures
        reading.removal_actions(n) == Seq::<ActionView>::empty(),
    decreases n,
{
    if n > 0 {
        lemma_none_removed(reading, n - 1);
        assert(reading.target(n - 1) == n - 1);
        assert(reading.keeps(n - 1));
    }
}

} // verus!
