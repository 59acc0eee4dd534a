//! The entry tree: lookup, and every change of its structure.

use crate::dict::{assign, lookup, Dict, Duplicate};
use crate::entry::{entry_ref, entry_view, entry_views, lemma_entry_view, Entry, EntryGroup};
use crate::forest::{
    disabled_at, entry_at, full_id, group_at, has_entry, id_place, ids_along, inherits_disabled,
    keys_ok, lemma_group_step, lemma_id_place_is, resolve_ids, walk, EntryView,
};
use crate::options::{is_true, EntryOptions, OptionsView};
use crate::text::{
    clone_texts, concat, concat3, has_prefix, join_texts, same_text, split, split_text,
    starts_with, texts,
};
use vstd::prelude::*;

verus! {

/// A plugin as the tree knows it.
pub struct Plugin {
    /// Whether the plugin gets its config list as it is written.
    pub is_group: bool,
    /// The plugin's own name.
    pub name: Option<String>,
    /// The services that the plugin depends on.
    pub inject: Vec<String>,
    /// The number of the callback that applies it.
    pub apply: u64,
}

/// What a plugin is.
pub struct PluginView {
    pub is_group: bool,
    pub name: Option<Seq<char>>,
    pub inject: Seq<Seq<char>>,
    pub apply: u64,
}

impl View for Plugin {
    type V = PluginView;

    open spec fn view(&self) -> PluginView {
        PluginView {
            is_group: self.is_group,
            name: crate::options::text_option(self.name),
            inject: texts(self.inject@),
            apply: self.apply,
        }
    }
}

impl Duplicate for Plugin {
    fn duplicate(&self) -> (r: Self) {
        Plugin {
            is_group: self.is_group,
            name: crate::options::copy_text_option(&self.name),
            inject: clone_texts(&self.inject),
            apply: self.apply,
        }
    }
}

/// The entry tree.
pub struct EntryTree {
    /// Whether apply and reload messages are logged.
    pub enable_logs: bool,
    /// Plugins by name.
    pub plugins: Dict<Plugin>,
    /// The `cordis:` builtin plugins by name.
    pub builtins: Dict<Plugin>,
    /// The root group.
    pub root: EntryGroup,
    /// The number of counted tasks under way.
    pub tasks: usize,
    /// The key that the next new entry gets.
    pub next_key: u64,
}

/// What an entry tree is.
pub struct TreeView {
    pub enable_logs: bool,
    pub plugins: Seq<(Seq<char>, PluginView)>,
    pub builtins: Seq<(Seq<char>, PluginView)>,
    pub root: Seq<EntryView>,
    pub tasks: usize,
    pub next_key: u64,
}

impl View for EntryTree {
    type V = TreeView;

    open spec fn view(&self) -> TreeView {
        TreeView {
            enable_logs: self.enable_logs,
            plugins: self.plugins@,
            builtins: self.builtins@,
            root: self.root@,
            tasks: self.tasks,
            next_key: self.next_key,
        }
    }
}

impl TreeView {
    /// No two entries have the same key, and the keys to come are unused.
    pub open spec fn well_formed(self) -> bool {
        keys_ok(self.root, self.next_key)
    }
}

/// The prefix of names that mean builtin plugins only.
pub open spec fn builtin_prefix() -> Seq<char> {
    "cordis:"@
}

/// What a plugin name stands for: after `cordis:` a builtin, else a registered plugin, else a
/// builtin.
pub open spec fn plugin_named(tree: TreeView, name: Seq<char>) -> Result<PluginView, Seq<char>> {
    if has_prefix(name, builtin_prefix()) {
        match lookup(tree.builtins, name.skip(builtin_prefix().len() as int)) {
            Some(plugin) => Ok(plugin),
            None => Err("cannot resolve builtin \""@ + name + "\""@),
        }
    } else {
        match lookup(tree.plugins, name) {
            Some(plugin) => Ok(plugin),
            None => match lookup(tree.builtins, name) {
                Some(plugin) => Ok(plugin),
                None => Err("cannot resolve plugin \""@ + name + "\""@),
            },
        }
    }
}

/// The views of a list of places.
pub open spec fn places(list: Seq<Vec<usize>>) -> Seq<Seq<usize>> {
    Seq::new(list.len(), |i: int| list[i]@)
}

/// Every list of entries in the forest has a length that a machine index can count.
pub open spec fn fits(es: Seq<EntryView>) -> bool
    decreases es,
{
    es.len() <= usize::MAX && forall|i: int|
        0 <= i < es.len() ==> match (#[trigger] es[i]).subgroup {
            Some(g) => fits(g),
            None => true,
        }
}

/// The lists of an actual tree fit.
pub proof fn lemma_fits(es: Vec<Entry>)
    ensures
        fits(entry_views(es@)),
    decreases es,
{
    broadcast use lemma_entry_view;

    assert(es.len() <= usize::MAX);
    assert forall|i: int| 0 <= i < es@.len() implies match (
    #[trigger] entry_views(es@)[i]).subgroup {
        Some(g) => fits(g),
        None => true,
    } by {
        if let Some(g) = es@[i].subgroup {
            lemma_fits(g.entries);
        }
    }
}

/// The place that an id written with colons leads to.
pub open spec fn place_of(es: Seq<EntryView>, id: Seq<char>) -> Option<Seq<usize>> {
    resolve_ids(es, split(id, ':'))
}

/// The group that a parent id means; without an id the root group.
pub open spec fn group_place_of(es: Seq<EntryView>, parent: Option<Seq<char>>) -> Option<
    Seq<usize>,
> {
    match parent {
        None => Some(Seq::empty()),
        Some(id) => match place_of(es, id) {
            Some(p) => if entry_at(es, p).subgroup is Some {
                Some(p)
            } else {
                None
            },
            None => None,
        },
    }
}

/// Whether some entry of the forest has this id of its own.
pub open spec fn uses_id(es: Seq<EntryView>, id: Seq<char>) -> bool
    decreases es,
{
    es.len() > 0 && (es.last().options.id == id || uses_id(es.drop_last(), id) || match es.last(

    ).subgroup {
        Some(g) => uses_id(g, id),
        None => false,
    })
}

/// The view of an optional text slice.
pub open spec fn str_option(text: Option<&str>) -> Option<Seq<char>> {
    match text {
        Some(t) => Some(t@),
        None => None,
    }
}

/// The index of the first entry with this id, the length where there is none.
fn first_with_id(entries: &Vec<Entry>, id: &str) -> (r: usize)
    ensures
        r == id_place(entry_views(entries@), id@),
        r <= entries@.len(),
        r < entries@.len() ==> entries@[r as int].options.id@ == id@,
{
    broadcast use lemma_entry_view;

    let ghost es = entry_views(entries@);
    let mut i: usize = 0;
    while i < entries.len()
        invariant
            i <= entries@.len(),
            es == entry_views(entries@),
            forall|j: int| 0 <= j < i ==> (#[trigger] es[j]).options.id != id@,
        decreases entries@.len() - i,
    {
        if same_text(entries[i].options.id.as_str(), id) {
            proof {
                lemma_id_place_is(es, id@, i as int);
            }
            return i;
        }
        i += 1;
    }
    proof {
        lemma_id_place_is(es, id@, i as int);
    }
    i
}

/// The place in `entries` that the ids from index `d` on lead to.
fn locate_from(entries: &Vec<Entry>, ids: &Vec<String>, d: usize) -> (r: Option<Vec<usize>>)
    requires
        d <= ids@.len(),
    ensures
        match r {
            Some(p) => resolve_ids(entry_views(entries@), texts(ids@).skip(d as int)) == Some(p@)
                && has_entry(entry_views(entries@), p@) && ids_along(entry_views(entries@), p@)
                == texts(ids@).skip(d as int),
            None => resolve_ids(entry_views(entries@), texts(ids@).skip(d as int)) is None,
        },
    decreases ids@.len() - d,
{
    broadcast use lemma_entry_view;

    if d == ids.len() {
        return None;
    }
    let ghost es = entry_views(entries@);
    let ghost rest_ids = texts(ids@).skip(d as int);
    assert(rest_ids.drop_first() =~= texts(ids@).skip(d + 1));
    assert(rest_ids[0] == ids@[d as int]@);
    let i = first_with_id(entries, ids[d].as_str());
    if i == entries.len() {
        return None;
    }
    let mut place: Vec<usize> = Vec::new();
    place.push(i);
    assert(place@ =~= seq![i]);
    assert(place@.drop_last() =~= Seq::<usize>::empty());
    if d + 1 == ids.len() {
        assert(rest_ids =~= seq![rest_ids[0]]);
        assert(ids_along(es, place@) =~= rest_ids);
        return Some(place);
    }
    match &entries[i].subgroup {
        None => None,
        Some(g) => {
            match locate_from(&g.entries, ids, d + 1) {
                None => None,
                Some(below) => {
                    let mut below = below;
                    let ghost tail = below@;
                    place.append(&mut below);
                    assert(place@ =~= seq![i] + tail);
                    proof {
                        lemma_group_step(es, place@);
                        assert(place@.drop_first() =~= tail);
                        assert(ids_along(es, place@) =~= rest_ids);
                    }
                    Some(place)
                },
            }
        },
    }
}

/// Adds every place below `base` to `out`, depth first.
fn collect_places(entries: &Vec<Entry>, base: &Vec<usize>, out: &mut Vec<Vec<usize>>)
    ensures
        places(final(out)@) == places(old(out)@) + walk(entry_views(entries@), base@),
    decreases entries,
{
    broadcast use lemma_entry_view;

    let ghost es = entry_views(entries@);
    let ghost start = places(out@);
    let mut i: usize = 0;
    assert(es.take(0) =~= Seq::<EntryView>::empty());
    assert(start + walk(es.take(0), base@) =~= start);
    while i < entries.len()
        invariant
            i <= entries@.len(),
            es == entry_views(entries@),
            places(out@) == start + walk(es.take(i as int), base@),
        decreases entries@.len() - i,
    {
        let ghost was = places(out@);
        let ghost walked = walk(es.take(i as int), base@);
        let mut at = base.clone();
        assert(at@ =~= base@);
        at.push(i);
        let mine = at.clone();
        assert(mine@ =~= at@);
        out.push(mine);
        assert(places(out@) =~= was.push(at@));
        assert(es.take(i + 1).drop_last() =~= es.take(i as int));
        assert(es.take(i + 1).last() == entry_view(entries@[i as int]));
        match &entries[i].subgroup {
            Some(g) => {
                collect_places(&g.entries, &at, out);
                assert(es.take(i + 1).last().subgroup == Some(entry_views(g.entries@)));
                assert(es.take(i + 1).len() == i + 1);
                assert(at@ == base@.push((es.take(i + 1).len() - 1) as usize));
                assert(walk(es.take(i + 1), base@) == walked.push(at@) + walk(g@, at@));
                assert(places(out@) =~= start + (walked.push(at@) + walk(g@, at@)));
            },
            None => {
                assert(walk(es.take(i + 1), base@) =~= walked.push(at@));
                assert(places(out@) =~= start + walked.push(at@));
            },
        }
        i += 1;
    }
    assert(es.take(i as int) =~= es);
}

/// Every place of the walk leads to an entry.
pub proof fn lemma_walk_has_entries(es: Seq<EntryView>, base: Seq<usize>, i: int)
    requires
        fits(es),
        0 <= i < walk(es, base).len(),
    ensures
        walk(es, base)[i].len() > base.len(),
        walk(es, base)[i].take(base.len() as int) == base,
        has_entry(es, walk(es, base)[i].skip(base.len() as int)),
    decreases es,
{
    let all = es;
    let last = es.len() - 1;
    let at = base.push(last as usize);
    let front = walk(es.drop_last(), base);
    let p = walk(es, base)[i];
    let rel = p.skip(base.len() as int);
    if i < front.len() {
        assert(fits(es.drop_last())) by {
            assert forall|j: int| 0 <= j < es.drop_last().len() implies match (
            #[trigger] es.drop_last()[j]).subgroup {
                Some(g) => fits(g),
                None => true,
            } by {
                assert(es[j] == es.drop_last()[j]);
            }
        }
        lemma_walk_has_entries(es.drop_last(), base, i);
        if rel.len() == 1 {
            assert(rel.drop_last() =~= Seq::<usize>::empty());
        } else {
            lemma_group_step(es, rel);
            lemma_group_step(es.drop_last(), rel);
        }
    } else if i == front.len() {
        assert(p == at);
        assert(p.take(base.len() as int) =~= base);
        assert(rel =~= seq![last as usize]);
        assert(rel.drop_last() =~= Seq::<usize>::empty());
    } else {
        let g = es.last().subgroup->0;
        assert(es[last].subgroup is Some);
        lemma_walk_has_entries(g, at, i - front.len() - 1);
        assert(p == walk(g, at)[i - front.len() - 1]);
        assert(p.take(base.len() as int) =~= p.take(at.len() as int).take(base.len() as int));
        assert(at.take(base.len() as int) =~= base);
        assert(rel.drop_first() =~= p.skip(at.len() as int));
        assert(p.take(at.len() as int)[base.len() as int] == last as usize);
        assert(rel[0] == last as usize);
        lemma_group_step(es, rel);
    }
}

/// What to look for in the tree.
pub enum Query {
    /// The entry with this key.
    Key(u64),
    /// The entry with this root fiber.
    Fiber(u64),
    /// The entry with this full id.
    FullId(String),
}

/// What a query asks for.
pub enum QueryView {
    Key(u64),
    Fiber(u64),
    FullId(Seq<char>),
}

impl View for Query {
    type V = QueryView;

    open spec fn view(&self) -> QueryView {
        match self {
            Query::Key(key) => QueryView::Key(*key),
            Query::Fiber(fiber) => QueryView::Fiber(*fiber),
            Query::FullId(id) => QueryView::FullId(id@),
        }
    }
}

/// Whether the entry at `p` is what the query asks for.
pub open spec fn answers(es: Seq<EntryView>, p: Seq<usize>, query: QueryView) -> bool {
    match query {
        QueryView::Key(key) => entry_at(es, p).key == key,
        QueryView::Fiber(fiber) => entry_at(es, p).fiber == Some(fiber),
        QueryView::FullId(id) => full_id(es, p) == id,
    }
}

/// The first place of the list that answers the query.
pub open spec fn first_answer(es: Seq<EntryView>, list: Seq<Seq<usize>>, query: QueryView) -> Option<
    Seq<usize>,
>
    decreases list.len(),
{
    if list.len() == 0 {
        None
    } else if answers(es, list[0], query) {
        Some(list[0])
    } else {
        first_answer(es, list.drop_first(), query)
    }
}

/// The first place of the tree, depth first, that answers the query.
pub open spec fn found(es: Seq<EntryView>, query: QueryView) -> Option<Seq<usize>> {
    first_answer(es, walk(es, Seq::empty()), query)
}

proof fn lemma_first_answer(es: Seq<EntryView>, list: Seq<Seq<usize>>, query: QueryView, n: int)
    requires
        0 <= n <= list.len(),
        forall|i: int| 0 <= i < n ==> !answers(es, #[trigger] list[i], query),
        n < list.len() ==> answers(es, list[n], query),
    ensures
        first_answer(es, list, query) == (if n < list.len() {
            Some(list[n])
        } else {
            None
        }),
    decreases list.len(),
{
    if list.len() > 0 && n > 0 {
        assert(!answers(es, list[0], query));
        let rest = list.drop_first();
        assert forall|i: int| 0 <= i < n - 1 implies !answers(es, #[trigger] rest[i], query) by {
            assert(rest[i] == list[i + 1]);
        }
        lemma_first_answer(es, rest, query, n - 1);
    }
}

/// Whether the entry at `p` still has something to do, where `moving` are the fibers in motion.
pub open spec fn is_pending(es: Seq<EntryView>, p: Seq<usize>, moving: Seq<u64>) -> bool {
    let e = entry_at(es, p);
    e.init_task || (e.fiber is Some && moving.contains(e.fiber->0)) || (e.fiber is None
        && !disabled_at(es, p) && e.options.group != Some(true))
}

/// The places that still have something to do.
pub open spec fn pending_places(es: Seq<EntryView>, moving: Seq<u64>) -> Seq<Seq<usize>> {
    walk(es, Seq::empty()).filter(|p: Seq<usize>| is_pending(es, p, moving))
}

/// The number of tasks that a tree still has.
pub open spec fn task_count(tree: TreeView, moving: Seq<u64>) -> nat {
    let pending = pending_places(tree.root, moving).len();
    if tree.tasks > pending {
        tree.tasks as nat
    } else {
        pending
    }
}

/// The fibers in motion among the root fibers of the entries, in the order of the walk.
pub open spec fn moving_fibers(es: Seq<EntryView>, list: Seq<Seq<usize>>, moving: Seq<u64>) -> Seq<
    u64,
>
    decreases list.len(),
{
    if list.len() == 0 {
        Seq::empty()
    } else {
        let rest = moving_fibers(es, list.drop_last(), moving);
        match entry_at(es, list.last()).fiber {
            Some(fiber) => if moving.contains(fiber) {
                rest.push(fiber)
            } else {
                rest
            },
            None => rest,
        }
    }
}

/// What waiting for the tree has to do next.
pub enum AwaitStep {
    /// Nothing is under way.
    Done,
    /// Wait for each of these fibers, then look again.
    Fibers(Vec<u64>),
    /// Wait for a task to settle, then look again.
    Task,
}

fn contains_fiber(list: &Vec<u64>, fiber: u64) -> (r: bool)
    ensures
        r == list@.contains(fiber),
{
    let mut i: usize = 0;
    while i < list.len()
        invariant
            i <= list@.len(),
            forall|j: int| 0 <= j < i ==> list@[j] != fiber,
        decreases list@.len() - i,
    {
        if list[i] == fiber {
            return true;
        }
        i += 1;
    }
    false
}

/// Adds the ids from index `d` of the way to `p` on.
fn collect_ids(entries: &Vec<Entry>, p: &Vec<usize>, d: usize, out: &mut Vec<String>)
    requires
        d < p@.len(),
        has_entry(entry_views(entries@), p@.skip(d as int)),
    ensures
        texts(final(out)@) == texts(old(out)@) + ids_along(
            entry_views(entries@),
            p@.skip(d as int),
        ),
    decreases p@.len() - d,
{
    broadcast use lemma_entry_view;

    let ghost es = entry_views(entries@);
    let ghost way = p@.skip(d as int);
    let ghost start = texts(out@);
    proof {
        if way.len() == 1 {
            assert(way.drop_last() =~= Seq::<usize>::empty());
        } else {
            lemma_group_step(es, way);
        }
        assert(way.drop_first() =~= p@.skip(d + 1));
    }
    let e = &entries[p[d]];
    out.push(e.options.id.clone());
    assert(texts(out@) =~= start.push(e.options.id@));
    if d < p.len() - 1 {
        match &e.subgroup {
            Some(g) => {
                collect_ids(&g.entries, p, d + 1, out);
                assert(texts(out@) =~= start + ids_along(es, way));
            },
            None => {},
        }
    } else {
        assert(texts(out@) =~= start + ids_along(es, way));
    }
}

/// Whether an entry on the way to `p`, from index `d` on and above its end, is disabled.
fn inherits_from(entries: &Vec<Entry>, p: &Vec<usize>, d: usize) -> (r: bool)
    requires
        d < p@.len(),
        group_at(entry_views(entries@), p@.skip(d as int).drop_last()) is Some,
    ensures
        r == inherits_disabled(entry_views(entries@), p@.skip(d as int)),
    decreases p@.len() - d,
{
    broadcast use lemma_entry_view;

    let ghost way = p@.skip(d as int);
    if d == p.len() - 1 {
        return false;
    }
    assert(way.drop_first() =~= p@.skip(d + 1));
    assert(way.drop_first().drop_last() =~= way.drop_last().drop_first());
    let e = &entries[p[d]];
    if is_true(e.options.disabled) {
        return true;
    }
    match &e.subgroup {
        Some(g) => inherits_from(&g.entries, p, d + 1),
        None => false,
    }
}

/// Whether an entry of the forest has this id of its own.
fn uses_id_in(entries: &Vec<Entry>, id: &str) -> (r: bool)
    ensures
        r == uses_id(entry_views(entries@), id@),
    decreases entries,
{
    broadcast use lemma_entry_view;

    let ghost es = entry_views(entries@);
    let mut used = false;
    let mut i: usize = 0;
    assert(es.take(0) =~= Seq::<EntryView>::empty());
    while i < entries.len()
        invariant
            i <= entries@.len(),
            es == entry_views(entries@),
            used == uses_id(es.take(i as int), id@),
        decreases entries@.len() - i,
    {
        assert(es.take(i + 1).drop_last() =~= es.take(i as int));
        assert(es.take(i + 1).last() == entry_view(entries@[i as int]));
        if same_text(entries[i].options.id.as_str(), id) {
            used = true;
        }
        match &entries[i].subgroup {
            Some(g) => {
                assert(es.take(i + 1).last().subgroup == Some(entry_views(g.entries@)));
                if uses_id_in(&g.entries, id) {
                    used = true;
                }
            },
            None => {
                assert(es.take(i + 1).last().subgroup is None);
            },
        }
        i += 1;
    }
    assert(es.take(i as int) =~= es);
    used
}

/// The lines that name an entry and its ancestors, the entry first.
pub open spec fn stack_lines(ids: Seq<Seq<char>>) -> Seq<Seq<char>> {
    Seq::new(ids.len(), |i: int| "    at cordis#"@ + ids[ids.len() - 1 - i])
}

impl Entry {
    /// The full id of the entry at `place`: the ids from the root down, with colons between them.
    pub fn id(tree: &EntryTree, place: &Vec<usize>) -> (r: String)
        requires
            has_entry(tree@.root, place@),
        ensures
            r@ == full_id(tree@.root, place@),
    {
        let mut ids: Vec<String> = Vec::new();
        assert(place@.skip(0) =~= place@);
        collect_ids(&tree.root.entries, place, 0, &mut ids);
        assert(texts(ids@) =~= ids_along(tree@.root, place@));
        join_texts(&ids, ":")
    }

    /// The outer stack of the entry at `place`, for error reports.
    pub fn get_outer_stack(tree: &EntryTree, place: &Vec<usize>) -> (r: Vec<String>)
        requires
            has_entry(tree@.root, place@),
        ensures
            texts(r@) == stack_lines(ids_along(tree@.root, place@)),
    {
        let mut ids: Vec<String> = Vec::new();
        assert(place@.skip(0) =~= place@);
        collect_ids(&tree.root.entries, place, 0, &mut ids);
        let ghost all = ids_along(tree@.root, place@);
        assert(texts(ids@) =~= all);
        let mut out: Vec<String> = Vec::new();
        let mut left: usize = ids.len();
        while left > 0
            invariant
                left <= ids@.len(),
                texts(ids@) == all,
                out@.len() == ids@.len() - left,
                forall|j: int|
                    0 <= j < out@.len() ==> (#[trigger] out@[j])@ == "    at cordis#"@
                        + all[all.len() - 1 - j],
            decreases left,
        {
            left -= 1;
            out.push(concat("    at cordis#", ids[left].as_str()));
            assert(all[left as int] == ids@[left as int]@);
        }
        assert(all.len() == ids@.len());
        assert(texts(out@) =~= stack_lines(all));
        out
    }
}

impl EntryTree {
    /// A tree with an empty root group.
    pub fn new() -> (r: EntryTree)
        ensures
            r@ == (TreeView {
                enable_logs: true,
                plugins: Seq::empty(),
                builtins: Seq::empty(),
                root: Seq::empty(),
                tasks: 0,
                next_key: 0,
            }),
            r@.well_formed(),
    {
        EntryTree {
            enable_logs: true,
            plugins: Dict::new(),
            builtins: Dict::new(),
            root: EntryGroup::new(),
            tasks: 0,
            next_key: 0,
        }
    }

    /// Resolves a plugin by name.
    pub fn import(&self, name: &str) -> (r: Result<&Plugin, String>)
        ensures
            match plugin_named(self@, name@) {
                Ok(plugin) => r is Ok && r->Ok_0@ == plugin,
                Err(message) => r is Err && r->Err_0@ == message,
            },
    {
        if starts_with(name, "cordis:") {
            let n: usize = name.unicode_len();
            let k: usize = "cordis:".unicode_len();
            let rest = name.substring_char(k, n);
            assert(rest@ =~= name@.skip(builtin_prefix().len() as int));
            return match self.builtins.get(rest) {
                Some(plugin) => Ok(plugin),
                None => Err(concat3("cannot resolve builtin \"", name, "\"")),
            };
        }
        if let Some(plugin) = self.plugins.get(name) {
            return Ok(plugin);
        }
        match self.builtins.get(name) {
            Some(plugin) => Ok(plugin),
            None => Err(concat3("cannot resolve plugin \"", name, "\"")),
        }
    }

    /// Registers a plugin under a name.
    pub fn register_plugin(&mut self, name: &str, plugin: Plugin)
        ensures
            final(self)@ == (TreeView {
                plugins: assign(old(self)@.plugins, name@, plugin@),
                ..old(self)@
            }),
    {
        self.plugins.insert(name.to_owned(), plugin);
    }

    /// Registers a builtin plugin under a name.
    pub fn register_builtin(&mut self, name: &str, plugin: Plugin)
        ensures
            final(self)@ == (TreeView {
                builtins: assign(old(self)@.builtins, name@, plugin@),
                ..old(self)@
            }),
    {
        self.builtins.insert(name.to_owned(), plugin);
    }

    /// The places of all entries, depth first.
    pub fn places(&self) -> (r: Vec<Vec<usize>>)
        ensures
            places(r@) == walk(self@.root, Seq::empty()),
            forall|i: int| 0 <= i < r@.len() ==> has_entry(self@.root, (#[trigger] r@[i])@),
    {
        let base: Vec<usize> = Vec::new();
        let mut out: Vec<Vec<usize>> = Vec::new();
        collect_places(&self.root.entries, &base, &mut out);
        assert(base@ =~= Seq::<usize>::empty());
        assert(places(out@) =~= walk(self@.root, Seq::empty()));
        proof {
            lemma_fits(self.root.entries);
        }
        assert forall|i: int| 0 <= i < out@.len() implies has_entry(
            self@.root,
            (#[trigger] out@[i])@,
        ) by {
            lemma_walk_has_entries(self@.root, Seq::empty(), i);
            assert(places(out@)[i] == out@[i]@);
            assert(out@[i]@.skip(0) =~= out@[i]@);
        }
        out
    }

    /// All entries, depth first.
    pub fn entries(&self) -> (r: Vec<&Entry>)
        ensures
            r@.len() == walk(self@.root, Seq::empty()).len(),
            forall|i: int|
                0 <= i < r@.len() ==> (#[trigger] r@[i])@ == entry_at(
                    self@.root,
                    walk(self@.root, Seq::empty())[i],
                ),
    {
        let places = self.places();
        let mut out: Vec<&Entry> = Vec::new();
        let mut i: usize = 0;
        while i < places.len()
            invariant
                i <= places@.len(),
                out@.len() == i,
                self::places(places@) == walk(self@.root, Seq::empty()),
                forall|j: int|
                    0 <= j < places@.len() ==> has_entry(self@.root, (#[trigger] places@[j])@),
                forall|j: int|
                    0 <= j < i ==> (#[trigger] out@[j])@ == entry_at(
                        self@.root,
                        walk(self@.root, Seq::empty())[j],
                    ),
            decreases places@.len() - i,
        {
            assert(self::places(places@)[i as int] == places@[i as int]@);
            out.push(entry_ref(&self.root.entries, &places[i]));
            i += 1;
        }
        out
    }

    /// The entry at `place`.
    pub fn entry(&self, place: &Vec<usize>) -> (r: &Entry)
        requires
            has_entry(self@.root, place@),
        ensures
            r@ == entry_at(self@.root, place@),
    {
        entry_ref(&self.root.entries, place)
    }

    /// Whether an entry above the one at `place` is disabled.
    pub fn inherits(&self, place: &Vec<usize>) -> (r: bool)
        requires
            has_entry(self@.root, place@),
        ensures
            r == inherits_disabled(self@.root, place@),
    {
        assert(place@.skip(0) =~= place@);
        inherits_from(&self.root.entries, place, 0)
    }

    /// Whether an entry above the end of `place` is disabled, where there need not be an entry.
    pub fn inherits_below(&self, place: &Vec<usize>) -> (r: bool)
        requires
            place@.len() > 0,
            group_at(self@.root, place@.drop_last()) is Some,
        ensures
            r == inherits_disabled(self@.root, place@),
    {
        assert(place@.skip(0) =~= place@);
        inherits_from(&self.root.entries, place, 0)
    }

    /// Whether the entry at `place` counts as disabled.
    pub fn disabled(&self, place: &Vec<usize>) -> (r: bool)
        requires
            has_entry(self@.root, place@),
        ensures
            r == disabled_at(self@.root, place@),
    {
        let inherited = self.inherits(place);
        self.entry(place).disabled(inherited)
    }

    fn answers(&self, place: &Vec<usize>, query: &Query) -> (r: bool)
        requires
            has_entry(self@.root, place@),
        ensures
            r == answers(self@.root, place@, query@),
    {
        broadcast use lemma_entry_view;

        let e = self.entry(place);
        match query {
            Query::Key(key) => e.key == *key,
            Query::Fiber(fiber) => match e.fiber {
                Some(own) => own == *fiber,
                None => false,
            },
            Query::FullId(id) => Entry::id(self, place) == *id,
        }
    }

    /// The first place, depth first, that answers the query.
    pub fn find(&self, query: &Query) -> (r: Option<Vec<usize>>)
        ensures
            match r {
                Some(p) => found(self@.root, query@) == Some(p@) && has_entry(self@.root, p@)
                    && answers(self@.root, p@, query@),
                None => found(self@.root, query@) is None,
            },
    {
        let places = self.places();
        let ghost all = walk(self@.root, Seq::empty());
        let mut i: usize = 0;
        while i < places.len()
            invariant
                i <= places@.len(),
                self::places(places@) == all,
                all == walk(self@.root, Seq::empty()),
                forall|j: int|
                    0 <= j < places@.len() ==> has_entry(self@.root, (#[trigger] places@[j])@),
                forall|j: int| 0 <= j < i ==> !answers(self@.root, #[trigger] all[j], query@),
            decreases places@.len() - i,
        {
            assert(self::places(places@)[i as int] == places@[i as int]@);
            if self.answers(&places[i], query) {
                proof {
                    lemma_first_answer(self@.root, all, query@, i as int);
                }
                let place = places[i].clone();
                assert(place@ =~= places@[i as int]@);
                return Some(place);
            }
            i += 1;
        }
        proof {
            assert(self::places(places@).len() == places@.len());
            lemma_first_answer(self@.root, all, query@, i as int);
        }
        None
    }

    /// Finds an entry by its full id.
    pub fn resolve(&self, id: &str) -> (r: Option<&Entry>)
        ensures
            match found(self@.root, QueryView::FullId(id@)) {
                Some(p) => r is Some && r->0@ == entry_at(self@.root, p),
                None => r is None,
            },
    {
        let query = Query::FullId(id.to_owned());
        match self.find(&query) {
            Some(place) => Some(self.entry(&place)),
            None => None,
        }
    }

    /// The place that an id leads to, group by group along its colons.
    pub fn locate_path(&self, id: &str) -> (r: Result<Vec<usize>, String>)
        ensures
            match place_of(self@.root, id@) {
                Some(p) => r is Ok && r->Ok_0@ == p && has_entry(self@.root, p) && ids_along(
                    self@.root,
                    p,
                ) == split(id@, ':'),
                None => r is Err && r->Err_0@ == "cannot resolve entry "@ + id@,
            },
    {
        let parts = split_text(id, ':');
        assert(texts(parts@).skip(0) =~= texts(parts@));
        match locate_from(&self.root.entries, &parts, 0) {
            Some(place) => Ok(place),
            None => Err(concat("cannot resolve entry ", id)),
        }
    }

    /// Resolves an entry by id, walking nested groups along its colons.
    pub fn resolve_path(&self, id: &str) -> (r: Result<&Entry, String>)
        ensures
            match place_of(self@.root, id@) {
                Some(p) => r is Ok && r->Ok_0@ == entry_at(self@.root, p),
                None => r is Err && r->Err_0@ == "cannot resolve entry "@ + id@,
            },
    {
        match self.locate_path(id) {
            Ok(place) => Ok(self.entry(&place)),
            Err(message) => Err(message),
        }
    }

    /// Resolves a group; no id means the root group.
    pub fn resolve_group(&self, id: Option<&str>) -> (r: Result<Vec<usize>, String>)
        ensures
            match group_place_of(self@.root, str_option(id)) {
                Some(q) => r is Ok && r->Ok_0@ == q && group_at(self@.root, q) is Some,
                None => r is Err && r->Err_0@ == match place_of(self@.root, id->0@) {
                    Some(_) => "entry "@ + id->0@ + " is not a group"@,
                    None => "cannot resolve entry "@ + id->0@,
                },
            },
    {
        broadcast use lemma_entry_view;

        match id {
            None => {
                let root: Vec<usize> = Vec::new();
                assert(root@ =~= Seq::<usize>::empty());
                Ok(root)
            },
            Some(id) => {
                let place = match self.locate_path(id) {
                    Ok(place) => place,
                    Err(message) => {
                        return Err(message);
                    },
                };
                match &self.entry(&place).subgroup {
                    Some(_) => {
                        proof {
                            lemma_group_of_entry(self@.root, place@);
                        }
                        Ok(place)
                    },
                    None => Err(concat3("entry ", id, " is not a group")),
                }
            },
        }
    }

    /// Whether `id` is the own id of some entry.
    pub fn is_used_id(&self, id: &str) -> (r: bool)
        ensures
            r == uses_id(self@.root, id@),
    {
        uses_id_in(&self.root.entries, id)
    }

    /// Gives options without an id the candidate, unless some entry has it already; says whether
    /// the options have an id now.
    pub fn ensure_id(&self, options: &mut EntryOptions, candidate: &str) -> (r: bool)
        ensures
            final(options)@ == (if old(options)@.id.len() == 0 && !uses_id(
                self@.root,
                candidate@,
            ) {
                OptionsView { id: candidate@, ..old(options)@ }
            } else {
                old(options)@
            }),
            r == (old(options)@.id.len() > 0 || !uses_id(self@.root, candidate@)),
    {
        if !options.id.as_str().is_empty() {
            return true;
        }
        if self.is_used_id(candidate) {
            return false;
        }
        options.id = candidate.to_owned();
        true
    }

    /// The number of tasks under way, where `moving` are the fibers in motion.
    pub fn get_tasks(&self, moving: &Vec<u64>) -> (r: usize)
        ensures
            r == task_count(self@, moving@),
    {
        broadcast use lemma_entry_view;

        let places = self.places();
        let ghost all = walk(self@.root, Seq::empty());
        let ghost keep = |p: Seq<usize>| is_pending(self@.root, p, moving@);
        let mut pending: usize = 0;
        let mut i: usize = 0;
        proof {
            reveal(Seq::filter);
            assert(all.take(0) =~= Seq::<Seq<usize>>::empty());
        }
        while i < places.len()
            invariant
                i <= places@.len(),
                pending <= i,
                self::places(places@) == all,
                keep == (|p: Seq<usize>| is_pending(self@.root, p, moving@)),
                forall|j: int|
                    0 <= j < places@.len() ==> has_entry(self@.root, (#[trigger] places@[j])@),
                pending == all.take(i as int).filter(keep).len(),
            decreases places@.len() - i,
        {
            reveal(Seq::filter);
            assert(self::places(places@)[i as int] == places@[i as int]@);
            assert(all.take(i + 1).drop_last() =~= all.take(i as int));
            let e = self.entry(&places[i]);
            let busy = match e.fiber {
                Some(fiber) => contains_fiber(moving, fiber),
                None => !self.disabled(&places[i]) && !is_true(e.options.group),
            };
            if e.init_task || busy {
                pending += 1;
            }
            i += 1;
        }
        assert(self::places(places@).len() == places@.len());
        assert(all.take(i as int) =~= all);
        if self.tasks > pending {
            self.tasks
        } else {
            pending
        }
    }

    /// What waiting for the tree has to do next.
    pub fn await_tree(&self, moving: &Vec<u64>) -> (r: AwaitStep)
        ensures
            ({
                let fibers = moving_fibers(
                    self@.root,
                    walk(self@.root, Seq::empty()),
                    moving@,
                );
                match r {
                    AwaitStep::Done => fibers.len() == 0 && task_count(self@, moving@) == 0,
                    AwaitStep::Fibers(list) => list@ == fibers && fibers.len() > 0,
                    AwaitStep::Task => fibers.len() == 0 && task_count(self@, moving@) > 0,
                }
            }),
    {
        broadcast use lemma_entry_view;

        let places = self.places();
        let ghost all = walk(self@.root, Seq::empty());
        let mut fibers: Vec<u64> = Vec::new();
        let mut i: usize = 0;
        assert(all.take(0) =~= Seq::<Seq<usize>>::empty());
        while i < places.len()
            invariant
                i <= places@.len(),
                self::places(places@) == all,
                forall|j: int|
                    0 <= j < places@.len() ==> has_entry(self@.root, (#[trigger] places@[j])@),
                fibers@ == moving_fibers(self@.root, all.take(i as int), moving@),
            decreases places@.len() - i,
        {
            assert(self::places(places@)[i as int] == places@[i as int]@);
            assert(all.take(i + 1).drop_last() =~= all.take(i as int));
            if let Some(fiber) = self.entry(&places[i]).fiber {
                if contains_fiber(moving, fiber) {
                    fibers.push(fiber);
                }
            }
            i += 1;
        }
        assert(self::places(places@).len() == places@.len());
        assert(all.take(i as int) =~= all);
        if fibers.len() > 0 {
            AwaitStep::Fibers(fibers)
        } else if self.get_tasks(moving) == 0 {
            AwaitStep::Done
        } else {
            AwaitStep::Task
        }
    }
}

/// The subgroup of an entry is the group at the entry's place.
pub proof fn lemma_group_of_entry(es: Seq<EntryView>, p: Seq<usize>)
    requires
        has_entry(es, p),
    ensures
        group_at(es, p) == entry_at(es, p).subgroup,
    decreases p.len(),
{
    if p.len() == 1 {
        assert(p.drop_last() =~= Seq::<usize>::empty());
        assert(p.drop_first() =~= Seq::<usize>::empty());
        if let Some(g) = es[p[0] as int].subgroup {
            assert(group_at(g, p.drop_first()) == Some(g));
        }
    } else {
        lemma_group_step(es, p);
        lemma_group_of_entry(es[p[0] as int].subgroup->0, p.drop_first());
    }
}

} // verus!
