//! Entries and groups of entries.

use crate::dict::{assign, keys_of, lookup, Dict, Duplicate};
use crate::forest::{entry_at, group_at, has_entry, set_entry_at, set_group_at, EntryView};
use crate::options::{
    any_reaches_fiber, changed_fields, is_true, reaches_running, same_isolates, same_yaml_option,
    EntryOptions, IsolateValue, IsolateView, OptionsView, PartialEntryOptions, PartialView,
};
use crate::text::{concat3, texts};
use crate::value::{same_option, Yaml, YamlView};
use vstd::prelude::*;

verus! {

/// A single entry of the tree.
pub struct Entry {
    /// Identifies the entry for as long as it lives, wherever it moves.
    pub key: u64,
    /// The entry's options.
    pub options: EntryOptions,
    /// The number of the entry's root fiber, once applied.
    pub fiber: Option<u64>,
    /// The subgroup, when this entry is a group.
    pub subgroup: Option<EntryGroup>,
    /// Whether an initialization is under way.
    pub init_task: bool,
}

/// A group of entries.
pub struct EntryGroup {
    /// The direct children.
    pub entries: Vec<Entry>,
}

/// What an entry is, with everything below it.
pub open spec fn entry_view(e: Entry) -> EntryView
    decreases e,
{
    EntryView {
        key: e.key,
        options: e.options@,
        fiber: e.fiber,
        subgroup: match e.subgroup {
            None => None,
            Some(g) => Some(
                Seq::new(
                    g.entries@.len(),
                    |i: int|
                        if 0 <= i < g.entries@.len() {
                            entry_view(g.entries@[i])
                        } else {
                            arbitrary()
                        },
                ),
            ),
        },
        init_task: e.init_task,
    }
}

/// The views of a list of entries.
pub open spec fn entry_views(es: Seq<Entry>) -> Seq<EntryView> {
    Seq::new(es.len(), |i: int| entry_view(es[i]))
}

impl View for Entry {
    type V = EntryView;

    open spec fn view(&self) -> EntryView {
        entry_view(*self)
    }
}

impl View for EntryGroup {
    type V = Seq<EntryView>;

    open spec fn view(&self) -> Seq<EntryView> {
        entry_views(self.entries@)
    }
}

/// What an entry is, field by field.
pub broadcast proof fn lemma_entry_view(e: Entry)
    ensures
        #[trigger] entry_view(e) == (EntryView {
            key: e.key,
            options: e.options@,
            fiber: e.fiber,
            subgroup: match e.subgroup {
                None => None,
                Some(g) => Some(g@),
            },
            init_task: e.init_task,
        }),
{
    if let Some(g) = e.subgroup {
        assert(entry_view(e).subgroup->0 =~= entry_views(g.entries@));
    }
}

/// Editing a list of entries edits the list of their views.
pub broadcast proof fn lemma_views_update(es: Seq<Entry>, i: int, e: Entry)
    requires
        0 <= i < es.len(),
    ensures
        #[trigger] entry_views(es.update(i, e)) == entry_views(es).update(i, entry_view(e)),
{
    assert(entry_views(es.update(i, e)) =~= entry_views(es).update(i, entry_view(e)));
}

/// The entries of the group at `q`, from index `d` of the way on.
pub fn group_ref<'a>(entries: &'a Vec<Entry>, q: &Vec<usize>, d: usize) -> (r: &'a Vec<Entry>)
    requires
        d <= q@.len(),
        group_at(entry_views(entries@), q@.skip(d as int)) is Some,
    ensures
        entry_views(r@) == group_at(entry_views(entries@), q@.skip(d as int))->0,
    decreases q@.len() - d,
{
    broadcast use lemma_entry_view;

    if d == q.len() {
        return entries;
    }
    assert(q@.skip(d as int).drop_first() =~= q@.skip(d + 1));
    match &entries[q[d]].subgroup {
        Some(g) => group_ref(&g.entries, q, d + 1),
        None => vstd::pervasive::unreached(),
    }
}

/// The entries of the group at `q`, from index `d` of the way on, for change.
pub fn group_mut<'a>(entries: &'a mut Vec<Entry>, q: &Vec<usize>, d: usize) -> (r: &'a mut Vec<
    Entry,
>)
    requires
        d <= q@.len(),
        group_at(entry_views(old(entries)@), q@.skip(d as int)) is Some,
    ensures
        entry_views(r@) == group_at(entry_views(old(entries)@), q@.skip(d as int))->0,
        entry_views(final(entries)@) == set_group_at(
            entry_views(old(entries)@),
            q@.skip(d as int),
            entry_views(final(r)@),
        ),
    decreases q@.len() - d,
{
    broadcast use {lemma_entry_view, lemma_views_update};

    if d == q.len() {
        return entries;
    }
    assert(q@.skip(d as int).drop_first() =~= q@.skip(d + 1));
    match &mut entries[q[d]].subgroup {
        Some(g) => group_mut(&mut g.entries, q, d + 1),
        None => vstd::pervasive::unreached(),
    }
}

/// A copy of a place without its last index.
pub fn parent_place(p: &Vec<usize>) -> (r: Vec<usize>)
    requires
        p@.len() > 0,
    ensures
        r@ == p@.drop_last(),
{
    let mut r = p.clone();
    assert(r@ =~= p@);
    let last = r.pop();
    r
}

/// The entry at `p`.
pub fn entry_ref<'a>(entries: &'a Vec<Entry>, p: &Vec<usize>) -> (r: &'a Entry)
    requires
        has_entry(entry_views(entries@), p@),
    ensures
        r@ == entry_at(entry_views(entries@), p@),
{
    let q = parent_place(p);
    assert(q@.skip(0) =~= q@);
    let group = group_ref(entries, &q, 0);
    &group[p[p.len() - 1]]
}

/// The entry at `p`, for change.
pub fn entry_mut<'a>(entries: &'a mut Vec<Entry>, p: &Vec<usize>) -> (r: &'a mut Entry)
    requires
        has_entry(entry_views(old(entries)@), p@),
    ensures
        r@ == entry_at(entry_views(old(entries)@), p@),
        entry_views(final(entries)@) == set_entry_at(
            entry_views(old(entries)@),
            p@,
            final(r)@,
        ),
{
    broadcast use lemma_views_update;

    let q = parent_place(p);
    assert(q@.skip(0) =~= q@);
    let group = group_mut(entries, &q, 0);
    &mut group[p[p.len() - 1]]
}

/// A value without its tags.
pub open spec fn untagged(value: YamlView) -> YamlView
    decreases value,
{
    match value {
        YamlView::Tagged(_, inner) => untagged(*inner),
        _ => value,
    }
}

/// The label of an isolate declaration of the service `name` in the entry `id`, if it makes one.
pub open spec fn label_of(name: Seq<char>, declared: IsolateView, id: Seq<char>) -> Option<
    Seq<char>,
> {
    match declared {
        IsolateView::Flag(true) => Some(name + "#"@ + id),
        IsolateView::Label(label) => Some(name + "@"@ + label),
        IsolateView::Flag(false) => None,
    }
}

/// The labels that the isolate declarations of the entry `id` make.
pub open spec fn labels_of(isolates: Seq<(Seq<char>, IsolateView)>, id: Seq<char>) -> Seq<
    (Seq<char>, Seq<char>),
>
    decreases isolates.len(),
{
    if isolates.len() == 0 {
        Seq::empty()
    } else {
        let rest = labels_of(isolates.drop_last(), id);
        match label_of(isolates.last().0, isolates.last().1, id) {
            Some(label) => rest.push((isolates.last().0, label)),
            None => rest,
        }
    }
}

/// The intercept overrides of a mapping: those under keys that are texts, apart from tags.
pub open spec fn overrides_of(pairs: Seq<(YamlView, YamlView)>) -> Seq<(Seq<char>, YamlView)>
    decreases pairs.len(),
{
    if pairs.len() == 0 {
        Seq::empty()
    } else {
        let rest = overrides_of(pairs.drop_last());
        match untagged(pairs.last().0) {
            YamlView::Text(name) => assign(rest, name, pairs.last().1),
            _ => rest,
        }
    }
}

/// The intercept overrides of an `intercept` option.
pub open spec fn intercepts_of(intercept: Option<YamlView>) -> Seq<(Seq<char>, YamlView)> {
    match intercept {
        Some(YamlView::Mapping(pairs)) => overrides_of(pairs),
        _ => Seq::empty(),
    }
}

/// The views of a list of pairs of texts.
pub open spec fn text_pairs(list: Seq<(String, String)>) -> Seq<(Seq<char>, Seq<char>)> {
    Seq::new(list.len(), |i: int| (list[i].0@, list[i].1@))
}

/// The options after an update.
pub open spec fn options_after(
    before: OptionsView,
    update: PartialView,
    create: bool,
    clear_missing: bool,
) -> OptionsView {
    if create {
        update.full(before.id, before.name)
    } else if clear_missing {
        before.replaced(update)
    } else {
        before.patched(update)
    }
}

/// The services whose isolate declaration differs between two options.
pub open spec fn rescoped_names(now: OptionsView, before: OptionsView) -> Seq<Seq<char>> {
    (keys_of(now.isolates()) + keys_of(before.isolates())).filter(
        |name: Seq<char>| lookup(now.isolates(), name) != lookup(before.isolates(), name),
    )
}

/// Whether the scope options of an entry differ.
pub open spec fn scope_differs(now: OptionsView, before: OptionsView) -> bool {
    now.isolate_differs(before) || !same_option(now.intercept, before.intercept)
}

/// Whether an entry must not run: disabled, or a group disabled of its own.
pub open spec fn must_stop(options: OptionsView, inherited: bool) -> bool {
    if options.group == Some(true) {
        options.disabled == Some(true)
    } else {
        options.disabled == Some(true) || inherited
    }
}

/// What follows from an update of an entry.
pub enum UpdatePlan {
    /// The entry stops; its fiber, if any, is to be disposed.
    Stop(Option<u64>),
    /// The overlay layers are to be applied, then the scope change of these services settled.
    Rescope(Vec<String>),
    /// The fiber is to get the entry's resolved config.
    Reconfigure(u64),
    /// Nothing.
    Keep,
}

/// What an update plan says.
pub enum PlanView {
    Stop(Option<u64>),
    Rescope(Seq<Seq<char>>),
    Reconfigure(u64),
    Keep,
}

impl View for UpdatePlan {
    type V = PlanView;

    open spec fn view(&self) -> PlanView {
        match self {
            UpdatePlan::Stop(fiber) => PlanView::Stop(*fiber),
            UpdatePlan::Rescope(names) => PlanView::Rescope(texts(names@)),
            UpdatePlan::Reconfigure(fiber) => PlanView::Reconfigure(*fiber),
            UpdatePlan::Keep => PlanView::Keep,
        }
    }
}

/// The plan for an entry whose options went from `before` to `now`.
pub open spec fn plan_for(
    now: OptionsView,
    before: OptionsView,
    fiber: Option<u64>,
    inherited: bool,
) -> PlanView {
    if must_stop(now, inherited) {
        PlanView::Stop(fiber)
    } else if scope_differs(now, before) {
        PlanView::Rescope(rescoped_names(now, before))
    } else if fiber is Some && any_reaches_fiber(changed_fields(now, before)) {
        PlanView::Reconfigure(fiber->0)
    } else {
        PlanView::Keep
    }
}

/// The entry after an update.
pub open spec fn entry_after(
    e: EntryView,
    inherited: bool,
    update: PartialView,
    create: bool,
    clear_missing: bool,
) -> EntryView {
    let now = options_after(e.options, update, create, clear_missing);
    EntryView {
        options: now,
        fiber: if must_stop(now, inherited) {
            None
        } else {
            e.fiber
        },
        ..e
    }
}

/// The plan that an update of an entry leads to.
pub open spec fn plan_of(
    e: EntryView,
    inherited: bool,
    update: PartialView,
    create: bool,
    clear_missing: bool,
) -> PlanView {
    plan_for(
        options_after(e.options, update, create, clear_missing),
        e.options,
        e.fiber,
        inherited,
    )
}

/// A fresh entry.
pub open spec fn fresh_entry(key: u64, options: OptionsView) -> EntryView {
    EntryView { key, options, fiber: None, subgroup: None, init_task: false }
}

/// The text of a value that is one, apart from tags.
pub fn text_under_tags(value: &Yaml) -> (r: Option<&String>)
    ensures
        match r {
            Some(text) => untagged(value@) == YamlView::Text(text@),
            None => !(untagged(value@) is Text),
        },
    decreases value,
{
    proof {
        crate::value::lemma_value_view(value);
    }
    match value {
        Yaml::Text(text) => Some(text),
        Yaml::Tagged(tagged) => text_under_tags(&tagged.value),
        _ => None,
    }
}

/// Collects the names of `names` whose declarations differ between `now` and `before` into `out`.
fn collect_rescoped(
    names: &Dict<IsolateValue>,
    now: &Dict<IsolateValue>,
    before: &Dict<IsolateValue>,
    out: &mut Vec<String>,
)
    ensures
        texts(final(out)@) == texts(old(out)@) + keys_of(names@).filter(
            |name: Seq<char>| lookup(now@, name) != lookup(before@, name),
        ),
{
    let ghost differs = |name: Seq<char>| lookup(now@, name) != lookup(before@, name);
    let ghost start = texts(out@);
    let mut i: usize = 0;
    proof {
        reveal(Seq::filter);
        assert(keys_of(names@).take(0) =~= Seq::<Seq<char>>::empty());
        assert(start + keys_of(names@).take(0).filter(differs) =~= start);
    }
    while i < names.len()
        invariant
            i <= names@.len(),
            differs == (|name: Seq<char>| lookup(now@, name) != lookup(before@, name)),
            texts(out@) == start + keys_of(names@).take(i as int).filter(differs),
        decreases names@.len() - i,
    {
        reveal(Seq::filter);
        let name = names.key_at(i);
        let same = match (now.get(name.as_str()), before.get(name.as_str())) {
            (Some(a), Some(b)) => a.same_as(b),
            (None, None) => true,
            _ => false,
        };
        let ghost kept = keys_of(names@).take(i as int).filter(differs);
        let ghost was = texts(out@);
        assert(keys_of(names@).take(i + 1).drop_last() =~= keys_of(names@).take(i as int));
        assert(keys_of(names@).take(i + 1).last() == name@);
        if !same {
            out.push(name.clone());
            assert(texts(out@) =~= was.push(name@));
            assert(start + kept.push(name@) =~= (start + kept).push(name@));
        }
        i += 1;
    }
    assert(keys_of(names@).take(i as int) =~= keys_of(names@));
}

impl EntryGroup {
    /// The group without entries.
    pub fn new() -> (r: EntryGroup)
        ensures
            r@ == Seq::<EntryView>::empty(),
    {
        let r = EntryGroup { entries: Vec::new() };
        assert(r@ =~= Seq::<EntryView>::empty());
        r
    }
}

impl Entry {
    /// An entry that was never applied.
    pub fn new(key: u64, options: EntryOptions) -> (r: Entry)
        ensures
            r@ == fresh_entry(key, options@),
    {
        broadcast use lemma_entry_view;

        Entry { key, options, fiber: None, subgroup: None, init_task: false }
    }

    /// Whether the entry counts as disabled, where `inherited` says that an ancestor is.
    pub fn disabled(&self, inherited: bool) -> (r: bool)
        ensures
            r == self@.is_disabled(inherited),
    {
        broadcast use lemma_entry_view;

        if is_true(self.options.group) {
            return false;
        }
        is_true(self.options.disabled) || inherited
    }

    /// The isolate labels of the entry's overlay layer.
    pub fn overlay_labels(&self) -> (r: Vec<(String, String)>)
        ensures
            text_pairs(r@) == labels_of(self@.options.isolates(), self@.options.id),
    {
        broadcast use lemma_entry_view;

        let mut out: Vec<(String, String)> = Vec::new();
        assert(text_pairs(out@) =~= Seq::<(Seq<char>, Seq<char>)>::empty());
        let ghost all = self@.options.isolates();
        let ghost id = self@.options.id;
        if let Some(isolate) = &self.options.isolate {
            let mut i: usize = 0;
            assert(all.take(0) =~= Seq::<(Seq<char>, IsolateView)>::empty());
            while i < isolate.len()
                invariant
                    i <= isolate@.len(),
                    all == isolate@,
                    id == self.options.id@,
                    text_pairs(out@) == labels_of(all.take(i as int), id),
                decreases isolate@.len() - i,
            {
                let name = isolate.key_at(i);
                let ghost was = text_pairs(out@);
                assert(all.take(i + 1).drop_last() =~= all.take(i as int));
                match isolate.value_at(i) {
                    IsolateValue::Flag(true) => {
                        let label = concat3(name.as_str(), "#", self.options.id.as_str());
                        let ghost made = label@;
                        out.push((name.clone(), label));
                        assert(text_pairs(out@) =~= was.push((name@, made)));
                    },
                    IsolateValue::Label(shared) => {
                        let label = concat3(name.as_str(), "@", shared.as_str());
                        let ghost made = label@;
                        out.push((name.clone(), label));
                        assert(text_pairs(out@) =~= was.push((name@, made)));
                    },
                    IsolateValue::Flag(false) => {},
                }
                i += 1;
            }
            assert(all.take(i as int) =~= all);
        }
        out
    }

    /// The intercept overrides of the entry's overlay layer.
    pub fn overlay_intercepts(&self) -> (r: Dict<Yaml>)
        ensures
            r@ == intercepts_of(self@.options.intercept),
    {
        broadcast use lemma_entry_view;

        let mut out: Dict<Yaml> = Dict::new();
        if let Some(intercept) = &self.options.intercept {
            proof {
                crate::value::lemma_value_view(intercept);
            }
            if let Yaml::Mapping(mapping) = intercept {
                let ghost all = mapping@;
                let mut i: usize = 0;
                assert(all.take(0) =~= Seq::<(YamlView, YamlView)>::empty());
                while i < mapping.len()
                    invariant
                        i <= mapping@.len(),
                        all == mapping@,
                        out@ == overrides_of(all.take(i as int)),
                    decreases mapping@.len() - i,
                {
                    assert(all.take(i + 1).drop_last() =~= all.take(i as int));
                    if let Some(name) = text_under_tags(mapping.key_at(i)) {
                        out.insert(name.clone(), mapping.value_at(i).clone());
                    }
                    i += 1;
                }
                assert(all.take(i as int) =~= all);
            }
        }
        out
    }

    /// Applies an update of the options and says what follows from it.
    pub fn update(
        &mut self,
        inherited: bool,
        options: &PartialEntryOptions,
        create: bool,
        clear_missing: bool,
    ) -> (r: UpdatePlan)
        ensures
            final(self)@ == entry_after(
                old(self)@,
                inherited,
                options@,
                create,
                clear_missing,
            ),
            r@ == plan_of(old(self)@, inherited, options@, create, clear_missing),
    {
        broadcast use lemma_entry_view;

        let legacy = self.options.duplicate();
        if create {
            let id = self.options.id.clone();
            let name = self.options.name.clone();
            self.options = options.into_options(id, name);
        } else if clear_missing {
            options.apply_full(&mut self.options);
        } else {
            options.apply_to(&mut self.options);
        }
        let group_disabled = is_true(self.options.group) && is_true(self.options.disabled);
        if group_disabled || self.disabled(inherited) {
            let fiber = self.fiber;
            self.fiber = None;
            return UpdatePlan::Stop(fiber);
        }
        let isolate_same = match (&self.options.isolate, &legacy.isolate) {
            (Some(a), Some(b)) => same_isolates(a, b),
            (None, None) => true,
            _ => false,
        };
        if !isolate_same || !same_yaml_option(&self.options.intercept, &legacy.intercept) {
            let none_now: Dict<IsolateValue> = Dict::new();
            let none_before: Dict<IsolateValue> = Dict::new();
            let now = match &self.options.isolate {
                Some(isolate) => isolate,
                None => &none_now,
            };
            let before = match &legacy.isolate {
                Some(isolate) => isolate,
                None => &none_before,
            };
            let mut names: Vec<String> = Vec::new();
            assert(texts(names@) =~= Seq::<Seq<char>>::empty());
            collect_rescoped(now, now, before, &mut names);
            collect_rescoped(before, now, before, &mut names);
            proof {
                let differs = |name: Seq<char>| lookup(now@, name) != lookup(before@, name);
                lemma_filter_concat(keys_of(now@), keys_of(before@), differs);
                assert(texts(names@) =~= (keys_of(now@) + keys_of(before@)).filter(differs));
            }
            return UpdatePlan::Rescope(names);
        }
        match self.fiber {
            Some(fiber) => {
                let changed = self.options.diff(&legacy);
                if reaches_running(&changed) {
                    UpdatePlan::Reconfigure(fiber)
                } else {
                    UpdatePlan::Keep
                }
            },
            None => UpdatePlan::Keep,
        }
    }
}

/// Filtering two lists together is filtering each.
pub proof fn lemma_filter_concat<A>(a: Seq<A>, b: Seq<A>, keep: spec_fn(A) -> bool)
    ensures
        (a + b).filter(keep) == a.filter(keep) + b.filter(keep),
    decreases b.len(),
{
    reveal(Seq::filter);
    if b.len() == 0 {
        assert(a + b =~= a);
        assert(a.filter(keep) + b.filter(keep) =~= a.filter(keep));
    } else {
        assert((a + b).drop_last() =~= a + b.drop_last());
        lemma_filter_concat(a, b.drop_last(), keep);
        let rest = b.drop_last().filter(keep);
        assert(a.filter(keep) + rest.push(b.last()) =~= (a.filter(keep) + rest).push(b.last()));
    }
}

/// A running entry that differs from before in its id, its further keys or being a group alone is
/// left alone.
pub proof fn unreached_changes_keep(
    now: OptionsView,
    before: OptionsView,
    fiber: Option<u64>,
    inherited: bool,
)
    requires
        !must_stop(now, inherited),
        !scope_differs(now, before),
        same_option(now.config, before.config),
        now.disabled == before.disabled,
        now.inject == before.inject,
        now.name == before.name,
    ensures
        plan_for(now, before, fiber, inherited) == PlanView::Keep,
{
}

/// An update with the options that an entry has leaves its options alone and asks for nothing but
/// a stop.
pub proof fn unchanged_update(e: EntryView, inherited: bool)
    ensures
        plan_of(e, inherited, e.options.as_partial(), true, false) == (if must_stop(
            e.options,
            inherited,
        ) {
            PlanView::Stop(e.fiber)
        } else {
            PlanView::Keep
        }),
        plan_of(e, inherited, e.options.as_partial(), false, true) == plan_of(
            e,
            inherited,
            e.options.as_partial(),
            true,
            false,
        ),
        entry_after(e, inherited, e.options.as_partial(), true, false).options == e.options,
        entry_after(e, inherited, e.options.as_partial(), false, true).options == e.options,
{
    crate::options::no_difference_from_itself(e.options);
    assert(e.options.as_partial().full(e.options.id, e.options.name) == e.options);
    assert(e.options.replaced(e.options.as_partial()) == e.options);
    assert(!scope_differs(e.options, e.options)) by {
        if let Some(intercept) = e.options.intercept {
            crate::value::same_reflexive(intercept);
        }
    }
}

} // verus!
