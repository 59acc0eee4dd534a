//! Patches of a list of options: insertions and overrides addressed by entry id.

use crate::codec::{
    all_options, decode_list, draft_of, encode_list, encoded_list, options_list_of, options_of,
};
use crate::dict::{assign, assign_all, lookup, Dict, Duplicate};
use crate::entry::untagged;
use crate::options::{text_option, EntryOptions, IsolateValue, IsolateView, OptionsView};
use crate::reconcile::options_views;
use crate::text::{clone_texts, concat3, same_text, texts};
use crate::value::{lemma_value_view, Yaml, YamlView};
use vstd::prelude::*;

verus! {

/// What a patch does to a field.
pub enum Override<T> {
    /// Leaves it alone.
    Absent,
    /// Sets it to the value.
    Put(T),
    /// Clears it.
    Clear,
}

impl<T> Override<T> {
    /// Whether the patch leaves the field alone.
    pub fn is_absent(&self) -> (r: bool)
        ensures
            r == (self is Absent),
    {
        match self {
            Override::Absent => true,
            _ => false,
        }
    }

    /// The value that the field gets: none unless it is set.
    pub fn into_option(self) -> (r: Option<T>)
        ensures
            r == (match self {
                Override::Put(value) => Some(value),
                _ => None,
            }),
    {
        match self {
            Override::Put(value) => Some(value),
            _ => None,
        }
    }
}

/// The field after the patch.
pub open spec fn overridden_field<A>(field: Option<A>, by: Override<A>) -> Option<A> {
    match by {
        Override::Absent => field,
        Override::Put(value) => Some(value),
        Override::Clear => None,
    }
}

/// A single patch.
pub struct PatchOptions {
    /// The target entry id; the empty text is the same as none.
    pub id: Option<String>,
    /// Entries inserted into the target group, or at the end of the list where no id is given.
    pub insert: Option<Vec<EntryOptions>>,
    /// The expected name of the target entry.
    pub name: Option<String>,
    /// The `config` override.
    pub config: Override<Yaml>,
    /// The `disabled` override.
    pub disabled: Override<bool>,
    /// The `group` override.
    pub group: Override<bool>,
    /// The `inject` override.
    pub inject: Override<Vec<String>>,
    /// The `intercept` override.
    pub intercept: Override<Yaml>,
    /// The `isolate` override.
    pub isolate: Override<Dict<IsolateValue>>,
    /// Further keys, written to the target entry as they are.
    pub extra: Dict<Yaml>,
}

/// The config of an included file.
pub struct IncludeConfig {
    /// The config file path.
    pub path: String,
    /// The options written where the file is missing.
    pub initial: Option<Vec<EntryOptions>>,
    /// The patches applied after reading.
    pub patches: Option<Vec<PatchOptions>>,
    /// Whether plugin activity is logged.
    pub enable_logs: Option<bool>,
}

/// What a patch says.
pub struct PatchView {
    pub id: Option<Seq<char>>,
    pub insert: Option<Seq<OptionsView>>,
    pub name: Option<Seq<char>>,
    pub config: Override<YamlView>,
    pub disabled: Override<bool>,
    pub group: Override<bool>,
    pub inject: Override<Seq<Seq<char>>>,
    pub intercept: Override<YamlView>,
    pub isolate: Override<Seq<(Seq<char>, IsolateView)>>,
    pub extra: Seq<(Seq<char>, YamlView)>,
}

/// The view of an override by a value.
pub open spec fn yaml_override(by: Override<Yaml>) -> Override<YamlView> {
    match by {
        Override::Absent => Override::Absent,
        Override::Put(value) => Override::Put(value@),
        Override::Clear => Override::Clear,
    }
}

/// The view of an override by names.
pub open spec fn names_override(by: Override<Vec<String>>) -> Override<Seq<Seq<char>>> {
    match by {
        Override::Absent => Override::Absent,
        Override::Put(names) => Override::Put(texts(names@)),
        Override::Clear => Override::Clear,
    }
}

/// The view of an override by isolate declarations.
pub open spec fn isolate_override(by: Override<Dict<IsolateValue>>) -> Override<
    Seq<(Seq<char>, IsolateView)>,
> {
    match by {
        Override::Absent => Override::Absent,
        Override::Put(isolates) => Override::Put(isolates@),
        Override::Clear => Override::Clear,
    }
}

impl View for PatchOptions {
    type V = PatchView;

    open spec fn view(&self) -> PatchView {
        PatchView {
            id: text_option(self.id),
            insert: crate::codec::options_list_option(self.insert),
            name: text_option(self.name),
            config: yaml_override(self.config),
            disabled: self.disabled,
            group: self.group,
            inject: names_override(self.inject),
            intercept: yaml_override(self.intercept),
            isolate: isolate_override(self.isolate),
            extra: self.extra@,
        }
    }
}

/// The views of a list of patches.
pub open spec fn patch_views(list: Seq<PatchOptions>) -> Seq<PatchView> {
    Seq::new(list.len(), |i: int| list[i]@)
}

/// The greater of two numbers.
pub open spec fn greater(a: nat, b: nat) -> nat {
    if a >= b {
        a
    } else {
        b
    }
}

/// How deep a value is.
pub open spec fn depth(value: YamlView) -> nat
    decreases value,
{
    match value {
        YamlView::Sequence(items) => 1 + items_depth(items),
        YamlView::Mapping(pairs) => 1 + pairs_depth(pairs),
        YamlView::Tagged(_, inner) => 1 + depth(*inner),
        _ => 0,
    }
}

/// The depth of the deepest item.
pub open spec fn items_depth(items: Seq<YamlView>) -> nat
    decreases items,
{
    if items.len() == 0 {
        0
    } else {
        greater(items_depth(items.drop_last()), depth(items.last()))
    }
}

/// The depth of the deepest value of the pairs.
pub open spec fn pairs_depth(pairs: Seq<(YamlView, YamlView)>) -> nat
    decreases pairs,
{
    if pairs.len() == 0 {
        0
    } else {
        greater(pairs_depth(pairs.drop_last()), depth(pairs.last().1))
    }
}

/// The depth of the deepest config.
pub open spec fn configs_depth(list: Seq<OptionsView>) -> nat
    decreases list.len(),
{
    if list.len() == 0 {
        0
    } else {
        greater(configs_depth(list.drop_last()), match list.last().config {
            Some(config) => 1 + depth(config),
            None => 0,
        })
    }
}

proof fn lemma_configs_depth(list: Seq<OptionsView>, i: int)
    requires
        0 <= i < list.len(),
        list[i].config is Some,
    ensures
        depth(list[i].config->0) < configs_depth(list),
    decreases list.len(),
{
    if i < list.len() - 1 {
        lemma_configs_depth(list.drop_last(), i);
    }
}

proof fn lemma_draft_depth(pairs: Seq<(YamlView, YamlView)>)
    ensures
        draft_of(pairs) matches Some(d) ==> (d.config matches Some(Some(config)) ==> depth(config)
            <= pairs_depth(pairs)),
    decreases pairs.len(),
{
    if pairs.len() > 0 {
        lemma_draft_depth(pairs.drop_last());
    }
}

proof fn lemma_untagged_depth(value: YamlView)
    ensures
        depth(untagged(value)) <= depth(value),
    decreases value,
{
    if let YamlView::Tagged(_, inner) = value {
        lemma_untagged_depth(*inner);
    }
}

proof fn lemma_options_depth(value: YamlView)
    ensures
        options_of(value) matches Some(o) ==> (o.config matches Some(config) ==> depth(config)
            < depth(value)),
{
    lemma_untagged_depth(value);
    if let YamlView::Mapping(pairs) = untagged(value) {
        lemma_draft_depth(pairs);
        assert(depth(untagged(value)) == 1 + pairs_depth(pairs));
    }
}

proof fn lemma_all_options_depth(items: Seq<YamlView>)
    ensures
        all_options(items) matches Some(list) ==> configs_depth(list) <= items_depth(items),
    decreases items.len(),
{
    if items.len() > 0 {
        lemma_all_options_depth(items.drop_last());
        lemma_options_depth(items.last());
        if let Some(list) = all_options(items) {
            assert(list.drop_last() =~= all_options(items.drop_last())->0);
        }
    }
}

/// The children of a group whose config is a list; none where an item is no entry.
pub open spec fn indexed_children(options: OptionsView) -> Seq<OptionsView> {
    match options.config {
        Some(YamlView::Sequence(items)) => if options.group == Some(true) {
            match all_options(items) {
                Some(list) => list,
                None => Seq::empty(),
            }
        } else {
            Seq::empty()
        },
        _ => Seq::empty(),
    }
}

/// The children of a group are less deep than the list that the group is in.
pub proof fn lemma_children_depth(list: Seq<OptionsView>, i: int)
    requires
        0 <= i < list.len(),
        indexed_children(list[i]).len() > 0,
    ensures
        configs_depth(indexed_children(list[i])) < configs_depth(list),
{
    if let Some(YamlView::Sequence(items)) = list[i].config {
        lemma_configs_depth(list, i);
        lemma_all_options_depth(items);
        assert(depth(list[i].config->0) == 1 + items_depth(items));
    }
}

/// The ids and places of the first `n` entries of `list`, below `base`, those in nested groups
/// after their group. Entries without an id are left out; places are machine integers, which no
/// list outgrows.
pub open spec fn listed(list: Seq<OptionsView>, n: int, base: Seq<usize>) -> Seq<
    (Seq<char>, Seq<usize>),
>
    decreases configs_depth(list), n,
{
    if n <= 0 || n > list.len() || n > usize::MAX {
        Seq::empty()
    } else {
        let before = listed(list, n - 1, base);
        let at = base.push((n - 1) as usize);
        let own = if list[n - 1].id.len() > 0 {
            before.push((list[n - 1].id, at))
        } else {
            before
        };
        let children = indexed_children(list[n - 1]);
        proof {
            if children.len() > 0 {
                lemma_children_depth(list, n - 1);
            }
        }
        if children.len() > 0 {
            own + listed(children, children.len() as int, at)
        } else {
            own
        }
    }
}

/// The ids and places of all entries that have an id.
pub open spec fn all_listed(list: Seq<OptionsView>) -> Seq<(Seq<char>, Seq<usize>)> {
    listed(list, list.len() as int, Seq::empty())
}

/// The places of all entries by id. Of two entries with the same id the later one counts.
pub open spec fn index_of(list: Seq<OptionsView>) -> Seq<(Seq<char>, Seq<usize>)> {
    assign_all(Seq::empty(), all_listed(list))
}

/// The places of all entries that have an id.
pub open spec fn places_of(pairs: Seq<(Seq<char>, Seq<usize>)>) -> Seq<Seq<usize>> {
    Seq::new(pairs.len(), |i: int| pairs[i].1)
}

/// The last place that is listed for an id and is one of the given places.
pub open spec fn last_place(
    pairs: Seq<(Seq<char>, Seq<usize>)>,
    given: Seq<Seq<usize>>,
    id: Seq<char>,
) -> Option<Seq<usize>>
    decreases pairs.len(),
{
    if pairs.len() == 0 {
        None
    } else if pairs.last().0 == id && given.contains(pairs.last().1) {
        Some(pairs.last().1)
    } else {
        last_place(pairs.drop_last(), given, id)
    }
}

/// Whether a place lies below another.
pub open spec fn lies_below(place: Seq<usize>, above: Seq<usize>) -> bool {
    above.len() < place.len() && place.take(above.len() as int) == above
}

/// The places without those below `above`.
pub open spec fn without_below(places: Seq<Seq<usize>>, above: Seq<usize>) -> Seq<Seq<usize>>
    decreases places.len(),
{
    if places.len() == 0 {
        Seq::empty()
    } else {
        let rest = without_below(places.drop_last(), above);
        if lies_below(places.last(), above) {
            rest
        } else {
            rest.push(places.last())
        }
    }
}

/// The children of an entry on the way to a target; none where the config is no list of entries.
pub open spec fn children_of(options: OptionsView) -> Seq<OptionsView> {
    match options.config {
        Some(config) => match options_list_of(config) {
            Some(list) => list,
            None => Seq::empty(),
        },
        None => Seq::empty(),
    }
}

/// The entry at a place, if there is one.
pub open spec fn target_at(list: Seq<OptionsView>, path: Seq<usize>) -> Option<OptionsView>
    decreases path.len(),
{
    if path.len() == 0 || path[0] >= list.len() {
        None
    } else if path.len() == 1 {
        Some(list[path[0] as int])
    } else {
        target_at(children_of(list[path[0] as int]), path.drop_first())
    }
}

/// The list with the entry at a place replaced, the configs of the groups on the way encoded anew.
/// Where the way leads nowhere, the configs on the way are encoded anew all the same.
pub open spec fn mutated(
    list: Seq<OptionsView>,
    path: Seq<usize>,
    edit: spec_fn(OptionsView) -> OptionsView,
) -> Seq<OptionsView>
    decreases path.len(),
{
    if path.len() == 0 || path[0] >= list.len() {
        list
    } else {
        let e = list[path[0] as int];
        if path.len() == 1 {
            list.update(path[0] as int, edit(e))
        } else {
            let below = mutated(children_of(e), path.drop_first(), edit);
            list.update(
                path[0] as int,
                OptionsView { config: Some(encoded_list(below)), ..e },
            )
        }
    }
}

/// A group with entries added to its config; other entries stay as they are.
pub open spec fn with_inserted(options: OptionsView, insert: Seq<OptionsView>) -> OptionsView {
    if options.group == Some(true) {
        OptionsView { config: Some(encoded_list(children_of(options) + insert)), ..options }
    } else {
        options
    }
}

/// Whether the patch expects another name than the entry has.
pub open spec fn name_differs(options: OptionsView, patch: PatchView) -> bool {
    patch.name is Some && patch.name->0 != options.name
}

/// An entry after the overrides of a patch; where the name differs it stays as it is.
pub open spec fn overridden(options: OptionsView, patch: PatchView) -> OptionsView {
    if name_differs(options, patch) {
        options
    } else {
        OptionsView {
            config: overridden_field(options.config, patch.config),
            disabled: overridden_field(options.disabled, patch.disabled),
            group: overridden_field(options.group, patch.group),
            inject: overridden_field(options.inject, patch.inject),
            intercept: overridden_field(options.intercept, patch.intercept),
            isolate: overridden_field(options.isolate, patch.isolate),
            extra: assign_all(options.extra, patch.extra),
            ..options
        }
    }
}

/// The id that a patch addresses; the empty text is none.
pub open spec fn patch_id(patch: PatchView) -> Option<Seq<char>> {
    match patch.id {
        Some(id) => if id.len() > 0 {
            Some(id)
        } else {
            None
        },
        None => None,
    }
}

/// The place of the entry that a patch addresses: among the given places, the last one of its id.
pub open spec fn patch_place(
    list: Seq<OptionsView>,
    given: Seq<Seq<usize>>,
    patch: PatchView,
) -> Option<Seq<usize>> {
    match patch_id(patch) {
        Some(id) => last_place(all_listed(list), given, id),
        None => None,
    }
}

/// Whether a patch puts other children in the place of those that its target has.
pub open spec fn replaces_children(options: OptionsView, patch: PatchView) -> bool {
    match patch.insert {
        Some(_) => options.group == Some(true) && children_of(options).len() == 0,
        None => !name_differs(options, patch) && !(patch.config is Absent),
    }
}

/// The places that are still those of given entries after one patch. Insertions go to the end of a
/// list, so that only the children of an entry whose config is replaced lose their places.
pub open spec fn given_after(
    list: Seq<OptionsView>,
    given: Seq<Seq<usize>>,
    patch: PatchView,
) -> Seq<Seq<usize>> {
    match patch_place(list, given, patch) {
        Some(path) => match target_at(list, path) {
            Some(target) => if replaces_children(target, patch) {
                without_below(given, path)
            } else {
                given
            },
            None => given,
        },
        None => given,
    }
}

/// The list after one patch.
pub open spec fn patched_once(
    list: Seq<OptionsView>,
    given: Seq<Seq<usize>>,
    patch: PatchView,
) -> Seq<OptionsView> {
    let place = patch_place(list, given, patch);
    match patch.insert {
        Some(insert) => if patch_id(patch) is None {
            list + insert
        } else {
            match place {
                Some(path) => mutated(list, path, |o: OptionsView| with_inserted(o, insert)),
                None => list,
            }
        },
        None => match place {
            Some(path) => mutated(list, path, |o: OptionsView| overridden(o, patch)),
            None => list,
        },
    }
}

/// The warning that one patch gives, if any.
pub open spec fn patch_warning(
    list: Seq<OptionsView>,
    given: Seq<Seq<usize>>,
    patch: PatchView,
) -> Option<Seq<char>> {
    let place = patch_place(list, given, patch);
    match (patch.insert, patch_id(patch)) {
        (Some(_), None) => None,
        (Some(_), Some(id)) => match place {
            None => Some("patch insert: entry "@ + id + " not found"@),
            Some(path) => match target_at(list, path) {
                Some(o) => if o.group == Some(true) {
                    None
                } else {
                    Some("patch insert: entry "@ + id + " is not a group"@)
                },
                None => Some("patch insert: entry "@ + id + " is not a group"@),
            },
        },
        (None, None) => Some("patch: id is required for non-insert patches"@),
        (None, Some(id)) => match place {
            None => Some("patch: entry "@ + id + " not found"@),
            Some(path) => match target_at(list, path) {
                Some(o) => if name_differs(o, patch) {
                    Some(
                        "patch: name mismatch for "@ + id + " (expected "@ + o.name + ", got "@
                            + patch.name->0 + "), skipping"@,
                    )
                } else {
                    None
                },
                None => None,
            },
        },
    }
}

/// The list after the first `n` patches, and the places of the given entries in it. Only the
/// entries of the given list can be addressed.
pub open spec fn patch_state(list: Seq<OptionsView>, patches: Seq<PatchView>, n: int) -> (
    Seq<OptionsView>,
    Seq<Seq<usize>>,
)
    decreases n,
{
    if n <= 0 {
        (list, places_of(all_listed(list)))
    } else {
        let (before, given) = patch_state(list, patches, n - 1);
        (
            patched_once(before, given, patches[n - 1]),
            given_after(before, given, patches[n - 1]),
        )
    }
}

/// The list after the first `n` patches.
pub open spec fn patched(list: Seq<OptionsView>, patches: Seq<PatchView>, n: int) -> Seq<
    OptionsView,
> {
    patch_state(list, patches, n).0
}

/// The warnings of the first `n` patches.
pub open spec fn patch_warnings(list: Seq<OptionsView>, patches: Seq<PatchView>, n: int) -> Seq<
    Seq<char>,
>
    decreases n,
{
    if n <= 0 {
        Seq::empty()
    } else {
        let before = patch_warnings(list, patches, n - 1);
        let (now, given) = patch_state(list, patches, n - 1);
        match patch_warning(now, given, patches[n - 1]) {
            Some(warning) => before.push(warning),
            None => before,
        }
    }
}

/// A place in nested lists of options.
pub struct EntryPath {
    pub indices: Vec<usize>,
}

impl View for EntryPath {
    type V = Seq<usize>;

    open spec fn view(&self) -> Seq<usize> {
        self.indices@
    }
}

/// The children of a group whose config is a list.
fn group_children(options: &EntryOptions) -> (r: Vec<EntryOptions>)
    ensures
        options_views(r@) == indexed_children(options@),
{
    let mut out: Vec<EntryOptions> = Vec::new();
    assert(options_views(out@) =~= Seq::<OptionsView>::empty());
    if crate::options::is_true(options.group) {
        if let Some(config) = &options.config {
            proof {
                lemma_value_view(config);
            }
            if let Yaml::Sequence(_) = config {
                if let Some(list) = decode_list(config) {
                    out = list;
                }
            }
        }
    }
    out
}

/// The place of the pair leads from `base` to an entry with the id of the pair.
pub open spec fn points_to(
    list: Seq<OptionsView>,
    base: Seq<usize>,
    pair: (Seq<char>, Seq<usize>),
) -> bool {
    &&& base.len() < pair.1.len()
    &&& pair.1.take(base.len() as int) == base
    &&& target_at(list, pair.1.skip(base.len() as int)) is Some
    &&& target_at(list, pair.1.skip(base.len() as int))->0.id == pair.0
}

proof fn lemma_points_below(
    list: Seq<OptionsView>,
    base: Seq<usize>,
    i: usize,
    pair: (Seq<char>, Seq<usize>),
)
    requires
        i < list.len(),
        indexed_children(list[i as int]).len() > 0,
        points_to(indexed_children(list[i as int]), base.push(i), pair),
    ensures
        points_to(list, base, pair),
        pair.1[base.len() as int] == i,
{
    let e = list[i as int];
    let children = indexed_children(e);
    let at = base.push(i);
    assert(children_of(e) == children);
    let path = pair.1;
    let rel = path.skip(base.len() as int);
    assert(path.take(at.len() as int)[base.len() as int] == i);
    assert(path.take(base.len() as int) =~= path.take(at.len() as int).take(base.len() as int));
    assert(at.take(base.len() as int) =~= base);
    assert(rel[0] == i);
    assert(rel.drop_first() =~= path.skip(at.len() as int));
    assert(target_at(children, path.skip(at.len() as int)) is Some);
}

/// Every listed place leads to an entry with its id, among the first `n` entries or below them.
pub proof fn lemma_listed_points(list: Seq<OptionsView>, n: int, base: Seq<usize>)
    requires
        n <= list.len(),
    ensures
        forall|i: int|
            0 <= i < listed(list, n, base).len() ==> points_to(
                list,
                base,
                #[trigger] listed(list, n, base)[i],
            ) && listed(list, n, base)[i].1[base.len() as int] < n,
    decreases configs_depth(list), n,
{
    if 0 < n <= usize::MAX {
        lemma_listed_points(list, n - 1, base);
        let before = listed(list, n - 1, base);
        let k = (n - 1) as usize;
        let at = base.push(k);
        let children = indexed_children(list[n - 1]);
        let all = listed(list, n, base);
        if children.len() > 0 {
            lemma_children_depth(list, n - 1);
            lemma_listed_points(children, children.len() as int, at);
        }
        let own = if list[n - 1].id.len() > 0 {
            before.push((list[n - 1].id, at))
        } else {
            before
        };
        assert forall|i: int| 0 <= i < all.len() implies points_to(list, base, #[trigger] all[i])
            && all[i].1[base.len() as int] < n by {
            if i < before.len() {
                assert(all[i] == before[i]);
            } else if i < own.len() {
                assert(at.take(base.len() as int) =~= base);
                assert(at.skip(base.len() as int) =~= seq![k]);
                assert(target_at(list, seq![k]) == Some(list[k as int]));
            } else {
                let below = listed(children, children.len() as int, at);
                assert(all[i] == below[i - own.len()]);
                lemma_points_below(list, base, k, all[i]);
            }
        }
    }
}

/// An entry that has an id, and its place.
struct Listed {
    id: String,
    path: EntryPath,
}

spec fn listed_views(list: Seq<Listed>) -> Seq<(Seq<char>, Seq<usize>)> {
    Seq::new(list.len(), |i: int| (list[i].id@, list[i].path@))
}

spec fn path_views(list: Seq<EntryPath>) -> Seq<Seq<usize>> {
    Seq::new(list.len(), |i: int| list[i]@)
}

fn list_into(list: &Vec<EntryOptions>, base: &Vec<usize>, out: &mut Vec<Listed>)
    ensures
        listed_views(final(out)@) == listed_views(old(out)@) + listed(
            options_views(list@),
            list@.len() as int,
            base@,
        ),
    decreases configs_depth(options_views(list@)),
{
    let ghost all = options_views(list@);
    let ghost start = listed_views(out@);
    let mut i: usize = 0;
    assert(start + Seq::<(Seq<char>, Seq<usize>)>::empty() =~= start);
    while i < list.len()
        invariant
            i <= list@.len(),
            all == options_views(list@),
            listed_views(out@) == start + listed(all, i as int, base@),
        decreases list@.len() - i,
    {
        let entry = &list[i];
        assert(all[i as int] == entry@);
        let ghost before = listed(all, i as int, base@);
        let mut at = base.clone();
        assert(at@ =~= base@);
        at.push(i);
        let ghost mut own = before;
        if !entry.id.as_str().is_empty() {
            let path = at.clone();
            assert(path@ =~= at@);
            let ghost now = listed_views(out@);
            out.push(Listed { id: entry.id.clone(), path: EntryPath { indices: path } });
            proof {
                own = before.push((entry.id@, at@));
                assert(listed_views(out@) =~= now.push((entry.id@, at@)));
            }
        }
        assert(listed_views(out@) =~= start + own);
        let children = group_children(entry);
        assert(options_views(children@).len() == children@.len());
        if children.len() > 0 {
            proof {
                lemma_children_depth(all, i as int);
            }
            list_into(&children, &at, out);
            assert(listed_views(out@) =~= start + (own + listed(
                options_views(children@),
                children@.len() as int,
                at@,
            )));
        }
        i += 1;
    }
}

/// The entries that have an id, with their places.
fn list_entries(data: &Vec<EntryOptions>) -> (r: Vec<Listed>)
    ensures
        listed_views(r@) == all_listed(options_views(data@)),
{
    let mut out: Vec<Listed> = Vec::new();
    let base: Vec<usize> = Vec::new();
    assert(base@ =~= Seq::<usize>::empty());
    list_into(data, &base, &mut out);
    assert(listed_views(out@) =~= all_listed(options_views(data@)));
    out
}

/// What is found after assigning pairs to nothing is one of the pairs.
proof fn lemma_assigned_from(pairs: Seq<(Seq<char>, Seq<usize>)>, id: Seq<char>)
    ensures
        lookup(assign_all(Seq::empty(), pairs), id) matches Some(path) ==> pairs.contains(
            (id, path),
        ),
    decreases pairs.len(),
{
    if pairs.len() > 0 {
        let front = pairs.drop_last();
        let last = pairs.last();
        lemma_assigned_from(front, id);
        crate::dict::lookup_after_assign(assign_all(Seq::empty(), front), last.0, last.1, id);
        if id == last.0 {
            assert(pairs[pairs.len() - 1] == (id, last.1));
        } else if let Some(path) = lookup(assign_all(Seq::empty(), pairs), id) {
            let i = choose|i: int| 0 <= i < front.len() && front[i] == (id, path);
            assert(pairs[i] == (id, path));
        }
    }
}

/// The places of all entries by id, nested groups included.
pub fn index_entries(data: &Vec<EntryOptions>) -> (r: Dict<EntryPath>)
    ensures
        r@ == index_of(options_views(data@)),
        forall|id: Seq<char>|
            (#[trigger] lookup(r@, id)) is Some ==> target_at(
                options_views(data@),
                lookup(r@, id)->0,
            ) is Some && target_at(options_views(data@), lookup(r@, id)->0)->0.id == id,
{
    let mut map: Dict<EntryPath> = Dict::new();
    let entries = list_entries(data);
    let ghost all = listed_views(entries@);
    let mut i: usize = 0;
    assert(all.take(0) =~= Seq::<(Seq<char>, Seq<usize>)>::empty());
    while i < entries.len()
        invariant
            i <= entries@.len(),
            all == listed_views(entries@),
            map@ == assign_all(Seq::empty(), all.take(i as int)),
        decreases entries@.len() - i,
    {
        assert(all.take(i + 1).drop_last() =~= all.take(i as int));
        assert(all.take(i + 1).last() == (entries@[i as int].id@, entries@[i as int].path@));
        let path = entries[i].path.indices.clone();
        assert(path@ =~= entries@[i as int].path@);
        map.insert(entries[i].id.clone(), EntryPath { indices: path });
        i += 1;
    }
    assert(all.take(i as int) =~= all);
    proof {
        let list = options_views(data@);
        lemma_listed_points(list, list.len() as int, Seq::empty());
        assert forall|id: Seq<char>| (#[trigger] lookup(map@, id)) is Some implies target_at(
            list,
            lookup(map@, id)->0,
        ) is Some && target_at(list, lookup(map@, id)->0)->0.id == id by {
            lemma_assigned_from(all, id);
            let path = lookup(map@, id)->0;
            let k = choose|k: int| 0 <= k < all.len() && all[k] == (id, path);
            assert(points_to(list, Seq::empty(), all[k]));
            assert(path.skip(0) =~= path);
        }
    }
    map
}

fn same_place(a: &Vec<usize>, b: &Vec<usize>) -> (r: bool)
    ensures
        r == (a@ == b@),
{
    if a.len() != b.len() {
        return false;
    }
    let mut i: usize = 0;
    while i < a.len()
        invariant
            i <= a@.len(),
            a@.len() == b@.len(),
            a@.take(i as int) == b@.take(i as int),
        decreases a@.len() - i,
    {
        if a[i] != b[i] {
            return false;
        }
        assert(a@.take(i + 1) =~= a@.take(i as int).push(a@[i as int]));
        assert(b@.take(i + 1) =~= b@.take(i as int).push(b@[i as int]));
        i += 1;
    }
    assert(a@.take(i as int) =~= a@);
    assert(b@.take(i as int) =~= b@);
    true
}

fn is_below(place: &Vec<usize>, above: &Vec<usize>) -> (r: bool)
    ensures
        r == lies_below(place@, above@),
{
    if above.len() >= place.len() {
        return false;
    }
    let mut i: usize = 0;
    while i < above.len()
        invariant
            i <= above@.len(),
            above@.len() < place@.len(),
            place@.take(i as int) == above@.take(i as int),
        decreases above@.len() - i,
    {
        if above[i] != place[i] {
            assert(place@.take(above@.len() as int)[i as int] == place@[i as int]);
            return false;
        }
        assert(above@.take(i + 1) =~= above@.take(i as int).push(above@[i as int]));
        assert(place@.take(i + 1) =~= place@.take(i as int).push(place@[i as int]));
        i += 1;
    }
    assert(above@.take(i as int) =~= above@);
    true
}

fn holds_place(places: &Vec<EntryPath>, place: &Vec<usize>) -> (r: bool)
    ensures
        r == path_views(places@).contains(place@),
{
    let ghost all = path_views(places@);
    let mut i: usize = 0;
    while i < places.len()
        invariant
            i <= places@.len(),
            all == path_views(places@),
            forall|j: int| 0 <= j < i ==> #[trigger] all[j] != place@,
        decreases places@.len() - i,
    {
        assert(all[i as int] == places@[i as int]@);
        if same_place(&places[i].indices, place) {
            return true;
        }
        i += 1;
    }
    false
}

/// Takes the places below `above` out.
fn drop_below(places: &mut Vec<EntryPath>, above: &Vec<usize>)
    ensures
        path_views(final(places)@) == without_below(path_views(old(places)@), above@),
{
    let ghost all = path_views(places@);
    let mut kept: Vec<EntryPath> = Vec::new();
    let mut i: usize = 0;
    assert(path_views(kept@) =~= Seq::<Seq<usize>>::empty());
    assert(all.take(0) =~= Seq::<Seq<usize>>::empty());
    while i < places.len()
        invariant
            i <= places@.len(),
            all == path_views(places@),
            path_views(kept@) == without_below(all.take(i as int), above@),
        decreases places@.len() - i,
    {
        assert(all.take(i + 1).drop_last() =~= all.take(i as int));
        assert(all.take(i + 1).last() == places@[i as int]@);
        if !is_below(&places[i].indices, above) {
            let path = places[i].indices.clone();
            assert(path@ =~= places@[i as int]@);
            let ghost before = path_views(kept@);
            kept.push(EntryPath { indices: path });
            assert(path_views(kept@) =~= before.push(path@));
        }
        i += 1;
    }
    assert(all.take(i as int) =~= all);
    *places = kept;
}

/// Finds the entry that an id addresses.
fn find_place(data: &Vec<EntryOptions>, given: &Vec<EntryPath>, id: &str) -> (r: Option<EntryPath>)
    ensures
        (match r {
            Some(path) => Some(path@),
            None => None,
        }) == last_place(all_listed(options_views(data@)), path_views(given@), id@),
{
    let entries = list_entries(data);
    let ghost all = listed_views(entries@);
    let ghost known = path_views(given@);
    let mut i: usize = entries.len();
    assert(all.take(i as int) =~= all);
    while i > 0
        invariant
            i <= entries@.len(),
            all == listed_views(entries@),
            all == all_listed(options_views(data@)),
            known == path_views(given@),
            last_place(all, known, id@) == last_place(all.take(i as int), known, id@),
        decreases i,
    {
        assert(all.take(i as int).drop_last() =~= all.take(i - 1));
        i -= 1;
        assert(all.take(i + 1).last() == (entries@[i as int].id@, entries@[i as int].path@));
        if same_text(entries[i].id.as_str(), id) && holds_place(given, &entries[i].path.indices) {
            let path = EntryPath { indices: entries[i].path.indices.clone() };
            assert(path@ =~= entries@[i as int].path@);
            return Some(path);
        }
    }
    None
}

/// What is done to the entry that a patch addresses.
enum Edit<'a> {
    Insert(&'a Vec<EntryOptions>),
    Override(&'a PatchOptions),
}

impl<'a> Edit<'a> {
    spec fn apply(self, options: OptionsView) -> OptionsView {
        match self {
            Edit::Insert(insert) => with_inserted(options, options_views(insert@)),
            Edit::Override(patch) => overridden(options, patch@),
        }
    }
}

/// The children of an entry on the way.
fn decoded_children(options: &EntryOptions) -> (r: Vec<EntryOptions>)
    ensures
        options_views(r@) == children_of(options@),
{
    if let Some(config) = &options.config {
        if let Some(list) = decode_list(config) {
            return list;
        }
    }
    let none: Vec<EntryOptions> = Vec::new();
    assert(options_views(none@) =~= Seq::<OptionsView>::empty());
    none
}

/// Adds copies of `more` to the list.
fn add_options(list: &mut Vec<EntryOptions>, more: &Vec<EntryOptions>)
    ensures
        options_views(final(list)@) == options_views(old(list)@) + options_views(more@),
{
    let ghost start = options_views(list@);
    let mut i: usize = 0;
    assert(start + options_views(more@).take(0) =~= start);
    while i < more.len()
        invariant
            i <= more@.len(),
            options_views(list@) == start + options_views(more@).take(i as int),
        decreases more@.len() - i,
    {
        let ghost before = options_views(list@);
        list.push(more[i].duplicate());
        assert(options_views(list@) =~= before.push(more@[i as int]@));
        assert(options_views(more@).take(i + 1) =~= options_views(more@).take(i as int).push(
            more@[i as int]@,
        ));
        i += 1;
    }
    assert(options_views(more@).take(i as int) =~= options_views(more@));
    assert(options_views(list@) =~= start + options_views(more@));
}

/// Adds entries to the config of a group; says whether the entry was one.
pub fn insert_into_group(entry: &mut EntryOptions, insert: &Vec<EntryOptions>) -> (r: bool)
    ensures
        final(entry)@ == with_inserted(old(entry)@, options_views(insert@)),
        r == (old(entry)@.group == Some(true)),
{
    if !crate::options::is_true(entry.group) {
        return false;
    }
    let mut children = decoded_children(entry);
    add_options(&mut children, insert);
    entry.config = Some(encode_list(&children));
    true
}

fn copy_yaml_override(by: &Override<Yaml>) -> (r: Override<Yaml>)
    ensures
        yaml_override(r) == yaml_override(*by),
{
    match by {
        Override::Absent => Override::Absent,
        Override::Put(value) => Override::Put(value.clone()),
        Override::Clear => Override::Clear,
    }
}

fn copy_flag_override(by: &Override<bool>) -> (r: Override<bool>)
    ensures
        r == *by,
{
    match by {
        Override::Absent => Override::Absent,
        Override::Put(flag) => Override::Put(*flag),
        Override::Clear => Override::Clear,
    }
}

fn copy_names_override(by: &Override<Vec<String>>) -> (r: Override<Vec<String>>)
    ensures
        names_override(r) == names_override(*by),
{
    match by {
        Override::Absent => Override::Absent,
        Override::Put(names) => Override::Put(clone_texts(names)),
        Override::Clear => Override::Clear,
    }
}

fn copy_isolate_override(by: &Override<Dict<IsolateValue>>) -> (r: Override<Dict<IsolateValue>>)
    ensures
        isolate_override(r) == isolate_override(*by),
{
    match by {
        Override::Absent => Override::Absent,
        Override::Put(isolates) => Override::Put(isolates.duplicate()),
        Override::Clear => Override::Clear,
    }
}

/// Applies the overrides of a patch to an entry. Where the patch expects another name, nothing
/// changes, and the result is false.
pub fn apply_overrides(entry: &mut EntryOptions, overrides: &PatchOptions) -> (r: bool)
    ensures
        final(entry)@ == overridden(old(entry)@, overrides@),
        r == !name_differs(old(entry)@, overrides@),
{
    if let Some(name) = &overrides.name {
        if *name != entry.name {
            return false;
        }
    }
    if !overrides.config.is_absent() {
        entry.config = copy_yaml_override(&overrides.config).into_option();
    }
    if !overrides.disabled.is_absent() {
        entry.disabled = copy_flag_override(&overrides.disabled).into_option();
    }
    if !overrides.group.is_absent() {
        entry.group = copy_flag_override(&overrides.group).into_option();
    }
    if !overrides.inject.is_absent() {
        entry.inject = copy_names_override(&overrides.inject).into_option();
    }
    if !overrides.intercept.is_absent() {
        entry.intercept = copy_yaml_override(&overrides.intercept).into_option();
    }
    if !overrides.isolate.is_absent() {
        entry.isolate = copy_isolate_override(&overrides.isolate).into_option();
    }
    let ghost now = entry@;
    let ghost start = entry.extra@;
    let ghost all = overrides.extra@;
    let mut i: usize = 0;
    assert(all.take(0) =~= Seq::<(Seq<char>, YamlView)>::empty());
    while i < overrides.extra.len()
        invariant
            i <= all.len(),
            all == overrides.extra@,
            entry@ == (OptionsView { extra: assign_all(start, all.take(i as int)), ..now }),
        decreases all.len() - i,
    {
        assert(all.take(i + 1).drop_last() =~= all.take(i as int));
        entry.extra.insert(overrides.extra.key_at(i).clone(), overrides.extra.value_at(i).clone());
        i += 1;
    }
    assert(all.take(i as int) =~= all);
    true
}

/// Edits the entry at a place, from index `d` of the way on. The entry as it was before comes
/// back, if there is one.
fn mutate_at_path(list: &mut Vec<EntryOptions>, path: &Vec<usize>, d: usize, edit: &Edit) -> (r:
    Option<EntryOptions>)
    requires
        d <= path@.len(),
    ensures
        options_views(final(list)@) == mutated(
            options_views(old(list)@),
            path@.skip(d as int),
            |o: OptionsView| edit.apply(o),
        ),
        crate::codec::options_option(r) == target_at(
            options_views(old(list)@),
            path@.skip(d as int),
        ),
    decreases path@.len() - d,
{
    let ghost way = path@.skip(d as int);
    let ghost before = options_views(list@);
    let ghost change = |o: OptionsView| edit.apply(o);
    if d == path.len() {
        return None;
    }
    let head = path[d];
    if head >= list.len() {
        return None;
    }
    assert(before[head as int] == list@[head as int]@);
    assert(way.drop_first() =~= path@.skip(d + 1));
    if d == path.len() - 1 {
        let was = list[head].duplicate();
        let entry = &mut list[head];
        match edit {
            Edit::Insert(insert) => {
                let _ = insert_into_group(entry, insert);
            },
            Edit::Override(patch) => {
                let _ = apply_overrides(entry, patch);
            },
        }
        assert(options_views(list@) =~= before.update(head as int, change(before[head as int])));
        return Some(was);
    }
    let mut children = decoded_children(&list[head]);
    let found = mutate_at_path(&mut children, path, d + 1, edit);
    let config = Some(encode_list(&children));
    let entry = &mut list[head];
    entry.config = config;
    assert(options_views(list@) =~= mutated(before, way, change));
    found
}

/// The id that a patch addresses.
fn addressed(patch: &PatchOptions) -> (r: Option<&String>)
    ensures
        match r {
            Some(id) => patch_id(patch@) == Some(id@),
            None => patch_id(patch@) is None,
        },
{
    match &patch.id {
        Some(id) => if id.as_str().is_empty() {
            None
        } else {
            Some(id)
        },
        None => None,
    }
}

/// Applies one patch; gives what there is to warn about, if anything.
fn apply_patch(
    data: &mut Vec<EntryOptions>,
    given: &mut Vec<EntryPath>,
    patch: &PatchOptions,
) -> (r: Option<String>)
    ensures
        options_views(final(data)@) == patched_once(
            options_views(old(data)@),
            path_views(old(given)@),
            patch@,
        ),
        path_views(final(given)@) == given_after(
            options_views(old(data)@),
            path_views(old(given)@),
            patch@,
        ),
        text_option(r) == patch_warning(
            options_views(old(data)@),
            path_views(old(given)@),
            patch@,
        ),
{
    let id = match addressed(patch) {
        Some(id) => id,
        None => {
            return match &patch.insert {
                Some(insert) => {
                    add_options(data, insert);
                    None
                },
                None => Some("patch: id is required for non-insert patches".to_owned()),
            };
        },
    };
    let place = find_place(data, given, id.as_str());
    match &patch.insert {
        Some(insert) => {
            let path = match place {
                Some(path) => path,
                None => {
                    return Some(concat3("patch insert: entry ", id.as_str(), " not found"));
                },
            };
            let edit = Edit::Insert(insert);
            assert(path.indices@.skip(0) =~= path@);
            let found = mutate_at_path(data, &path.indices, 0, &edit);
            proof {
                let list = options_views(insert@);
                assert((|o: OptionsView| edit.apply(o)) =~= (|o: OptionsView|
                    with_inserted(o, list)));
            }
            let is_group = match &found {
                Some(entry) => {
                    let is_group = crate::options::is_true(entry.group);
                    if is_group {
                        let children = decoded_children(entry);
                        assert(options_views(children@).len() == children@.len());
                        if children.len() == 0 {
                            drop_below(given, &path.indices);
                        }
                    }
                    is_group
                },
                None => false,
            };
            if is_group {
                None
            } else {
                Some(concat3("patch insert: entry ", id.as_str(), " is not a group"))
            }
        },
        None => {
            let path = match place {
                Some(path) => path,
                None => {
                    return Some(concat3("patch: entry ", id.as_str(), " not found"));
                },
            };
            let edit = Edit::Override(patch);
            assert(path.indices@.skip(0) =~= path@);
            let found = mutate_at_path(data, &path.indices, 0, &edit);
            proof {
                assert((|o: OptionsView| edit.apply(o)) =~= (|o: OptionsView|
                    overridden(o, patch@)));
            }
            match (&found, &patch.name) {
                (Some(entry), Some(name)) => {
                    if *name == entry.name {
                        if !patch.config.is_absent() {
                            drop_below(given, &path.indices);
                        }
                        None
                    } else {
                        let mut warning = concat3(
                            "patch: name mismatch for ",
                            id.as_str(),
                            " (expected ",
                        );
                        warning.append(entry.name.as_str());
                        warning.append(", got ");
                        warning.append(name.as_str());
                        warning.append("), skipping");
                        Some(warning)
                    }
                },
                (Some(_), None) => {
                    if !patch.config.is_absent() {
                        drop_below(given, &path.indices);
                    }
                    None
                },
                (None, _) => None,
            }
        },
    }
}

/// Applies patches to a list of options. The warnings come back with the list.
pub fn apply_patches(data: Vec<EntryOptions>, patches: &Vec<PatchOptions>) -> (r: (
    Vec<EntryOptions>,
    Vec<String>,
))
    ensures
        options_views(r.0@) == patched(
            options_views(data@),
            patch_views(patches@),
            patches@.len() as int,
        ),
        texts(r.1@) == patch_warnings(
            options_views(data@),
            patch_views(patches@),
            patches@.len() as int,
        ),
{
    let ghost start = options_views(data@);
    let ghost all = patch_views(patches@);
    let mut given: Vec<EntryPath> = Vec::new();
    let entries = list_entries(&data);
    let ghost pairs = listed_views(entries@);
    let mut k: usize = 0;
    assert(path_views(given@) =~= places_of(pairs.take(0)));
    while k < entries.len()
        invariant
            k <= entries@.len(),
            pairs == listed_views(entries@),
            path_views(given@) == places_of(pairs.take(k as int)),
        decreases entries@.len() - k,
    {
        let path = entries[k].path.indices.clone();
        assert(path@ =~= entries@[k as int].path@);
        let ghost before = path_views(given@);
        given.push(EntryPath { indices: path });
        assert(path_views(given@) =~= before.push(path@));
        assert(places_of(pairs.take(k + 1)) =~= places_of(pairs.take(k as int)).push(path@));
        k += 1;
    }
    assert(pairs.take(k as int) =~= pairs);
    let mut data = data;
    let mut warnings: Vec<String> = Vec::new();
    let mut i: usize = 0;
    assert(texts(warnings@) =~= Seq::<Seq<char>>::empty());
    while i < patches.len()
        invariant
            i <= patches@.len(),
            all == patch_views(patches@),
            (options_views(data@), path_views(given@)) == patch_state(start, all, i as int),
            texts(warnings@) == patch_warnings(start, all, i as int),
        decreases patches@.len() - i,
    {
        assert(all[i as int] == patches@[i as int]@);
        let ghost before = texts(warnings@);
        match apply_patch(&mut data, &mut given, &patches[i]) {
            Some(warning) => {
                let ghost added = warning@;
                warnings.push(warning);
                assert(texts(warnings@) =~= before.push(added));
            },
            None => {},
        }
        i += 1;
    }
    (data, warnings)
}

/// What `last_place` finds.
proof fn lemma_last_place(
    pairs: Seq<(Seq<char>, Seq<usize>)>,
    given: Seq<Seq<usize>>,
    id: Seq<char>,
)
    ensures
        match last_place(pairs, given, id) {
            Some(path) => pairs.contains((id, path)) && given.contains(path),
            None => forall|i: int|
                0 <= i < pairs.len() ==> (#[trigger] pairs[i]).0 != id || !given.contains(
                    pairs[i].1,
                ),
        },
    decreases pairs.len(),
{
    if pairs.len() > 0 {
        let front = pairs.drop_last();
        lemma_last_place(front, given, id);
        if pairs.last().0 == id && given.contains(pairs.last().1) {
            assert(pairs[pairs.len() - 1] == (id, pairs.last().1));
        } else if let Some(path) = last_place(front, given, id) {
            let i = choose|i: int| 0 <= i < front.len() && front[i] == (id, path);
            assert(pairs[i] == (id, path));
        } else {
            assert forall|i: int| 0 <= i < pairs.len() implies (#[trigger] pairs[i]).0 != id
                || !given.contains(pairs[i].1) by {
                if i < front.len() {
                    assert(front[i] == pairs[i]);
                }
            }
        }
    }
}

proof fn lemma_without_below(places: Seq<Seq<usize>>, above: Seq<usize>, place: Seq<usize>)
    ensures
        without_below(places, above).contains(place) <==> places.contains(place) && !lies_below(
            place,
            above,
        ),
    decreases places.len(),
{
    if places.len() > 0 {
        let front = places.drop_last();
        let rest = without_below(front, above);
        let all = without_below(places, above);
        lemma_without_below(front, above, place);
        if places.contains(place) {
            let i = choose|i: int| 0 <= i < places.len() && places[i] == place;
            if i < front.len() {
                assert(front[i] == place);
            }
        }
        if front.contains(place) {
            let i = choose|i: int| 0 <= i < front.len() && front[i] == place;
            assert(places[i] == place);
        }
        if rest.contains(place) {
            let i = choose|i: int| 0 <= i < rest.len() && rest[i] == place;
            assert(all[i] == place);
        }
        if all.contains(place) {
            let i = choose|i: int| 0 <= i < all.len() && all[i] == place;
            if i < rest.len() {
                assert(rest[i] == place);
            } else {
                assert(places[places.len() - 1] == place);
            }
        }
        if place == places.last() && !lies_below(place, above) {
            assert(all[all.len() - 1] == place);
        }
    }
}

/// Patches address places of the given entries only: no patch adds to those places.
pub proof fn inserted_entries_are_not_addressed(
    list: Seq<OptionsView>,
    patches: Seq<PatchView>,
    n: int,
    patch: PatchView,
)
    requires
        0 <= n,
    ensures
        forall|place: Seq<usize>|
            patch_state(list, patches, n).1.contains(place) ==> places_of(
                all_listed(list),
            ).contains(place),
        ({
            let (now, given) = patch_state(list, patches, n);
            match patch_place(now, given, patch) {
                Some(place) => places_of(all_listed(list)).contains(place),
                None => patch_id(patch) is Some ==> patched_once(now, given, patch) == now
                    && patch_warning(now, given, patch) is Some,
            }
        }),
    decreases n,
{
    let (now, given) = patch_state(list, patches, n);
    if n > 0 {
        inserted_entries_are_not_addressed(list, patches, n - 1, patch);
        let (before, known) = patch_state(list, patches, n - 1);
        assert forall|place: Seq<usize>| #[trigger] given.contains(place) implies places_of(
            all_listed(list),
        ).contains(place) by {
            if let Some(path) = patch_place(before, known, patches[n - 1]) {
                lemma_without_below(known, path, place);
            }
            assert(known.contains(place));
        }
    }
    if let Some(id) = patch_id(patch) {
        lemma_last_place(all_listed(now), given, id);
    }
}

/// The entries that the first `n` patches add at the end of the list.
pub open spec fn root_inserts(patches: Seq<PatchView>, n: int) -> Seq<OptionsView>
    decreases n,
{
    if n <= 0 {
        Seq::empty()
    } else {
        let before = root_inserts(patches, n - 1);
        match patches[n - 1].insert {
            Some(insert) => if patch_id(patches[n - 1]) is None {
                before + insert
            } else {
                before
            },
            None => before,
        }
    }
}

/// Entries that are added at the end of the list stand behind the given ones, in order, and no
/// later patch changes them, whatever their ids are.
pub proof fn root_inserts_stay(list: Seq<OptionsView>, patches: Seq<PatchView>, n: int)
    requires
        0 <= n <= patches.len(),
    ensures
        patched(list, patches, n).len() == list.len() + root_inserts(patches, n).len(),
        patched(list, patches, n).skip(list.len() as int) == root_inserts(patches, n),
    decreases n,
{
    let now = patched(list, patches, n);
    let len = list.len() as int;
    if n == 0 {
        assert(list.skip(len) =~= Seq::<OptionsView>::empty());
    } else {
        root_inserts_stay(list, patches, n - 1);
        let patch = patches[n - 1];
        inserted_entries_are_not_addressed(list, patches, n - 1, patch);
        let (before, given) = patch_state(list, patches, n - 1);
        match patch_place(before, given, patch) {
            Some(place) => {
                let pairs = all_listed(list);
                lemma_listed_points(list, len, Seq::empty());
                let i = choose|i: int|
                    0 <= i < places_of(pairs).len() && places_of(pairs)[i] == place;
                assert(points_to(list, Seq::empty(), pairs[i]));
                assert(pairs[i].1[0] < len);
                assert(now.skip(len) =~= before.skip(len));
            },
            None => {
                if patch_id(patch) is None && patch.insert is Some {
                    assert(now.skip(len) =~= before.skip(len) + patch.insert->0);
                }
            },
        }
    }
}

/// The places of the entries of a list stay as they are when others are added at its end.
proof fn lemma_listed_grow(list: Seq<OptionsView>, more: Seq<OptionsView>, n: int, base: Seq<usize>)
    requires
        0 <= n <= list.len(),
    ensures
        listed(list + more, n, base) == listed(list, n, base),
    decreases n,
{
    if n > 0 {
        lemma_listed_grow(list, more, n - 1, base);
        assert((list + more)[n - 1] == list[n - 1]);
    }
}

/// Entries further on in the list have other places.
pub proof fn lemma_later_listed(list: Seq<OptionsView>, from: int, n: int, base: Seq<usize>)
    requires
        0 <= from <= n <= list.len(),
        list.len() <= usize::MAX,
    ensures
        listed(list, n, base).len() >= listed(list, from, base).len(),
        listed(list, n, base).take(listed(list, from, base).len() as int) == listed(
            list,
            from,
            base,
        ),
        forall|i: int|
            listed(list, from, base).len() <= i < listed(list, n, base).len() ==> (
            #[trigger] listed(list, n, base)[i]).1[base.len() as int] >= from,
    decreases n,
{
    let first = listed(list, from, base);
    let all = listed(list, n, base);
    if n == from {
        assert(all.take(first.len() as int) =~= first);
    } else {
        lemma_later_listed(list, from, n - 1, base);
        let before = listed(list, n - 1, base);
        let k = (n - 1) as usize;
        let at = base.push(k);
        let children = indexed_children(list[n - 1]);
        if children.len() > 0 {
            lemma_listed_points(children, children.len() as int, at);
        }
        let own = if list[n - 1].id.len() > 0 {
            before.push((list[n - 1].id, at))
        } else {
            before
        };
        assert(all.take(first.len() as int) =~= first) by {
            assert(all.take(before.len() as int) =~= before);
            assert(all.take(first.len() as int) =~= all.take(before.len() as int).take(
                first.len() as int,
            ));
        }
        assert forall|i: int| first.len() <= i < all.len() implies (#[trigger] all[i]).1[base.len()
            as int] >= from by {
            if i < before.len() {
                assert(all[i] == before[i]);
            } else if i >= own.len() {
                let below = listed(children, children.len() as int, at);
                assert(all[i] == below[i - own.len()]);
                lemma_points_below(list, base, k, all[i]);
            }
        }
    }
}

proof fn lemma_last_place_take(
    pairs: Seq<(Seq<char>, Seq<usize>)>,
    given: Seq<Seq<usize>>,
    id: Seq<char>,
    m: int,
)
    requires
        0 <= m <= pairs.len(),
        forall|i: int| m <= i < pairs.len() ==> !given.contains((#[trigger] pairs[i]).1),
    ensures
        last_place(pairs, given, id) == last_place(pairs.take(m), given, id),
    decreases pairs.len(),
{
    if m == pairs.len() {
        assert(pairs.take(m) =~= pairs);
    } else {
        let front = pairs.drop_last();
        assert(!given.contains(pairs[pairs.len() - 1].1));
        assert forall|i: int| m <= i < front.len() implies !given.contains(
            (#[trigger] front[i]).1,
        ) by {
            assert(front[i] == pairs[i]);
        }
        lemma_last_place_take(front, given, id, m);
        assert(front.take(m) =~= pairs.take(m));
    }
}

/// Adding entries at the end of the list changes no place: every patch addresses what it did.
pub proof fn root_inserts_keep_places(
    list: Seq<OptionsView>,
    given: Seq<Seq<usize>>,
    insert: Seq<OptionsView>,
    patch: PatchView,
)
    requires
        list.len() + insert.len() <= usize::MAX,
        forall|place: Seq<usize>| #[trigger]
            given.contains(place) ==> place.len() > 0 && place[0] < list.len(),
    ensures
        patch_place(list + insert, given, patch) == patch_place(list, given, patch),
{
    if let Some(id) = patch_id(patch) {
        let more = list + insert;
        let len = list.len() as int;
        lemma_listed_grow(list, insert, len, Seq::empty());
        lemma_later_listed(more, len, more.len() as int, Seq::empty());
        let pairs = all_listed(more);
        let m = all_listed(list).len() as int;
        assert forall|i: int| m <= i < pairs.len() implies !given.contains(
            (#[trigger] pairs[i]).1,
        ) by {}
        lemma_last_place_take(pairs, given, id, m);
    }
}

/// A patch leaves the entries of the list alone that are not on the way to its target.
pub proof fn other_entries_stay(
    list: Seq<OptionsView>,
    path: Seq<usize>,
    edit: spec_fn(OptionsView) -> OptionsView,
    i: int,
)
    requires
        0 <= i < list.len(),
        path.len() > 0,
        path[0] != i,
    ensures
        mutated(list, path, edit).len() == list.len(),
        mutated(list, path, edit)[i] == list[i],
{
}

/// A patch whose name does not fit leaves its target alone, and so does one that overrides nothing.
pub proof fn unfit_patches_change_nothing(options: OptionsView, patch: PatchView)
    requires
        name_differs(options, patch) || (patch.config is Absent && patch.disabled is Absent
            && patch.group is Absent && patch.inject is Absent && patch.intercept is Absent
            && patch.isolate is Absent && patch.extra.len() == 0),
    ensures
        overridden(options, patch) == options,
{
}

} // verus!
