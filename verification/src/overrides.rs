//! What patches do to the entries that they address, and which those are.

use crate::codec::{all_options, encoded_list, options_of};
use crate::dict::{assign_all, distinct, lemma_lookup_at, lemma_place, lookup, lookup_after_assign};
use crate::entry::untagged;
use crate::options::OptionsView;
use crate::patches::{
    all_listed, children_of, configs_depth, given_after, index_of, indexed_children, last_place,
    lemma_children_depth, listed, mutated, overridden, patch_place, patch_state,
    patch_warning, patch_warnings, patched, patched_once, places_of, target_at, with_inserted,
    without_below, Override, PatchView,
};
use crate::readings::numbers;
use crate::roundtrip::{encoded_list_decodes, same_options, storable};
use crate::searches::comes_before;
use crate::value::YamlView;
use vstd::prelude::*;

verus! {

/// A dictionary with others assigned to it has their values under their keys, and under every other
/// key what it had.
pub proof fn assigned_keys_win<A>(
    pairs: Seq<(Seq<char>, A)>,
    more: Seq<(Seq<char>, A)>,
    key: Seq<char>,
)
    requires
        distinct(more),
    ensures
        lookup(more, key) is Some ==> lookup(assign_all(pairs, more), key) == lookup(more, key),
        lookup(more, key) is None ==> lookup(assign_all(pairs, more), key) == lookup(pairs, key),
    decreases more.len(),
{
    lemma_place(more, key);
    if more.len() > 0 {
        let front = more.drop_last();
        let last = more.last();
        assert(distinct(front));
        assigned_keys_win(pairs, front, key);
        lookup_after_assign(assign_all(pairs, front), last.0, last.1, key);
        lemma_place(front, key);
        if key == last.0 {
            lemma_lookup_at(more, more.len() - 1);
        } else {
            let at = crate::dict::place(front, key);
            if at < front.len() {
                assert(more[at] == front[at]);
                lemma_lookup_at(more, at);
                lemma_lookup_at(front, at);
            } else {
                assert forall|i: int| 0 <= i < more.len() implies (#[trigger] more[i]).0 != key by {
                    if i < front.len() {
                        assert(front[i].0 != key);
                    }
                }
                crate::dict::lemma_place_is(more, key, more.len() as int);
            }
        }
    }
}

/// What becomes of a field: the value that is put there, nothing where it is cleared, and what was
/// there where the patch does not speak of it.
pub open spec fn field_follows<A>(before: Option<A>, by: Override<A>, after: Option<A>) -> bool {
    &&& by is Absent ==> after == before
    &&& by is Put ==> after is Some && after->0 == by->Put_0
    &&& by is Clear ==> after is None
}

/// Where the patch expects no other name, each field follows its override whatever it was before,
/// further keys get the values that the patch has for them, and the id and the name stay.
pub proof fn overrides_set_fields(options: OptionsView, patch: PatchView)
    requires
        patch.name is None || patch.name == Some(options.name),
        distinct(patch.extra),
    ensures
        ({
            let after = overridden(options, patch);
            &&& field_follows(options.config, patch.config, after.config)
            &&& field_follows(options.disabled, patch.disabled, after.disabled)
            &&& field_follows(options.group, patch.group, after.group)
            &&& field_follows(options.inject, patch.inject, after.inject)
            &&& field_follows(options.intercept, patch.intercept, after.intercept)
            &&& field_follows(options.isolate, patch.isolate, after.isolate)
            &&& forall|key: Seq<char>| #[trigger]
                lookup(after.extra, key) == if lookup(patch.extra, key) is Some {
                    lookup(patch.extra, key)
                } else {
                    lookup(options.extra, key)
                }
            &&& after.id == options.id
            &&& after.name == options.name
        }),
{
    let after = overridden(options, patch);
    assert forall|key: Seq<char>| #[trigger]
        lookup(after.extra, key) == if lookup(patch.extra, key) is Some {
            lookup(patch.extra, key)
        } else {
            lookup(options.extra, key)
        } by {
        assigned_keys_win(options.extra, patch.extra, key);
    }
}

/// A patch that expects another name changes nothing.
pub proof fn other_names_are_left_alone(options: OptionsView, patch: PatchView)
    requires
        patch.name is Some,
        patch.name->0 != options.name,
    ensures
        overridden(options, patch) == options,
{
}

/// A list of values stands for options where each of them does, and then for theirs, in order.
pub proof fn options_are_read_one_by_one(items: Seq<YamlView>)
    ensures
        match all_options(items) {
            Some(list) => {
                &&& list.len() == items.len()
                &&& forall|i: int|
                    0 <= i < items.len() ==> options_of(#[trigger] items[i]) == Some(list[i])
            },
            None => exists|i: int| 0 <= i < items.len() && options_of(#[trigger] items[i]) is None,
        },
    decreases items.len(),
{
    if items.len() > 0 {
        let front = items.drop_last();
        options_are_read_one_by_one(front);
        match all_options(front) {
            Some(list) => {
                assert forall|i: int| 0 <= i < front.len() implies options_of(#[trigger] items[i])
                    == Some(list[i]) by {
                    assert(front[i] == items[i]);
                }
                if options_of(items.last()) is None {
                    assert(options_of(items[items.len() - 1]) is None);
                }
            },
            None => {
                let i = choose|i: int|
                    0 <= i < front.len() && options_of(#[trigger] front[i]) is None;
                assert(options_of(items[i]) is None);
            },
        }
    }
}

/// The children of a group are the options that its config lists, where it lists options only. An
/// entry that is no group has none.
pub proof fn groups_have_children(options: OptionsView)
    ensures
        options.group != Some(true) ==> indexed_children(options).len() == 0,
        options.config is None ==> indexed_children(options).len() == 0 && children_of(
            options,
        ).len() == 0,
        options.config matches Some(YamlView::Sequence(items)) ==> {
            &&& (forall|i: int| 0 <= i < items.len() ==> options_of(#[trigger] items[i]) is Some)
                ==> {
                &&& children_of(options).len() == items.len()
                &&& forall|i: int|
                    0 <= i < items.len() ==> options_of(#[trigger] items[i]) == Some(
                        children_of(options)[i],
                    )
                &&& options.group == Some(true) ==> indexed_children(options) == children_of(
                    options,
                )
            }
            &&& (exists|i: int| 0 <= i < items.len() && options_of(#[trigger] items[i]) is None)
                ==> indexed_children(options).len() == 0 && children_of(options).len() == 0
        },
{
    if let Some(YamlView::Sequence(items)) = options.config {
        options_are_read_one_by_one(items);
        assert(untagged(YamlView::Sequence(items)) == YamlView::Sequence(items));
    }
}

/// The children of an entry on the way to a target are the options that its config stands for, if
/// it does. For the index a config counts only where it is a list itself.
pub proof fn configs_stand_for_children(options: OptionsView)
    ensures
        children_of(options) == crate::loader::group_options(options.config),
        options.config is Some && !(options.config->0 is Sequence) ==> indexed_children(
            options,
        ).len() == 0,
{
}

/// The entry that a way through groups leads to, if it leads to one. Places are machine integers,
/// which no list outgrows.
pub open spec fn reached(list: Seq<OptionsView>, path: Seq<usize>) -> Option<OptionsView>
    decreases path.len(),
{
    if path.len() == 0 || path[0] >= list.len() || list.len() > usize::MAX {
        None
    } else if path.len() == 1 {
        Some(list[path[0] as int])
    } else {
        reached(indexed_children(list[path[0] as int]), path.drop_first())
    }
}

proof fn lemma_reached_listed(list: Seq<OptionsView>, n: int, base: Seq<usize>, path: Seq<usize>)
    requires
        n <= list.len(),
        n <= usize::MAX,
        path.len() > 0,
        path[0] < n,
        reached(list, path) is Some,
        reached(list, path)->0.id.len() > 0,
    ensures
        listed(list, n, base).contains((reached(list, path)->0.id, base + path)),
    decreases configs_depth(list), n,
{
    let pair = (reached(list, path)->0.id, base + path);
    let before = listed(list, n - 1, base);
    let at = base.push((n - 1) as usize);
    let e = list[n - 1];
    let children = indexed_children(e);
    let own = if e.id.len() > 0 {
        before.push((e.id, at))
    } else {
        before
    };
    let below = listed(children, children.len() as int, at);
    let all = listed(list, n, base);
    if path[0] < n - 1 {
        lemma_reached_listed(list, n - 1, base, path);
        let i = choose|i: int| 0 <= i < before.len() && before[i] == pair;
        assert(all[i] == pair);
    } else if path.len() == 1 {
        assert(base + path =~= at);
        assert(own[before.len() as int] == pair);
        assert(all[before.len() as int] == pair);
    } else {
        let rest = path.drop_first();
        assert(reached(list, path) == reached(children, rest));
        assert(children.len() > 0);
        lemma_children_depth(list, n - 1);
        lemma_reached_listed(children, children.len() as int, at, rest);
        assert(at + rest =~= base + path);
        let i = choose|i: int| 0 <= i < below.len() && below[i] == pair;
        assert(all[own.len() + i] == pair);
    }
}

proof fn lemma_listed_reached(list: Seq<OptionsView>, n: int, base: Seq<usize>, i: int)
    requires
        n <= list.len(),
        list.len() <= usize::MAX,
        0 <= i < listed(list, n, base).len(),
    ensures
        ({
            let (id, place) = listed(list, n, base)[i];
            &&& id.len() > 0
            &&& place.len() > base.len()
            &&& place == base + place.skip(base.len() as int)
            &&& place[base.len() as int] < n
            &&& reached(list, place.skip(base.len() as int)) is Some
            &&& reached(list, place.skip(base.len() as int))->0.id == id
        }),
    decreases configs_depth(list), n,
{
    let before = listed(list, n - 1, base);
    let k = (n - 1) as usize;
    let at = base.push(k);
    let e = list[n - 1];
    let children = indexed_children(e);
    let own = if e.id.len() > 0 {
        before.push((e.id, at))
    } else {
        before
    };
    let below = listed(children, children.len() as int, at);
    let all = listed(list, n, base);
    let place = all[i].1;
    if i < before.len() {
        assert(all[i] == before[i]);
        lemma_listed_reached(list, n - 1, base, i);
    } else if i < own.len() {
        assert(all[i] == (e.id, at));
        assert(place.skip(base.len() as int) =~= seq![k]);
        assert(place =~= base + seq![k]);
    } else {
        assert(all[i] == below[i - own.len()]);
        lemma_children_depth(list, n - 1);
        lemma_listed_reached(children, children.len() as int, at, i - own.len());
        let rest = place.skip(at.len() as int);
        let way = place.skip(base.len() as int);
        assert(place == at + rest);
        assert(way =~= seq![k] + rest);
        assert(place =~= base + way);
        assert(way.drop_first() =~= rest);
    }
}

/// Listed are exactly the entries with an id that a way through groups leads to, each with its id
/// and its place.
pub proof fn listed_are_those_reached(list: Seq<OptionsView>, id: Seq<char>, path: Seq<usize>)
    requires
        list.len() <= usize::MAX,
    ensures
        all_listed(list).contains((id, path)) <==> id.len() > 0 && reached(list, path) is Some
            && reached(list, path)->0.id == id,
{
    let all = all_listed(list);
    if all.contains((id, path)) {
        let i = choose|i: int| 0 <= i < all.len() && all[i] == (id, path);
        lemma_listed_reached(list, list.len() as int, Seq::empty(), i);
        assert(path.skip(0) =~= path);
    }
    if id.len() > 0 && reached(list, path) is Some && reached(list, path)->0.id == id {
        lemma_reached_listed(list, list.len() as int, Seq::empty(), path);
        assert(Seq::<usize>::empty() + path =~= path);
    }
}

/// Entries are listed in the order of their places: a group before what is in it, and that before
/// what comes after the group.
pub proof fn entries_are_listed_in_order(list: Seq<OptionsView>, i: int, j: int)
    requires
        list.len() <= usize::MAX,
        0 <= i < j < all_listed(list).len(),
    ensures
        comes_before(all_listed(list)[i].1, all_listed(list)[j].1),
{
    lemma_listed_order(list, list.len() as int, Seq::empty(), i, j);
}

proof fn lemma_listed_order(list: Seq<OptionsView>, n: int, base: Seq<usize>, i: int, j: int)
    requires
        n <= list.len(),
        list.len() <= usize::MAX,
        0 <= i < j < listed(list, n, base).len(),
    ensures
        comes_before(listed(list, n, base)[i].1, listed(list, n, base)[j].1),
    decreases configs_depth(list), n,
{
    let before = listed(list, n - 1, base);
    let at = base.push((n - 1) as usize);
    let e = list[n - 1];
    let children = indexed_children(e);
    let own = if e.id.len() > 0 {
        before.push((e.id, at))
    } else {
        before
    };
    let below = listed(children, children.len() as int, at);
    let all = listed(list, n, base);
    let b = base.len() as int;
    let a = all[i].1;
    let c = all[j].1;
    if j < before.len() {
        lemma_listed_order(list, n - 1, base, i, j);
        assert(all[i] == before[i] && all[j] == before[j]);
    } else {
        if j >= own.len() {
            assert(all[j] == below[j - own.len()]);
            lemma_listed_reached(children, children.len() as int, at, j - own.len());
            assert(c == at + c.skip(at.len() as int));
        } else {
            assert(c == at);
        }
        assert(c[b] == n - 1);
        if i < before.len() {
            assert(all[i] == before[i]);
            lemma_listed_reached(list, n - 1, base, i);
            assert(a == base + a.skip(b));
            assert(a.take(b) =~= base);
            assert(c.take(b) =~= base);
            assert(a.take(b) == c.take(b));
        } else if i < own.len() {
            assert(a == at);
            assert(a.take(at.len() as int) =~= at);
            assert(c.take(at.len() as int) =~= at);
            assert(a.take(at.len() as int) == c.take(at.len() as int));
        } else {
            assert(all[i] == below[i - own.len()]);
            lemma_children_depth(list, n - 1);
            lemma_listed_order(
                children,
                children.len() as int,
                at,
                i - own.len(),
                j - own.len(),
            );
        }
    }
}

/// A patch with an id addresses the last of the given places that is listed for the id. It
/// addresses none only where no given place is; a patch without an id, or an empty one, does not
/// address any.
pub proof fn patches_address_the_last_place(
    list: Seq<OptionsView>,
    given: Seq<Seq<usize>>,
    patch: PatchView,
)
    ensures
        ({
            let pairs = all_listed(list);
            match patch_place(list, given, patch) {
                Some(path) => {
                    &&& patch.id is Some
                    &&& patch.id->0.len() > 0
                    &&& given.contains(path)
                    &&& exists|i: int|
                        {
                            &&& 0 <= i < pairs.len()
                            &&& #[trigger] pairs[i] == (patch.id->0, path)
                            &&& forall|j: int|
                                i < j < pairs.len() && (#[trigger] pairs[j]).0 == patch.id->0
                                    ==> !given.contains(pairs[j].1)
                        }
                },
                None => patch.id is None || patch.id->0.len() == 0 || forall|i: int|
                    0 <= i < pairs.len() && (#[trigger] pairs[i]).0 == patch.id->0
                        ==> !given.contains(pairs[i].1),
            }
        }),
{
    if patch.id is Some && patch.id->0.len() > 0 {
        lemma_last(all_listed(list), given, patch.id->0);
    }
}

proof fn lemma_last(pairs: Seq<(Seq<char>, Seq<usize>)>, given: Seq<Seq<usize>>, id: Seq<char>)
    ensures
        match last_place(pairs, given, id) {
            Some(path) => given.contains(path) && exists|i: int|
                {
                    &&& 0 <= i < pairs.len()
                    &&& #[trigger] pairs[i] == (id, path)
                    &&& forall|j: int|
                        i < j < pairs.len() && (#[trigger] pairs[j]).0 == id ==> !given.contains(
                            pairs[j].1,
                        )
                },
            None => forall|i: int|
                0 <= i < pairs.len() && (#[trigger] pairs[i]).0 == id ==> !given.contains(
                    pairs[i].1,
                ),
        },
    decreases pairs.len(),
{
    if pairs.len() > 0 {
        let front = pairs.drop_last();
        let n: int = pairs.len() - 1;
        lemma_last(front, given, id);
        if pairs.last().0 == id && given.contains(pairs.last().1) {
            assert(pairs[n] == (id, pairs.last().1));
        } else {
            match last_place(front, given, id) {
                Some(path) => {
                    let i = choose|i: int|
                        {
                            &&& 0 <= i < front.len()
                            &&& #[trigger] front[i] == (id, path)
                            &&& forall|j: int|
                                i < j < front.len() && (#[trigger] front[j]).0 == id
                                    ==> !given.contains(front[j].1)
                        };
                    assert(pairs[i] == (id, path));
                    assert forall|j: int|
                        i < j < pairs.len() && (#[trigger] pairs[j]).0 == id implies !given.contains(
                        pairs[j].1,
                    ) by {
                        if j < n {
                            assert(front[j] == pairs[j]);
                        }
                    }
                },
                None => {
                    assert forall|i: int|
                        0 <= i < pairs.len() && (#[trigger] pairs[i]).0
                            == id implies !given.contains(pairs[i].1) by {
                        if i < n {
                            assert(front[i] == pairs[i]);
                        }
                    }
                },
            }
        }
    }
}

/// Before the first patch every listed entry can be addressed: a patch whose id one entry has, and
/// no other, addresses that entry.
pub proof fn a_patch_finds_its_entry(list: Seq<OptionsView>, path: Seq<usize>, patch: PatchView)
    requires
        list.len() <= usize::MAX,
        reached(list, path) is Some,
        patch.id == Some(reached(list, path)->0.id),
        patch.id->0.len() > 0,
        forall|other: Seq<usize>|
            (#[trigger] reached(list, other)) is Some && reached(list, other)->0.id == patch.id->0
                ==> other == path,
    ensures
        patch_place(list, patch_state(list, Seq::empty(), 0).1, patch) == Some(path),
{
    let given = places_of(all_listed(list));
    let pairs = all_listed(list);
    let id = patch.id->0;
    listed_are_those_reached(list, id, path);
    let i = choose|i: int| 0 <= i < pairs.len() && pairs[i] == (id, path);
    assert(given[i] == path);
    assert(given.contains(pairs[i].1));
    patches_address_the_last_place(list, given, patch);
    let found = patch_place(list, given, patch)->0;
    assert(pairs.contains((id, found)));
    listed_are_those_reached(list, id, found);
}

/// A patch that inserts without an id adds its entries at the end of the list, in order.
pub proof fn inserts_go_to_the_end(
    list: Seq<OptionsView>,
    given: Seq<Seq<usize>>,
    patch: PatchView,
)
    requires
        patch.insert is Some,
        patch.id is None || patch.id->0.len() == 0,
    ensures
        patched_once(list, given, patch) == list + patch.insert->0,
        given_after(list, given, patch) == given,
        patch_warning(list, given, patch) is None,
{
}

/// A patch of an entry of the list itself exchanges that entry alone. It gets the overrides of the
/// patch; or, being a group, the inserted entries.
pub proof fn patches_change_their_entry(
    list: Seq<OptionsView>,
    given: Seq<Seq<usize>>,
    patch: PatchView,
    k: usize,
)
    requires
        k < list.len(),
        patch_place(list, given, patch) == Some(seq![k]),
    ensures
        ({
            let after = patched_once(list, given, patch);
            &&& after.len() == list.len()
            &&& forall|i: int| 0 <= i < list.len() && i != k ==> #[trigger] after[i] == list[i]
            &&& patch.insert is None ==> after[k as int] == overridden(list[k as int], patch)
            &&& patch.insert matches Some(insert) ==> after[k as int] == with_inserted(
                list[k as int],
                insert,
            )
        }),
{
}

/// A patch whose entry is not there changes nothing and is warned of.
pub proof fn missing_entries_are_warned_of(
    list: Seq<OptionsView>,
    given: Seq<Seq<usize>>,
    patch: PatchView,
)
    requires
        patch_place(list, given, patch) is None,
        patch.insert is None || (patch.id is Some && patch.id->0.len() > 0),
    ensures
        patched_once(list, given, patch) == list,
        given_after(list, given, patch) == given,
        patch_warning(list, given, patch) == Some(
            if patch.id is None || patch.id->0.len() == 0 {
                "patch: id is required for non-insert patches"@
            } else if patch.insert is Some {
                "patch insert: entry "@ + patch.id->0 + " not found"@
            } else {
                "patch: entry "@ + patch.id->0 + " not found"@
            },
        ),
{
}

/// A group keeps its children and gets the inserted entries behind them. What is no group stays as
/// it is. The options must be such that they are read back as they are written.
pub proof fn groups_get_the_inserted(options: OptionsView, insert: Seq<OptionsView>)
    requires
        forall|i: int|
            0 <= i < children_of(options).len() ==> storable(#[trigger] children_of(options)[i]),
        forall|i: int| 0 <= i < insert.len() ==> storable(#[trigger] insert[i]),
    ensures
        options.group != Some(true) ==> with_inserted(options, insert) == options,
        options.group == Some(true) ==> {
            let after = with_inserted(options, insert);
            let old_len = children_of(options).len();
            &&& after == (OptionsView { config: after.config, ..options })
            &&& children_of(after) == indexed_children(after)
            &&& children_of(after).len() == old_len + insert.len()
            &&& forall|i: int|
                0 <= i < old_len ==> same_options(
                    #[trigger] children_of(after)[i],
                    children_of(options)[i],
                )
            &&& forall|i: int|
                0 <= i < insert.len() ==> same_options(
                    children_of(after)[old_len + i],
                    #[trigger] insert[i],
                )
        },
{
    if options.group == Some(true) {
        let all = children_of(options) + insert;
        let after = with_inserted(options, insert);
        assert forall|i: int| 0 <= i < all.len() implies storable(#[trigger] all[i]) by {
            if i < children_of(options).len() {
                assert(all[i] == children_of(options)[i]);
            } else {
                assert(all[i] == insert[i - children_of(options).len()]);
            }
        }
        encoded_list_decodes(all);
        assert(untagged(encoded_list(all)) == encoded_list(all));
        let back = children_of(after);
        assert forall|i: int| 0 <= i < children_of(options).len() implies same_options(
            #[trigger] back[i],
            children_of(options)[i],
        ) by {
            assert(same_options(back[i], all[i]));
        }
        assert forall|i: int| 0 <= i < insert.len() implies same_options(
            back[children_of(options).len() + i],
            #[trigger] insert[i],
        ) by {
            assert(same_options(
                back[children_of(options).len() + i],
                all[children_of(options).len() + i],
            ));
        }
    }
}

/// After a patch an entry can be addressed where it could before, unless it lies in an entry whose
/// config the patch sets or clears, or in a group that had no children to keep.
pub proof fn places_stay_given(
    list: Seq<OptionsView>,
    given: Seq<Seq<usize>>,
    patch: PatchView,
    place: Seq<usize>,
)
    ensures
        given_after(list, given, patch).contains(place) ==> given.contains(place),
        given.contains(place) && !given_after(list, given, patch).contains(place) ==> {
            let path = patch_place(list, given, patch);
            &&& path is Some
            &&& path->0.len() < place.len()
            &&& place.take(path->0.len() as int) == path->0
            &&& patch.insert is None ==> patch.config is Put || patch.config is Clear
        },
        patch.insert is None && patch.config is Absent ==> given_after(list, given, patch) == given,
{
    if let Some(path) = patch_place(list, given, patch) {
        lemma_not_below(given, path, place);
    }
}

proof fn lemma_not_below(places: Seq<Seq<usize>>, above: Seq<usize>, place: Seq<usize>)
    ensures
        without_below(places, above).contains(place) <==> places.contains(place) && !(above.len()
            < place.len() && place.take(above.len() as int) == above),
    decreases places.len(),
{
    if places.len() > 0 {
        let front = places.drop_last();
        let rest = without_below(front, above);
        let all = without_below(places, above);
        lemma_not_below(front, above, place);
        assert(places =~= front.push(places.last()));
        vstd::seq_lib::lemma_seq_contains_after_push(front, places.last(), place);
        vstd::seq_lib::lemma_seq_contains_after_push(rest, places.last(), place);
    }
}

/// What happens to the places that can be addressed, exactly: those below the target of a patch are
/// lost where the patch puts or clears its config, its name fitting, or inserts into a group that
/// has no children to keep.
pub proof fn lost_places_are_below(
    list: Seq<OptionsView>,
    given: Seq<Seq<usize>>,
    patch: PatchView,
    path: Seq<usize>,
    place: Seq<usize>,
)
    requires
        patch_place(list, given, patch) == Some(path),
        target_at(list, path) is Some,
    ensures
        ({
            let target = target_at(list, path)->0;
            let lost = match patch.insert {
                Some(_) => target.group == Some(true) && children_of(target).len() == 0,
                None => (patch.name is None || patch.name->0 == target.name) && !(
                patch.config is Absent),
            };
            given_after(list, given, patch).contains(place) <==> given.contains(place) && !(lost
                && path.len() < place.len() && place.take(path.len() as int) == path)
        }),
{
    lemma_not_below(given, path, place);
}

/// What is warned of where the entry is there: an insertion into what is no group, and another
/// name than the patch expects. Nothing else is.
pub proof fn unfit_entries_are_warned_of(
    list: Seq<OptionsView>,
    given: Seq<Seq<usize>>,
    patch: PatchView,
    path: Seq<usize>,
)
    requires
        patch_place(list, given, patch) == Some(path),
        target_at(list, path) is Some,
    ensures
        ({
            let target = target_at(list, path)->0;
            let id = patch.id->0;
            let warning = patch_warning(list, given, patch);
            match patch.insert {
                Some(_) => if target.group == Some(true) {
                    warning is None
                } else {
                    warning == Some("patch insert: entry "@ + id + " is not a group"@)
                },
                None => if patch.name is Some && patch.name->0 != target.name {
                    warning == Some(
                        "patch: name mismatch for "@ + id + " (expected "@ + target.name
                            + ", got "@ + patch.name->0 + "), skipping"@,
                    )
                } else {
                    warning is None
                },
            }
        }),
{
}

/// The warnings are those of the patches, in their order, each about the list that the patches
/// before it left.
pub proof fn warnings_come_in_order(list: Seq<OptionsView>, patches: Seq<PatchView>, n: nat)
    requires
        n <= patches.len(),
    ensures
        patch_warnings(list, patches, n as int) == numbers(n).map_values(
            |i: int|
                patch_warning(
                    patched(list, patches, i),
                    patch_state(list, patches, i).1,
                    patches[i],
                ),
        ).filter(|warning: Option<Seq<char>>| warning is Some).map_values(
            |warning: Option<Seq<char>>| warning->0,
        ),
    decreases n,
{
    reveal(Seq::filter);
    let of = |i: int|
        patch_warning(patched(list, patches, i), patch_state(list, patches, i).1, patches[i]);
    let given = |warning: Option<Seq<char>>| warning is Some;
    let text = |warning: Option<Seq<char>>| warning->0;
    if n > 0 {
        let before = (n - 1) as nat;
        warnings_come_in_order(list, patches, before);
        let all = numbers(n).map_values(of);
        assert(all.drop_last() =~= numbers(before).map_values(of));
        assert(all.last() == of(n - 1));
        let rest = all.drop_last().filter(given);
        assert(rest.push(all.last()).map_values(text) =~= rest.map_values(text).push(
            text(all.last()),
        ));
    } else {
        assert(numbers(n).map_values(of).len() == 0);
    }
    assert(patch_warnings(list, patches, n as int) =~= numbers(n).map_values(of).filter(
        given,
    ).map_values(text));
}

/// The index holds for each id the place that is listed for it last, and nothing for other ids.
pub proof fn the_index_holds_the_last_place(list: Seq<OptionsView>, id: Seq<char>)
    ensures
        ({
            let pairs = all_listed(list);
            match lookup(index_of(list), id) {
                Some(path) => exists|i: int|
                    {
                        &&& 0 <= i < pairs.len()
                        &&& #[trigger] pairs[i] == (id, path)
                        &&& forall|j: int| i < j < pairs.len() ==> (#[trigger] pairs[j]).0 != id
                    },
                None => forall|i: int| 0 <= i < pairs.len() ==> (#[trigger] pairs[i]).0 != id,
            }
        }),
{
    lemma_last_assigned(all_listed(list), id);
}

proof fn lemma_last_assigned(pairs: Seq<(Seq<char>, Seq<usize>)>, id: Seq<char>)
    ensures
        match lookup(assign_all(Seq::empty(), pairs), id) {
            Some(path) => exists|i: int|
                {
                    &&& 0 <= i < pairs.len()
                    &&& #[trigger] pairs[i] == (id, path)
                    &&& forall|j: int| i < j < pairs.len() ==> (#[trigger] pairs[j]).0 != id
                },
            None => forall|i: int| 0 <= i < pairs.len() ==> (#[trigger] pairs[i]).0 != id,
        },
    decreases pairs.len(),
{
    let none = Seq::<(Seq<char>, Seq<usize>)>::empty();
    if pairs.len() > 0 {
        let front = pairs.drop_last();
        let last = pairs.last();
        let n: int = pairs.len() - 1;
        lemma_last_assigned(front, id);
        lookup_after_assign(assign_all(none, front), last.0, last.1, id);
        if last.0 == id {
            assert(pairs[n] == (id, last.1));
        } else {
            match lookup(assign_all(none, front), id) {
                Some(path) => {
                    let i = choose|i: int|
                        {
                            &&& 0 <= i < front.len()
                            &&& #[trigger] front[i] == (id, path)
                            &&& forall|j: int| i < j < front.len() ==> (#[trigger] front[j]).0 != id
                        };
                    assert(pairs[i] == (id, path));
                    assert forall|j: int| i < j < pairs.len() implies (
                    #[trigger] pairs[j]).0 != id by {
                        if j < n {
                            assert(front[j] == pairs[j]);
                        }
                    }
                },
                None => {
                    assert forall|j: int| 0 <= j < pairs.len() implies (
                    #[trigger] pairs[j]).0 != id by {
                        if j < n {
                            assert(front[j] == pairs[j]);
                        }
                    }
                },
            }
        }
    } else {
        lemma_place(none, id);
    }
}

/// The options of two lists say the same, one for one.
pub open spec fn same_lists(a: Seq<OptionsView>, b: Seq<OptionsView>) -> bool {
    &&& a.len() == b.len()
    &&& forall|i: int| 0 <= i < a.len() ==> same_options(#[trigger] a[i], b[i])
}

/// Both are nothing, or options that say the same.
pub open spec fn same_target(a: Option<OptionsView>, b: Option<OptionsView>) -> bool {
    match (a, b) {
        (Some(x), Some(y)) => same_options(x, y),
        (None, None) => true,
        _ => false,
    }
}

proof fn lemma_same_target(a: Seq<OptionsView>, b: Seq<OptionsView>, path: Seq<usize>)
    requires
        same_lists(a, b),
    ensures
        same_target(target_at(a, path), target_at(b, path)),
    decreases path.len(),
{
    if path.len() > 0 && path[0] < a.len() {
        let k = path[0] as int;
        assert(same_options(a[k], b[k]));
        if path.len() > 1 {
            let children = children_of(a[k]);
            assert(children == children_of(b[k]));
            let rest = path.drop_first();
            if let Some(e) = target_at(children, rest) {
                assert(same_options(e, e));
            }
        }
    }
}

/// Whether the lists on a way can be written and read without loss.
pub open spec fn readable_way(list: Seq<OptionsView>, path: Seq<usize>) -> bool
    decreases path.len(),
{
    path.len() > 1 && path[0] < list.len() ==> {
        let children = children_of(list[path[0] as int]);
        &&& forall|i: int| 0 <= i < children.len() ==> storable(#[trigger] children[i])
        &&& readable_way(children, path.drop_first())
    }
}

proof fn lemma_way_written(
    list: Seq<OptionsView>,
    path: Seq<usize>,
    edit: spec_fn(OptionsView) -> OptionsView,
)
    requires
        readable_way(list, path),
        path.len() > 1,
        path[0] < list.len(),
        target_at(list, path) is Some,
        storable(edit(target_at(list, path)->0)),
    ensures
        ({
            let children = children_of(list[path[0] as int]);
            let below = mutated(children, path.drop_first(), edit);
            let after = mutated(list, path, edit);
            &&& after == list.update(path[0] as int, after[path[0] as int])
            &&& same_lists(children_of(after[path[0] as int]), below)
        }),
{
    let e = list[path[0] as int];
    let children = children_of(e);
    let rest = path.drop_first();
    let below = mutated(children, rest, edit);
    assert(target_at(list, path) == target_at(children, rest));
    assert forall|i: int| 0 <= i < below.len() implies storable(#[trigger] below[i]) by {
        assert(storable(children[i]));
    }
    encoded_list_decodes(below);
    let after = mutated(list, path, edit);
    assert(after[path[0] as int].config == Some(encoded_list(below)));
}

/// After an edit at a place the edited entry stands there, through however many groups the way
/// leads.
pub proof fn edits_reach_their_place(
    list: Seq<OptionsView>,
    path: Seq<usize>,
    edit: spec_fn(OptionsView) -> OptionsView,
)
    requires
        target_at(list, path) is Some,
        readable_way(list, path),
        path.len() > 1 ==> storable(edit(target_at(list, path)->0)),
    ensures
        mutated(list, path, edit).len() == list.len(),
        same_target(
            target_at(mutated(list, path, edit), path),
            Some(edit(target_at(list, path)->0)),
        ),
    decreases path.len(),
{
    if path.len() > 1 {
        let k = path[0] as int;
        let children = children_of(list[k]);
        let rest = path.drop_first();
        let below = mutated(children, rest, edit);
        let after = mutated(list, path, edit);
        edits_reach_their_place(children, rest, edit);
        lemma_way_written(list, path, edit);
        lemma_same_target(children_of(after[k]), below, rest);
        assert(target_at(after, path) == target_at(children_of(after[k]), rest));
    }
}

/// An edit leaves every entry alone that is neither on the way to its place nor below it.
pub proof fn edits_leave_other_places(
    list: Seq<OptionsView>,
    path: Seq<usize>,
    edit: spec_fn(OptionsView) -> OptionsView,
    other: Seq<usize>,
    d: int,
)
    requires
        target_at(list, path) is Some,
        readable_way(list, path),
        path.len() > 1 ==> storable(edit(target_at(list, path)->0)),
        0 <= d < path.len(),
        d < other.len(),
        other.take(d) == path.take(d),
        other[d] != path[d],
    ensures
        same_target(target_at(mutated(list, path, edit), other), target_at(list, other)),
    decreases path.len(),
{
    let k = path[0] as int;
    let after = mutated(list, path, edit);
    if d == 0 {
        assert(after.len() == list.len());
        if other[0] < list.len() {
            assert(after[other[0] as int] == list[other[0] as int]);
        }
    } else {
        let children = children_of(list[k]);
        let rest = path.drop_first();
        let way = other.drop_first();
        let below = mutated(children, rest, edit);
        assert(other[0] == other.take(d)[0]);
        assert(path[0] == path.take(d)[0]);
        assert(way.take(d - 1) =~= other.take(d).drop_first());
        assert(rest.take(d - 1) =~= path.take(d).drop_first());
        assert(way[d - 1] == other[d]);
        assert(rest[d - 1] == path[d]);
        edits_leave_other_places(children, rest, edit, way, d - 1);
        lemma_way_written(list, path, edit);
        lemma_same_target(children_of(after[k]), below, way);
        assert(target_at(after, other) == target_at(children_of(after[k]), way));
        assert(target_at(list, other) == target_at(children, way));
    }
}

/// A patch with an override changes the entry at its place as its overrides say, and one with an
/// insertion adds to the group there.
pub proof fn patches_edit_at_their_place(
    list: Seq<OptionsView>,
    given: Seq<Seq<usize>>,
    patch: PatchView,
)
    requires
        patch_place(list, given, patch) is Some,
        target_at(list, patch_place(list, given, patch)->0) is Some,
        readable_way(list, patch_place(list, given, patch)->0),
        patch.insert is None ==> storable(
            overridden(target_at(list, patch_place(list, given, patch)->0)->0, patch),
        ),
        patch.insert is Some ==> storable(
            with_inserted(
                target_at(list, patch_place(list, given, patch)->0)->0,
                patch.insert->0,
            ),
        ),
    ensures
        ({
            let path = patch_place(list, given, patch)->0;
            let before = target_at(list, path)->0;
            let after = target_at(patched_once(list, given, patch), path);
            &&& patch.insert is None ==> same_target(after, Some(overridden(before, patch)))
            &&& patch.insert is Some ==> same_target(
                after,
                Some(with_inserted(before, patch.insert->0)),
            )
        }),
{
    let path = patch_place(list, given, patch)->0;
    match patch.insert {
        Some(insert) => {
            edits_reach_their_place(list, path, |o: OptionsView| with_inserted(o, insert));
        },
        None => {
            edits_reach_their_place(list, path, |o: OptionsView| overridden(o, patch));
        },
    }
}

/// Patches are applied one after another, each to what the ones before it left.
pub proof fn patches_apply_in_order(list: Seq<OptionsView>, patches: Seq<PatchView>, n: int)
    requires
        0 <= n < patches.len(),
    ensures
        patched(list, patches, 0) == list,
        patched(list, patches, n + 1) == patched_once(
            patched(list, patches, n),
            patch_state(list, patches, n).1,
            patches[n],
        ),
        patch_state(list, patches, 0).1 == places_of(all_listed(list)),
        patch_state(list, patches, n + 1).1 == given_after(
            patched(list, patches, n),
            patch_state(list, patches, n).1,
            patches[n],
        ),
        places_of(all_listed(list)).len() == all_listed(list).len(),
        forall|i: int|
            0 <= i < all_listed(list).len() ==> #[trigger] places_of(all_listed(list))[i]
                == all_listed(list)[i].1,
{
}

} // verus!
