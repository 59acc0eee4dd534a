//! Insertions into groups leave the given entries where they are.

use crate::codec::{encoded_list, options_list_of};
use crate::entry::{lemma_filter_concat, untagged};
use crate::options::OptionsView;
use crate::patches::{
    all_listed, children_of, indexed_children, last_place, lemma_later_listed, lemma_listed_points,
    listed, mutated, patch_id, patch_place, with_inserted, PatchView,
};
use crate::roundtrip::{encoded_list_decodes, same_options, storable};
use vstd::prelude::*;

verus! {

/// The ids and places of an entry and of what is in it.
pub open spec fn entry_listed(entry: OptionsView, at: Seq<usize>) -> Seq<(Seq<char>, Seq<usize>)> {
    let own = if entry.id.len() > 0 {
        seq![(entry.id, at)]
    } else {
        Seq::empty()
    };
    own + listed(indexed_children(entry), indexed_children(entry).len() as int, at)
}

/// The pairs whose places are given.
pub open spec fn given_pairs(
    pairs: Seq<(Seq<char>, Seq<usize>)>,
    given: Seq<Seq<usize>>,
) -> Seq<(Seq<char>, Seq<usize>)> {
    pairs.filter(|pair: (Seq<char>, Seq<usize>)| given.contains(pair.1))
}

/// A list is listed entry by entry.
proof fn lemma_listed_entry(list: Seq<OptionsView>, n: int, base: Seq<usize>)
    requires
        0 < n <= list.len(),
        n <= usize::MAX,
    ensures
        listed(list, n, base) == listed(list, n - 1, base) + entry_listed(
            list[n - 1],
            base.push((n - 1) as usize),
        ),
{
    let before = listed(list, n - 1, base);
    let at = base.push((n - 1) as usize);
    let children = indexed_children(list[n - 1]);
    let below = listed(children, children.len() as int, at);
    if list[n - 1].id.len() > 0 {
        let own = seq![(list[n - 1].id, at)];
        assert(before.push((list[n - 1].id, at)) =~= before + own);
        assert(before + own + below =~= before + (own + below));
        assert(own + Seq::<(Seq<char>, Seq<usize>)>::empty() =~= own);
    } else {
        assert(Seq::<(Seq<char>, Seq<usize>)>::empty() + below =~= below);
    }
    if children.len() == 0 {
        assert(below =~= Seq::<(Seq<char>, Seq<usize>)>::empty());
        assert(before + below =~= before);
    }
}

/// What is listed of options depends on their ids, groups and configs alone.
proof fn lemma_listed_same(a: Seq<OptionsView>, b: Seq<OptionsView>, n: int, base: Seq<usize>)
    requires
        0 <= n <= a.len(),
        n <= b.len(),
        forall|i: int| 0 <= i < n ==> same_options(#[trigger] a[i], b[i]),
    ensures
        listed(a, n, base) == listed(b, n, base),
    decreases n,
{
    if n > 0 {
        lemma_listed_same(a, b, n - 1, base);
        assert(same_options(a[n - 1], b[n - 1]));
        if n <= usize::MAX {
            lemma_listed_entry(a, n, base);
            lemma_listed_entry(b, n, base);
            assert(indexed_children(a[n - 1]) == indexed_children(b[n - 1]));
        }
    }
}

/// A list with one entry exchanged lists the same given places when the entry does.
proof fn lemma_listed_update(
    list: Seq<OptionsView>,
    k: int,
    entry: OptionsView,
    n: int,
    base: Seq<usize>,
    given: Seq<Seq<usize>>,
)
    requires
        0 <= k < list.len(),
        0 <= n <= list.len(),
        list.len() <= usize::MAX,
        given_pairs(entry_listed(entry, base.push(k as usize)), given) == given_pairs(
            entry_listed(list[k], base.push(k as usize)),
            given,
        ),
    ensures
        given_pairs(listed(list.update(k, entry), n, base), given) == given_pairs(
            listed(list, n, base),
            given,
        ),
    decreases n,
{
    if n > 0 {
        let after = list.update(k, entry);
        lemma_listed_update(list, k, entry, n - 1, base, given);
        lemma_listed_entry(list, n, base);
        lemma_listed_entry(after, n, base);
        let at = base.push((n - 1) as usize);
        let keep = |pair: (Seq<char>, Seq<usize>)| given.contains(pair.1);
        lemma_filter_concat(listed(list, n - 1, base), entry_listed(list[n - 1], at), keep);
        lemma_filter_concat(listed(after, n - 1, base), entry_listed(after[n - 1], at), keep);
    }
}

/// Pairs whose places are not given do not count.
proof fn lemma_given_take(
    pairs: Seq<(Seq<char>, Seq<usize>)>,
    given: Seq<Seq<usize>>,
    m: int,
)
    requires
        0 <= m <= pairs.len(),
        forall|i: int| m <= i < pairs.len() ==> !given.contains((#[trigger] pairs[i]).1),
    ensures
        given_pairs(pairs, given) == given_pairs(pairs.take(m), given),
    decreases pairs.len(),
{
    reveal(Seq::filter);
    if m == pairs.len() {
        assert(pairs.take(m) =~= pairs);
    } else {
        let front = pairs.drop_last();
        assert(!given.contains(pairs[pairs.len() - 1].1));
        assert forall|i: int| m <= i < front.len() implies !given.contains(
            (#[trigger] front[i]).1,
        ) by {
            assert(front[i] == pairs[i]);
        }
        lemma_given_take(front, given, m);
        assert(front.take(m) =~= pairs.take(m));
    }
}

/// The last given place of an id is found among the pairs whose places are given.
proof fn lemma_last_place_given(
    pairs: Seq<(Seq<char>, Seq<usize>)>,
    given: Seq<Seq<usize>>,
    id: Seq<char>,
)
    ensures
        last_place(pairs, given, id) == last_place(given_pairs(pairs, given), given, id),
    decreases pairs.len(),
{
    reveal(Seq::filter);
    if pairs.len() > 0 {
        let front = pairs.drop_last();
        lemma_last_place_given(front, given, id);
        let rest = given_pairs(front, given);
        if given.contains(pairs.last().1) {
            assert(rest.push(pairs.last()).drop_last() =~= rest);
        }
    }
}

/// Whether a way leads through groups to a group, and the options on the way can be written and
/// read without loss.
pub open spec fn group_way(list: Seq<OptionsView>, path: Seq<usize>) -> bool
    decreases path.len(),
{
    &&& list.len() <= usize::MAX
    &&& path.len() > 0
    &&& path[0] < list.len()
    &&& list[path[0] as int].group == Some(true)
    &&& forall|i: int|
        0 <= i < children_of(list[path[0] as int]).len() ==> storable(
            #[trigger] children_of(list[path[0] as int])[i],
        )
    &&& (path.len() > 1 ==> {
        &&& indexed_children(list[path[0] as int]).len() > 0
        &&& group_way(children_of(list[path[0] as int]), path.drop_first())
    })
}

/// The entry that a way leads to.
pub open spec fn way_end(list: Seq<OptionsView>, path: Seq<usize>) -> OptionsView
    decreases path.len(),
{
    if path.len() <= 1 {
        list[path[0] as int]
    } else {
        way_end(children_of(list[path[0] as int]), path.drop_first())
    }
}

/// The children of a group whose config is written from a list.
proof fn lemma_written_children(entry: OptionsView, list: Seq<OptionsView>)
    requires
        entry.group == Some(true),
        entry.config == Some(encoded_list(list)),
        forall|i: int| 0 <= i < list.len() ==> storable(#[trigger] list[i]),
    ensures
        indexed_children(entry).len() == list.len(),
        forall|i: int|
            0 <= i < list.len() ==> same_options(#[trigger] indexed_children(entry)[i], list[i]),
{
    encoded_list_decodes(list);
    assert(untagged(encoded_list(list)) == encoded_list(list));
    assert(options_list_of(encoded_list(list)) == Some(indexed_children(entry)));
}

/// After an insertion into a group the same given places are listed, where the given children of
/// the group are among those that it had.
proof fn lemma_insert_keeps_listed(
    list: Seq<OptionsView>,
    path: Seq<usize>,
    insert: Seq<OptionsView>,
    base: Seq<usize>,
    given: Seq<Seq<usize>>,
)
    requires
        group_way(list, path),
        children_of(way_end(list, path)).len() + insert.len() <= usize::MAX,
        forall|i: int| 0 <= i < insert.len() ==> storable(#[trigger] insert[i]),
        forall|place: Seq<usize>| #[trigger]
            given.contains(place) && (base + path).len() < place.len() && place.take(
                (base + path).len() as int,
            ) == base + path ==> place[(base + path).len() as int] < indexed_children(
                way_end(list, path),
            ).len(),
    ensures
        mutated(list, path, |o: OptionsView| with_inserted(o, insert)).len() == list.len(),
        given_pairs(
            listed(
                mutated(list, path, |o: OptionsView| with_inserted(o, insert)),
                list.len() as int,
                base,
            ),
            given,
        ) == given_pairs(listed(list, list.len() as int, base), given),
    decreases path.len(),
{
    let edit = |o: OptionsView| with_inserted(o, insert);
    let k = path[0] as int;
    let e = list[k];
    let at = base.push(path[0]);
    let old_children = indexed_children(e);
    let keep = |pair: (Seq<char>, Seq<usize>)| given.contains(pair.1);
    if path.len() == 1 {
        assert(base + path =~= at);
        let children = children_of(e) + insert;
        let entry = edit(e);
        assert(entry == (OptionsView { config: Some(encoded_list(children)), ..e }));
        assert forall|i: int| 0 <= i < children.len() implies storable(#[trigger] children[i]) by {
            if i < children_of(e).len() {
                assert(children[i] == children_of(e)[i]);
            } else {
                assert(children[i] == insert[i - children_of(e).len()]);
            }
        }
        lemma_written_children(entry, children);
        let back = indexed_children(entry);
        let m = old_children.len() as int;
        lemma_later_listed(back, m, back.len() as int, at);
        let pairs = listed(back, back.len() as int, at);
        let first = listed(back, m, at);
        assert forall|i: int| first.len() <= i < pairs.len() implies !given.contains(
            (#[trigger] pairs[i]).1,
        ) by {
            lemma_listed_points(back, back.len() as int, at);
            let place = pairs[i].1;
            assert(place[at.len() as int] >= m);
        }
        lemma_given_take(pairs, given, first.len() as int);
        assert(m > 0 ==> children_of(e) == old_children);
        assert forall|i: int| 0 <= i < m implies same_options(
            #[trigger] back[i],
            old_children[i],
        ) by {
            assert(same_options(back[i], children[i]));
        }
        lemma_listed_same(back, old_children, m, at);
        let own = if e.id.len() > 0 {
            seq![(e.id, at)]
        } else {
            Seq::empty()
        };
        lemma_filter_concat(own, pairs, keep);
        lemma_filter_concat(own, listed(old_children, m, at), keep);
        lemma_listed_update(list, k, entry, list.len() as int, base, given);
    } else {
        let rest = path.drop_first();
        let children = children_of(e);
        assert(children == old_children);
        assert(at + rest =~= base + path);
        lemma_insert_keeps_listed(children, rest, insert, at, given);
        let below = mutated(children, rest, edit);
        let entry = OptionsView { config: Some(encoded_list(below)), ..e };
        let j = rest[0] as int;
        assert forall|i: int| 0 <= i < below.len() implies storable(#[trigger] below[i]) by {
            assert(storable(children[i]));
            if i != j {
                assert(below[i] == children[i]);
            }
        }
        lemma_written_children(entry, below);
        let back = indexed_children(entry);
        lemma_listed_same(back, below, below.len() as int, at);
        let own = if e.id.len() > 0 {
            seq![(e.id, at)]
        } else {
            Seq::empty()
        };
        lemma_filter_concat(own, listed(back, back.len() as int, at), keep);
        lemma_filter_concat(own, listed(children, children.len() as int, at), keep);
        lemma_listed_update(list, k, entry, list.len() as int, base, given);
    }
}

/// An insertion into a group leaves every given entry where it is: each patch addresses what it
/// did. The options on the way must be such that they are read back as they are written, and the
/// given children of the group those that it had.
pub proof fn group_inserts_keep_places(
    list: Seq<OptionsView>,
    path: Seq<usize>,
    insert: Seq<OptionsView>,
    given: Seq<Seq<usize>>,
    patch: PatchView,
)
    requires
        group_way(list, path),
        children_of(way_end(list, path)).len() + insert.len() <= usize::MAX,
        forall|i: int| 0 <= i < insert.len() ==> storable(#[trigger] insert[i]),
        forall|place: Seq<usize>| #[trigger]
            given.contains(place) && path.len() < place.len() && place.take(path.len() as int)
                == path ==> place[path.len() as int] < indexed_children(
                way_end(list, path),
            ).len(),
    ensures
        patch_place(
            mutated(list, path, |o: OptionsView| with_inserted(o, insert)),
            given,
            patch,
        ) == patch_place(list, given, patch),
{
    let after = mutated(list, path, |o: OptionsView| with_inserted(o, insert));
    assert(Seq::<usize>::empty() + path =~= path);
    lemma_insert_keeps_listed(list, path, insert, Seq::empty(), given);
    if let Some(id) = patch_id(patch) {
        lemma_last_place_given(all_listed(after), given, id);
        lemma_last_place_given(all_listed(list), given, id);
    }
}

} // verus!
