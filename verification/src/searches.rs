//! What walks over the tree meet, and what searches in it find.

use crate::forest::{
    disabled_at, entry_at, group_at, has_entry, id_place, ids_along, ids_lead_to, inherits_disabled,
    key_count, keys_ok, lemma_group_step, lemma_id_place, resolve_ids, walk, EntryView,
};
use crate::options::OptionsView;
use crate::reconcile::reading_of;
use crate::reload::bound_keys;
use crate::tree::{
    answers, fits, first_answer, found, is_pending, lemma_walk_has_entries, moving_fibers,
    pending_places, place_of, stack_lines, task_count, uses_id, QueryView, TreeView,
};
use crate::text::split;
use vstd::prelude::*;

verus! {

/// Whether the place `a` comes before the place `b`: `b` lies below it, or in or below a later
/// entry of a group that both are in.
pub open spec fn comes_before(a: Seq<usize>, b: Seq<usize>) -> bool {
    exists|d: int|
        0 <= d <= a.len() && d < b.len() && #[trigger] a.take(d) == b.take(d) && (d == a.len()
            || a[d] < b[d])
}

proof fn lemma_fits_front(es: Seq<EntryView>)
    requires
        fits(es),
        es.len() > 0,
    ensures
        fits(es.drop_last()),
        es.last().subgroup is Some ==> fits(es.last().subgroup->0),
{
    assert forall|j: int| 0 <= j < es.drop_last().len() implies match (
    #[trigger] es.drop_last()[j]).subgroup {
        Some(g) => fits(g),
        None => true,
    } by {
        assert(es[j] == es.drop_last()[j]);
    }
    assert(es[es.len() - 1] == es.last());
}

/// The first step of a way: to an entry of the list, and from there into its subgroup.
proof fn lemma_first_step(es: Seq<EntryView>, p: Seq<usize>)
    requires
        p.len() > 0,
    ensures
        has_entry(es, p) ==> p[0] < es.len(),
        p.len() == 1 ==> (has_entry(es, p) <==> p[0] < es.len()),
        p.len() == 1 ==> entry_at(es, p) == es[p[0] as int],
{
    if p.len() == 1 {
        assert(p.drop_last() =~= Seq::<usize>::empty());
    } else {
        lemma_group_step(es, p);
    }
}

/// Entries of the front of a list are where they are in the list.
proof fn lemma_front(es: Seq<EntryView>, p: Seq<usize>)
    requires
        es.len() > 0,
        p.len() > 0,
        p[0] < es.len() - 1,
    ensures
        has_entry(es.drop_last(), p) <==> has_entry(es, p),
        has_entry(es, p) ==> entry_at(es.drop_last(), p) == entry_at(es, p),
{
    lemma_first_step(es, p);
    lemma_first_step(es.drop_last(), p);
    if p.len() > 1 {
        lemma_group_step(es, p);
        lemma_group_step(es.drop_last(), p);
    }
}

proof fn lemma_walk_meets(es: Seq<EntryView>, base: Seq<usize>, p: Seq<usize>)
    requires
        fits(es),
        has_entry(es, p),
    ensures
        walk(es, base).contains(base + p),
    decreases es,
{
    let all = walk(es, base);
    lemma_first_step(es, p);
    lemma_fits_front(es);
    let last = (es.len() - 1) as usize;
    let at = base.push(last);
    let front = walk(es.drop_last(), base);
    if p[0] < last {
        lemma_front(es, p);
        lemma_walk_meets(es.drop_last(), base, p);
        let i = choose|i: int| 0 <= i < front.len() && front[i] == base + p;
        assert(all[i] == base + p);
    } else if p.len() == 1 {
        assert(base + p =~= at);
        assert(all[front.len() as int] == at);
    } else {
        lemma_group_step(es, p);
        let g = es.last().subgroup->0;
        let rest = p.drop_first();
        lemma_walk_meets(g, at, rest);
        let below = walk(g, at);
        let i = choose|i: int| 0 <= i < below.len() && below[i] == at + rest;
        assert(at + rest =~= base + p);
        assert(all[front.len() + 1 + i] == base + p);
    }
}

/// Of the places of a walk each comes before the later ones.
proof fn lemma_walk_order(es: Seq<EntryView>, base: Seq<usize>, i: int, j: int)
    requires
        fits(es),
        0 <= i < j < walk(es, base).len(),
    ensures
        comes_before(walk(es, base)[i], walk(es, base)[j]),
    decreases es,
{
    let all = walk(es, base);
    lemma_fits_front(es);
    let last = (es.len() - 1) as usize;
    let at = base.push(last);
    let front = walk(es.drop_last(), base);
    let n = front.len() as int;
    let b = base.len() as int;
    if j < n {
        lemma_walk_order(es.drop_last(), base, i, j);
        assert(all[i] == front[i] && all[j] == front[j]);
    } else if i < n {
        assert(all[i] == front[i]);
        lemma_walk_has_entries(es.drop_last(), base, i);
        let rel = front[i].skip(b);
        lemma_first_step(es.drop_last(), rel);
        assert(rel[0] == front[i][b]);
        lemma_walk_has_entries(es, base, j);
        if j == n {
            assert(all[j] == at);
        } else {
            let g = es.last().subgroup->0;
            lemma_walk_has_entries(g, at, j - n - 1);
            assert(all[j] == walk(g, at)[j - n - 1]);
            assert(all[j].take(at.len() as int)[b] == at[b]);
        }
        assert(all[i].take(b) == all[j].take(b));
    } else if i == n {
        let g = es.last().subgroup->0;
        lemma_walk_has_entries(g, at, j - n - 1);
        assert(all[i] == at);
        assert(all[j] == walk(g, at)[j - n - 1]);
        assert(at.take(at.len() as int) =~= at);
        assert(all[i].take(at.len() as int) == all[j].take(at.len() as int));
    } else {
        let g = es.last().subgroup->0;
        lemma_walk_order(g, at, i - n - 1, j - n - 1);
        assert(all[i] == walk(g, at)[i - n - 1]);
        assert(all[j] == walk(g, at)[j - n - 1]);
    }
}

/// No place comes before itself.
proof fn lemma_not_before_itself(p: Seq<usize>)
    ensures
        !comes_before(p, p),
{
}

/// The walk meets every entry of the tree, once, and nothing else: an entry before those below it,
/// and these before its later siblings.
pub proof fn the_walk_meets_every_entry_once(es: Seq<EntryView>)
    requires
        fits(es),
    ensures
        forall|p: Seq<usize>| #[trigger] walk(es, Seq::empty()).contains(p) <==> has_entry(es, p),
        walk(es, Seq::empty()).no_duplicates(),
        forall|i: int, j: int|
            0 <= i < j < walk(es, Seq::empty()).len() ==> comes_before(
                #[trigger] walk(es, Seq::empty())[i],
                #[trigger] walk(es, Seq::empty())[j],
            ),
{
    let none = Seq::<usize>::empty();
    let list = walk(es, none);
    assert forall|p: Seq<usize>| #[trigger] list.contains(p) <==> has_entry(es, p) by {
        if list.contains(p) {
            let i = choose|i: int| 0 <= i < list.len() && list[i] == p;
            lemma_walk_has_entries(es, none, i);
            assert(p.skip(0) =~= p);
        }
        if has_entry(es, p) {
            lemma_walk_meets(es, none, p);
            assert(none + p =~= p);
        }
    }
    assert forall|i: int, j: int| 0 <= i < j < list.len() implies comes_before(
        #[trigger] list[i],
        #[trigger] list[j],
    ) by {
        lemma_walk_order(es, none, i, j);
    }
    assert forall|i: int, j: int| 0 <= i < j < list.len() implies list[i] != list[j] by {
        lemma_not_before_itself(list[i]);
        assert(comes_before(list[i], list[j]));
    }
}

proof fn lemma_bound_filter(es: Seq<EntryView>, list: Seq<Seq<usize>>, name: Seq<char>)
    ensures
        bound_keys(es, list, name) == list.filter(
            |p: Seq<usize>| entry_at(es, p).options.name == name,
        ).map_values(|p: Seq<usize>| entry_at(es, p).key),
    decreases list.len(),
{
    reveal(Seq::filter);
    let fit = |p: Seq<usize>| entry_at(es, p).options.name == name;
    let key = |p: Seq<usize>| entry_at(es, p).key;
    if list.len() > 0 {
        lemma_bound_filter(es, list.drop_last(), name);
        let rest = list.drop_last().filter(fit);
        assert(rest.push(list.last()).map_values(key) =~= rest.map_values(key).push(
            key(list.last()),
        ));
    }
    assert(bound_keys(es, list, name) =~= list.filter(fit).map_values(key));
}

/// Bound to a plugin are all entries with its name, and no others, whatever else they are: their
/// keys are listed in the order of the walk, one for each.
pub proof fn bound_are_the_entries_of_the_name(es: Seq<EntryView>, name: Seq<char>)
    requires
        fits(es),
    ensures
        ({
            let keys = bound_keys(es, walk(es, Seq::empty()), name);
            &&& keys == walk(es, Seq::empty()).filter(
                |p: Seq<usize>| entry_at(es, p).options.name == name,
            ).map_values(|p: Seq<usize>| entry_at(es, p).key)
            &&& forall|p: Seq<usize>|
                #[trigger] has_entry(es, p) && entry_at(es, p).options.name == name
                    ==> keys.contains(entry_at(es, p).key)
            &&& forall|key: u64| #[trigger]
                keys.contains(key) ==> exists|p: Seq<usize>| #[trigger]
                    has_entry(es, p) && entry_at(es, p).options.name == name && entry_at(es, p).key
                        == key
        }),
{
    let list = walk(es, Seq::empty());
    let fit = |p: Seq<usize>| entry_at(es, p).options.name == name;
    let keys = bound_keys(es, list, name);
    let kept = list.filter(fit);
    lemma_bound_filter(es, list, name);
    the_walk_meets_every_entry_once(es);
    assert(keys == kept.map_values(|p: Seq<usize>| entry_at(es, p).key));
    assert forall|p: Seq<usize>| #[trigger]
        has_entry(es, p) && entry_at(es, p).options.name == name implies keys.contains(
        entry_at(es, p).key,
    ) by {
        assert(list.contains(p));
        let i = list.index_of(p);
        assert(fit(list[i]));
        list.lemma_filter_contains(fit, i);
        let k = kept.index_of(p);
        assert(keys[k] == entry_at(es, p).key);
    }
    assert forall|key: u64| #[trigger] keys.contains(key) implies exists|p: Seq<usize>| #[trigger]
        has_entry(es, p) && entry_at(es, p).options.name == name && entry_at(es, p).key == key by {
        let k = keys.index_of(key);
        let p = kept[k];
        list.lemma_filter_pred(fit, k);
        list.lemma_filter_contains_rev(fit, p);
        assert(has_entry(es, p));
    }
}

/// A search finds the first entry in the order of the walk that has the key, the fiber or the full
/// id asked for. It finds nothing only where no entry has.
pub proof fn searches_find_the_first(es: Seq<EntryView>, query: QueryView)
    requires
        fits(es),
    ensures
        match found(es, query) {
            Some(p) => {
                &&& has_entry(es, p)
                &&& answers(es, p, query)
                &&& forall|other: Seq<usize>| #[trigger]
                    has_entry(es, other) && answers(es, other, query) && other != p
                        ==> comes_before(p, other)
            },
            None => forall|p: Seq<usize>| #[trigger] has_entry(es, p) ==> !answers(es, p, query),
        },
{
    let list = walk(es, Seq::empty());
    the_walk_meets_every_entry_once(es);
    lemma_first(es, list, query);
    match found(es, query) {
        Some(p) => {
            let i = choose|i: int|
                {
                    &&& 0 <= i < list.len()
                    &&& #[trigger] list[i] == p
                    &&& answers(es, p, query)
                    &&& forall|j: int| 0 <= j < i ==> !answers(es, #[trigger] list[j], query)
                };
            assert(list.contains(list[i]));
            assert forall|other: Seq<usize>| #[trigger]
                has_entry(es, other) && answers(es, other, query) && other
                    != p implies comes_before(p, other) by {
                assert(list.contains(other));
                let j = list.index_of(other);
                assert(list[j] == other);
                assert(i < j);
                assert(comes_before(list[i], list[j]));
            }
        },
        None => {
            assert forall|p: Seq<usize>| #[trigger] has_entry(es, p) implies !answers(
                es,
                p,
                query,
            ) by {
                assert(list.contains(p));
                let j = list.index_of(p);
                assert(!answers(es, list[j], query));
            }
        },
    }
}

proof fn lemma_first(es: Seq<EntryView>, list: Seq<Seq<usize>>, query: QueryView)
    ensures
        match first_answer(es, list, query) {
            Some(p) => exists|i: int|
                {
                    &&& 0 <= i < list.len()
                    &&& #[trigger] list[i] == p
                    &&& answers(es, p, query)
                    &&& forall|j: int| 0 <= j < i ==> !answers(es, #[trigger] list[j], query)
                },
            None => forall|j: int| 0 <= j < list.len() ==> !answers(es, #[trigger] list[j], query),
        },
    decreases list.len(),
{
    if list.len() > 0 {
        if answers(es, list[0], query) {
            assert(list[0] == first_answer(es, list, query)->0);
        } else {
            let rest = list.drop_first();
            lemma_first(es, rest, query);
            match first_answer(es, rest, query) {
                Some(p) => {
                    let i = choose|i: int|
                        {
                            &&& 0 <= i < rest.len()
                            &&& #[trigger] rest[i] == p
                            &&& answers(es, p, query)
                            &&& forall|j: int|
                                0 <= j < i ==> !answers(es, #[trigger] rest[j], query)
                        };
                    assert(list[i + 1] == p);
                    assert forall|j: int| 0 <= j < i + 1 implies !answers(
                        es,
                        #[trigger] list[j],
                        query,
                    ) by {
                        if j > 0 {
                            assert(rest[j - 1] == list[j]);
                        }
                    }
                },
                None => {
                    assert forall|j: int| 0 <= j < list.len() implies !answers(
                        es,
                        #[trigger] list[j],
                        query,
                    ) by {
                        if j > 0 {
                            assert(rest[j - 1] == list[j]);
                        }
                    }
                },
            }
        }
    }
}

/// An entry answers a query for its key, for its root fiber and for its ids from the root down
/// with colons between them, and no other.
pub proof fn entries_answer_for_what_they_have(es: Seq<EntryView>, p: Seq<usize>)
    ensures
        forall|key: u64| answers(es, p, QueryView::Key(key)) <==> key == entry_at(es, p).key,
        forall|fiber: u64|
            answers(es, p, QueryView::Fiber(fiber)) <==> entry_at(es, p).fiber == Some(fiber),
        forall|id: Seq<char>|
            answers(es, p, QueryView::FullId(id)) <==> id == crate::text::join(
                ids_along(es, p),
                seq![':'],
            ),
{
    reveal_strlit(":");
    assert(":"@ =~= seq![':']);
}

/// The ids along a place are those of the entries on the way, from the root down to the entry.
pub proof fn ids_are_those_on_the_way(es: Seq<EntryView>, p: Seq<usize>)
    requires
        has_entry(es, p),
    ensures
        ids_along(es, p).len() == p.len(),
        forall|d: int|
            0 < d <= p.len() ==> has_entry(es, #[trigger] p.take(d)) && ids_along(es, p)[d - 1]
                == entry_at(es, p.take(d)).options.id,
    decreases p.len(),
{
    lemma_first_step(es, p);
    let ids = ids_along(es, p);
    let e = es[p[0] as int];
    if p.len() > 1 {
        lemma_group_step(es, p);
        ids_are_those_on_the_way(e.subgroup->0, p.drop_first());
    }
    assert forall|d: int| 0 < d <= p.len() implies has_entry(es, #[trigger] p.take(d)) && ids[d - 1]
        == entry_at(es, p.take(d)).options.id by {
        let way = p.take(d);
        lemma_first_step(es, way);
        if d > 1 {
            lemma_group_step(es, way);
            assert(way.drop_first() =~= p.drop_first().take(d - 1));
            assert(has_entry(e.subgroup->0, p.drop_first().take(d - 1)));
        }
    }
}

/// An entry that is no group is disabled where its own options say so, or those of an entry above
/// it. A group never is.
pub proof fn disabled_by_itself_or_above(es: Seq<EntryView>, p: Seq<usize>)
    requires
        has_entry(es, p),
    ensures
        disabled_at(es, p) <==> entry_at(es, p).options.group != Some(true) && exists|d: int|
            0 < d <= p.len() && entry_at(es, #[trigger] p.take(d)).options.disabled == Some(true),
{
    lemma_inherits_above(es, p);
    let e = entry_at(es, p);
    assert(p.take(p.len() as int) =~= p);
    if inherits_disabled(es, p) {
        let d = choose|d: int|
            0 < d < p.len() && entry_at(es, #[trigger] p.take(d)).options.disabled == Some(true);
        assert(entry_at(es, p.take(d)).options.disabled == Some(true));
    }
    if e.options.disabled == Some(true) {
        assert(entry_at(es, p.take(p.len() as int)).options.disabled == Some(true));
    }
}

proof fn lemma_inherits_above(es: Seq<EntryView>, p: Seq<usize>)
    requires
        has_entry(es, p),
    ensures
        inherits_disabled(es, p) <==> exists|d: int|
            0 < d < p.len() && entry_at(es, #[trigger] p.take(d)).options.disabled == Some(true),
    decreases p.len(),
{
    if p.len() > 1 {
        lemma_group_step(es, p);
        let e = es[p[0] as int];
        let g = e.subgroup->0;
        let rest = p.drop_first();
        lemma_inherits_above(g, rest);
        assert(p.take(1) =~= seq![p[0]]);
        lemma_first_step(es, p.take(1));
        assert forall|d: int| 1 < d <= p.len() implies entry_at(es, #[trigger] p.take(d))
            == entry_at(g, rest.take(d - 1)) by {
            ids_are_those_on_the_way(es, p);
            assert(has_entry(es, p.take(d)));
            lemma_group_step(es, p.take(d));
            assert(p.take(d).drop_first() =~= rest.take(d - 1));
        }
        if inherits_disabled(es, p) {
            if e.options.disabled == Some(true) {
                assert(entry_at(es, p.take(1)).options.disabled == Some(true));
            } else {
                let d = choose|d: int|
                    0 < d < rest.len() && entry_at(g, #[trigger] rest.take(d)).options.disabled
                        == Some(true);
                assert(entry_at(es, p.take(d + 1)).options.disabled == Some(true));
            }
        }
        if exists|d: int|
            0 < d < p.len() && entry_at(es, #[trigger] p.take(d)).options.disabled == Some(true) {
            let d = choose|d: int|
                0 < d < p.len() && entry_at(es, #[trigger] p.take(d)).options.disabled == Some(
                    true,
                );
            if d > 1 {
                assert(entry_at(g, rest.take(d - 1)).options.disabled == Some(true));
            }
        }
    }
}

/// An id written in parts leads to an entry with these ids along the way, at each step to the first
/// of its group that has the id; it leads nowhere only where no way goes by the first entries with
/// these ids.
pub proof fn ids_lead_along_first_entries(es: Seq<EntryView>, ids: Seq<Seq<char>>)
    requires
        fits(es),
    ensures
        match resolve_ids(es, ids) {
            Some(p) => has_entry(es, p) && ids_along(es, p) == ids && ids_lead_to(es, p),
            None => forall|p: Seq<usize>| #[trigger] ids_lead_to(es, p) ==> ids_along(es, p) != ids,
        },
    decreases ids.len(),
{
    assert forall|p: Seq<usize>| #[trigger]
        ids_lead_to(es, p) && resolve_ids(es, ids) is None implies ids_along(es, p) != ids by {
        crate::forest::ids_resolve_back(es, p);
    }
    if let Some(p) = resolve_ids(es, ids) {
        let i = id_place(es, ids[0]);
        lemma_id_place(es, ids[0]);
        assert(p[0] == i as usize);
        if ids.len() == 1 {
            lemma_first_step(es, p);
            assert(ids_along(es, p) =~= ids);
        } else {
            let g = es[i].subgroup->0;
            assert(fits(g));
            ids_lead_along_first_entries(g, ids.drop_first());
            let rest = resolve_ids(g, ids.drop_first())->0;
            assert(p.drop_first() =~= rest);
            assert(has_entry(g, rest));
            lemma_group_step(es, p);
            assert(ids_along(es, p) =~= seq![ids[0]] + ids.drop_first());
            assert(seq![ids[0]] + ids.drop_first() =~= ids);
        }
    }
}

/// An id is in use where an entry of the tree has it, at any depth.
pub proof fn used_ids_are_those_of_entries(es: Seq<EntryView>, id: Seq<char>)
    requires
        fits(es),
    ensures
        uses_id(es, id) <==> exists|p: Seq<usize>| #[trigger]
            has_entry(es, p) && entry_at(es, p).options.id == id,
{
    if uses_id(es, id) {
        lemma_used_somewhere(es, id);
    }
    if exists|p: Seq<usize>| #[trigger] has_entry(es, p) && entry_at(es, p).options.id == id {
        let p = choose|p: Seq<usize>| #[trigger]
            has_entry(es, p) && entry_at(es, p).options.id == id;
        lemma_used_at(es, id, p);
    }
}

proof fn lemma_used_at(es: Seq<EntryView>, id: Seq<char>, p: Seq<usize>)
    requires
        fits(es),
        has_entry(es, p),
        entry_at(es, p).options.id == id,
    ensures
        uses_id(es, id),
    decreases es,
{
    lemma_first_step(es, p);
    lemma_fits_front(es);
    if p[0] < es.len() - 1 {
        lemma_front(es, p);
        lemma_used_at(es.drop_last(), id, p);
    } else if p.len() > 1 {
        lemma_group_step(es, p);
        lemma_used_at(es.last().subgroup->0, id, p.drop_first());
    }
}

proof fn lemma_used_somewhere(es: Seq<EntryView>, id: Seq<char>)
    requires
        fits(es),
        uses_id(es, id),
    ensures
        exists|p: Seq<usize>| #[trigger] has_entry(es, p) && entry_at(es, p).options.id == id,
    decreases es,
{
    lemma_fits_front(es);
    let last = (es.len() - 1) as usize;
    if es.last().options.id == id {
        let p = seq![last];
        lemma_first_step(es, p);
        assert(has_entry(es, p) && entry_at(es, p).options.id == id);
    } else if uses_id(es.drop_last(), id) {
        lemma_used_somewhere(es.drop_last(), id);
        let p = choose|p: Seq<usize>| #[trigger]
            has_entry(es.drop_last(), p) && entry_at(es.drop_last(), p).options.id == id;
        lemma_first_step(es.drop_last(), p);
        lemma_front(es, p);
        assert(has_entry(es, p) && entry_at(es, p).options.id == id);
    } else {
        let g = es.last().subgroup->0;
        lemma_used_somewhere(g, id);
        let rest = choose|p: Seq<usize>| #[trigger]
            has_entry(g, p) && entry_at(g, p).options.id == id;
        let p = seq![last] + rest;
        assert(p.drop_first() =~= rest);
        lemma_group_step(es, p);
        assert(has_entry(es, p) && entry_at(es, p).options.id == id);
    }
}

/// Pending are the entries with an init under way, those whose root fiber is in motion, and those
/// without a fiber that are neither disabled nor groups.
pub proof fn pending_entries_are_counted(es: Seq<EntryView>, moving: Seq<u64>)
    requires
        fits(es),
    ensures
        pending_places(es, moving).no_duplicates(),
        forall|p: Seq<usize>| #[trigger]
            pending_places(es, moving).contains(p) <==> {
                &&& has_entry(es, p)
                &&& {
                    ||| entry_at(es, p).init_task
                    ||| entry_at(es, p).fiber is Some && moving.contains(entry_at(es, p).fiber->0)
                    ||| entry_at(es, p).fiber is None && !disabled_at(es, p) && entry_at(
                        es,
                        p,
                    ).options.group != Some(true)
                }
            },
{
    let list = walk(es, Seq::empty());
    let pending = |p: Seq<usize>| is_pending(es, p, moving);
    the_walk_meets_every_entry_once(es);
    lemma_filter_no_duplicates(list, pending);
    assert forall|p: Seq<usize>| #[trigger] list.filter(pending).contains(p) <==> has_entry(es, p)
        && is_pending(es, p, moving) by {
        if list.filter(pending).contains(p) {
            let k = list.filter(pending).index_of(p);
            list.lemma_filter_pred(pending, k);
            list.lemma_filter_contains_rev(pending, p);
        }
        if has_entry(es, p) && is_pending(es, p, moving) {
            assert(list.contains(p));
            let i = list.index_of(p);
            assert(pending(list[i]));
            list.lemma_filter_contains(pending, i);
        }
    }
}

proof fn lemma_filter_no_duplicates<A>(list: Seq<A>, keep: spec_fn(A) -> bool)
    requires
        list.no_duplicates(),
    ensures
        list.filter(keep).no_duplicates(),
    decreases list.len(),
{
    reveal(Seq::filter);
    if list.len() > 0 {
        let front = list.drop_last();
        lemma_filter_no_duplicates(front, keep);
        let rest = front.filter(keep);
        assert forall|i: int| 0 <= i < rest.len() implies rest[i] != list.last() by {
            assert(rest.contains(rest[i]));
            front.lemma_filter_contains_rev(keep, rest[i]);
            let k = front.index_of(rest[i]);
            assert(list[k] == rest[i]);
        }
    }
}

/// The fibers in motion are those of entries that are among the moving ones, in the order of the
/// walk.
pub proof fn moving_fibers_are_listed(
    es: Seq<EntryView>,
    list: Seq<Seq<usize>>,
    moving: Seq<u64>,
)
    ensures
        moving_fibers(es, list, moving) == list.filter(
            |p: Seq<usize>|
                entry_at(es, p).fiber is Some && moving.contains(entry_at(es, p).fiber->0),
        ).map_values(|p: Seq<usize>| entry_at(es, p).fiber->0),
    decreases list.len(),
{
    reveal(Seq::filter);
    let fit = |p: Seq<usize>|
        entry_at(es, p).fiber is Some && moving.contains(entry_at(es, p).fiber->0);
    let fiber = |p: Seq<usize>| entry_at(es, p).fiber->0;
    if list.len() > 0 {
        moving_fibers_are_listed(es, list.drop_last(), moving);
        let rest = list.drop_last().filter(fit);
        assert(rest.push(list.last()).map_values(fiber) =~= rest.map_values(fiber).push(
            fiber(list.last()),
        ));
    }
    assert(moving_fibers(es, list, moving) =~= list.filter(fit).map_values(fiber));
}

/// How often the key occurs in an entry and below it.
spec fn own_count(e: EntryView, key: u64) -> nat {
    (if e.key == key {
        1nat
    } else {
        0
    }) + match e.subgroup {
        Some(g) => key_count(g, key),
        None => 0,
    }
}

proof fn lemma_count_two(es: Seq<EntryView>, i: int, j: int, key: u64)
    requires
        0 <= i < es.len(),
        0 <= j < es.len(),
    ensures
        key_count(es, key) >= own_count(es[i], key),
        i != j ==> key_count(es, key) >= own_count(es[i], key) + own_count(es[j], key),
    decreases es.len(),
{
    let last = es.len() - 1;
    let front = es.drop_last();
    assert(key_count(es, key) == key_count(front, key) + own_count(es.last(), key));
    if i < last && j < last {
        lemma_count_two(front, i, j, key);
    } else if i < last {
        lemma_count_two(front, i, i, key);
    } else if j < last {
        lemma_count_two(front, j, j, key);
    }
}

proof fn lemma_key_counted(es: Seq<EntryView>, p: Seq<usize>)
    requires
        has_entry(es, p),
    ensures
        key_count(es, entry_at(es, p).key) > 0,
    decreases p.len(),
{
    lemma_first_step(es, p);
    let i = p[0] as int;
    lemma_count_two(es, i, i, entry_at(es, p).key);
    if p.len() > 1 {
        lemma_group_step(es, p);
        lemma_key_counted(es[i].subgroup->0, p.drop_first());
    }
}

/// Where the keys are in order, no two places have entries with the same key, and every key was
/// given out before the next one.
pub proof fn keys_tell_entries_apart(
    es: Seq<EntryView>,
    next: u64,
    p: Seq<usize>,
    q: Seq<usize>,
)
    requires
        keys_ok(es, next),
        has_entry(es, p),
        has_entry(es, q),
    ensures
        entry_at(es, p).key < next,
        entry_at(es, p).key == entry_at(es, q).key ==> p == q,
{
    let key = entry_at(es, p).key;
    lemma_key_counted(es, p);
    assert(key_count(es, key) <= 1);
    if entry_at(es, q).key == key {
        lemma_key_once(es, p, q);
    }
}

proof fn lemma_key_once(es: Seq<EntryView>, p: Seq<usize>, q: Seq<usize>)
    requires
        has_entry(es, p),
        has_entry(es, q),
        entry_at(es, p).key == entry_at(es, q).key,
        key_count(es, entry_at(es, p).key) <= 1,
    ensures
        p == q,
    decreases p.len(),
{
    let key = entry_at(es, p).key;
    let i = p[0] as int;
    let j = q[0] as int;
    lemma_first_step(es, p);
    lemma_first_step(es, q);
    lemma_count_two(es, i, j, key);
    if p.len() > 1 {
        lemma_group_step(es, p);
        lemma_key_counted(es[i].subgroup->0, p.drop_first());
    }
    if q.len() > 1 {
        lemma_group_step(es, q);
        lemma_key_counted(es[j].subgroup->0, q.drop_first());
    }
    assert(i == j);
    if p.len() == 1 {
        assert(q.len() == 1);
        assert(p =~= q);
    } else {
        assert(q.len() > 1);
        lemma_key_once(es[i].subgroup->0, p.drop_first(), q.drop_first());
        assert(p =~= seq![p[0]] + p.drop_first());
        assert(q =~= seq![q[0]] + q.drop_first());
    }
}

/// A tree has as many tasks as it counts, or as it has pending entries, whichever is more.
pub proof fn tasks_are_counted_or_pending(tree: TreeView, moving: Seq<u64>)
    ensures
        task_count(tree, moving) >= tree.tasks,
        task_count(tree, moving) >= pending_places(tree.root, moving).len(),
        task_count(tree, moving) == tree.tasks || task_count(tree, moving) == pending_places(
            tree.root,
            moving,
        ).len(),
{
}

/// A stack names the entry first and then those above it, each with the mark of the library.
pub proof fn stacks_go_upwards(ids: Seq<Seq<char>>)
    ensures
        stack_lines(ids).len() == ids.len(),
        forall|i: int|
            0 <= i < ids.len() ==> stack_lines(ids)[ids.len() - 1 - i] == "    at cordis#"@
                + #[trigger] ids[i],
{
}

/// A reading is into the entries of the group, with the options and ids given and the next key of
/// the tree. The group is below a disabled entry where one of the entries down to its owner is
/// disabled.
pub proof fn readings_are_of_a_group(
    tree: TreeView,
    q: Seq<usize>,
    configs: Seq<OptionsView>,
    fresh: Seq<Seq<char>>,
)
    requires
        group_at(tree.root, q) is Some,
    ensures
        ({
            let reading = reading_of(tree, q, configs, fresh);
            &&& Some(reading.group) == group_at(tree.root, q)
            &&& reading.configs == configs
            &&& reading.fresh == fresh
            &&& reading.next_key == tree.next_key
            &&& reading.inherited <==> exists|d: int|
                0 < d <= q.len() && entry_at(tree.root, #[trigger] q.take(d)).options.disabled
                    == Some(true)
        }),
{
    lemma_group_inherits(tree.root, q);
}

proof fn lemma_group_inherits(es: Seq<EntryView>, q: Seq<usize>)
    requires
        group_at(es, q) is Some,
    ensures
        inherits_disabled(es, q.push(0)) <==> exists|d: int|
            0 < d <= q.len() && entry_at(es, #[trigger] q.take(d)).options.disabled == Some(true),
    decreases q.len(),
{
    let p = q.push(0);
    if q.len() > 0 {
        let e = es[q[0] as int];
        let g = e.subgroup->0;
        let rest = q.drop_first();
        lemma_group_inherits(g, rest);
        assert(p.drop_first() =~= rest.push(0));
        assert(q.take(1) =~= seq![q[0]]);
        lemma_first_step(es, q.take(1));
        assert forall|d: int| 1 < d <= q.len() implies #[trigger] entry_at(es, q.take(d))
            == entry_at(g, rest.take(d - 1)) by {
            let way = q.take(d);
            assert(way.drop_first() =~= rest.take(d - 1));
            assert(way.drop_first().drop_last() =~= way.drop_last().drop_first());
            assert(way.drop_last()[0] == q[0]);
            assert(group_at(es, way.drop_last()) == group_at(g, way.drop_last().drop_first()));
        }
        if inherits_disabled(es, p) {
            if e.options.disabled == Some(true) {
                assert(entry_at(es, q.take(1)).options.disabled == Some(true));
            } else {
                let d = choose|d: int|
                    0 < d <= rest.len() && entry_at(g, #[trigger] rest.take(d)).options.disabled
                        == Some(true);
                assert(entry_at(es, q.take(d + 1)) == entry_at(g, rest.take(d)));
                assert(entry_at(es, q.take(d + 1)).options.disabled == Some(true));
            }
        }
        if exists|d: int|
            0 < d <= q.len() && entry_at(es, #[trigger] q.take(d)).options.disabled == Some(true) {
            let d = choose|d: int|
                0 < d <= q.len() && entry_at(es, #[trigger] q.take(d)).options.disabled == Some(
                    true,
                );
            if d > 1 {
                assert(entry_at(es, q.take(d)) == entry_at(g, rest.take(d - 1)));
                assert(entry_at(g, rest.take(d - 1)).options.disabled == Some(true));
            }
        }
    }
}

/// An id written with colons leads where its parts lead.
pub proof fn written_ids_lead_along_their_parts(es: Seq<EntryView>, id: Seq<char>)
    requires
        fits(es),
    ensures
        match place_of(es, id) {
            Some(p) => has_entry(es, p) && ids_along(es, p) == split(id, ':') && ids_lead_to(es, p),
            None => forall|p: Seq<usize>| #[trigger]
                ids_lead_to(es, p) ==> ids_along(es, p) != split(id, ':'),
        },
{
    ids_lead_along_first_entries(es, split(id, ':'));
}

/// Ids lead to a place where each entry on the way is the first of its group with its id.
pub proof fn ids_lead_to_first_siblings(es: Seq<EntryView>, p: Seq<usize>)
    requires
        ids_lead_to(es, p),
    ensures
        has_entry(es, p),
        forall|d: int, i: usize|
            0 <= d < p.len() && i < p[d] ==> entry_at(es, #[trigger] p.take(d).push(i)).options.id
                != entry_at(es, p.take(d + 1)).options.id,
    decreases p.len(),
{
    lemma_first_step(es, p);
    lemma_id_place(es, es[p[0] as int].options.id);
    let g = es[p[0] as int].subgroup->0;
    if p.len() > 1 {
        ids_lead_to_first_siblings(g, p.drop_first());
        lemma_group_step(es, p);
    }
    assert forall|d: int, i: usize| 0 <= d < p.len() && i < p[d] implies entry_at(
        es,
        #[trigger] p.take(d).push(i),
    ).options.id != entry_at(es, p.take(d + 1)).options.id by {
        let own = p.take(d + 1);
        let other = p.take(d).push(i);
        if d == 0 {
            assert(own =~= seq![p[0]]);
            assert(other =~= seq![i]);
            lemma_first_step(es, own);
            lemma_first_step(es, other);
            assert(es[i as int].options.id != es[p[0] as int].options.id);
        } else {
            let rest = p.drop_first();
            assert(own.drop_first() =~= rest.take(d));
            assert(other.drop_first() =~= rest.take(d - 1).push(i));
            lemma_step_into(es, own);
            lemma_step_into(es, other);
            assert(rest[d - 1] == p[d]);
            assert(entry_at(g, rest.take(d - 1).push(i)).options.id != entry_at(
                g,
                rest.take(d - 1 + 1),
            ).options.id);
        }
    }
}

proof fn lemma_step_into(es: Seq<EntryView>, p: Seq<usize>)
    requires
        p.len() > 1,
        p[0] < es.len(),
        es[p[0] as int].subgroup is Some,
    ensures
        entry_at(es, p) == entry_at(es[p[0] as int].subgroup->0, p.drop_first()),
{
    assert(p.drop_first().drop_last() =~= p.drop_last().drop_first());
    assert(p.drop_last()[0] == p[0]);
}

} // verus!
