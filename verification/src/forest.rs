//! The shape of an entry tree: nested lists of entries, places in them and what they hold.
//!
//! A place is written as a list of indices: the place `[2, 0]` is the first entry of the subgroup
//! of the third entry of the root group. A group is written as the place of the entry that owns
//! it, the root group as the empty list.

use crate::options::OptionsView;
use crate::text::join;
use vstd::prelude::*;

verus! {

/// What an entry is, with everything below it.
pub struct EntryView {
    pub key: u64,
    pub options: OptionsView,
    pub fiber: Option<u64>,
    pub subgroup: Option<Seq<EntryView>>,
    pub init_task: bool,
}

impl EntryView {
    /// Whether the entry counts as disabled, where `inherited` says that an ancestor is.
    pub open spec fn is_disabled(self, inherited: bool) -> bool {
        self.options.group != Some(true) && (self.options.disabled == Some(true) || inherited)
    }
}

/// The entries of the group at `q`.
pub open spec fn group_at(es: Seq<EntryView>, q: Seq<usize>) -> Option<Seq<EntryView>>
    decreases q.len(),
{
    if q.len() == 0 {
        Some(es)
    } else if q[0] < es.len() {
        match es[q[0] as int].subgroup {
            Some(g) => group_at(g, q.drop_first()),
            None => None,
        }
    } else {
        None
    }
}

/// The forest with the entries of the group at `q` replaced by `to`.
pub open spec fn set_group_at(es: Seq<EntryView>, q: Seq<usize>, to: Seq<EntryView>) -> Seq<
    EntryView,
>
    decreases q.len(),
{
    if q.len() == 0 {
        to
    } else if q[0] < es.len() {
        let owner = es[q[0] as int];
        match owner.subgroup {
            Some(g) => es.update(
                q[0] as int,
                EntryView { subgroup: Some(set_group_at(g, q.drop_first(), to)), ..owner },
            ),
            None => es,
        }
    } else {
        es
    }
}

/// There is an entry at `p`.
pub open spec fn has_entry(es: Seq<EntryView>, p: Seq<usize>) -> bool {
    p.len() > 0 && group_at(es, p.drop_last()) is Some && p.last() < group_at(
        es,
        p.drop_last(),
    )->0.len()
}

/// The entry at `p`.
pub open spec fn entry_at(es: Seq<EntryView>, p: Seq<usize>) -> EntryView {
    group_at(es, p.drop_last())->0[p.last() as int]
}

/// The forest with the entry at `p` replaced by `to`.
pub open spec fn set_entry_at(es: Seq<EntryView>, p: Seq<usize>, to: EntryView) -> Seq<EntryView> {
    let q = p.drop_last();
    set_group_at(es, q, group_at(es, q)->0.update(p.last() as int, to))
}

/// The forest without the entry at `p`.
pub open spec fn without_entry_at(es: Seq<EntryView>, p: Seq<usize>) -> Seq<EntryView> {
    let q = p.drop_last();
    set_group_at(es, q, group_at(es, q)->0.remove(p.last() as int))
}

/// Every place below `base`, depth first: an entry before the entries of its subgroup.
pub open spec fn walk(es: Seq<EntryView>, base: Seq<usize>) -> Seq<Seq<usize>>
    decreases es,
{
    if es.len() == 0 {
        Seq::empty()
    } else {
        let at = base.push((es.len() - 1) as usize);
        walk(es.drop_last(), base).push(at) + match es.last().subgroup {
            Some(g) => walk(g, at),
            None => Seq::empty(),
        }
    }
}

/// How often the key occurs in the forest.
pub open spec fn key_count(es: Seq<EntryView>, key: u64) -> nat
    decreases es,
{
    if es.len() == 0 {
        0
    } else {
        let own: nat = if es.last().key == key {
            1
        } else {
            0
        };
        let below: nat = match es.last().subgroup {
            Some(g) => key_count(g, key),
            None => 0,
        };
        key_count(es.drop_last(), key) + own + below
    }
}

/// No key occurs twice, and only keys below `next` occur.
pub open spec fn keys_ok(es: Seq<EntryView>, next: u64) -> bool {
    forall|key: u64| (#[trigger] key_count(es, key)) <= 1 && (key >= next ==> key_count(es, key) == 0)
}

/// The place of the first entry with this id in a group, the length where there is none.
pub open spec fn id_place(es: Seq<EntryView>, id: Seq<char>) -> int
    decreases es.len(),
{
    if es.len() == 0 || es[0].options.id == id {
        0
    } else {
        1 + id_place(es.drop_first(), id)
    }
}

/// The place that a list of ids leads to, one group per id.
pub open spec fn resolve_ids(es: Seq<EntryView>, ids: Seq<Seq<char>>) -> Option<Seq<usize>>
    decreases ids.len(),
{
    if ids.len() == 0 {
        None
    } else {
        let i = id_place(es, ids[0]);
        if i >= es.len() {
            None
        } else if ids.len() == 1 {
            Some(seq![i as usize])
        } else {
            match es[i].subgroup {
                Some(g) => match resolve_ids(g, ids.drop_first()) {
                    Some(rest) => Some(seq![i as usize] + rest),
                    None => None,
                },
                None => None,
            }
        }
    }
}

/// The ids from the root down to the entry at `p`.
pub open spec fn ids_along(es: Seq<EntryView>, p: Seq<usize>) -> Seq<Seq<char>>
    decreases p.len(),
{
    if p.len() == 0 {
        Seq::empty()
    } else {
        let e = es[p[0] as int];
        seq![e.options.id] + (if p.len() == 1 {
            Seq::empty()
        } else {
            ids_along(e.subgroup->0, p.drop_first())
        })
    }
}

/// The full id of the entry at `p`: the ids from the root down, with colons between them.
pub open spec fn full_id(es: Seq<EntryView>, p: Seq<usize>) -> Seq<char> {
    join(ids_along(es, p), ":"@)
}

/// Whether an entry above the one at `p` is disabled.
pub open spec fn inherits_disabled(es: Seq<EntryView>, p: Seq<usize>) -> bool
    decreases p.len(),
{
    if p.len() <= 1 {
        false
    } else {
        let e = es[p[0] as int];
        e.options.disabled == Some(true) || inherits_disabled(e.subgroup->0, p.drop_first())
    }
}

/// Whether the entry at `p` counts as disabled.
pub open spec fn disabled_at(es: Seq<EntryView>, p: Seq<usize>) -> bool {
    entry_at(es, p).is_disabled(inherits_disabled(es, p))
}

/// On the way to `p` no earlier sibling has the same id, so that ids lead there.
pub open spec fn ids_lead_to(es: Seq<EntryView>, p: Seq<usize>) -> bool
    decreases p.len(),
{
    p.len() > 0 && p[0] < es.len() && id_place(es, es[p[0] as int].options.id) == p[0] && (p.len()
        == 1 || (es[p[0] as int].subgroup is Some && ids_lead_to(
        es[p[0] as int].subgroup->0,
        p.drop_first(),
    )))
}

/// What `id_place` finds.
pub proof fn lemma_id_place(es: Seq<EntryView>, id: Seq<char>)
    ensures
        0 <= id_place(es, id) <= es.len(),
        id_place(es, id) < es.len() ==> es[id_place(es, id)].options.id == id,
        forall|i: int| 0 <= i < id_place(es, id) ==> (#[trigger] es[i]).options.id != id,
    decreases es.len(),
{
    if es.len() > 0 && es[0].options.id != id {
        let rest = es.drop_first();
        lemma_id_place(rest, id);
        assert forall|i: int| 0 <= i < id_place(es, id) implies (#[trigger] es[i]).options.id
            != id by {
            if i > 0 {
                assert(rest[i - 1] == es[i]);
            }
        }
    }
}

/// `id_place` is the first place where the id occurs.
pub proof fn lemma_id_place_is(es: Seq<EntryView>, id: Seq<char>, at: int)
    requires
        0 <= at <= es.len(),
        at < es.len() ==> es[at].options.id == id,
        forall|i: int| 0 <= i < at ==> (#[trigger] es[i]).options.id != id,
    ensures
        id_place(es, id) == at,
{
    lemma_id_place(es, id);
    let found = id_place(es, id);
    if found < at {
        assert(es[found].options.id != id);
    }
}

/// Following the ids from the root down to an entry leads back to that entry.
pub proof fn ids_resolve_back(es: Seq<EntryView>, p: Seq<usize>)
    requires
        ids_lead_to(es, p),
    ensures
        resolve_ids(es, ids_along(es, p)) == Some(p),
    decreases p.len(),
{
    let ids = ids_along(es, p);
    assert(ids[0] == es[p[0] as int].options.id);
    if p.len() == 1 {
        assert(ids =~= seq![ids[0]]);
        assert(p =~= seq![p[0]]);
    } else {
        let g = es[p[0] as int].subgroup->0;
        ids_resolve_back(g, p.drop_first());
        assert(ids.drop_first() =~= ids_along(g, p.drop_first()));
        assert(ids.len() > 1);
        assert(seq![p[0]] + p.drop_first() =~= p);
    }
}

/// The first index on the way, the rest of the way, and the group they lead to.
pub proof fn lemma_group_step(es: Seq<EntryView>, p: Seq<usize>)
    requires
        p.len() > 1,
    ensures
        p.drop_first().drop_last() == p.drop_last().drop_first(),
        p.drop_first().last() == p.last(),
        p.drop_last()[0] == p[0],
        has_entry(es, p) <==> p[0] < es.len() && es[p[0] as int].subgroup is Some && has_entry(
            es[p[0] as int].subgroup->0,
            p.drop_first(),
        ),
        has_entry(es, p) ==> entry_at(es, p) == entry_at(
            es[p[0] as int].subgroup->0,
            p.drop_first(),
        ),
{
    assert(p.drop_first().drop_last() =~= p.drop_last().drop_first());
}

/// Whether two entries are the same but for what is below them.
pub open spec fn same_entry(a: EntryView, b: EntryView) -> bool {
    &&& a.key == b.key
    &&& a.options == b.options
    &&& a.fiber == b.fiber
    &&& a.init_task == b.init_task
    &&& a.subgroup is Some <==> b.subgroup is Some
}

/// A change of the group at `q` leaves every entry alone that is not in the group or below it. Of
/// these only the ones that the group is below have something else below them.
pub proof fn other_groups_stay(
    es: Seq<EntryView>,
    q: Seq<usize>,
    to: Seq<EntryView>,
    p: Seq<usize>,
)
    requires
        has_entry(es, p),
        !(q.len() < p.len() && p.take(q.len() as int) == q),
    ensures
        has_entry(set_group_at(es, q, to), p),
        same_entry(entry_at(set_group_at(es, q, to), p), entry_at(es, p)),
        !(p.len() <= q.len() && q.take(p.len() as int) == p) ==> entry_at(
            set_group_at(es, q, to),
            p,
        ) == entry_at(es, p),
    decreases p.len(),
{
    let after = set_group_at(es, q, to);
    if q.len() == 0 {
        assert(p.take(0) =~= q);
    } else {
        if p.len() == 1 {
            assert(p.drop_last() =~= Seq::<usize>::empty());
            if p[0] == q[0] {
                assert(q.take(1) =~= p);
            }
        } else {
            lemma_group_step(es, p);
            lemma_group_step(after, p);
            if p[0] == q[0] && q[0] < es.len() {
                let g = es[p[0] as int].subgroup->0;
                let rest = p.drop_first();
                let way = q.drop_first();
                if way.len() < rest.len() && rest.take(way.len() as int) == way {
                    assert(p.take(q.len() as int) =~= seq![p[0]] + rest.take(way.len() as int));
                    assert(q =~= seq![q[0]] + way);
                }
                if rest.len() <= way.len() && way.take(rest.len() as int) == rest {
                    assert(q.take(p.len() as int) =~= seq![q[0]] + way.take(rest.len() as int));
                    assert(p =~= seq![p[0]] + rest);
                }
                other_groups_stay(g, way, to, rest);
            }
        }
    }
}

/// A change of the entry at `p` that leaves what is below it alone leaves every other entry alone.
pub proof fn other_entries_stay(
    es: Seq<EntryView>,
    p: Seq<usize>,
    to: EntryView,
    o: Seq<usize>,
)
    requires
        has_entry(es, p),
        has_entry(es, o),
        o != p,
        to.subgroup == entry_at(es, p).subgroup,
    ensures
        has_entry(set_entry_at(es, p, to), o),
        same_entry(entry_at(set_entry_at(es, p, to), o), entry_at(es, o)),
    decreases p.len(),
{
    let after = set_entry_at(es, p, to);
    let q = p.drop_last();
    if p.len() == 1 {
        assert(q =~= Seq::<usize>::empty());
        assert(after == es.update(p[0] as int, to));
        if o.len() == 1 {
            assert(o.drop_last() =~= Seq::<usize>::empty());
            assert(o[0] != p[0]) by {
                if o[0] == p[0] {
                    assert(o =~= p);
                }
            }
        } else {
            lemma_group_step(es, o);
            lemma_group_step(after, o);
        }
    } else {
        lemma_group_step(es, p);
        let e = es[p[0] as int];
        let g = e.subgroup->0;
        let rest = p.drop_first();
        assert(q.drop_first() == rest.drop_last());
        assert(after == es.update(
            p[0] as int,
            EntryView { subgroup: Some(set_entry_at(g, rest, to)), ..e },
        ));
        if o.len() == 1 {
            assert(o.drop_last() =~= Seq::<usize>::empty());
        } else {
            lemma_group_step(es, o);
            lemma_group_step(after, o);
            if o[0] == p[0] {
                assert(o.drop_first() != rest) by {
                    if o.drop_first() == rest {
                        assert(o =~= seq![o[0]] + o.drop_first());
                        assert(p =~= seq![p[0]] + rest);
                    }
                }
                other_entries_stay(g, rest, to, o.drop_first());
            }
        }
    }
}

/// The group that was put at `q` is there, where there was a group.
pub proof fn lemma_get_set_group(es: Seq<EntryView>, q: Seq<usize>, to: Seq<EntryView>)
    requires
        group_at(es, q) is Some,
    ensures
        group_at(set_group_at(es, q, to), q) == Some(to),
    decreases q.len(),
{
    if q.len() > 0 {
        lemma_get_set_group(es[q[0] as int].subgroup->0, q.drop_first(), to);
    }
}

/// Replacing a group twice is replacing it once, by the last.
pub proof fn lemma_set_set_group(
    es: Seq<EntryView>,
    q: Seq<usize>,
    first: Seq<EntryView>,
    second: Seq<EntryView>,
)
    requires
        group_at(es, q) is Some,
    ensures
        set_group_at(set_group_at(es, q, first), q, second) == set_group_at(es, q, second),
    decreases q.len(),
{
    if q.len() > 0 {
        let g = es[q[0] as int].subgroup->0;
        lemma_set_set_group(g, q.drop_first(), first, second);
        assert(set_group_at(set_group_at(es, q, first), q, second) =~= set_group_at(es, q, second));
    }
}

/// Putting back the group that is there changes nothing.
pub proof fn lemma_set_same_group(es: Seq<EntryView>, q: Seq<usize>)
    requires
        group_at(es, q) is Some,
    ensures
        set_group_at(es, q, group_at(es, q)->0) == es,
    decreases q.len(),
{
    if q.len() > 0 {
        lemma_set_same_group(es[q[0] as int].subgroup->0, q.drop_first());
        assert(set_group_at(es, q, group_at(es, q)->0) =~= es);
    }
}

proof fn lemma_count_push(es: Seq<EntryView>, e: EntryView, key: u64)
    ensures
        key_count(es.push(e), key) == key_count(es, key) + key_count(seq![e], key),
{
    assert(es.push(e).drop_last() =~= es);
    assert(seq![e].drop_last() =~= Seq::<EntryView>::empty());
    assert(key_count(Seq::<EntryView>::empty(), key) == 0);
}

/// A key occurs in two lists together as often as in both added up.
pub proof fn lemma_count_concat(a: Seq<EntryView>, b: Seq<EntryView>, key: u64)
    ensures
        key_count(a + b, key) == key_count(a, key) + key_count(b, key),
    decreases b.len(),
{
    if b.len() == 0 {
        assert(a + b =~= a);
    } else {
        assert((a + b).drop_last() =~= a + b.drop_last());
        lemma_count_concat(a, b.drop_last(), key);
    }
}

/// What taking an entry out of a list, putting one in or replacing one does to the count.
pub proof fn lemma_count_edit(es: Seq<EntryView>, i: int, e: EntryView, key: u64)
    ensures
        0 <= i < es.len() ==> key_count(es.remove(i), key) + key_count(seq![es[i]], key)
            == key_count(es, key),
        0 <= i <= es.len() ==> key_count(es.insert(i, e), key) == key_count(es, key) + key_count(
            seq![e],
            key,
        ),
        0 <= i < es.len() ==> key_count(es.update(i, e), key) + key_count(seq![es[i]], key)
            == key_count(es, key) + key_count(seq![e], key),
        key_count(es.push(e), key) == key_count(es, key) + key_count(seq![e], key),
{
    lemma_count_push(es, e, key);
    if 0 <= i <= es.len() {
        let front = es.take(i);
        let back = es.skip(i);
        assert(es =~= front + back);
        lemma_count_concat(front, back, key);
        assert(es.insert(i, e) =~= front.push(e) + back);
        lemma_count_concat(front.push(e), back, key);
        lemma_count_push(front, e, key);
        if i < es.len() {
            let rest = es.skip(i + 1);
            assert(es.remove(i) =~= front + rest);
            assert(es =~= front.push(es[i]) + rest);
            assert(es.update(i, e) =~= front.push(e) + rest);
            lemma_count_concat(front, rest, key);
            lemma_count_concat(front.push(es[i]), rest, key);
            lemma_count_concat(front.push(e), rest, key);
            lemma_count_push(front, es[i], key);
        }
    }
}

/// The count of a single entry: its own key and what is below.
pub proof fn lemma_count_one(e: EntryView, key: u64)
    ensures
        key_count(seq![e], key) == (if e.key == key {
            1nat
        } else {
            0nat
        }) + (match e.subgroup {
            Some(g) => key_count(g, key),
            None => 0nat,
        }),
{
    assert(seq![e].drop_last() =~= Seq::<EntryView>::empty());
    assert(key_count(Seq::<EntryView>::empty(), key) == 0);
}

/// Replacing the entries of a group changes the count by the difference of the two lists.
pub proof fn lemma_count_set_group(
    es: Seq<EntryView>,
    q: Seq<usize>,
    to: Seq<EntryView>,
    key: u64,
)
    requires
        group_at(es, q) is Some,
    ensures
        key_count(set_group_at(es, q, to), key) + key_count(group_at(es, q)->0, key) == key_count(
            es,
            key,
        ) + key_count(to, key),
    decreases q.len(),
{
    if q.len() > 0 {
        let owner = es[q[0] as int];
        let g = owner.subgroup->0;
        lemma_count_set_group(g, q.drop_first(), to, key);
        let after = EntryView { subgroup: Some(set_group_at(g, q.drop_first(), to)), ..owner };
        lemma_count_edit(es, q[0] as int, after, key);
        lemma_count_one(owner, key);
        lemma_count_one(after, key);
    }
}

/// Lists with the same keys and subgroups hold every key equally often.
pub proof fn lemma_count_same_shape(a: Seq<EntryView>, b: Seq<EntryView>, key: u64)
    requires
        a.len() == b.len(),
        forall|i: int|
            0 <= i < a.len() ==> (#[trigger] a[i]).key == b[i].key && a[i].subgroup
                == b[i].subgroup,
    ensures
        key_count(a, key) == key_count(b, key),
    decreases a.len(),
{
    if a.len() > 0 {
        assert(a[a.len() - 1].key == b[a.len() - 1].key);
        lemma_count_same_shape(a.drop_last(), b.drop_last(), key);
    }
}

} // verus!
