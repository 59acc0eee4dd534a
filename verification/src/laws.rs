//! What holds of the tree across its operations.

use crate::changes::{smaller, tree_with_new, tree_without};
use crate::entry::fresh_entry;
use crate::forest::{
    disabled_at, entry_at, full_id, group_at, has_entry, ids_along, ids_lead_to, ids_resolve_back,
    inherits_disabled, lemma_get_set_group, lemma_group_step, lemma_set_same_group,
    lemma_set_set_group, without_entry_at, EntryView,
};
use crate::moves::{leads, lemma_group_survives, moved, moved_place, shifted};
use crate::options::OptionsView;
use crate::text::{join_of_split, split_of_join};
use crate::tree::{place_of, TreeView};
use vstd::prelude::*;

verus! {

/// The full id of an entry leads to the entry, where no id on the way holds a colon and none is
/// shadowed by an earlier sibling.
pub proof fn full_id_leads_back(es: Seq<EntryView>, p: Seq<usize>)
    requires
        ids_lead_to(es, p),
        forall|i: int|
            0 <= i < ids_along(es, p).len() ==> !(#[trigger] ids_along(es, p)[i]).contains(':'),
    ensures
        place_of(es, full_id(es, p)) == Some(p),
{
    reveal_strlit(":");
    assert(":"@ =~= seq![':']);
    assert(ids_along(es, p).len() > 0);
    split_of_join(ids_along(es, p), ':');
    ids_resolve_back(es, p);
}

/// Where an id leads to an entry, it is the full id of that entry.
pub proof fn leading_id_is_full_id(es: Seq<EntryView>, id: Seq<char>, p: Seq<usize>)
    requires
        ids_along(es, p) == crate::text::split(id, ':'),
    ensures
        full_id(es, p) == id,
{
    reveal_strlit(":");
    assert(":"@ =~= seq![':']);
    join_of_split(id, ':');
}

/// Removing an entry that was just created gives the tree back as it was, but for the key that was
/// used up.
pub proof fn create_then_remove(tree: TreeView, q: Seq<usize>, position: int, options: OptionsView)
    requires
        group_at(tree.root, q) is Some,
        group_at(tree.root, q)->0.len() <= usize::MAX,
        position >= 0,
    ensures
        ({
            let at = smaller(position, group_at(tree.root, q)->0.len() as int) as usize;
            let after = tree_without(tree_with_new(tree, q, position, options), q.push(at));
            after.root == tree.root && after.tasks == tree.tasks
        }),
{
    let g = group_at(tree.root, q)->0;
    let at = smaller(position, g.len() as int) as usize;
    let made = tree_with_new(tree, q, position, options);
    let e = EntryView { init_task: true, ..fresh_entry(tree.next_key, options) };
    let grown = g.insert(at as int, e);
    lemma_get_set_group(tree.root, q, grown);
    assert(q.push(at).drop_last() =~= q);
    assert(grown.remove(at as int) =~= g);
    lemma_set_set_group(tree.root, q, grown, g);
    lemma_set_same_group(tree.root, q);
    assert(entry_at(made.root, q.push(at)) == e);
}

/// A move changes nothing but the place of the moved entry: without it the tree is the same before
/// and after.
pub proof fn move_changes_nothing_else(es: Seq<EntryView>, p: Seq<usize>, q: Seq<usize>)
    requires
        has_entry(es, p),
        group_at(es, q) is Some,
        !leads(p, q),
        group_at(without_entry_at(es, p), shifted(p, q))->0.len() <= usize::MAX,
    ensures
        without_entry_at(moved(es, p, q), moved_place(es, p, q)) == without_entry_at(es, p),
{
    lemma_group_survives(es, p, q);
    let rest = without_entry_at(es, p);
    let to = shifted(p, q);
    let g = group_at(rest, to)->0;
    let grown = g.push(entry_at(es, p));
    lemma_get_set_group(rest, to, grown);
    assert(moved_place(es, p, q).drop_last() =~= to);
    assert(grown.remove(g.len() as int) =~= g);
    lemma_set_set_group(rest, to, grown, g);
    lemma_set_same_group(rest, to);
}

/// Where an entry is disabled, so is every entry below it that is no group itself.
pub proof fn disabled_entries_disable_below(es: Seq<EntryView>, p: Seq<usize>, below: Seq<usize>)
    requires
        has_entry(es, p),
        has_entry(es, below),
        leads(p, below),
        p.len() < below.len(),
        entry_at(es, p).options.disabled == Some(true),
        entry_at(es, below).options.group != Some(true),
    ensures
        disabled_at(es, below),
{
    lemma_inherits(es, p, below);
}

proof fn lemma_inherits(es: Seq<EntryView>, p: Seq<usize>, below: Seq<usize>)
    requires
        has_entry(es, p),
        has_entry(es, below),
        leads(p, below),
        p.len() < below.len(),
        entry_at(es, p).options.disabled == Some(true),
    ensures
        inherits_disabled(es, below),
    decreases p.len(),
{
    lemma_group_step(es, below);
    assert(below.take(p.len() as int)[0] == below[0]);
    if p.len() == 1 {
        assert(p.drop_last() =~= Seq::<usize>::empty());
    } else {
        lemma_group_step(es, p);
        assert(below.drop_first().take(p.len() - 1) =~= p.drop_first()) by {
            assert(below.take(p.len() as int).drop_first() =~= below.drop_first().take(
                p.len() - 1,
            ));
        }
        lemma_inherits(es[p[0] as int].subgroup->0, p.drop_first(), below.drop_first());
    }
}

} // verus!
