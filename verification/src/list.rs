//! An ordered collection whose items are taken back one by one.

use vstd::prelude::*;

verus! {

/// An ordered collection. Every item gets a serial number, by which it is taken out again.
pub struct List<T> {
    sn: u64,
    items: Vec<(u64, T)>,
}

/// The items of `items` for which `keep` is true.
pub open spec fn chosen<T>(items: Seq<T>, keep: Seq<bool>) -> Seq<T>
    decreases items.len(),
{
    if items.len() == 0 {
        Seq::empty()
    } else {
        let rest = chosen(items.drop_last(), keep);
        if keep[items.len() - 1] {
            rest.push(items.last())
        } else {
            rest
        }
    }
}

/// The items without the one of this serial number.
pub open spec fn without_sn<T>(items: Seq<(u64, T)>, sn: u64) -> Seq<(u64, T)>
    decreases items.len(),
{
    if items.len() == 0 {
        Seq::empty()
    } else {
        let rest = without_sn(items.drop_last(), sn);
        if items.last().0 != sn {
            rest.push(items.last())
        } else {
            rest
        }
    }
}

/// Serial numbers go up, and none is above the last one given.
pub open spec fn numbered<T>(items: Seq<(u64, T)>, sn: u64) -> bool {
    &&& forall|i: int, j: int|
        0 <= i < j < items.len() ==> (#[trigger] items[i]).0 < (#[trigger] items[j]).0
    &&& forall|i: int| 0 <= i < items.len() ==> (#[trigger] items[i]).0 <= sn
}

proof fn lemma_without_unused<T>(items: Seq<(u64, T)>, sn: u64)
    requires
        forall|i: int| 0 <= i < items.len() ==> (#[trigger] items[i]).0 != sn,
    ensures
        without_sn(items, sn) == items,
    decreases items.len(),
{
    if items.len() > 0 {
        let front = items.drop_last();
        assert forall|i: int| 0 <= i < front.len() implies (#[trigger] front[i]).0 != sn by {
            assert(items[i] == front[i]);
        }
        lemma_without_unused(front, sn);
        assert(items[items.len() - 1].0 != sn);
        assert(front.push(items.last()) =~= items);
    } else {
        assert(items =~= Seq::<(u64, T)>::empty());
    }
}

proof fn lemma_without_numbered<T>(items: Seq<(u64, T)>, sn: u64, top: u64)
    requires
        numbered(items, top),
    ensures
        numbered(without_sn(items, sn), top),
        forall|i: int|
            0 <= i < without_sn(items, sn).len() ==> items.contains(
                #[trigger] without_sn(items, sn)[i],
            ),
    decreases items.len(),
{
    if items.len() > 0 {
        let front = items.drop_last();
        assert forall|i: int, j: int| 0 <= i < j < front.len() implies (#[trigger] front[i]).0 < (
        #[trigger] front[j]).0 by {
            assert(items[i].0 < items[j].0);
        }
        assert forall|i: int| 0 <= i < front.len() implies (#[trigger] front[i]).0 <= top by {
            assert(items[i].0 <= top);
        }
        lemma_without_numbered(front, sn, top);
        let rest = without_sn(front, sn);
        let after = without_sn(items, sn);
        assert forall|i: int| 0 <= i < after.len() implies items.contains(#[trigger] after[i]) by {
            if i < rest.len() {
                assert(front.contains(rest[i]));
                let k = choose|k: int| 0 <= k < front.len() && front[k] == rest[i];
                assert(items[k] == after[i]);
            } else {
                assert(items[items.len() - 1] == after[i]);
            }
        }
        assert forall|i: int, j: int| 0 <= i < j < after.len() implies (#[trigger] after[i]).0 < (
        #[trigger] after[j]).0 by {
            if j < rest.len() {
                assert(rest[i].0 < rest[j].0);
            } else {
                assert(front.contains(rest[i]));
                let k = choose|k: int| 0 <= k < front.len() && front[k] == rest[i];
                assert(items[k].0 < items[items.len() - 1].0);
            }
        }
        assert forall|i: int| 0 <= i < after.len() implies (#[trigger] after[i]).0 <= top by {
            assert(items.contains(after[i]));
            let k = choose|k: int| 0 <= k < items.len() && items[k] == after[i];
            assert(items[k].0 <= top);
        }
    }
}

/// Taking out the item that was pushed last gives the list back as it was.
pub proof fn push_then_remove<T>(items: Seq<(u64, T)>, sn: u64, value: T)
    requires
        numbered(items, sn),
        sn < u64::MAX,
    ensures
        without_sn(items.push(((sn + 1) as u64, value)), (sn + 1) as u64) == items,
{
    let next = (sn + 1) as u64;
    assert(items.push((next, value)).drop_last() =~= items);
    assert forall|i: int| 0 <= i < items.len() implies (#[trigger] items[i]).0 != next by {
        assert(items[i].0 <= sn);
    }
    lemma_without_unused(items, next);
}

impl<T> List<T> {
    /// The last serial number given.
    pub closed spec fn last_sn(&self) -> u64 {
        self.sn
    }

    /// The items with their serial numbers.
    pub closed spec fn entries(&self) -> Seq<(u64, T)> {
        self.items@
    }

    /// The items.
    pub open spec fn values(&self) -> Seq<T> {
        Seq::new(self.entries().len(), |i: int| self.entries()[i].1)
    }

    #[verifier::type_invariant]
    spec fn well_formed(&self) -> bool {
        numbered(self.items@, self.sn)
    }

    /// The empty list.
    pub fn new() -> (r: List<T>)
        ensures
            r.entries() == Seq::<(u64, T)>::empty(),
            r.last_sn() == 0,
    {
        List { sn: 0, items: Vec::new() }
    }

    /// Serial numbers go up.
    pub fn is_numbered(&self)
        ensures
            numbered(self.entries(), self.last_sn()),
    {
        proof {
            use_type_invariant(self);
        }
    }

    /// The number of items.
    pub fn len(&self) -> (r: usize)
        ensures
            r == self.entries().len(),
    {
        self.items.len()
    }

    /// Whether the list is empty.
    pub fn is_empty(&self) -> (r: bool)
        ensures
            r == (self.entries().len() == 0),
    {
        self.items.len() == 0
    }

    /// Adds an item at the end; gives its serial number.
    pub fn push(&mut self, value: T) -> (r: u64)
        requires
            old(self).last_sn() < u64::MAX,
        ensures
            r == old(self).last_sn() + 1,
            final(self).last_sn() == r,
            final(self).entries() == old(self).entries().push((r, value)),
    {
        proof {
            use_type_invariant(&*self);
        }
        let mut items: Vec<(u64, T)> = Vec::new();
        std::mem::swap(&mut items, &mut self.items);
        let sn: u64 = self.sn + 1;
        items.push((sn, value));
        *self = List { sn, items };
        sn
    }

    /// Takes the item of this serial number out, if it is there.
    pub fn remove(&mut self, sn: u64)
        ensures
            final(self).entries() == without_sn(old(self).entries(), sn),
            final(self).last_sn() == old(self).last_sn(),
    {
        proof {
            use_type_invariant(&*self);
        }
        let top = self.sn;
        let mut items: Vec<(u64, T)> = Vec::new();
        std::mem::swap(&mut items, &mut self.items);
        let ghost all = items@;
        let ghost mut done: int = 0;
        let mut at: usize = 0;
        proof {
            assert(all.take(0) =~= Seq::<(u64, T)>::empty());
            assert(without_sn(all.take(0), sn) + all.skip(0) =~= all);
        }
        while at < items.len()
            invariant
                0 <= done <= all.len(),
                at <= items@.len(),
                at == without_sn(all.take(done), sn).len(),
                items@ == without_sn(all.take(done), sn) + all.skip(done),
            decreases items@.len() - at,
        {
            let ghost front = without_sn(all.take(done), sn);
            assert(items@[at as int] == all[done]);
            assert(all.take(done + 1).drop_last() =~= all.take(done));
            if items[at].0 != sn {
                assert(front.push(all[done]) + all.skip(done + 1) =~= items@);
                at += 1;
            } else {
                let taken = items.remove(at);
                assert(items@ =~= front + all.skip(done + 1));
            }
            proof {
                done = done + 1;
            }
        }
        proof {
            assert(all.skip(done).len() == 0);
            assert(all.take(done) =~= all);
            assert(items@ =~= without_sn(all, sn));
            lemma_without_numbered(all, sn, top);
        }
        *self = List { sn: top, items };
    }

    /// The items, in order.
    pub fn iter(&self) -> (r: Vec<&T>)
        ensures
            r@.len() == self.values().len(),
            forall|i: int| 0 <= i < r@.len() ==> *(#[trigger] r@[i]) == self.values()[i],
    {
        let mut out: Vec<&T> = Vec::new();
        let mut i: usize = 0;
        while i < self.items.len()
            invariant
                i <= self.items@.len(),
                out@.len() == i,
                forall|j: int| 0 <= j < i ==> *(#[trigger] out@[j]) == self.values()[j],
            decreases self.items@.len() - i,
        {
            out.push(&self.items[i].1);
            i += 1;
        }
        out
    }

    /// The items that the predicate holds of, in order.
    pub fn filter<F: Fn(&T) -> bool>(&self, predicate: F) -> (r: Vec<&T>)
        requires
            forall|i: int|
                0 <= i < self.values().len() ==> predicate.requires((&#[trigger] self.values()[i],)),
        ensures
            exists|keep: Seq<bool>|
                {
                    &&& keep.len() == self.values().len()
                    &&& forall|i: int|
                        0 <= i < keep.len() ==> predicate.ensures(
                            (&self.values()[i],),
                            #[trigger] keep[i],
                        )
                    &&& #[trigger] chosen(self.values(), keep) == Seq::new(
                        r@.len(),
                        |i: int| *r@[i],
                    )
                },
    {
        let ghost all = self.values();
        let ghost mut keep: Seq<bool> = Seq::empty();
        let mut out: Vec<&T> = Vec::new();
        let mut i: usize = 0;
        proof {
            assert(all.take(0) =~= Seq::<T>::empty());
            assert(Seq::new(out@.len(), |j: int| *out@[j]) =~= Seq::<T>::empty());
        }
        while i < self.items.len()
            invariant
                i <= self.items@.len(),
                all == self.values(),
                keep.len() == i,
                forall|j: int|
                    0 <= j < self.values().len() ==> predicate.requires(
                        (&#[trigger] self.values()[j],),
                    ),
                forall|j: int|
                    0 <= j < i ==> predicate.ensures((&all[j],), #[trigger] keep[j]),
                chosen(all.take(i as int), keep) == Seq::new(out@.len(), |j: int| *out@[j]),
            decreases self.items@.len() - i,
        {
            let value = &self.items[i].1;
            assert(*value == self.values()[i as int]);
            let ghost before = Seq::new(out@.len(), |j: int| *out@[j]);
            let ghost old_keep = keep;
            let yes = predicate(value);
            proof {
                keep = keep.push(yes);
                assert(all.take(i + 1).drop_last() =~= all.take(i as int));
                lemma_chosen_prefix(all.take(i as int), old_keep, keep);
            }
            if yes {
                out.push(value);
                assert(Seq::new(out@.len(), |j: int| *out@[j]) =~= before.push(*value));
            }
            i += 1;
        }
        proof {
            assert(all.take(i as int) =~= all);
            assert(chosen(self.values(), keep) == Seq::new(out@.len(), |j: int| *out@[j]));
        }
        out
    }

    /// What the mapper makes of the items, in order.
    pub fn map<U, F: Fn(&T) -> U>(&self, mapper: F) -> (r: Vec<U>)
        requires
            forall|i: int|
                0 <= i < self.values().len() ==> mapper.requires((&#[trigger] self.values()[i],)),
        ensures
            r@.len() == self.values().len(),
            forall|i: int|
                0 <= i < r@.len() ==> mapper.ensures((&self.values()[i],), #[trigger] r@[i]),
    {
        let mut out: Vec<U> = Vec::new();
        let mut i: usize = 0;
        while i < self.items.len()
            invariant
                i <= self.items@.len(),
                out@.len() == i,
                forall|j: int|
                    0 <= j < self.values().len() ==> mapper.requires(
                        (&#[trigger] self.values()[j],),
                    ),
                forall|j: int|
                    0 <= j < i ==> mapper.ensures((&self.values()[j],), #[trigger] out@[j]),
            decreases self.items@.len() - i,
        {
            assert(self.items@[i as int].1 == self.values()[i as int]);
            out.push(mapper(&self.items[i].1));
            i += 1;
        }
        out
    }
}

proof fn lemma_chosen_prefix<T>(items: Seq<T>, keep: Seq<bool>, longer: Seq<bool>)
    requires
        items.len() <= keep.len() <= longer.len(),
        forall|i: int| 0 <= i < items.len() ==> keep[i] == #[trigger] longer[i],
    ensures
        chosen(items, keep) == chosen(items, longer),
    decreases items.len(),
{
    if items.len() > 0 {
        lemma_chosen_prefix(items.drop_last(), keep, longer);
        assert(keep[items.len() - 1] == longer[items.len() - 1]);
    }
}

} // verus!
