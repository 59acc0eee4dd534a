//! A set of names.

use crate::text::{contains_text, texts};
use vstd::prelude::*;

verus! {

/// A set of names, each held once.
pub struct NameSet {
    names: Vec<String>,
}

impl View for NameSet {
    type V = Set<Seq<char>>;

    closed spec fn view(&self) -> Set<Seq<char>> {
        texts(self.names@).to_set()
    }
}

impl NameSet {
    #[verifier::type_invariant]
    spec fn well_formed(&self) -> bool {
        texts(self.names@).no_duplicates()
    }

    /// The empty set.
    pub fn new() -> (r: NameSet)
        ensures
            r@ == Set::<Seq<char>>::empty(),
    {
        let r = NameSet { names: Vec::new() };
        assert(r@ =~= Set::<Seq<char>>::empty());
        r
    }

    /// The names of a list.
    pub fn from_list(list: &Vec<String>) -> (r: NameSet)
        ensures
            r@ == texts(list@).to_set(),
    {
        let mut out = NameSet::new();
        let ghost all = texts(list@);
        let mut i: usize = 0;
        assert(all.take(0).to_set() =~= Set::<Seq<char>>::empty());
        while i < list.len()
            invariant
                i <= list@.len(),
                all == texts(list@),
                out@ == all.take(i as int).to_set(),
            decreases list@.len() - i,
        {
            proof {
                assert(all.take(i + 1) =~= all.take(i as int).push(list@[i as int]@));
                lemma_push_to_set(all.take(i as int), list@[i as int]@);
            }
            out.insert(list[i].clone());
            i += 1;
        }
        assert(all.take(i as int) =~= all);
        out
    }

    /// The number of names.
    pub fn len(&self) -> (r: usize)
        ensures
            r == self@.len(),
            self@.finite(),
    {
        proof {
            use_type_invariant(self);
            texts(self.names@).unique_seq_to_set();
        }
        self.names.len()
    }

    /// Whether the set holds `name`.
    pub fn contains(&self, name: &str) -> (r: bool)
        ensures
            r == self@.contains(name@),
    {
        contains_text(&self.names, name)
    }

    /// Adds `name`.
    pub fn insert(&mut self, name: String)
        ensures
            final(self)@ == old(self)@.insert(name@),
    {
        proof {
            use_type_invariant(&*self);
        }
        if !self.contains(name.as_str()) {
            let ghost before = texts(self.names@);
            let mut names: Vec<String> = Vec::new();
            std::mem::swap(&mut names, &mut self.names);
            names.push(name);
            proof {
                assert(texts(names@) =~= before.push(name@));
                lemma_push_to_set(before, name@);
            }
            self.names = names;
        } else {
            assert(self@.insert(name@) =~= self@);
        }
    }

    /// The names, each once.
    pub fn list(&self) -> (r: &Vec<String>)
        ensures
            texts(r@).to_set() == self@,
            texts(r@).no_duplicates(),
    {
        proof {
            use_type_invariant(self);
        }
        &self.names
    }
}

/// A list with one more item has that item and no other more.
pub proof fn lemma_push_to_set<A>(list: Seq<A>, item: A)
    ensures
        list.push(item).to_set() == list.to_set().insert(item),
{
    let after = list.push(item);
    assert forall|x: A| after.to_set().contains(x) <==> list.to_set().insert(item).contains(x) by {
        if list.contains(x) {
            let i = choose|i: int| 0 <= i < list.len() && list[i] == x;
            assert(after[i] == x);
        }
        if x == item {
            assert(after[list.len() as int] == x);
        }
    }
    assert(after.to_set() =~= list.to_set().insert(item));
}

} // verus!
