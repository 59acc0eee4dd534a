//! A dictionary with text keys: each key once, in the order of first insertion.

use crate::text::same_text;
use vstd::prelude::*;

verus! {

/// A type whose values can be copied, keeping what they stand for.
pub trait Duplicate: View + Sized {
    /// A copy with the same view.
    fn duplicate(&self) -> (r: Self)
        ensures
            r@ == self@,
    ;
}

impl Duplicate for String {
    fn duplicate(&self) -> (r: Self) {
        self.clone()
    }
}

/// The place of `key` in `pairs`, the length where it does not occur.
pub open spec fn place<A>(pairs: Seq<(Seq<char>, A)>, key: Seq<char>) -> int
    decreases pairs.len(),
{
    if pairs.len() == 0 || pairs[0].0 == key {
        0
    } else {
        1 + place(pairs.drop_first(), key)
    }
}

/// The value under `key`.
pub open spec fn lookup<A>(pairs: Seq<(Seq<char>, A)>, key: Seq<char>) -> Option<A> {
    let at = place(pairs, key);
    if at < pairs.len() {
        Some(pairs[at].1)
    } else {
        None
    }
}

/// The pairs with `value` under `key`: a known key keeps its place, a new one goes to the end.
pub open spec fn assign<A>(pairs: Seq<(Seq<char>, A)>, key: Seq<char>, value: A) -> Seq<
    (Seq<char>, A),
> {
    let at = place(pairs, key);
    if at < pairs.len() {
        pairs.update(at, (key, value))
    } else {
        pairs.push((key, value))
    }
}

/// All pairs of `more` assigned one after another.
pub open spec fn assign_all<A>(pairs: Seq<(Seq<char>, A)>, more: Seq<(Seq<char>, A)>) -> Seq<
    (Seq<char>, A),
>
    decreases more.len(),
{
    if more.len() == 0 {
        pairs
    } else {
        assign(assign_all(pairs, more.drop_last()), more.last().0, more.last().1)
    }
}

/// No key occurs twice.
pub open spec fn distinct<A>(pairs: Seq<(Seq<char>, A)>) -> bool {
    forall|i: int, j: int|
        0 <= i < pairs.len() && 0 <= j < pairs.len() && i != j ==> (#[trigger] pairs[i]).0 != (
        #[trigger] pairs[j]).0
}

/// Both have the same value, or none, under every key.
pub open spec fn same_dict<A>(a: Seq<(Seq<char>, A)>, b: Seq<(Seq<char>, A)>) -> bool {
    forall|key: Seq<char>| #[trigger] lookup(a, key) == lookup(b, key)
}

/// The keys of `pairs`, in order.
pub open spec fn keys_of<A>(pairs: Seq<(Seq<char>, A)>) -> Seq<Seq<char>> {
    Seq::new(pairs.len(), |i: int| pairs[i].0)
}

/// What `place` finds.
pub proof fn lemma_place<A>(pairs: Seq<(Seq<char>, A)>, key: Seq<char>)
    ensures
        0 <= place(pairs, key) <= pairs.len(),
        place(pairs, key) < pairs.len() ==> pairs[place(pairs, key)].0 == key,
        forall|i: int| 0 <= i < place(pairs, key) ==> (#[trigger] pairs[i]).0 != key,
    decreases pairs.len(),
{
    if pairs.len() > 0 && pairs[0].0 != key {
        let rest = pairs.drop_first();
        lemma_place(rest, key);
        assert forall|i: int| 0 <= i < place(pairs, key) implies (#[trigger] pairs[i]).0 != key by {
            if i > 0 {
                assert(rest[i - 1] == pairs[i]);
            }
        }
    }
}

/// `place` is the first place where the key occurs.
pub proof fn lemma_place_is<A>(pairs: Seq<(Seq<char>, A)>, key: Seq<char>, at: int)
    requires
        0 <= at <= pairs.len(),
        at < pairs.len() ==> pairs[at].0 == key,
        forall|i: int| 0 <= i < at ==> (#[trigger] pairs[i]).0 != key,
    ensures
        place(pairs, key) == at,
{
    lemma_place(pairs, key);
    let found = place(pairs, key);
    if found < at {
        assert(pairs[found].0 != key);
    }
}

/// A value is found under the key it was assigned to, every other key keeps what it had.
pub proof fn lookup_after_assign<A>(
    pairs: Seq<(Seq<char>, A)>,
    key: Seq<char>,
    value: A,
    other: Seq<char>,
)
    ensures
        lookup(assign(pairs, key, value), key) == Some(value),
        other != key ==> lookup(assign(pairs, key, value), other) == lookup(pairs, other),
{
    lemma_place(pairs, key);
    let after = assign(pairs, key, value);
    let at = place(pairs, key);
    assert forall|i: int| 0 <= i < at implies (#[trigger] after[i]).0 != key by {
        assert(pairs[i].0 != key);
    }
    lemma_place_is(after, key, at);
    if other != key {
        lemma_place(pairs, other);
        let o = place(pairs, other);
        assert forall|i: int| 0 <= i < o implies (#[trigger] after[i]).0 != other by {
            assert(pairs[i].0 != other);
        }
        if o < pairs.len() {
            lemma_place_is(after, other, o);
        } else if at < pairs.len() {
            lemma_place_is(after, other, o);
        } else {
            assert(after[at].0 == key);
            lemma_place_is(after, other, o + 1);
        }
    }
}

/// In a dictionary every pair is found under its key.
pub proof fn lemma_lookup_at<A>(pairs: Seq<(Seq<char>, A)>, i: int)
    requires
        distinct(pairs),
        0 <= i < pairs.len(),
    ensures
        place(pairs, pairs[i].0) == i,
        lookup(pairs, pairs[i].0) == Some(pairs[i].1),
{
    lemma_place_is(pairs, pairs[i].0, i);
}

/// A dictionary from text to `T`.
pub struct Dict<T> {
    pairs: Vec<(String, T)>,
}

spec fn dict_view<T: View>(pairs: Seq<(String, T)>) -> Seq<(Seq<char>, T::V)> {
    Seq::new(pairs.len(), |i: int| (pairs[i].0@, pairs[i].1@))
}

spec fn keys_differ<T>(pairs: Seq<(String, T)>) -> bool {
    forall|i: int, j: int|
        0 <= i < pairs.len() && 0 <= j < pairs.len() && i != j ==> (#[trigger] pairs[i]).0@ != (
        #[trigger] pairs[j]).0@
}

impl<T: View> View for Dict<T> {
    type V = Seq<(Seq<char>, T::V)>;

    closed spec fn view(&self) -> Seq<(Seq<char>, T::V)> {
        dict_view(self.pairs@)
    }
}

impl<T> Dict<T> {
    #[verifier::type_invariant]
    spec fn well_formed(&self) -> bool {
        keys_differ(self.pairs@)
    }
}

impl<T: View> Dict<T> {
    /// The dictionary without keys.
    pub fn new() -> (r: Dict<T>)
        ensures
            r@ == Seq::<(Seq<char>, T::V)>::empty(),
    {
        let r = Dict { pairs: Vec::new() };
        assert(r@ =~= Seq::<(Seq<char>, T::V)>::empty());
        r
    }

    /// No key of a dictionary occurs twice.
    pub fn keys_are_distinct(&self)
        ensures
            distinct(self@),
    {
        proof {
            use_type_invariant(self);
        }
    }

    /// The number of keys.
    pub fn len(&self) -> (r: usize)
        ensures
            r == self@.len(),
    {
        self.pairs.len()
    }

    /// The key at `index`.
    pub fn key_at(&self, index: usize) -> (r: &String)
        requires
            index < self@.len(),
        ensures
            r@ == self@[index as int].0,
    {
        &self.pairs[index].0
    }

    /// The value at `index`.
    pub fn value_at(&self, index: usize) -> (r: &T)
        requires
            index < self@.len(),
        ensures
            r@ == self@[index as int].1,
    {
        &self.pairs[index].1
    }

    /// The place of `key`, if it occurs.
    fn find(&self, key: &str) -> (r: Option<usize>)
        ensures
            match r {
                Some(i) => i < self@.len() && i == place(self@, key@),
                None => place(self@, key@) == self@.len(),
            },
    {
        let mut i: usize = 0;
        while i < self.pairs.len()
            invariant
                i <= self.pairs@.len(),
                forall|j: int| 0 <= j < i ==> (#[trigger] self@[j]).0 != key@,
            decreases self.pairs@.len() - i,
        {
            if same_text(self.pairs[i].0.as_str(), key) {
                proof {
                    lemma_place_is(self@, key@, i as int);
                }
                return Some(i);
            }
            i += 1;
        }
        proof {
            lemma_place_is(self@, key@, i as int);
        }
        None
    }

    /// The value under `key`.
    pub fn get(&self, key: &str) -> (r: Option<&T>)
        ensures
            r is Some <==> lookup(self@, key@) is Some,
            r matches Some(v) ==> v@ == lookup(self@, key@)->0,
    {
        match self.find(key) {
            Some(i) => Some(&self.pairs[i].1),
            None => None,
        }
    }

    /// Whether `key` has a value.
    pub fn contains_key(&self, key: &str) -> (r: bool)
        ensures
            r == (lookup(self@, key@) is Some),
    {
        self.find(key).is_some()
    }

    /// Puts `value` under `key`.
    pub fn insert(&mut self, key: String, value: T)
        ensures
            final(self)@ == assign(old(self)@, key@, value@),
    {
        proof {
            use_type_invariant(&*self);
            lemma_place(self@, key@);
        }
        let ghost before = self@;
        let found = self.find(key.as_str());
        let mut pairs: Vec<(String, T)> = Vec::new();
        std::mem::swap(&mut pairs, &mut self.pairs);
        assert(dict_view(pairs@) == before);
        match found {
            Some(i) => {
                pairs[i].1 = value;
                assert(dict_view(pairs@) =~= assign(before, key@, value@));
            },
            None => {
                assert forall|j: int| 0 <= j < pairs@.len() implies (#[trigger] pairs@[j]).0@
                    != key@ by {
                    assert(before[j].0 == pairs@[j].0@);
                }
                pairs.push((key, value));
                assert(dict_view(pairs@) =~= assign(before, key@, value@));
            },
        }
        self.pairs = pairs;
    }

    /// The keys, in order.
    pub fn keys(&self) -> (r: Vec<String>)
        ensures
            crate::text::texts(r@) == keys_of(self@),
    {
        let mut out: Vec<String> = Vec::new();
        let mut i: usize = 0;
        while i < self.pairs.len()
            invariant
                i <= self.pairs@.len(),
                out@.len() == i,
                forall|j: int| 0 <= j < i ==> (#[trigger] out@[j])@ == self@[j].0,
            decreases self.pairs@.len() - i,
        {
            out.push(self.pairs[i].0.clone());
            i += 1;
        }
        assert(crate::text::texts(out@) =~= keys_of(self@));
        out
    }
}

impl<T: Duplicate> Duplicate for Dict<T> {
    fn duplicate(&self) -> (r: Self) {
        proof {
            use_type_invariant(self);
        }
        let mut pairs: Vec<(String, T)> = Vec::new();
        let mut i: usize = 0;
        while i < self.pairs.len()
            invariant
                i <= self.pairs@.len(),
                pairs@.len() == i,
                forall|j: int|
                    0 <= j < i ==> (#[trigger] pairs@[j]).0@ == self.pairs@[j].0@ && pairs@[j].1@
                        == self.pairs@[j].1@,
            decreases self.pairs@.len() - i,
        {
            pairs.push((self.pairs[i].0.clone(), self.pairs[i].1.duplicate()));
            i += 1;
        }
        assert(dict_view(pairs@) =~= self@);
        Dict { pairs }
    }
}

/// A known key keeps its place, and a new one goes to the end; the others stay where they are.
pub proof fn assigned_keys_keep_their_place<A>(
    pairs: Seq<(Seq<char>, A)>,
    key: Seq<char>,
    value: A,
)
    ensures
        ({
            let after = assign(pairs, key, value);
            &&& lookup(pairs, key) is Some ==> keys_of(after) == keys_of(pairs)
            &&& lookup(pairs, key) is None ==> keys_of(after) == keys_of(pairs).push(key)
            &&& forall|i: int|
                0 <= i < pairs.len() && (#[trigger] pairs[i]).0 != key ==> after[i] == pairs[i]
        }),
{
    lemma_place(pairs, key);
    let after = assign(pairs, key, value);
    if lookup(pairs, key) is Some {
        assert(keys_of(after) =~= keys_of(pairs));
    } else {
        assert(keys_of(after) =~= keys_of(pairs).push(key));
    }
}

/// What is found under a key is the value of the first pair with that key.
pub proof fn lookups_find_the_first<A>(pairs: Seq<(Seq<char>, A)>, key: Seq<char>)
    ensures
        match lookup(pairs, key) {
            Some(value) => exists|i: int|
                {
                    &&& 0 <= i < pairs.len()
                    &&& #[trigger] pairs[i] == (key, value)
                    &&& forall|j: int| 0 <= j < i ==> (#[trigger] pairs[j]).0 != key
                },
            None => forall|i: int| 0 <= i < pairs.len() ==> (#[trigger] pairs[i]).0 != key,
        },
{
    lemma_place(pairs, key);
    let at = place(pairs, key);
    if at < pairs.len() {
        assert(pairs[at] == (key, pairs[at].1));
    }
}

} // verus!
