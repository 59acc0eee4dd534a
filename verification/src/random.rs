//! Random ids.

use crate::text::{digit, digit_char};
use crate::tree::{uses_id, EntryTree};
use vstd::prelude::*;

verus! {

/// The state of the generator after `x`.
pub open spec fn next_random(x: u64) -> u64 {
    let a = x ^ (x << 13);
    let b = a ^ (a >> 7);
    b ^ (b << 17)
}

/// The state that the generator goes on from: the seed, where it has not been used yet.
pub open spec fn started(state: u64, seed: u64) -> u64 {
    if state == 0 {
        seed
    } else {
        state
    }
}

/// The state after `n` numbers.
pub open spec fn state_after(state: u64, seed: u64, n: nat) -> u64
    decreases n,
{
    if n == 0 {
        state
    } else {
        next_random(started(state_after(state, seed, (n - 1) as nat), seed))
    }
}

/// The hex digits of the first `n` numbers.
pub open spec fn hex_digits(state: u64, seed: u64, n: nat) -> Seq<char> {
    Seq::new(n, |i: int| digit(state_after(state, seed, (i + 1) as nat) as int % 16))
}

/// A generator that has a state keeps one: it never comes back to the unused state.
pub proof fn random_never_stops(x: u64)
    requires
        x != 0,
    ensures
        next_random(x) != 0,
{
    assert(x != 0 ==> x ^ (x << 13) != 0) by (bit_vector);
    let a = x ^ (x << 13);
    assert(a != 0 ==> a ^ (a >> 7) != 0) by (bit_vector);
    let b = a ^ (a >> 7);
    assert(b != 0 ==> b ^ (b << 17) != 0) by (bit_vector);
}

/// The next number of the generator. `seed` starts it, where it has not been used yet.
pub fn fast_random(state: &mut u64, seed: u64) -> (r: u64)
    ensures
        r == next_random(started(*old(state), seed)),
        *final(state) == r,
{
    let mut x: u64 = if *state == 0 {
        seed
    } else {
        *state
    };
    x = x ^ (x << 13);
    x = x ^ (x >> 7);
    x = x ^ (x << 17);
    *state = x;
    x
}

/// A text of `length` random hex digits.
pub fn random_hex(length: usize, state: &mut u64, seed: u64) -> (r: String)
    ensures
        r@ == hex_digits(*old(state), seed, length as nat),
        *final(state) == state_after(*old(state), seed, length as nat),
{
    let ghost start = *state;
    let mut out = String::new();
    let mut i: usize = 0;
    assert(hex_digits(start, seed, 0) =~= Seq::<char>::empty());
    while i < length
        invariant
            i <= length,
            out@ == hex_digits(start, seed, i as nat),
            *state == state_after(start, seed, i as nat),
        decreases length - i,
    {
        let x = fast_random(state, seed);
        out.push(digit_char((x % 16) as u8));
        i += 1;
        assert(hex_digits(start, seed, i as nat) =~= hex_digits(start, seed, (i - 1) as nat).push(
            digit(x as int % 16),
        ));
    }
    out
}

/// The random id that the `k`-th attempt comes to.
pub open spec fn candidate(state: u64, seed: u64, k: nat) -> Seq<char> {
    hex_digits(state_after(state, seed, 8 * k), seed, 8)
}

proof fn lemma_state_after(state: u64, seed: u64, n: nat, m: nat)
    ensures
        state_after(state_after(state, seed, n), seed, m) == state_after(state, seed, n + m),
    decreases m,
{
    if m > 0 {
        lemma_state_after(state, seed, n, (m - 1) as nat);
    }
}

impl EntryTree {
    /// A random id that no entry has, the first one found in so many attempts.
    pub fn fresh_id(&self, state: &mut u64, seed: u64, attempts: usize) -> (r: Option<String>)
        ensures
            match r {
                Some(id) => exists|k: nat| {
                    &&& k < attempts
                    &&& id@ == #[trigger] candidate(*old(state), seed, k)
                    &&& !uses_id(self@.root, id@)
                    &&& *final(state) == state_after(*old(state), seed, 8 * (k + 1))
                    &&& forall|j: nat|
                        j < k ==> uses_id(self@.root, #[trigger] candidate(*old(state), seed, j))
                },
                None => {
                    &&& *final(state) == state_after(*old(state), seed, 8 * attempts as nat)
                    &&& forall|k: nat|
                        k < attempts ==> uses_id(
                            self@.root,
                            #[trigger] candidate(*old(state), seed, k),
                        )
                },
            },
    {
        let ghost start = *state;
        let mut i: usize = 0;
        while i < attempts
            invariant
                i <= attempts,
                start == *old(state),
                *state == state_after(start, seed, 8 * i as nat),
                forall|j: nat|
                    j < i ==> uses_id(self@.root, #[trigger] candidate(start, seed, j)),
            decreases attempts - i,
        {
            let ghost at = *state;
            let id = random_hex(8, state, seed);
            proof {
                assert(id@ == candidate(start, seed, i as nat));
                lemma_state_after(start, seed, 8 * i as nat, 8);
            }
            if !self.is_used_id(id.as_str()) {
                return Some(id);
            }
            i += 1;
        }
        None
    }
}

} // verus!
