//! Cycle-aware iterated evaluators.
//!
//! Applying a step function a 64-bit number of times would be intractable by
//! direct simulation. Both evaluators record successive values until the walk
//! revisits its first recorded value, then answer by the round count modulo
//! the detected period.

use vstd::prelude::*;
use crate::checksum::{
    checksum_word, hash_word, iter_fn, iter_hash, iter_table, lemma_iter_fn_add,
    lemma_iter_fn_period, table_step,
};

verus! {

/// Applies the checksum to the seed exactly `count` times, detecting the
/// period of the walk so that at most one full orbit is ever computed.
pub fn hash_rounds(count: u64, h: u32) -> (r: u32)
    ensures
        r == iter_hash(h, count as nat),
{
    if count == 0 {
        return h;
    }
    let mut cur: u32 = h;
    let mut memo: Vec<u32> = Vec::new();
    let mut k: u64 = 0;
    while k < count
        invariant
            k <= count,
            1 <= count,
            memo@.len() == k,
            cur == iter_hash(h, k as nat),
            forall|j: int| 0 <= j < k ==> memo@[j] == iter_hash(h, (j + 1) as nat),
        decreases count - k,
    {
        let next = checksum_word(cur);
        assert(next == iter_hash(h, (k + 1) as nat));
        if memo.len() > 0 && memo[0] == next {
            let idx = ((count - 1) % (memo.len() as u64)) as usize;
            proof {
                let f = |w: u32| hash_word(w);
                let l = k as nat;
                let s1 = iter_fn(f, h, 1);
                lemma_iter_fn_add(f, h, 1, l);
                assert(iter_fn(f, s1, l) == s1);
                lemma_iter_fn_period(f, s1, l, (count - 1) as nat);
                lemma_iter_fn_add(f, h, 1, (count - 1) as nat);
                lemma_iter_fn_add(f, h, 1, ((count - 1) as int % (k as int)) as nat);
            }
            return memo[idx];
        }
        memo.push(next);
        cur = next;
        k = k + 1;
    }
    cur
}

/// Walks a lookup table from the start value exactly `count` times, with the
/// same period shortcut as the forward evaluator. Every entry must point back
/// into the table.
pub fn table_rounds(table: &Vec<u32>, count: u64, h: u32) -> (r: u32)
    requires
        h < table@.len(),
        forall|j: int| 0 <= j < table@.len() ==> table@[j] < table@.len(),
    ensures
        r == iter_table(table@, h, count as nat),
{
    if count == 0 {
        return h;
    }
    let mut cur: u32 = h;
    let mut memo: Vec<u32> = Vec::new();
    let mut k: u64 = 0;
    while k < count
        invariant
            k <= count,
            1 <= count,
            memo@.len() == k,
            cur < table@.len(),
            forall|j: int| 0 <= j < table@.len() ==> table@[j] < table@.len(),
            cur == iter_table(table@, h, k as nat),
            forall|j: int| 0 <= j < k ==> memo@[j] == iter_table(table@, h, (j + 1) as nat),
        decreases count - k,
    {
        let next = table[cur as usize];
        assert(next == iter_table(table@, h, (k + 1) as nat));
        if memo.len() > 0 && memo[0] == next {
            let idx = ((count - 1) % (memo.len() as u64)) as usize;
            proof {
                let f = table_step(table@);
                let l = k as nat;
                let s1 = iter_fn(f, h, 1);
                lemma_iter_fn_add(f, h, 1, l);
                assert(iter_fn(f, s1, l) == s1);
                lemma_iter_fn_period(f, s1, l, (count - 1) as nat);
                lemma_iter_fn_add(f, h, 1, (count - 1) as nat);
                lemma_iter_fn_add(f, h, 1, ((count - 1) as int % (k as int)) as nat);
            }
            return memo[idx];
        }
        memo.push(next);
        cur = next;
        k = k + 1;
    }
    cur
}

/// Under an injective checksum, the cycle the forward evaluator detects
/// closes at the seed itself: a walk whose `l + 1`-th value repeats its first
/// has already returned to its start after `l` steps, so the seed's orbit has
/// no tail.
pub proof fn lemma_cycle_closes_at_seed(s: u32, l: nat)
    requires
        forall|i: u32, j: u32| hash_word(i) == hash_word(j) ==> i == j,
        l >= 1,
        iter_hash(s, l + 1) == iter_hash(s, 1),
    ensures
        iter_hash(s, l) == s,
{
    assert(iter_hash(s, 0) == s);
    assert(iter_hash(s, 1) == hash_word(s));
    assert(iter_hash(s, l + 1) == hash_word(iter_hash(s, l)));
}

/// A seed whose orbit closes after `l` applications of the checksum repeats
/// with period `l`: `n` rounds give the same word as `n % l` rounds.
pub proof fn lemma_hash_rounds_periodic(s: u32, l: nat, n: nat)
    requires
        l >= 1,
        iter_hash(s, l) == s,
    ensures
        iter_hash(s, n) == iter_hash(s, n % l),
{
    lemma_iter_fn_period(|w: u32| hash_word(w), s, l, n);
}

} // verus!
