//! The full preimage table: one recovered input word per checksum value.

use vstd::prelude::*;
use crate::checksum::{
    hash_word, iter_fn, iter_hash, iter_table, checksum_word, lemma_iter_fn_add,
    lemma_iter_table_front,
};
use crate::evaluator::table_rounds;

verus! {

/// Some word's checksum is the given value.
pub open spec fn has_preimage(o: u32) -> bool {
    exists|i: u32| #[trigger] hash_word(i) == o
}

/// The checksum is a permutation of the word space: injective and surjective.
pub open spec fn checksum_permutes() -> bool {
    &&& forall|i: u32, j: u32| hash_word(i) == hash_word(j) ==> i == j
    &&& forall|o: u32| #[trigger] has_preimage(o)
}

/// Building the table failed because two words were found with the same
/// checksum, or a checksum value that no word produces: the checksum does not
/// permute the word space, and every lookup would be suspect.
#[derive(Debug)]
pub enum TableBuildError {
    InvariantViolation,
}

/// A dense table with one slot per 32-bit word: slot `o` holds the word whose
/// checksum is `o`.
pub struct PreimageTable {
    pub entries: Vec<u32>,
}

impl PreimageTable {
    /// Every slot holds a word whose checksum is the slot's index, and every
    /// word sits in the slot of its own checksum.
    pub open spec fn wf(self) -> bool {
        &&& self.entries@.len() == 0x1_0000_0000
        &&& forall|o: u32| hash_word(#[trigger] self.entries@[o as int]) == o
        &&& forall|i: u32| self.entries@[#[trigger] hash_word(i) as int] == i
    }

    /// Builds the table by writing `entries[H(i)] = i` for every word `i`,
    /// then checks both inversion directions slot by slot. A failed check
    /// means the checksum does not permute the word space; the half-built
    /// table is discarded rather than returned.
    pub fn build() -> (r: Result<PreimageTable, TableBuildError>)
        ensures
            r matches Ok(t) ==> t.wf() && checksum_permutes(),
            r is Err ==> !checksum_permutes(),
    {
        let mut entries: Vec<u32> = Vec::new();
        let mut i: u64 = 0;
        while i < 0x1_0000_0000
            invariant
                i <= 0x1_0000_0000,
                entries@.len() == i,
            decreases 0x1_0000_0000 - i,
        {
            entries.push(0);
            i = i + 1;
        }
        let mut j: u64 = 0;
        while j < 0x1_0000_0000
            invariant
                j <= 0x1_0000_0000,
                entries@.len() == 0x1_0000_0000,
                forall|w: u32| w < j ==> hash_word(
                    #[trigger] entries@[hash_word(w) as int],
                ) == hash_word(w),
            decreases 0x1_0000_0000 - j,
        {
            let w = j as u32;
            let h = checksum_word(w);
            entries[h as usize] = w;
            j = j + 1;
        }
        let mut o: u64 = 0;
        while o < 0x1_0000_0000
            invariant
                o <= 0x1_0000_0000,
                entries@.len() == 0x1_0000_0000,
                forall|w: u32| hash_word(#[trigger] entries@[hash_word(w) as int]) == hash_word(
                    w,
                ),
                forall|x: u32| x < o ==> hash_word(#[trigger] entries@[x as int]) == x,
            decreases 0x1_0000_0000 - o,
        {
            let slot = entries[o as usize];
            let back = checksum_word(slot);
            if back != o as u32 {
                proof {
                    // No word's checksum is `o`: the checksum is not onto.
                    assert forall|i2: u32| hash_word(i2) != o as u32 by {
                        assert(hash_word(entries@[hash_word(i2) as int]) == hash_word(i2));
                    }
                    assert(!has_preimage(o as u32));
                }
                return Err(TableBuildError::InvariantViolation);
            }
            o = o + 1;
        }
        let mut v: u64 = 0;
        while v < 0x1_0000_0000
            invariant
                v <= 0x1_0000_0000,
                entries@.len() == 0x1_0000_0000,
                forall|x: u32| hash_word(#[trigger] entries@[x as int]) == x,
                forall|w: u32| w < v ==> entries@[#[trigger] hash_word(w) as int] == w,
            decreases 0x1_0000_0000 - v,
        {
            let w = v as u32;
            let h = checksum_word(w);
            let slot = entries[h as usize];
            if slot != w {
                proof {
                    // Two distinct words share the checksum `h`.
                    assert(hash_word(slot) == h && hash_word(w) == h && slot != w);
                }
                return Err(TableBuildError::InvariantViolation);
            }
            v = v + 1;
        }
        let t = PreimageTable { entries };
        proof {
            assert(t.wf());
            assert forall|o2: u32| #[trigger] has_preimage(o2) by {
                assert(hash_word(t.entries@[o2 as int]) == o2);
            }
        }
        Ok(t)
    }

    /// Looks one preimage up: the returned word's checksum is exactly the
    /// target.
    pub fn lookup(&self, target: u32) -> (r: u32)
        requires
            self.wf(),
        ensures
            r == self.entries@[target as int],
            hash_word(r) == target,
    {
        self.entries[target as usize]
    }

    /// Walks the table backwards from `target` exactly `count` times: the
    /// word recovered is the one that `count` forward checksum applications
    /// turn back into `target`.
    pub fn unhash_rounds(&self, count: u64, target: u32) -> (r: u32)
        requires
            self.wf(),
        ensures
            r == iter_table(self.entries@, target, count as nat),
            iter_hash(r, count as nat) == target,
    {
        proof {
            lemma_inverse_of_forward_table(*self, target, count as nat);
        }
        table_rounds(&self.entries, count, target)
    }
}

/// Recovers one 4-byte input word per target checksum: builds the table and
/// looks each target up. Each returned word's checksum is its target.
pub fn recover_preimages(targets: &Vec<u32>) -> (r: Result<Vec<u32>, TableBuildError>)
    ensures
        r matches Ok(v) ==> v@.len() == targets@.len() && (forall|k: int|
            0 <= k < targets@.len() ==> hash_word(#[trigger] v@[k]) == targets@[k]),
        r is Err ==> !checksum_permutes(),
{
    let table = match PreimageTable::build() {
        Ok(t) => t,
        Err(e) => {
            return Err(e);
        },
    };
    let mut out: Vec<u32> = Vec::new();
    let mut k: usize = 0;
    while k < targets.len()
        invariant
            k <= targets@.len(),
            table.wf(),
            out@.len() == k,
            forall|j: int| 0 <= j < k ==> hash_word(#[trigger] out@[j]) == targets@[j],
        decreases targets@.len() - k,
    {
        out.push(table.lookup(targets[k]));
        k = k + 1;
    }
    Ok(out)
}

/// Recovers one seed word per record of a target checksum and a round count:
/// builds the table and walks it backwards once per record. Applying the
/// checksum the recorded number of times to each returned word gives back its
/// record's target.
pub fn recover_chain_seeds(jobs: &Vec<(u32, u64)>) -> (r: Result<Vec<u32>, TableBuildError>)
    ensures
        r matches Ok(v) ==> v@.len() == jobs@.len() && (forall|k: int|
            0 <= k < jobs@.len() ==> iter_hash(#[trigger] v@[k], jobs@[k].1 as nat)
                == jobs@[k].0),
        r is Err ==> !checksum_permutes(),
{
    let table = match PreimageTable::build() {
        Ok(t) => t,
        Err(e) => {
            return Err(e);
        },
    };
    let mut out: Vec<u32> = Vec::new();
    let mut k: usize = 0;
    while k < jobs.len()
        invariant
            k <= jobs@.len(),
            table.wf(),
            out@.len() == k,
            forall|j: int| 0 <= j < k ==> iter_hash(#[trigger] out@[j], jobs@[j].1 as nat)
                == jobs@[j].0,
        decreases jobs@.len() - k,
    {
        let job = jobs[k];
        out.push(table.unhash_rounds(job.1, job.0));
        k = k + 1;
    }
    Ok(out)
}

/// Walking the preimage table `n` steps from a word, then applying the
/// checksum `n` times, returns to the word.
pub proof fn lemma_inverse_of_forward_table(t: PreimageTable, o: u32, n: nat)
    requires
        t.wf(),
    ensures
        iter_hash(iter_table(t.entries@, o, n), n) == o,
    decreases n,
{
    if n > 0 {
        let b = iter_table(t.entries@, o, (n - 1) as nat);
        lemma_inverse_of_forward_table(t, o, (n - 1) as nat);
        assert(iter_table(t.entries@, o, n) == t.entries@[b as int]);
        assert(hash_word(t.entries@[b as int]) == b);
        lemma_iter_add_front_hash(t.entries@[b as int], n);
    }
}

/// Iterating the checksum `n` times is one application followed by `n - 1`.
proof fn lemma_iter_add_front_hash(s: u32, n: nat)
    requires
        n >= 1,
    ensures
        iter_hash(s, n) == iter_hash(hash_word(s), (n - 1) as nat),
{
    let f = |w: u32| hash_word(w);
    lemma_iter_fn_add(f, s, 1, (n - 1) as nat);
    assert(iter_fn(f, s, 0) == s);
    assert(iter_fn(f, s, 1) == f(s));
}

/// The inverse evaluator undoes the forward evaluator: for every seed and
/// round count, walking the table back from the `n`-th iterate of a seed
/// recovers the seed.
pub proof fn lemma_inverse_of_forward(t: PreimageTable, s: u32, n: nat)
    requires
        t.wf(),
    ensures
        iter_table(t.entries@, iter_hash(s, n), n) == s,
    decreases n,
{
    if n > 0 {
        let x = iter_hash(s, (n - 1) as nat);
        lemma_iter_add_front_hash_back(s, n);
        assert(iter_hash(s, n) == hash_word(x));
        assert(t.entries@[hash_word(x) as int] == x);
        lemma_iter_table_front(t.entries@, hash_word(x), n);
        lemma_inverse_of_forward(t, s, (n - 1) as nat);
    }
}

/// Iterating the checksum `n` times is `n - 1` applications followed by one.
proof fn lemma_iter_add_front_hash_back(s: u32, n: nat)
    requires
        n >= 1,
    ensures
        iter_hash(s, n) == hash_word(iter_hash(s, (n - 1) as nat)),
{
}

/// Every word's checksum inverts through a well-formed table: the slot of a
/// word's checksum holds the word itself.
pub proof fn lemma_table_roundtrip(t: PreimageTable, i: u32)
    requires
        t.wf(),
    ensures
        t.entries@[hash_word(i) as int] == i,
{
}

/// Every slot of a well-formed table holds a true preimage of its index.
pub proof fn lemma_table_inverts(t: PreimageTable, o: u32)
    requires
        t.wf(),
    ensures
        hash_word(t.entries@[o as int]) == o,
{
}

} // verus!
