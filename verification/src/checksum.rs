//! The checksum primitive and the mathematics of iterating a step function.

use vstd::prelude::*;
use crate::codec::{word_bytes, u32_to_u8_slice};

verus! {

/// The CRC32 (IEEE) checksum of a byte sequence, named but not written out:
/// it is a pure function of the bytes alone.
pub uninterp spec fn crc32_of(b: Seq<u8>) -> u32;

/// Relies on crc32fast::hash: computes the CRC32 (IEEE) checksum of the
/// bytes, a deterministic function of the bytes alone.
#[verifier::external_body]
fn crc32(b: &[u8]) -> (r: u32)
    ensures
        r == crc32_of(b@),
{
    crc32fast::hash(b)
}

/// The checksum of a word: the CRC32 of its big-endian encoding.
pub open spec fn hash_word(w: u32) -> u32 {
    crc32_of(word_bytes(w))
}

/// Computes the checksum of a 4-byte buffer.
pub fn checksum_bytes(b: &[u8; 4]) -> (r: u32)
    ensures
        r == crc32_of(b@),
{
    crc32(b.as_slice())
}

/// Computes the checksum of a byte slice.
pub fn checksum_slice(b: &[u8]) -> (r: u32)
    ensures
        r == crc32_of(b@),
{
    crc32(b)
}

/// Applies the checksum once to a word.
pub fn checksum_word(w: u32) -> (r: u32)
    ensures
        r == hash_word(w),
{
    let b = u32_to_u8_slice(w);
    checksum_bytes(&b)
}

/// A step function applied `n` times to a start value.
pub open spec fn iter_fn(f: spec_fn(u32) -> u32, s: u32, n: nat) -> u32
    decreases n,
{
    if n == 0 {
        s
    } else {
        f(iter_fn(f, s, (n - 1) as nat))
    }
}

/// The checksum applied `n` times to a seed word.
pub open spec fn iter_hash(s: u32, n: nat) -> u32 {
    iter_fn(|w: u32| hash_word(w), s, n)
}

/// The step function that a lookup table over words defines: a word steps to
/// the entry at its own index.
pub open spec fn table_step(t: Seq<u32>) -> spec_fn(u32) -> u32 {
    |w: u32| t[w as int]
}

/// A lookup table applied `n` times to a start value.
pub open spec fn iter_table(t: Seq<u32>, s: u32, n: nat) -> u32 {
    iter_fn(table_step(t), s, n)
}

/// Iterating `a + b` times is iterating `b` times from the `a`-th iterate.
pub proof fn lemma_iter_fn_add(f: spec_fn(u32) -> u32, s: u32, a: nat, b: nat)
    ensures
        iter_fn(f, s, a + b) == iter_fn(f, iter_fn(f, s, a), b),
    decreases b,
{
    if b > 0 {
        lemma_iter_fn_add(f, s, a, (b - 1) as nat);
    }
}

/// Walking a table `n` steps is one step followed by `n - 1` from the entry.
pub proof fn lemma_iter_table_front(t: Seq<u32>, s: u32, n: nat)
    requires
        n >= 1,
    ensures
        iter_table(t, s, n) == iter_table(t, t[s as int], (n - 1) as nat),
{
    let f = table_step(t);
    lemma_iter_fn_add(f, s, 1, (n - 1) as nat);
    assert(iter_fn(f, s, 0) == s);
    assert(iter_fn(f, s, 1) == f(s));
    assert(f(s) == t[s as int]);
}

/// A start value that returns to itself after `l` steps revisits the same
/// values with period `l`: the `n`-th iterate is the `n % l`-th.
pub proof fn lemma_iter_fn_period(f: spec_fn(u32) -> u32, s: u32, l: nat, n: nat)
    requires
        l >= 1,
        iter_fn(f, s, l) == s,
    ensures
        iter_fn(f, s, n) == iter_fn(f, s, n % l),
    decreases n,
{
    if n >= l {
        lemma_iter_fn_add(f, s, l, (n - l) as nat);
        lemma_iter_fn_period(f, s, l, (n - l) as nat);
        assert((n - l) % (l as int) == (n as int) % (l as int)) by {
            vstd::arithmetic::div_mod::lemma_mod_sub_multiples_vanish(n as int, l as int);
        }
    } else {
        assert(n % l == n) by {
            vstd::arithmetic::div_mod::lemma_small_mod(n, l);
        }
    }
}

} // verus!
