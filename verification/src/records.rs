//! The boundary record formats, the round-count generator, and the per-chunk
//! computations behind challenge generation and solving.

use vstd::prelude::*;
use vstd::slice::{slice_index_get, slice_subrange};
use crate::checksum::{checksum_slice, crc32_of};
use crate::codec::bytes_word;

verus! {

/// An ASCII decimal digit.
pub open spec fn is_digit(b: u8) -> bool {
    48 <= b <= 57
}

/// The value of a decimal digit.
pub open spec fn digit_val(b: u8) -> int {
    b - 48
}

/// An ASCII hexadecimal digit, either case.
pub open spec fn is_hex_digit(b: u8) -> bool {
    (48 <= b <= 57) || (65 <= b <= 70) || (97 <= b <= 102)
}

/// The value of a hexadecimal digit.
pub open spec fn hex_digit_val(b: u8) -> int {
    if 48 <= b <= 57 {
        b - 48
    } else if 65 <= b <= 70 {
        b - 55
    } else {
        b - 87
    }
}

/// The number that a big-endian string of hexadecimal digits denotes.
pub open spec fn hex_value(s: Seq<u8>) -> int
    decreases s.len(),
{
    if s.len() == 0 {
        0
    } else {
        hex_value(s.drop_last()) * 16 + hex_digit_val(s.last())
    }
}

/// The number that a string of decimal digits denotes.
pub open spec fn dec_value(s: Seq<u8>) -> int
    decreases s.len(),
{
    if s.len() == 0 {
        0
    } else {
        dec_value(s.drop_last()) * 10 + digit_val(s.last())
    }
}

/// Sixteen to a power.
pub open spec fn sixteen_pow(n: nat) -> int
    decreases n,
{
    if n == 0 {
        1
    } else {
        16 * sixteen_pow((n - 1) as nat)
    }
}

/// A string of hexadecimal digits denotes a number below sixteen to its
/// length.
pub proof fn lemma_hex_value_bound(s: Seq<u8>)
    requires
        forall|p: int| 0 <= p < s.len() ==> is_hex_digit(#[trigger] s[p]),
    ensures
        0 <= hex_value(s) < sixteen_pow(s.len()),
    decreases s.len(),
{
    if s.len() > 0 {
        lemma_hex_value_bound(s.drop_last());
    }
}

/// A string of decimal digits denotes at least what any prefix denotes.
proof fn lemma_dec_value_prefix(s: Seq<u8>, m: int)
    requires
        0 <= m <= s.len(),
        forall|p: int| 0 <= p < s.len() ==> is_digit(#[trigger] s[p]),
    ensures
        0 <= dec_value(s.take(m)) <= dec_value(s),
    decreases s.len() - m,
{
    if m == s.len() {
        assert(s.take(m) =~= s);
        lemma_dec_value_nonneg(s);
    } else {
        lemma_dec_value_prefix(s, m + 1);
        assert(s.take(m + 1).drop_last() =~= s.take(m));
        lemma_dec_value_nonneg(s.take(m));
    }
}

/// A string of decimal digits denotes a number, not a deficit.
proof fn lemma_dec_value_nonneg(s: Seq<u8>)
    requires
        forall|p: int| 0 <= p < s.len() ==> is_digit(#[trigger] s[p]),
    ensures
        dec_value(s) >= 0,
    decreases s.len(),
{
    if s.len() > 0 {
        lemma_dec_value_nonneg(s.drop_last());
    }
}

/// Parses exactly 8 hexadecimal digits into a word. Any other length, or any
/// non-digit, is rejected.
pub fn parse_hex_word(s: &[u8]) -> (r: Option<u32>)
    ensures
        match r {
            Some(w) => s@.len() == 8 && (forall|p: int|
                0 <= p < 8 ==> is_hex_digit(#[trigger] s@[p])) && w == hex_value(s@),
            None => !(s@.len() == 8 && (forall|p: int|
                0 <= p < 8 ==> is_hex_digit(#[trigger] s@[p]))),
        },
{
    if s.len() != 8 {
        return None;
    }
    let mut acc: u32 = 0;
    let mut k: usize = 0;
    while k < 8
        invariant
            k <= 8,
            s@.len() == 8,
            forall|p: int| 0 <= p < k ==> is_hex_digit(#[trigger] s@[p]),
            acc == hex_value(s@.take(k as int)),
        decreases 8 - k,
    {
        let b = *slice_index_get(s, k);
        let d: u32 = if 48 <= b && b <= 57 {
            (b - 48) as u32
        } else if 65 <= b && b <= 70 {
            (b - 55) as u32
        } else if 97 <= b && b <= 102 {
            (b - 87) as u32
        } else {
            return None;
        };
        proof {
            lemma_hex_value_bound(s@.take(k as int));
            assert(sixteen_pow(7) == 0x10000000) by {
                reveal_with_fuel(sixteen_pow, 9);
            }
            assert(sixteen_pow(k as nat) <= sixteen_pow(7)) by {
                lemma_sixteen_pow_le(k as nat, 7);
            }
            assert(s@.take(k + 1).drop_last() =~= s@.take(k as int));
        }
        acc = acc * 16 + d;
        k = k + 1;
    }
    proof {
        assert(s@.take(8) =~= s@);
    }
    Some(acc)
}

/// Sixteen to a power grows with the power.
proof fn lemma_sixteen_pow_le(a: nat, b: nat)
    requires
        a <= b,
    ensures
        sixteen_pow(a) <= sixteen_pow(b),
    decreases b,
{
    if a < b {
        lemma_sixteen_pow_le(a, (b - 1) as nat);
        assert(sixteen_pow((b - 1) as nat) >= 1) by {
            lemma_sixteen_pow_pos((b - 1) as nat);
        }
    }
}

/// Sixteen to any power is positive.
proof fn lemma_sixteen_pow_pos(n: nat)
    ensures
        sixteen_pow(n) >= 1,
    decreases n,
{
    if n > 0 {
        lemma_sixteen_pow_pos((n - 1) as nat);
    }
}

/// Parses a non-empty string of decimal digits into a round count. A
/// non-digit, an empty string, or a value past the 64-bit range is rejected.
pub fn parse_round_count(s: &[u8]) -> (r: Option<u64>)
    ensures
        match r {
            Some(c) => s@.len() >= 1 && (forall|p: int|
                0 <= p < s@.len() ==> is_digit(#[trigger] s@[p])) && dec_value(s@) <= u64::MAX
                && c == dec_value(s@),
            None => !(s@.len() >= 1 && (forall|p: int|
                0 <= p < s@.len() ==> is_digit(#[trigger] s@[p])) && dec_value(s@) <= u64::MAX),
        },
{
    if s.len() == 0 {
        return None;
    }
    let mut acc: u64 = 0;
    let mut k: usize = 0;
    while k < s.len()
        invariant
            k <= s@.len(),
            forall|p: int| 0 <= p < k ==> is_digit(#[trigger] s@[p]),
            acc == dec_value(s@.take(k as int)),
        decreases s@.len() - k,
    {
        let b = *slice_index_get(s, k);
        if !(48 <= b && b <= 57) {
            return None;
        }
        let d: u64 = (b - 48) as u64;
        if acc > (u64::MAX - d) / 10 {
            proof {
                vstd::arithmetic::div_mod::lemma_fundamental_div_mod(
                    u64::MAX - d,
                    10,
                );
                assert(s@.take(k + 1).drop_last() =~= s@.take(k as int));
                assert(dec_value(s@.take(k + 1)) > u64::MAX);
                if forall|p: int| 0 <= p < s@.len() ==> is_digit(#[trigger] s@[p]) {
                    lemma_dec_value_prefix(s@, k + 1);
                }
            }
            return None;
        }
        proof {
            vstd::arithmetic::div_mod::lemma_fundamental_div_mod(u64::MAX - d, 10);
            assert(s@.take(k + 1).drop_last() =~= s@.take(k as int));
        }
        acc = acc * 10 + d;
        k = k + 1;
    }
    proof {
        assert(s@.take(s@.len() as int) =~= s@);
    }
    Some(acc)
}

/// Parses one challenge record: 8 hexadecimal digits, a colon, and a decimal
/// round count.
pub fn parse_record(s: &[u8]) -> (r: Option<(u32, u64)>)
    ensures
        match r {
            Some(p) => s@.len() >= 10 && (forall|q: int|
                0 <= q < 8 ==> is_hex_digit(#[trigger] s@[q])) && s@[8] == 58 && (forall|q: int|
                9 <= q < s@.len() ==> is_digit(#[trigger] s@[q])) && dec_value(s@.skip(9))
                <= u64::MAX && p.0 == hex_value(s@.take(8)) && p.1 == dec_value(s@.skip(9)),
            None => !(s@.len() >= 10 && (forall|q: int|
                0 <= q < 8 ==> is_hex_digit(#[trigger] s@[q])) && s@[8] == 58 && (forall|q: int|
                9 <= q < s@.len() ==> is_digit(#[trigger] s@[q])) && dec_value(s@.skip(9))
                <= u64::MAX),
        },
{
    if s.len() < 10 {
        return None;
    }
    let head = slice_subrange(s, 0, 8);
    let w = match parse_hex_word(head) {
        Some(w) => w,
        None => {
            return None;
        },
    };
    // 58 is the colon separating checksum and round count.
    if *slice_index_get(s, 8) != 58 {
        return None;
    }
    let tail = slice_subrange(s, 9, s.len());
    proof {
        assert(tail@ =~= s@.skip(9));
    }
    let c = match parse_round_count(tail) {
        Some(c) => c,
        None => {
            return None;
        },
    };
    proof {
        assert(head@ =~= s@.take(8));
        assert forall|q: int| 0 <= q < 8 implies is_hex_digit(#[trigger] s@[q]) by {
            assert(is_hex_digit(head@[q]));
        }
        assert forall|q: int| 9 <= q < s@.len() implies is_digit(#[trigger] s@[q]) by {
            assert(is_digit(tail@[q - 9]));
        }
    }
    Some((w, c))
}

/// One step of the round-count generator: a linear congruential update with
/// wrapping 64-bit arithmetic.
pub open spec fn prng_step(seed: u64) -> u64 {
    seed.wrapping_mul(6364136223846793005).wrapping_add(1)
}

/// The generator's state after `k` steps from a seed.
pub open spec fn prng_iter(seed: u64, k: nat) -> u64
    decreases k,
{
    if k == 0 {
        seed
    } else {
        prng_step(prng_iter(seed, (k - 1) as nat))
    }
}

/// Advances the round-count generator one step.
pub fn prng(seed: u64) -> (r: u64)
    ensures
        r == prng_step(seed),
{
    seed.wrapping_mul(6364136223846793005).wrapping_add(1)
}

/// The checksum of each 4-byte chunk of a buffer already padded to a
/// multiple of 4 bytes.
pub fn single_round_hashes(input: &[u8]) -> (r: Vec<u32>)
    requires
        input@.len() % 4 == 0,
    ensures
        r@.len() == input@.len() / 4,
        forall|k: int| 0 <= k < r@.len() ==> #[trigger] r@[k] == crc32_of(
            input@.subrange(4 * k, 4 * k + 4),
        ),
{
    let mut r: Vec<u32> = Vec::new();
    let total = input.len() / 4;
    proof {
        vstd::arithmetic::div_mod::lemma_fundamental_div_mod(input@.len() as int, 4);
    }
    let mut k: usize = 0;
    while k < total
        invariant
            k <= total,
            input@.len() == 4 * total,
            input@.len() <= usize::MAX,
            r@.len() == k,
            forall|j: int| 0 <= j < k ==> #[trigger] r@[j] == crc32_of(
                input@.subrange(4 * j, 4 * j + 4),
            ),
        decreases total - k,
    {
        let chunk = slice_subrange(input, 4 * k, 4 * k + 4);
        let h = checksum_slice(chunk);
        r.push(h);
        k = k + 1;
    }
    r
}

/// Pairs each 4-byte chunk's word, read big-endian, with the round count the
/// generator assigns to its record: the chunk at position `k` gets the
/// generator's `k + 1`-th state.
pub fn chunk_words_with_rounds(input: &[u8], seed: u64) -> (r: Vec<(u32, u64)>)
    requires
        input@.len() % 4 == 0,
    ensures
        r@.len() == input@.len() / 4,
        forall|k: int| 0 <= k < r@.len() ==> (#[trigger] r@[k]).0 == bytes_word(
            input@.subrange(4 * k, 4 * k + 4),
        ) && r@[k].1 == prng_iter(seed, (k + 1) as nat),
{
    let mut r: Vec<(u32, u64)> = Vec::new();
    let mut state: u64 = seed;
    let total = input.len() / 4;
    proof {
        vstd::arithmetic::div_mod::lemma_fundamental_div_mod(input@.len() as int, 4);
    }
    let mut k: usize = 0;
    while k < total
        invariant
            k <= total,
            input@.len() == 4 * total,
            input@.len() <= usize::MAX,
            r@.len() == k,
            state == prng_iter(seed, k as nat),
            forall|j: int| 0 <= j < k ==> (#[trigger] r@[j]).0 == bytes_word(
                input@.subrange(4 * j, 4 * j + 4),
            ) && r@[j].1 == prng_iter(seed, (j + 1) as nat),
        decreases total - k,
    {
        let chunk = slice_subrange(input, 4 * k, 4 * k + 4);
        let w = crate::codec::u8_slice_to_u32(&[chunk[0], chunk[1], chunk[2], chunk[3]]);
        proof {
            assert(seq![chunk@[0], chunk@[1], chunk@[2], chunk@[3]] =~= input@.subrange(
                4 * k,
                4 * k + 4,
            ));
        }
        state = prng(state);
        r.push((w, state));
        k = k + 1;
    }
    r
}

} // verus!
