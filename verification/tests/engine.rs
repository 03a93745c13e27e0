use crc32_inversion::brute::brute_force;
use crc32_inversion::codec::{u32_to_u8_slice, u8_slice_to_u32};
use crc32_inversion::evaluator::{hash_rounds, table_rounds};
use crc32_inversion::orbits::decompose;

#[test]
fn converters() {
    assert_eq!(u32_to_u8_slice(0), [0x0, 0x0, 0x0, 0x0]);
    assert_eq!(u32_to_u8_slice(u32::MAX), [0xff, 0xff, 0xff, 0xff]);
    assert_eq!(u32_to_u8_slice(999_999_999), [0x3b, 0x9a, 0xc9, 0xff]);
}

#[test]
fn codec_round_trips() {
    for w in [0u32, 1, 0xDEAD_BEEF, 0x0102_0304, u32::MAX] {
        assert_eq!(u8_slice_to_u32(&u32_to_u8_slice(w)), w);
    }
    for b in [[0u8, 0, 0, 0], [1, 2, 3, 4], [0xff, 0, 0xff, 0], [0xff, 0xff, 0xff, 0xff]] {
        assert_eq!(u32_to_u8_slice(u8_slice_to_u32(&b)), b);
    }
}

#[test]
fn one_round_matches_direct_checksum() {
    for w in [0u32, 1, 42, 0xDEAD_BEEF, u32::MAX] {
        assert_eq!(hash_rounds(1, w), crc32fast::hash(&w.to_be_bytes()));
    }
}

#[test]
fn zero_rounds_is_identity() {
    assert_eq!(hash_rounds(0, 0x0000_0000), 0x0000_0000);
    assert_eq!(hash_rounds(0, 0xDEAD_BEEF), 0xDEAD_BEEF);
}

#[test]
fn single_round_of_zero_matches_direct_checksum() {
    assert_eq!(hash_rounds(1, 0x0000_0000), crc32fast::hash(&[0, 0, 0, 0]));
}

#[test]
fn small_round_counts_match_repeated_application() {
    for seed in [0u32, 7, 0xCAFE_F00D] {
        let mut expected = seed;
        for n in 0..20u64 {
            assert_eq!(hash_rounds(n, seed), expected);
            expected = crc32fast::hash(&expected.to_be_bytes());
        }
    }
}

#[test]
fn table_walk_small_counts() {
    // A permutation of 0..5 with a 3-cycle and a 2-cycle.
    let t: Vec<u32> = vec![1, 2, 0, 4, 3];
    assert_eq!(table_rounds(&t, 0, 0), 0);
    assert_eq!(table_rounds(&t, 1, 0), 1);
    assert_eq!(table_rounds(&t, 2, 0), 2);
    assert_eq!(table_rounds(&t, 3, 0), 0);
    assert_eq!(table_rounds(&t, 1, 3), 4);
    assert_eq!(table_rounds(&t, 2, 3), 3);
}

#[test]
fn table_walk_huge_count_uses_cycle() {
    let t: Vec<u32> = vec![1, 2, 0, 4, 3];
    // 1_000_000_000_001 % 3 == 2, so starting from 0 the walk lands on 2.
    assert_eq!(table_rounds(&t, 1_000_000_000_001, 0), 2);
    // 2^63 is even, so the 2-cycle returns to its start.
    assert_eq!(table_rounds(&t, 1u64 << 63, 3), 3);
}

#[test]
fn decompose_partitions_a_permutation() {
    let t: Vec<u32> = vec![1, 2, 0, 4, 3, 5];
    let d = decompose(&t).unwrap();
    // Orbit lengths cover the domain.
    let total: usize = d.orbits.iter().map(|o| o.len()).sum();
    assert_eq!(total, t.len());
    // Every word is indexed at the position holding it, exactly once overall.
    let mut seen = vec![false; t.len()];
    for (id, orbit) in d.orbits.iter().enumerate() {
        for (pos, &w) in orbit.iter().enumerate() {
            assert!(!seen[w as usize]);
            seen[w as usize] = true;
            let p = d.index[w as usize].as_ref().unwrap();
            assert_eq!(p.orbit, id);
            assert_eq!(p.pos, pos);
        }
    }
    assert!(seen.iter().all(|&s| s));
    // Each orbit is a cycle of the table.
    for orbit in d.orbits.iter() {
        for pos in 0..orbit.len() {
            assert_eq!(t[orbit[pos] as usize], orbit[(pos + 1) % orbit.len()]);
        }
    }
}

#[test]
fn decompose_rejects_a_non_permutation() {
    // Both words step to 0, so the walk from 1 collides with 0's orbit.
    let t: Vec<u32> = vec![0, 0];
    assert!(decompose(&t).is_err());
}

#[test]
fn orbit_evaluation_matches_walking() {
    let t: Vec<u32> = vec![1, 2, 0, 4, 3];
    let d = decompose(&t).unwrap();
    for v in 0..5u32 {
        for n in [0u64, 1, 2, 3, 7, 1_000_000_000_001, 1u64 << 63] {
            assert_eq!(d.evaluate(v, n), table_rounds(&t, n, v));
        }
    }
}

#[test]
fn brute_force_recovers_known_buffer() {
    let alphabet: Vec<u8> = b"abcdefgh".to_vec();
    let b = *b"fade";
    let target = crc32fast::hash(&b);
    assert_eq!(brute_force(&alphabet, target), Some(b));
}

#[test]
fn brute_force_reports_misses() {
    let alphabet: Vec<u8> = b"a".to_vec();
    let only = crc32fast::hash(b"aaaa");
    assert_eq!(brute_force(&alphabet, only), Some(*b"aaaa"));
    assert_eq!(brute_force(&alphabet, only ^ 1), None);
}
