use crc32_inversion::records::{
    chunk_words_with_rounds, parse_hex_word, parse_record, parse_round_count, prng,
    single_round_hashes,
};

#[test]
fn hex_words_parse() {
    assert_eq!(parse_hex_word(b"DEADBEEF"), Some(0xDEAD_BEEF));
    assert_eq!(parse_hex_word(b"deadbeef"), Some(0xDEAD_BEEF));
    assert_eq!(parse_hex_word(b"00000000"), Some(0));
    assert_eq!(parse_hex_word(b"FFFFFFFF"), Some(u32::MAX));
}

#[test]
fn bad_hex_words_are_rejected() {
    assert_eq!(parse_hex_word(b"DEADBEE"), None);
    assert_eq!(parse_hex_word(b"DEADBEEF0"), None);
    assert_eq!(parse_hex_word(b"DEADBEEG"), None);
    assert_eq!(parse_hex_word(b""), None);
}

#[test]
fn round_counts_parse() {
    assert_eq!(parse_round_count(b"0"), Some(0));
    assert_eq!(parse_round_count(b"42"), Some(42));
    assert_eq!(parse_round_count(b"18446744073709551615"), Some(u64::MAX));
}

#[test]
fn bad_round_counts_are_rejected() {
    assert_eq!(parse_round_count(b""), None);
    assert_eq!(parse_round_count(b"12a"), None);
    assert_eq!(parse_round_count(b"-1"), None);
    // One past the 64-bit range.
    assert_eq!(parse_round_count(b"18446744073709551616"), None);
}

#[test]
fn records_parse() {
    assert_eq!(parse_record(b"DEADBEEF:42"), Some((0xDEAD_BEEF, 42)));
    assert_eq!(parse_record(b"00000001:0"), Some((1, 0)));
}

#[test]
fn bad_records_are_rejected() {
    assert_eq!(parse_record(b"DEADBEEF"), None);
    assert_eq!(parse_record(b"DEADBEEF:"), None);
    assert_eq!(parse_record(b"DEADBEEF42"), None);
    assert_eq!(parse_record(b"DEADBEEX:42"), None);
    assert_eq!(parse_record(b"DEADBEEF:4x"), None);
}

#[test]
fn generator_is_the_documented_recurrence() {
    let s: u64 = 6364136223846793005;
    assert_eq!(prng(42), 42u64.wrapping_mul(s).wrapping_add(1));
    let big = u64::MAX - 3;
    assert_eq!(prng(big), big.wrapping_mul(s).wrapping_add(1));
}

#[test]
fn chunk_hashes_match_direct_checksums() {
    let input = b"abcdwxyz";
    let hashes = single_round_hashes(input);
    assert_eq!(hashes, vec![crc32fast::hash(b"abcd"), crc32fast::hash(b"wxyz")]);
    assert_eq!(single_round_hashes(b""), vec![]);
}

#[test]
fn chunk_words_carry_generated_rounds() {
    let input = b"abcdwxyz";
    let pairs = chunk_words_with_rounds(input, 42);
    let r1 = prng(42);
    let r2 = prng(r1);
    assert_eq!(
        pairs,
        vec![(u32::from_be_bytes(*b"abcd"), r1), (u32::from_be_bytes(*b"wxyz"), r2)]
    );
}
