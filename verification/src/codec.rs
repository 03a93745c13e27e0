//! Big-endian conversion between 32-bit words and 4-byte buffers.

use vstd::prelude::*;

verus! {

/// The big-endian byte sequence of a word: most-significant byte first.
pub open spec fn word_bytes(w: u32) -> Seq<u8> {
    seq![(w >> 24) as u8, (w >> 16) as u8, (w >> 8) as u8, w as u8]
}

/// The word read big-endian from a 4-byte sequence.
pub open spec fn bytes_word(b: Seq<u8>) -> u32 {
    ((b[0] as u32) << 24) | ((b[1] as u32) << 16) | ((b[2] as u32) << 8) | (b[3] as u32)
}

/// Encodes a word as its 4 big-endian bytes.
pub fn u32_to_u8_slice(n: u32) -> (b: [u8; 4])
    ensures
        b@ == word_bytes(n),
{
    let b: [u8; 4] = [
        ((n >> 24) & 0xFF) as u8,
        ((n >> 16) & 0xFF) as u8,
        ((n >> 8) & 0xFF) as u8,
        (n & 0xFF) as u8,
    ];
    proof {
        assert(((n >> 24) & 0xFF) as u8 == (n >> 24) as u8 && ((n >> 16) & 0xFF) as u8 == (n >> 16)
            as u8 && ((n >> 8) & 0xFF) as u8 == (n >> 8) as u8 && (n & 0xFF) as u8 == n as u8)
            by (bit_vector);
        assert(b@ =~= word_bytes(n));
    }
    b
}

/// Decodes 4 big-endian bytes into a word.
pub fn u8_slice_to_u32(b: &[u8; 4]) -> (w: u32)
    ensures
        w == bytes_word(b@),
{
    ((b[0] as u32) << 24) | ((b[1] as u32) << 16) | ((b[2] as u32) << 8) | (b[3] as u32)
}

/// Decoding the encoding of any word gives the word back.
pub proof fn lemma_decode_encode(w: u32)
    ensures
        bytes_word(word_bytes(w)) == w,
{
    assert((((w >> 24) as u8 as u32) << 24) | (((w >> 16) as u8 as u32) << 16) | (((w >> 8) as u8
        as u32) << 8) | (w as u8 as u32) == w) by (bit_vector);
}

/// Encoding the decoding of any 4-byte buffer gives the buffer back.
pub proof fn lemma_encode_decode(b: Seq<u8>)
    requires
        b.len() == 4,
    ensures
        word_bytes(bytes_word(b)) == b,
{
    let b0 = b[0];
    let b1 = b[1];
    let b2 = b[2];
    let b3 = b[3];
    let w: u32 = ((b0 as u32) << 24) | ((b1 as u32) << 16) | ((b2 as u32) << 8) | (b3 as u32);
    assert((w >> 24) as u8 == b0 && (w >> 16) as u8 == b1 && (w >> 8) as u8 == b2 && w as u8 == b3)
        by (bit_vector)
        requires
            w == ((b0 as u32) << 24) | ((b1 as u32) << 16) | ((b2 as u32) << 8) | (b3 as u32),
    ;
    assert(word_bytes(bytes_word(b)) =~= b);
}

} // verus!
