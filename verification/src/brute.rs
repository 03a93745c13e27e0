//! Brute-force preimage search over a small alphabet, for when the full
//! preimage table's memory cost is unaffordable.

use vstd::prelude::*;
use crate::checksum::{checksum_bytes, crc32_of};

verus! {

/// The 4-byte buffer that four index choices draw from an alphabet.
pub open spec fn combo(a: Seq<u8>, i0: int, i1: int, i2: int, i3: int) -> Seq<u8> {
    seq![a[i0], a[i1], a[i2], a[i3]]
}

/// Tries every 4-byte combination of the alphabet's characters, in index
/// order, against the target checksum. `None` means the target has no
/// preimage within this alphabet's combinations, not that none exists.
pub fn brute_force(alphabet: &Vec<u8>, target: u32) -> (r: Option<[u8; 4]>)
    ensures
        match r {
            Some(b) => crc32_of(b@) == target && (exists|i0: int, i1: int, i2: int, i3: int|
                0 <= i0 < alphabet@.len() && 0 <= i1 < alphabet@.len() && 0 <= i2
                    < alphabet@.len() && 0 <= i3 < alphabet@.len() && b@ == #[trigger] combo(
                    alphabet@,
                    i0,
                    i1,
                    i2,
                    i3,
                )),
            None => forall|i0: int, i1: int, i2: int, i3: int|
                0 <= i0 < alphabet@.len() && 0 <= i1 < alphabet@.len() && 0 <= i2
                    < alphabet@.len() && 0 <= i3 < alphabet@.len() ==> crc32_of(
                    #[trigger] combo(alphabet@, i0, i1, i2, i3),
                ) != target,
        },
{
    let n = alphabet.len();
    let mut i0: usize = 0;
    while i0 < n
        invariant
            i0 <= n,
            n == alphabet@.len(),
            forall|j0: int, j1: int, j2: int, j3: int|
                0 <= j0 < i0 && 0 <= j1 < n && 0 <= j2 < n && 0 <= j3 < n ==> crc32_of(
                    #[trigger] combo(alphabet@, j0, j1, j2, j3),
                ) != target,
        decreases n - i0,
    {
        let mut i1: usize = 0;
        while i1 < n
            invariant
                i0 < n,
                i1 <= n,
                n == alphabet@.len(),
                forall|j1: int, j2: int, j3: int|
                    0 <= j1 < i1 && 0 <= j2 < n && 0 <= j3 < n ==> crc32_of(
                        #[trigger] combo(alphabet@, i0 as int, j1, j2, j3),
                    ) != target,
            decreases n - i1,
        {
            let mut i2: usize = 0;
            while i2 < n
                invariant
                    i0 < n,
                    i1 < n,
                    i2 <= n,
                    n == alphabet@.len(),
                    forall|j2: int, j3: int|
                        0 <= j2 < i2 && 0 <= j3 < n ==> crc32_of(
                            #[trigger] combo(alphabet@, i0 as int, i1 as int, j2, j3),
                        ) != target,
                decreases n - i2,
            {
                let mut i3: usize = 0;
                while i3 < n
                    invariant
                        i0 < n,
                        i1 < n,
                        i2 < n,
                        i3 <= n,
                        n == alphabet@.len(),
                        forall|j3: int|
                            0 <= j3 < i3 ==> crc32_of(
                                #[trigger] combo(alphabet@, i0 as int, i1 as int, i2 as int, j3),
                            ) != target,
                    decreases n - i3,
                {
                    let b: [u8; 4] = [alphabet[i0], alphabet[i1], alphabet[i2], alphabet[i3]];
                    proof {
                        assert(b@ =~= combo(alphabet@, i0 as int, i1 as int, i2 as int, i3 as int));
                    }
                    let h = checksum_bytes(&b);
                    if h == target {
                        return Some(b);
                    }
                    i3 = i3 + 1;
                }
                i2 = i2 + 1;
            }
            i1 = i1 + 1;
        }
        i0 = i0 + 1;
    }
    None
}

} // verus!
