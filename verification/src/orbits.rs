//! Functional-graph decomposition: one full pass over the domain of a
//! function table, splitting it into disjoint orbits so that repeated
//! application becomes a single index computation.

use vstd::prelude::*;
use vstd::set_lib::{lemma_int_range, lemma_len_subset, set_int_range};
use crate::checksum::{
    checksum_word, hash_word, iter_hash, iter_table, lemma_iter_table_front,
};

verus! {

broadcast use vstd::set::axiom_set_insert_len;

/// Where a word stands: which orbit, and at which position in it.
#[derive(Clone, Copy)]
pub struct OrbitPos {
    pub orbit: usize,
    pub pos: usize,
}

/// Decomposition failed: a walk ran into a word that an orbit already holds,
/// which means two words step to the same place and the table does not
/// permute its domain. Every answer read from the half-built orbits would be
/// suspect, so none is returned.
#[derive(Debug)]
pub enum DecomposeError {
    Collision,
}

/// No two slots of the table hold the same word.
pub open spec fn injective_table(f: Seq<u32>) -> bool {
    forall|a: int, b: int|
        0 <= a < f.len() && 0 <= b < f.len() && #[trigger] f[a] == #[trigger] f[b] ==> a == b
}

/// The sum of the lengths of the orbits.
pub open spec fn sum_orbit_lens(os: Seq<Vec<u32>>) -> nat
    decreases os.len(),
{
    if os.len() == 0 {
        0
    } else {
        sum_orbit_lens(os.drop_last()) + os.last()@.len()
    }
}

/// The set of words that the index has already placed.
pub open spec fn indexed_set(ix: Seq<Option<OrbitPos>>) -> Set<int> {
    Set::new(|v: int| 0 <= v < ix.len() && ix[v] is Some)
}

/// Every placed word stands in the orbit and at the position its index entry
/// names.
pub open spec fn index_consistent(os: Seq<Vec<u32>>, ix: Seq<Option<OrbitPos>>) -> bool {
    forall|v: int|
        0 <= v < ix.len() ==> ((#[trigger] ix[v]) matches Some(p) ==> p.orbit < os.len() && p.pos
            < os[p.orbit as int]@.len() && os[p.orbit as int]@[p.pos as int] == v)
}

/// Every orbit position is indexed back to itself: the word at position
/// `pos` of orbit `id` carries the index entry `(id, pos)`.
pub open spec fn orbits_indexed(os: Seq<Vec<u32>>, ix: Seq<Option<OrbitPos>>) -> bool {
    forall|id: int, pos: int|
        0 <= id < os.len() && 0 <= pos < os[id]@.len() ==> 0 <= #[trigger] os[id]@[pos] < ix.len()
            && (ix[os[id]@[pos] as int] matches Some(p) && p.orbit == id && p.pos == pos)
}

/// Each orbit is a cycle of the table: every element steps to its successor,
/// and the last back to the first.
pub open spec fn orbits_cyclic(os: Seq<Vec<u32>>, f: Seq<u32>) -> bool {
    forall|id: int, pos: int|
        0 <= id < os.len() && 0 <= pos < os[id]@.len() ==> f[#[trigger] os[id]@[pos] as int]
            == os[id]@[(pos + 1) % (os[id]@.len() as int)]
}

/// No orbit is empty.
pub open spec fn orbit_lens_positive(os: Seq<Vec<u32>>) -> bool {
    forall|id: int| 0 <= id < os.len() ==> (#[trigger] os[id]@.len()) >= 1
}

/// The state between two orbit walks: `count` words placed consistently into
/// whole orbits, and every word below `hi` placed.
pub open spec fn decompose_state(
    os: Seq<Vec<u32>>,
    ix: Seq<Option<OrbitPos>>,
    f: Seq<u32>,
    count: int,
    hi: int,
) -> bool {
    &&& ix.len() == f.len()
    &&& forall|j: int| 0 <= j < f.len() ==> #[trigger] f[j] < f.len()
    &&& index_consistent(os, ix)
    &&& orbits_indexed(os, ix)
    &&& orbits_cyclic(os, f)
    &&& orbit_lens_positive(os)
    &&& sum_orbit_lens(os) == count
    &&& indexed_set(ix).finite()
    &&& indexed_set(ix).len() == count
    &&& count <= f.len()
    &&& forall|v: int| 0 <= v < hi ==> (#[trigger] ix[v]) is Some
}

/// The state in the middle of one orbit walk: the finished orbits as before,
/// and the partial orbit `walk` placed under the id the finished orbits come
/// short of.
pub open spec fn walk_state(
    os: Seq<Vec<u32>>,
    ix: Seq<Option<OrbitPos>>,
    f: Seq<u32>,
    walk: Seq<u32>,
    count: int,
    start: u32,
    hi: int,
) -> bool {
    &&& ix.len() == f.len()
    &&& forall|j: int| 0 <= j < f.len() ==> #[trigger] f[j] < f.len()
    &&& walk.len() >= 1
    &&& walk[0] == start
    &&& forall|p: int| 0 <= p < walk.len() ==> #[trigger] walk[p] < f.len()
    &&& forall|p: int|
        0 <= p < walk.len() ==> (ix[#[trigger] walk[p] as int] matches Some(q) && q.orbit
            == os.len() && q.pos == p)
    &&& forall|p: int| 0 <= p < walk.len() - 1 ==> #[trigger] f[walk[p] as int] == walk[p + 1]
    &&& forall|v: int|
        0 <= v < ix.len() ==> ((#[trigger] ix[v]) matches Some(q) ==> (q.orbit < os.len() && q.pos
            < os[q.orbit as int]@.len() && os[q.orbit as int]@[q.pos as int] == v) || (q.orbit
            == os.len() && q.pos < walk.len() && walk[q.pos as int] == v))
    &&& orbits_indexed(os, ix)
    &&& orbits_cyclic(os, f)
    &&& orbit_lens_positive(os)
    &&& sum_orbit_lens(os) + walk.len() == count
    &&& indexed_set(ix).finite()
    &&& indexed_set(ix).len() == count
    &&& count <= f.len()
    &&& forall|v: int| 0 <= v < hi ==> (#[trigger] ix[v]) is Some
}

/// Appending an orbit adds its length to the sum.
proof fn lemma_sum_push(os: Seq<Vec<u32>>, x: Vec<u32>)
    ensures
        sum_orbit_lens(os.push(x)) == sum_orbit_lens(os) + x@.len(),
{
    assert(os.push(x).drop_last() =~= os);
    assert(os.push(x).last() == x);
}

/// The complete decomposition of a function table over its whole domain.
pub struct Orbits {
    pub orbits: Vec<Vec<u32>>,
    pub index: Vec<Option<OrbitPos>>,
    pub func: Ghost<Seq<u32>>,
}

impl Orbits {
    /// The orbits partition the domain of the function: every word placed at
    /// exactly the position its index entry names, every orbit a cycle of the
    /// function, and the orbit lengths summing to the domain size.
    pub open spec fn wf(self) -> bool {
        &&& self.index@.len() == self.func@.len()
        &&& self.func@.len() <= 0x1_0000_0000
        &&& forall|j: int| 0 <= j < self.func@.len() ==> #[trigger] self.func@[j] < self.func@.len()
        &&& forall|v: int| 0 <= v < self.index@.len() ==> (#[trigger] self.index@[v]) is Some
        &&& index_consistent(self.orbits@, self.index@)
        &&& orbits_indexed(self.orbits@, self.index@)
        &&& orbits_cyclic(self.orbits@, self.func@)
        &&& orbit_lens_positive(self.orbits@)
        &&& sum_orbit_lens(self.orbits@) == self.func@.len()
    }
}

impl Orbits {
    /// Answers "apply the table to `v` exactly `rounds` times" by a single
    /// index computation inside `v`'s orbit, with no walking at all.
    pub fn evaluate(&self, v: u32, rounds: u64) -> (r: u32)
        requires
            self.wf(),
            (v as int) < self.func@.len(),
        ensures
            r == iter_table(self.func@, v, rounds as nat),
    {
        match &self.index[v as usize] {
            Some(p) => {
                let orb = &self.orbits[p.orbit];
                let l: u64 = orb.len() as u64;
                proof {
                    lemma_orbit_len_le_sum(self.orbits@, p.orbit as int);
                }
                let idx: u64 = (p.pos as u64 + rounds % l) % l;
                proof {
                    lemma_orbit_iter(
                        self.orbits@[p.orbit as int]@,
                        self.func@,
                        p.pos as int,
                        rounds as nat,
                    );
                    vstd::arithmetic::div_mod::lemma_add_mod_noop_right(
                        p.pos as int,
                        rounds as int,
                        l as int,
                    );
                }
                orb[idx as usize]
            },
            None => vstd::pervasive::unreached(),
        }
    }
}

/// No orbit is longer than the sum of all orbit lengths.
proof fn lemma_orbit_len_le_sum(os: Seq<Vec<u32>>, id: int)
    requires
        0 <= id < os.len(),
    ensures
        os[id]@.len() <= sum_orbit_lens(os),
    decreases os.len(),
{
    if id == os.len() - 1 {
        assert(os.last() == os[id]);
    } else {
        lemma_orbit_len_le_sum(os.drop_last(), id);
        assert(os.drop_last()[id] == os[id]);
    }
}

/// Starting anywhere in a cycle of the table, `k` steps land `k` positions
/// further round the cycle.
proof fn lemma_orbit_iter(o: Seq<u32>, f: Seq<u32>, pos: int, k: nat)
    requires
        o.len() >= 1,
        0 <= pos < o.len(),
        forall|p: int| 0 <= p < o.len() ==> #[trigger] o[p] < f.len(),
        forall|p: int|
            0 <= p < o.len() ==> f[#[trigger] o[p] as int] == o[(p + 1) % (o.len() as int)],
    ensures
        iter_table(f, o[pos], k) == o[(pos + k) % (o.len() as int)],
    decreases k,
{
    let l = o.len() as int;
    if k == 0 {
        assert(pos % l == pos) by {
            vstd::arithmetic::div_mod::lemma_small_mod(pos as nat, l as nat);
        }
    } else {
        lemma_iter_table_front(f, o[pos], k);
        assert(f[o[pos] as int] == o[(pos + 1) % l]);
        assert(0 <= (pos + 1) % l < l) by {
            vstd::arithmetic::div_mod::lemma_mod_bound(pos + 1, l);
        }
        lemma_orbit_iter(o, f, (pos + 1) % l, (k - 1) as nat);
        assert(((pos + 1) % l + (k - 1)) % l == (pos + k) % l) by {
            vstd::arithmetic::div_mod::lemma_add_mod_noop(pos + 1, k - 1, l);
            vstd::arithmetic::div_mod::lemma_add_mod_noop_right((pos + 1) % l, k - 1, l);
        }
    }
}

/// Visits every slot of the table once: an unplaced word starts a fresh walk
/// that follows the table until it returns to its start, and the finished
/// walk becomes one orbit. A walk that runs into an already placed word
/// instead proves the table maps two words to one and fails.
#[verifier::rlimit(60)]
pub fn decompose(func: &Vec<u32>) -> (r: Result<Orbits, DecomposeError>)
    requires
        func@.len() <= 0x1_0000_0000,
        forall|j: int| 0 <= j < func@.len() ==> #[trigger] func@[j] < func@.len(),
    ensures
        r matches Ok(d) ==> d.wf() && d.func@ == func@,
        r is Err ==> !injective_table(func@),
{
    let n = func.len();
    let mut orbits: Vec<Vec<u32>> = Vec::new();
    let mut index: Vec<Option<OrbitPos>> = Vec::new();
    let mut k: usize = 0;
    while k < n
        invariant
            k <= n,
            index@.len() == k,
            forall|v: int| 0 <= v < k ==> (#[trigger] index@[v]) is None,
        decreases n - k,
    {
        index.push(None);
        k = k + 1;
    }
    let mut count: usize = 0;
    proof {
        assert(indexed_set(index@) =~= Set::<int>::empty());
        assert(decompose_state(orbits@, index@, func@, 0, 0));
    }
    let mut i: usize = 0;
    while i < n
        invariant
            i <= n,
            n == func@.len(),
            func@.len() <= 0x1_0000_0000,
            index@.len() == n,
            decompose_state(orbits@, index@, func@, count as int, i as int),
        decreases n - i,
    {
        if index[i].is_none() {
            let start: u32 = i as u32;
            let ghost pre_ix = index@;
            index[i] = Some(OrbitPos { orbit: orbits.len(), pos: 0 });
            let mut walk: Vec<u32> = Vec::new();
            walk.push(start);
            proof {
                assert(indexed_set(index@) =~= indexed_set(pre_ix).insert(i as int));
                lemma_int_range(0, n as int);
                lemma_len_subset(indexed_set(index@), set_int_range(0, n as int));
                assert(count < n);
            }
            count = count + 1;
            proof {
                assert(walk_state(orbits@, index@, func@, walk@, count as int, start, i as int));
            }
            loop
                invariant
                    n == func@.len(),
                    func@.len() <= 0x1_0000_0000,
                    index@.len() == n,
                    start == i as u32,
                    i < n,
                    walk_state(orbits@, index@, func@, walk@, count as int, start, i as int),
                ensures
                    n == func@.len(),
                    index@.len() == n,
                    walk_state(orbits@, index@, func@, walk@, count as int, start, i as int),
                    func@[walk@.last() as int] == start,
                decreases n - count,
            {
                let last = walk[walk.len() - 1];
                let next = func[last as usize];
                if next == start {
                    break ;
                }
                if index[next as usize].is_some() {
                    proof {
                        lemma_collision_not_injective(
                            orbits@,
                            index@,
                            func@,
                            walk@,
                            start,
                            next,
                        );
                    }
                    return Err(DecomposeError::Collision);
                }
                let ghost pre_ix = index@;
                index[next as usize] = Some(
                    OrbitPos { orbit: orbits.len(), pos: walk.len() },
                );
                walk.push(next);
                proof {
                    assert(indexed_set(index@) =~= indexed_set(pre_ix).insert(next as int));
                    lemma_int_range(0, n as int);
                    lemma_len_subset(indexed_set(index@), set_int_range(0, n as int));
                    assert(count < n);
                }
                count = count + 1;
                proof {
                    assert(walk_state(
                        orbits@,
                        index@,
                        func@,
                        walk@,
                        count as int,
                        start,
                        i as int,
                    ));
                }
            }
            let ghost pre_os = orbits@;
            orbits.push(walk);
            proof {
                assert(orbits@.drop_last() =~= pre_os);
                lemma_close_orbit(pre_os, orbits@, index@, func@, count as int, start, i as int);
            }
        }
        i = i + 1;
    }
    let d = Orbits { orbits, index, func: Ghost(func@) };
    proof {
        assert(indexed_set(d.index@) =~= set_int_range(0, n as int));
        lemma_int_range(0, n as int);
        assert(d.wf());
    }
    Ok(d)
}

/// Closing a walk whose last element steps back to its start turns it into
/// a finished orbit: the between-walks state holds again, with the start
/// placed.
proof fn lemma_close_orbit(
    pre_os: Seq<Vec<u32>>,
    os: Seq<Vec<u32>>,
    ix: Seq<Option<OrbitPos>>,
    f: Seq<u32>,
    count: int,
    start: u32,
    hi: int,
)
    requires
        os.len() == pre_os.len() + 1,
        os.last()@.len() >= 1,
        pre_os == os.drop_last(),
        walk_state(pre_os, ix, f, os.last()@, count, start, hi),
        f[os.last()@.last() as int] == start,
        hi == start as int,
    ensures
        decompose_state(os, ix, f, count, hi + 1),
{
    let w = os.last()@;
    assert(sum_orbit_lens(os) == sum_orbit_lens(pre_os) + w.len());
    lemma_close_consistent(pre_os, os, ix, f, count, start, hi);
    lemma_close_indexed(pre_os, os, ix, f, count, start, hi);
    lemma_close_cyclic(pre_os, os, ix, f, count, start, hi);
    assert(forall|v: int| 0 <= v < hi + 1 ==> (#[trigger] ix[v]) is Some);
}

/// After the push, every index entry points at a position the grown orbit
/// sequence holds.
proof fn lemma_close_consistent(
    pre_os: Seq<Vec<u32>>,
    os: Seq<Vec<u32>>,
    ix: Seq<Option<OrbitPos>>,
    f: Seq<u32>,
    count: int,
    start: u32,
    hi: int,
)
    requires
        os.len() == pre_os.len() + 1,
        pre_os == os.drop_last(),
        walk_state(pre_os, ix, f, os.last()@, count, start, hi),
    ensures
        index_consistent(os, ix),
{
    let w = os.last()@;
    assert forall|v: int| 0 <= v < ix.len() implies ((#[trigger] ix[v]) matches Some(p)
        ==> p.orbit < os.len() && p.pos < os[p.orbit as int]@.len() && os[p.orbit
        as int]@[p.pos as int] == v) by {
        if ix[v] is Some {
            let p = ix[v]->0;
            if p.orbit < pre_os.len() {
                assert(os[p.orbit as int] == pre_os[p.orbit as int]);
            } else {
                assert(os[p.orbit as int]@ == w);
            }
        }
    }
}

/// After the push, every position of every orbit is indexed back to itself.
proof fn lemma_close_indexed(
    pre_os: Seq<Vec<u32>>,
    os: Seq<Vec<u32>>,
    ix: Seq<Option<OrbitPos>>,
    f: Seq<u32>,
    count: int,
    start: u32,
    hi: int,
)
    requires
        os.len() == pre_os.len() + 1,
        pre_os == os.drop_last(),
        walk_state(pre_os, ix, f, os.last()@, count, start, hi),
    ensures
        orbits_indexed(os, ix),
        orbit_lens_positive(os),
{
    let w = os.last()@;
    assert forall|id: int, pos: int| 0 <= id < os.len() && 0 <= pos < os[id]@.len() implies 0
        <= #[trigger] os[id]@[pos] < ix.len() && (ix[os[id]@[pos] as int] matches Some(p)
        && p.orbit == id && p.pos == pos) by {
        if id < pre_os.len() {
            assert(os[id] == pre_os[id]);
        } else {
            assert(os[id]@ == w);
        }
    }
    assert forall|id: int| 0 <= id < os.len() implies (#[trigger] os[id]@.len()) >= 1 by {
        if id < pre_os.len() {
            assert(os[id] == pre_os[id]);
        }
    }
}

/// After the push, every orbit is a cycle of the table: the closing step ties
/// the new orbit's last element back to its first.
proof fn lemma_close_cyclic(
    pre_os: Seq<Vec<u32>>,
    os: Seq<Vec<u32>>,
    ix: Seq<Option<OrbitPos>>,
    f: Seq<u32>,
    count: int,
    start: u32,
    hi: int,
)
    requires
        os.len() == pre_os.len() + 1,
        os.last()@.len() >= 1,
        pre_os == os.drop_last(),
        walk_state(pre_os, ix, f, os.last()@, count, start, hi),
        f[os.last()@.last() as int] == start,
    ensures
        orbits_cyclic(os, f),
{
    let w = os.last()@;
    assert forall|id: int, pos: int| 0 <= id < os.len() && 0 <= pos < os[id]@.len() implies f[#[trigger] os[id]@[pos] as int] == os[id]@[(pos + 1) % (os[id]@.len() as int)] by {
        if id < pre_os.len() {
            assert(os[id] == pre_os[id]);
        } else {
            assert(os[id]@ == w);
            let l = w.len() as int;
            if pos < l - 1 {
                assert((pos + 1) % l == pos + 1) by {
                    vstd::arithmetic::div_mod::lemma_small_mod((pos + 1) as nat, l as nat);
                }
            } else {
                assert(w[pos] == w.last());
                assert((pos + 1) % l == 0) by {
                    vstd::arithmetic::div_mod::lemma_mod_self_0(l);
                }
                assert(os[id]@[0] == start);
            }
        }
    }
}

/// A walk that steps into an already placed word exhibits two distinct slots
/// of the table holding the same word: the walk's last element and the placed
/// word's predecessor in its own orbit.
#[verifier::rlimit(60)]
#[verifier::spinoff_prover]
proof fn lemma_collision_not_injective(
    os: Seq<Vec<u32>>,
    ix: Seq<Option<OrbitPos>>,
    f: Seq<u32>,
    walk: Seq<u32>,
    start: u32,
    next: u32,
)
    requires
        walk_state(os, ix, f, walk, sum_orbit_lens(os) + walk.len() as int, start, 0),
        next == f[walk.last() as int],
        next != start,
        next < ix.len(),
        ix[next as int] is Some,
    ensures
        !injective_table(f),
{
    let last = walk.last();
    let p = ix[next as int]->0;
    if p.orbit < os.len() {
        // The predecessor of `next` inside its finished orbit also steps to
        // `next`, and lies in a different orbit than the walk's last element.
        let l = os[p.orbit as int]@.len() as int;
        let prevpos = (p.pos + l - 1) % l;
        assert(0 <= prevpos < l) by {
            vstd::arithmetic::div_mod::lemma_mod_bound(p.pos + l - 1, l);
        }
        let a = os[p.orbit as int]@[prevpos];
        assert(f[a as int] == os[p.orbit as int]@[(prevpos + 1) % l]);
        assert((prevpos + 1) % l == p.pos) by {
            if p.pos == 0 {
                assert((l - 1) % l == l - 1) by {
                    vstd::arithmetic::div_mod::lemma_small_mod((l - 1) as nat, l as nat);
                }
                assert((l - 1 + 1) % l == 0) by {
                    vstd::arithmetic::div_mod::lemma_mod_self_0(l);
                }
            } else {
                assert((p.pos + l - 1) % l == p.pos - 1) by {
                    vstd::arithmetic::div_mod::lemma_mod_sub_multiples_vanish(
                        p.pos + l - 1,
                        l,
                    );
                    vstd::arithmetic::div_mod::lemma_small_mod((p.pos - 1) as nat, l as nat);
                }
                assert((p.pos - 1 + 1) % l == p.pos) by {
                    vstd::arithmetic::div_mod::lemma_small_mod(p.pos as nat, l as nat);
                }
            }
        }
        assert(f[a as int] == next);
        assert(ix[a as int] matches Some(q) && q.orbit == p.orbit);
        assert(ix[last as int] matches Some(q) && q.orbit == os.len());
        assert(a != last);
        assert(f[a as int] == f[last as int]);
    } else {
        // `next` lies in the walk itself, past its start: its predecessor in
        // the walk also steps to `next` and is not the walk's last element.
        assert(p.orbit == os.len() && p.pos < walk.len() && walk[p.pos as int] == next);
        assert(p.pos != 0);
        let a = walk[p.pos - 1];
        assert(f[a as int] == walk[p.pos as int]);
        assert(ix[a as int] matches Some(q) && q.pos == p.pos - 1);
        assert(ix[last as int] matches Some(q) && q.pos == walk.len() - 1);
        assert(a != last);
        assert(f[a as int] == f[last as int]);
    }
}

/// Builds the checksum's own function table over the full word space and
/// decomposes it: afterwards "apply the checksum `n` times" is an orbit
/// lookup for any starting word.
pub fn decompose_checksum() -> (r: Result<Orbits, DecomposeError>)
    ensures
        r matches Ok(d) ==> d.wf() && d.func@.len() == 0x1_0000_0000 && (forall|w: u32|
            d.func@[w as int] == hash_word(w)),
        r is Err ==> !(forall|a: u32, b: u32| hash_word(a) == hash_word(b) ==> a == b),
{
    let mut func: Vec<u32> = Vec::new();
    let mut i: u64 = 0;
    while i < 0x1_0000_0000
        invariant
            i <= 0x1_0000_0000,
            func@.len() == i,
            forall|w: u32| w < i ==> #[trigger] func@[w as int] == hash_word(w),
        decreases 0x1_0000_0000 - i,
    {
        func.push(checksum_word(i as u32));
        i = i + 1;
    }
    let r = decompose(&func);
    proof {
        if r is Err {
            assert(!injective_table(func@));
            assert forall|a2: int, b2: int|
                0 <= a2 < func@.len() && 0 <= b2 < func@.len() && #[trigger] func@[a2]
                    == #[trigger] func@[b2] && (forall|x: u32, y: u32|
                    hash_word(x) == hash_word(y) ==> x == y) implies a2 == b2 by {
                assert(func@[a2] == hash_word(a2 as u32));
                assert(func@[b2] == hash_word(b2 as u32));
            }
        }
    }
    r
}

/// With the checksum's own function table, walking the table is iterating
/// the checksum.
pub proof fn lemma_iter_table_is_iter_hash(f: Seq<u32>, s: u32, n: nat)
    requires
        f.len() == 0x1_0000_0000,
        forall|w: u32| #[trigger] f[w as int] == hash_word(w),
    ensures
        iter_table(f, s, n) == iter_hash(s, n),
    decreases n,
{
    if n > 0 {
        lemma_iter_table_is_iter_hash(f, s, (n - 1) as nat);
        let prev = iter_table(f, s, (n - 1) as nat);
        assert(iter_table(f, s, n) == f[prev as int]);
        assert(iter_hash(s, n) == hash_word(iter_hash(s, (n - 1) as nat)));
    }
}

/// Every word of the domain stands in some orbit, at exactly the position
/// its index entry names.
pub proof fn lemma_every_word_placed(d: Orbits, v: int)
    requires
        d.wf(),
        0 <= v < d.func@.len(),
    ensures
        d.index@[v] matches Some(p) && p.orbit < d.orbits@.len() && p.pos < d.orbits@[p.orbit
            as int]@.len() && d.orbits@[p.orbit as int]@[p.pos as int] == v,
{
}

/// No word stands in two places: two orbit positions holding the same word
/// are the same position of the same orbit.
pub proof fn lemma_placement_unique(d: Orbits, id1: int, p1: int, id2: int, p2: int)
    requires
        d.wf(),
        0 <= id1 < d.orbits@.len(),
        0 <= p1 < d.orbits@[id1]@.len(),
        0 <= id2 < d.orbits@.len(),
        0 <= p2 < d.orbits@[id2]@.len(),
        d.orbits@[id1]@[p1] == d.orbits@[id2]@[p2],
    ensures
        id1 == id2 && p1 == p2,
{
    assert(d.index@[d.orbits@[id1]@[p1] as int] matches Some(q) && q.orbit == id1 && q.pos == p1);
    assert(d.index@[d.orbits@[id2]@[p2] as int] matches Some(q) && q.orbit == id2 && q.pos == p2);
}

/// A finished decomposition certifies that the table permutes its domain:
/// two slots holding the same word are the same slot, since each word's
/// successor position in its orbit is unique.
pub proof fn lemma_orbits_imply_injective(d: Orbits)
    requires
        d.wf(),
    ensures
        injective_table(d.func@),
{
    let os = d.orbits@;
    let ix = d.index@;
    let f = d.func@;
    assert forall|a: int, b: int|
        0 <= a < f.len() && 0 <= b < f.len() && #[trigger] f[a] == #[trigger] f[b] implies a
        == b by {
        let pa = ix[a]->0;
        let pb = ix[b]->0;
        let la = os[pa.orbit as int]@.len() as int;
        let lb = os[pb.orbit as int]@.len() as int;
        // `f[a]` sits one step past `a` in `a`'s orbit, and likewise for `b`;
        // one word has one index entry, so the two successor positions agree.
        assert(f[a] == os[pa.orbit as int]@[(pa.pos + 1) % la]);
        assert(f[b] == os[pb.orbit as int]@[(pb.pos + 1) % lb]);
        assert(0 <= (pa.pos + 1) % la < la) by {
            vstd::arithmetic::div_mod::lemma_mod_bound(pa.pos + 1, la);
        }
        assert(0 <= (pb.pos + 1) % lb < lb) by {
            vstd::arithmetic::div_mod::lemma_mod_bound(pb.pos + 1, lb);
        }
        assert(pa.orbit == pb.orbit && (pa.pos + 1) % la == (pb.pos + 1) % lb);
        lemma_mod_succ_injective(pa.pos as int, pb.pos as int, la);
        assert(os[pa.orbit as int]@[pa.pos as int] == a);
        assert(os[pb.orbit as int]@[pb.pos as int] == b);
    }
}

/// Stepping one position round a cycle is injective: equal successors of two
/// in-range positions force the positions to agree.
proof fn lemma_mod_succ_injective(x: int, y: int, l: int)
    requires
        0 <= x < l,
        0 <= y < l,
        (x + 1) % l == (y + 1) % l,
    ensures
        x == y,
{
    if x + 1 < l {
        assert((x + 1) % l == x + 1) by {
            vstd::arithmetic::div_mod::lemma_small_mod((x + 1) as nat, l as nat);
        }
    } else {
        assert((x + 1) % l == 0) by {
            vstd::arithmetic::div_mod::lemma_mod_self_0(l);
        }
    }
    if y + 1 < l {
        assert((y + 1) % l == y + 1) by {
            vstd::arithmetic::div_mod::lemma_small_mod((y + 1) as nat, l as nat);
        }
    } else {
        assert((y + 1) % l == 0) by {
            vstd::arithmetic::div_mod::lemma_mod_self_0(l);
        }
    }
}

/// The orbit lengths account for the whole domain: their sum is its size.
pub proof fn lemma_orbit_lengths_cover(d: Orbits)
    requires
        d.wf(),
    ensures
        sum_orbit_lens(d.orbits@) == d.func@.len(),
{
}

} // verus!
