//! A cache of `(version, snapshot)` entries pushed with strictly
//! increasing versions.  Entry retention is a function of the push
//! position alone: pushing position `i` evicts position
//! `i - (low_zero_bit(i) << d)`, which thins older snapshots so that
//! out of `n` pushes only O(2^d · log n) remain.

use vstd::prelude::*;

use vstd::arithmetic::power2::pow2;

verus! {

/// A version key of the cache: totally ordered by `before`, with an
/// executable comparison.
pub trait VersionKey: Sized + Copy {
    /// The strict order on versions.
    spec fn before(self, other: Self) -> bool;

    /// `before` is a strict total order.
    proof fn lemma_order(a: Self, b: Self, c: Self)
        ensures
            !a.before(a),
            a.before(b) && b.before(c) ==> a.before(c),
            a != b ==> a.before(b) || b.before(a),
    ;

    fn lt(&self, other: &Self) -> (r: bool)
        ensures
            r == self.before(*other),
    ;
}

impl VersionKey for usize {
    open spec fn before(self, other: usize) -> bool {
        self < other
    }

    proof fn lemma_order(a: usize, b: usize, c: usize) {
    }

    fn lt(&self, other: &usize) -> (r: bool) {
        *self < *other
    }
}

impl VersionKey for crate::ops::ID {
    open spec fn before(self, other: crate::ops::ID) -> bool {
        self.lt_spec(other)
    }

    proof fn lemma_order(a: crate::ops::ID, b: crate::ops::ID, c: crate::ops::ID) {
    }

    fn lt(&self, other: &crate::ops::ID) -> (r: bool) {
        crate::ops::ID::lt(self, other)
    }
}

/// The versions strictly increase along the sequence.
pub open spec fn sorted_keys<K: VersionKey>(s: Seq<K>) -> bool {
    forall|i: int, j: int| #![trigger s[i].before(s[j])]
        0 <= i < j < s.len() ==> s[i].before(s[j])
}

/// How many slots hold a retained snapshot.
pub open spec fn count_some<V>(s: Seq<Option<V>>) -> nat
    decreases s.len(),
{
    if s.len() == 0 {
        0
    } else {
        count_some(s.drop_last()) + if s.last() is Some {
            1nat
        } else {
            0
        }
    }
}

proof fn lemma_count_some_le_len<V>(s: Seq<Option<V>>)
    ensures
        count_some(s) <= s.len(),
    decreases s.len(),
{
    if s.len() > 0 {
        lemma_count_some_le_len(s.drop_last());
    }
}

/// The lowest power of two not set in `n`, the position weight driving
/// eviction.
pub open spec fn low_zero_bit(n: usize) -> u64 {
    (((n as u64) + 1) as u64) & (!(n as u64))
}

/// The eviction distance for push position `n` with density `d`.
pub open spec fn delta_of(n: usize, d: nat) -> int {
    low_zero_bit(n) * pow2(d)
}

/// The eviction distance is always at least one position.
pub proof fn lemma_delta_pos(n: usize, d: nat)
    requires
        n < usize::MAX,
    ensures
        delta_of(n, d) >= 1,
        low_zero_bit(n) >= 1,
{
    let m = n as u64;
    assert(((m + 1) as u64 & !m) >= 1) by (bit_vector)
        requires
            m < 0xFFFF_FFFF_FFFF_FFFFu64,
    ;
    vstd::arithmetic::power2::lemma_pow2_pos(d);
    vstd::arithmetic::mul::lemma_mul_inequality(1, low_zero_bit(n) as int, pow2(d) as int);
}

/// The lowest power of two not set in `n`.
pub fn first_zero_bit(n: usize) -> (r: usize)
    requires
        n < usize::MAX,
    ensures
        r == low_zero_bit(n),
        1 <= r <= n + 1,
{
    let m = n as u64;
    let f = (m + 1) & !m;
    assert(1 <= ((m + 1) as u64) & (!m) <= m + 1) by (bit_vector)
        requires
            m < 0xFFFF_FFFF_FFFF_FFFFu64,
    ;
    f as usize
}

/// A log-spaced cache of snapshots of type `V`, keyed by versions of
/// type `K` that are pushed in strictly increasing order.
pub struct LogSpacedSnapshots<K, V> {
    keys: Vec<K>,
    cache: Vec<Option<V>>,
    d: usize,
}

impl<K: VersionKey, V> LogSpacedSnapshots<K, V> {
    /// All versions pushed so far and still covered by the cache.
    pub closed spec fn versions(&self) -> Seq<K> {
        self.keys@
    }

    /// The retained snapshot (if any) at each version position.
    pub closed spec fn slots(&self) -> Seq<Option<V>> {
        self.cache@
    }

    /// The density parameter `d`.
    pub closed spec fn density(&self) -> nat {
        self.d as nat
    }

    pub open spec fn wf(&self) -> bool {
        &&& self.slots().len() == self.versions().len()
        &&& sorted_keys(self.versions())
        &&& 1 <= self.density() < 32
    }

    /// An empty cache with density parameter `d`.
    pub fn new(d: usize) -> (r: Self)
        requires
            1 <= d < 32,
        ensures
            r.wf(),
            r.versions() == Seq::<K>::empty(),
            r.slots() == Seq::<Option<V>>::empty(),
            r.density() == d as nat,
    {
        LogSpacedSnapshots { keys: Vec::new(), cache: Vec::new(), d }
    }

    /// Push a new snapshot.  The new version must be the greatest yet.
    /// Position `i = len` is stored, and position `i - delta` with
    /// `delta = low_zero_bit(i) << d` is evicted when it exists.
    pub fn push(&mut self, version: K, value: V)
        requires
            old(self).wf(),
            old(self).versions().len() > 0 ==> old(self).versions().last().before(version),
            (old(self).versions().len() + 1) * pow2(old(self).density()) <= usize::MAX as int,
        ensures
            final(self).wf(),
            final(self).density() == old(self).density(),
            final(self).versions() == old(self).versions().push(version),
            ({
                let n = old(self).versions().len() as usize;
                let delta = delta_of(n, old(self).density());
                if delta <= n {
                    final(self).slots() == old(self).slots().update(n - delta, None).push(
                        Some(value),
                    )
                } else {
                    final(self).slots() == old(self).slots().push(Some(value))
                }
            }),
    {
        proof {
            let d = self.density();
            vstd::arithmetic::power2::lemma_pow2_pos(d);
            vstd::arithmetic::power2::lemma2_to64();
            if d > 1 {
                vstd::arithmetic::power2::lemma_pow2_strictly_increases(1, d);
            }
            assert(pow2(d) >= 2);
            vstd::arithmetic::mul::lemma_mul_inequality(
                2,
                pow2(d) as int,
                old(self).versions().len() as int + 1,
            );
            vstd::arithmetic::mul::lemma_mul_is_commutative(
                pow2(d) as int,
                old(self).versions().len() as int + 1,
            );
            assert(2 * (old(self).versions().len() as int + 1) <= usize::MAX as int);
            assert((old(self).versions().len() as int) < (usize::MAX as int));
        }
        let n = self.keys.len();
        let f = first_zero_bit(n);
        proof {
            let d = self.density();
            assert(f * pow2(d) <= (n + 1) * pow2(d)) by {
                vstd::arithmetic::mul::lemma_mul_inequality(f as int, n + 1, pow2(d) as int);
            }
            assert(1 * pow2(d) <= f * pow2(d)) by {
                vstd::arithmetic::mul::lemma_mul_inequality(1, f as int, pow2(d) as int);
            }
            vstd::bits::lemma_usize_shl_is_mul(f, self.d);
        }
        let delta = f << self.d;
        proof {
            assert(delta == delta_of(n, old(self).density()));
            assert(delta >= 1);
        }
        if n >= delta {
            self.cache.set(n - delta, None);
        }
        self.cache.push(Some(value));
        self.keys.push(version);
        proof {
            let vs = self.versions();
            let old_vs = old(self).versions();
            assert forall|i: int, j: int| #![trigger vs[i].before(vs[j])]
                0 <= i < j < vs.len() implies vs[i].before(vs[j]) by {
                if j == vs.len() - 1 {
                    if i < old_vs.len() - 1 {
                        assert(old_vs[i].before(old_vs[old_vs.len() - 1]));
                        K::lemma_order(vs[i], old_vs[old_vs.len() - 1], version);
                    }
                } else {
                    assert(old_vs[i].before(old_vs[j]));
                }
            }
        }
    }

    /// Trim the cache so that only snapshots with versions at or below
    /// `k` remain, and return the retained entry with the greatest
    /// version, or nothing (leaving the cache empty) when no snapshot
    /// at or below `k` is retained.
    pub fn pop_till_snapshot_lte(&mut self, k: &K) -> (r: Option<(K, &V)>)
        requires
            old(self).wf(),
        ensures
            final(self).wf(),
            final(self).density() == old(self).density(),
            match r {
                Some(pair) => {
                    &&& final(self).versions().len() >= 1
                    &&& ({
                        let j = final(self).versions().len() - 1;
                        &&& j < old(self).versions().len()
                        &&& final(self).versions() == old(self).versions().take(j + 1)
                        &&& final(self).slots() == old(self).slots().take(j + 1)
                        &&& old(self).slots()[j] is Some
                        &&& pair.0 == old(self).versions()[j]
                        &&& *pair.1 == old(self).slots()[j]->0
                        &&& !k.before(old(self).versions()[j])
                        &&& forall|j2: int|
                            j < j2 < old(self).versions().len() && old(self).slots()[j2] is Some
                                ==> k.before(#[trigger] old(self).versions()[j2])
                    })
                },
                None => {
                    &&& forall|j: int|
                        0 <= j < old(self).versions().len() && old(self).slots()[j] is Some
                            ==> k.before(#[trigger] old(self).versions()[j])
                    &&& final(self).versions() == Seq::<K>::empty()
                    &&& final(self).slots() == Seq::<Option<V>>::empty()
                },
            },
    {
        let ghost old_vs = self.versions();
        let ghost old_sl = self.slots();
        // the position of the smallest version above `k`
        let mut lo: usize = 0;
        let mut hi: usize = self.keys.len();
        while lo < hi
            invariant
                lo <= hi <= old_vs.len(),
                old_vs == self.versions(),
                sorted_keys(old_vs),
                forall|j: int| 0 <= j < lo ==> !k.before(#[trigger] old_vs[j]),
                forall|j: int| hi <= j < old_vs.len() ==> k.before(#[trigger] old_vs[j]),
            decreases hi - lo,
        {
            let mid = lo + (hi - lo) / 2;
            if k.lt(&self.keys[mid]) {
                assert forall|j: int| mid <= j < old_vs.len()
                    implies k.before(#[trigger] old_vs[j]) by {
                    if j > mid {
                        assert(old_vs[mid as int].before(old_vs[j]));
                        K::lemma_order(*k, old_vs[mid as int], old_vs[j]);
                    }
                }
                hi = mid;
            } else {
                assert forall|j: int| 0 <= j < mid + 1
                    implies !k.before(#[trigger] old_vs[j]) by {
                    if j < mid {
                        assert(old_vs[j].before(old_vs[mid as int]));
                        if k.before(old_vs[j]) {
                            K::lemma_order(*k, old_vs[j], old_vs[mid as int]);
                        }
                    }
                }
                lo = mid + 1;
            }
        }
        let cut = lo;
        // the greatest retained position below the cut
        let mut jj = cut;
        while jj > 0 && !self.cache[jj - 1].is_some()
            invariant
                jj <= cut <= old_sl.len(),
                old_sl == self.slots(),
                forall|t: int| jj <= t < cut ==> !(#[trigger] old_sl[t] is Some),
            decreases jj,
        {
            jj -= 1;
        }
        if jj == 0 {
            self.keys.truncate(0);
            self.cache.truncate(0);
            assert(self.versions() =~= Seq::<K>::empty());
            assert(self.slots() =~= Seq::<Option<V>>::empty());
            None
        } else {
            let j = jj - 1;
            self.keys.truncate(j + 1);
            self.cache.truncate(j + 1);
            let ver = self.keys[j];
            let slot = &self.cache[j];
            match slot {
                Some(v) => {
                    proof {
                        assert forall|i2: int, j2: int|
                            #![trigger self.versions()[i2].before(self.versions()[j2])]
                            0 <= i2 < j2 < self.versions().len()
                            implies self.versions()[i2].before(self.versions()[j2]) by {
                            assert(old_vs[i2].before(old_vs[j2]));
                        }
                    }
                    Some((ver, v))
                },
                None => vstd::pervasive::unreached(),
            }
        }
    }

    /// How many snapshots the cache currently retains.
    pub fn cache_size(&self) -> (n: usize)
        ensures
            n == count_some(self.slots()),
    {
        let mut n: usize = 0;
        let len = self.cache.len();
        proof {
            assert(self.slots().take(0) =~= Seq::<Option<V>>::empty());
        }
        for i in 0..len
            invariant
                len == self.slots().len(),
                n == count_some(self.slots().take(i as int)),
                n <= i,
        {
            proof {
                assert(self.slots().take(i + 1).drop_last() =~= self.slots().take(i as int));
                assert(self.slots().take(i + 1).last() == self.slots()[i as int]);
            }
            if self.cache[i].is_some() {
                n += 1;
            }
        }
        proof {
            assert(self.slots().take(len as int) =~= self.slots());
        }
        n
    }
}

impl<K: VersionKey, V> Default for LogSpacedSnapshots<K, V> {
    /// An empty cache with the default density parameter of 2.
    fn default() -> (r: Self)
        ensures
            r.wf(),
            r.versions() == Seq::<K>::empty(),
            r.slots() == Seq::<Option<V>>::empty(),
            r.density() == 2,
    {
        Self::new(2)
    }
}

} // verus!
