use std::collections::HashMap;
use vstd::prelude::*;

use crate::hash::{pack_hash, spec_pack_hash};
use crate::order::{lemma_stable_order_exists, precedes, stable_order, stable_order_of};
use crate::peak::{abs_diff, spec_distance, Peak};

verus! {

broadcast use vstd::std_specs::hash::group_hash_axioms;

/// A frequency in millihertz rounded to the nearest multiple of 10 Hz
/// (halves away from zero): `round(f / 10 Hz)`.
pub open spec fn spec_freq_bits(f: u32) -> u32 {
    ((f as int + 5000) / 10000) as u32
}

/// A time difference in microseconds rounded to the nearest millisecond
/// (halves away from zero), saturated at `u32::MAX`.
pub open spec fn spec_dt_bits(dt: int) -> u32 {
    let r = (dt + 500) / 1000;
    if r > u32::MAX {
        u32::MAX
    } else {
        r as u32
    }
}

/// The hash of an (anchor, target) peak pair: the anchor's and the target's
/// frequency in 10 Hz steps and their time difference in milliseconds,
/// packed by `spec_pack_hash`.
pub open spec fn spec_pair_hash(anchor: Peak, target: Peak) -> u32 {
    spec_pack_hash(
        spec_freq_bits(anchor.spec_frequency()),
        spec_freq_bits(target.spec_frequency()),
        spec_dt_bits(abs_diff(anchor.spec_time() as int, target.spec_time() as int)),
    ) as u32
}

/// `target` lies within the time and frequency zone around `anchor`.
pub open spec fn in_zone(anchor: Peak, target: Peak, time_zone: u64, freq_zone: u32) -> bool {
    &&& abs_diff(anchor.spec_time() as int, target.spec_time() as int) <= time_zone
    &&& abs_diff(anchor.spec_frequency() as int, target.spec_frequency() as int) <= freq_zone
}

/// The positions among the first `m` peaks, other than the anchor `i`, that
/// lie within the anchor's zone, in increasing order.
pub open spec fn candidates(peaks: Seq<Peak>, i: int, time_zone: u64, freq_zone: u32, m: int) -> Seq<usize>
    decreases m,
{
    if m <= 0 {
        Seq::empty()
    } else {
        let prev = candidates(peaks, i, time_zone, freq_zone, m - 1);
        if m - 1 != i && in_zone(peaks[i], peaks[m - 1], time_zone, freq_zone) {
            prev.push((m - 1) as usize)
        } else {
            prev
        }
    }
}

/// The distance from the anchor `i` to each candidate.
pub open spec fn candidate_keys(peaks: Seq<Peak>, i: int, cands: Seq<usize>) -> Seq<u128> {
    cands.map_values(|j: usize| spec_distance(peaks[i], peaks[j as int]))
}

/// The targets of anchor `i`: its zone candidates ordered by distance
/// (nearer first, earlier position first among equal distances), the first
/// `min_targets` of them.
pub open spec fn anchor_targets(
    peaks: Seq<Peak>,
    i: int,
    time_zone: u64,
    freq_zone: u32,
    min_targets: usize,
) -> Seq<usize> {
    let c = candidates(peaks, i, time_zone, freq_zone, peaks.len() as int);
    let order = stable_order_of(candidate_keys(peaks, i, c), false);
    let k = if min_targets < c.len() {
        min_targets as int
    } else {
        c.len() as int
    };
    order.take(k).map_values(|p: usize| c[p as int])
}

/// The hashes that anchor `i` emits, one per target, in target order.
pub open spec fn anchor_hashes(
    peaks: Seq<Peak>,
    i: int,
    time_zone: u64,
    freq_zone: u32,
    min_targets: usize,
) -> Seq<u32> {
    anchor_targets(peaks, i, time_zone, freq_zone, min_targets).map_values(
        |j: usize| spec_pair_hash(peaks[i], peaks[j as int]),
    )
}

/// `m` after inserting every hash of `hs`, in order, each mapped to `t`.
pub open spec fn insert_all(m: Map<u32, u64>, hs: Seq<u32>, t: u64) -> Map<u32, u64>
    decreases hs.len(),
{
    if hs.len() == 0 {
        m
    } else {
        insert_all(m, hs.drop_last(), t).insert(hs.last(), t)
    }
}

/// The fingerprint table after the first `n` anchors: each hash maps to the
/// time of the last anchor that emitted it.
pub open spec fn fingerprint_map(
    peaks: Seq<Peak>,
    time_zone: u64,
    freq_zone: u32,
    min_targets: usize,
    n: int,
) -> Map<u32, u64>
    decreases n,
{
    if n <= 0 {
        Map::empty()
    } else {
        insert_all(
            fingerprint_map(peaks, time_zone, freq_zone, min_targets, n - 1),
            anchor_hashes(peaks, n - 1, time_zone, freq_zone, min_targets),
            peaks[n - 1].spec_time(),
        )
    }
}

proof fn lemma_candidates(peaks: Seq<Peak>, i: int, time_zone: u64, freq_zone: u32, m: int)
    requires
        0 <= m <= peaks.len(),
        peaks.len() <= usize::MAX,
    ensures
        candidates(peaks, i, time_zone, freq_zone, m).len() <= m,
        forall|q: int|
            0 <= q < candidates(peaks, i, time_zone, freq_zone, m).len() ==> {
                let j = #[trigger] candidates(peaks, i, time_zone, freq_zone, m)[q];
                &&& j < m
                &&& j != i
                &&& in_zone(peaks[i], peaks[j as int], time_zone, freq_zone)
            },
        forall|q1: int, q2: int|
            0 <= q1 < q2 < candidates(peaks, i, time_zone, freq_zone, m).len() ==> #[trigger] candidates(
                peaks,
                i,
                time_zone,
                freq_zone,
                m,
            )[q1] < #[trigger] candidates(peaks, i, time_zone, freq_zone, m)[q2],
        forall|j: int|
            0 <= j < m && j != i && in_zone(peaks[i], #[trigger] peaks[j], time_zone, freq_zone) ==> candidates(
                peaks,
                i,
                time_zone,
                freq_zone,
                m,
            ).contains(j as usize),
    decreases m,
{
    if m > 0 {
        lemma_candidates(peaks, i, time_zone, freq_zone, m - 1);
        let prev = candidates(peaks, i, time_zone, freq_zone, m - 1);
        let c = candidates(peaks, i, time_zone, freq_zone, m);
        assert forall|j: int|
            0 <= j < m && j != i && in_zone(peaks[i], #[trigger] peaks[j], time_zone, freq_zone) implies c.contains(
            j as usize,
        ) by {
            if j < m - 1 {
                assert(prev.contains(j as usize));
                let q = choose|q: int| 0 <= q < prev.len() && prev[q] == j as usize;
                assert(c[q] == prev[q]);
            } else {
                assert(c[c.len() - 1] == j as usize);
            }
        }
    }
}

/// The targets that an anchor pairs with are the nearest peaks of its zone:
/// at most `min_targets` of them, each a different peak other than the
/// anchor and within its zone, nearest first, and no peak of the zone left
/// out is nearer than one taken.
pub proof fn lemma_anchor_targets_nearest(peaks: Seq<Peak>, i: int, time_zone: u64, freq_zone: u32, min_targets: usize)
    requires
        0 <= i < peaks.len(),
        peaks.len() <= usize::MAX,
    ensures
        ({
            let t = anchor_targets(peaks, i, time_zone, freq_zone, min_targets);
            &&& t.len() <= min_targets
            &&& forall|q: int|
                0 <= q < t.len() ==> {
                    &&& #[trigger] t[q] < peaks.len()
                    &&& t[q] != i
                    &&& in_zone(peaks[i], peaks[t[q] as int], time_zone, freq_zone)
                }
            &&& forall|q1: int, q2: int| 0 <= q1 < q2 < t.len() ==> #[trigger] t[q1] != #[trigger] t[q2]
            &&& forall|q1: int, q2: int|
                0 <= q1 < q2 < t.len() ==> spec_distance(peaks[i], peaks[#[trigger] t[q1] as int]) <= spec_distance(
                    peaks[i],
                    peaks[#[trigger] t[q2] as int],
                )
            &&& forall|j: int, q: int|
                0 <= j < peaks.len() && j != i && in_zone(peaks[i], peaks[j], time_zone, freq_zone)
                    && !t.contains(j as usize) && 0 <= q < t.len() ==> spec_distance(
                    peaks[i],
                    peaks[#[trigger] t[q] as int],
                ) <= spec_distance(peaks[i], #[trigger] peaks[j])
        }),
{
    let n = peaks.len() as int;
    lemma_candidates(peaks, i, time_zone, freq_zone, n);
    let c = candidates(peaks, i, time_zone, freq_zone, n);
    let keys = candidate_keys(peaks, i, c);
    lemma_stable_order_exists(keys, false);
    let p = stable_order_of(keys, false);
    let kk = if min_targets < c.len() {
        min_targets as int
    } else {
        c.len() as int
    };
    let t = anchor_targets(peaks, i, time_zone, freq_zone, min_targets);
    assert(t.len() == kk);
    assert forall|q: int| 0 <= q < t.len() implies {
        &&& #[trigger] t[q] < peaks.len()
        &&& t[q] != i
        &&& in_zone(peaks[i], peaks[t[q] as int], time_zone, freq_zone)
    } by {
        assert(t[q] == c[p[q] as int]);
        assert(p[q] < c.len());
    }
    assert forall|q1: int, q2: int| 0 <= q1 < q2 < t.len() implies #[trigger] t[q1] != #[trigger] t[q2] by {
        assert(t[q1] == c[p[q1] as int] && t[q2] == c[p[q2] as int]);
        assert(precedes(keys, false, p[q1] as int, p[q2] as int));
        assert(p[q1] != p[q2]);
        assert(p[q1] < c.len() && p[q2] < c.len());
        if p[q1] < p[q2] {
            assert(c[p[q1] as int] < c[p[q2] as int]);
        } else {
            assert(c[p[q2] as int] < c[p[q1] as int]);
        }
    }
    assert forall|q1: int, q2: int| 0 <= q1 < q2 < t.len() implies spec_distance(
        peaks[i],
        peaks[#[trigger] t[q1] as int],
    ) <= spec_distance(peaks[i], peaks[#[trigger] t[q2] as int]) by {
        assert(t[q1] == c[p[q1] as int] && t[q2] == c[p[q2] as int]);
        assert(precedes(keys, false, p[q1] as int, p[q2] as int));
        assert(p[q1] < c.len() && p[q2] < c.len());
    }
    assert forall|j: int, q: int|
        0 <= j < peaks.len() && j != i && in_zone(peaks[i], peaks[j], time_zone, freq_zone) && !t.contains(
            j as usize,
        ) && 0 <= q < t.len() implies spec_distance(peaks[i], peaks[#[trigger] t[q] as int]) <= spec_distance(
        peaks[i],
        #[trigger] peaks[j],
    ) by {
        assert(c.contains(j as usize));
        let r = choose|r: int| 0 <= r < c.len() && c[r] == j as usize;
        assert(p.contains(r as usize));
        let s = choose|s: int| 0 <= s < p.len() && p[s] == r as usize;
        if s < kk {
            assert(t[s] == c[p[s] as int]);
            assert(t.contains(j as usize));
        }
        assert(t[q] == c[p[q] as int]);
        assert(precedes(keys, false, p[q] as int, p[s] as int));
        assert(p[q] < c.len());
    }
}

proof fn lemma_insert_all(m: Map<u32, u64>, hs: Seq<u32>, t: u64)
    ensures
        forall|h: u32|
            #[trigger] insert_all(m, hs, t).contains_key(h) <==> (m.contains_key(h) || hs.contains(h)),
        forall|h: u32| hs.contains(h) ==> #[trigger] insert_all(m, hs, t)[h] == t,
        forall|h: u32| !hs.contains(h) && m.contains_key(h) ==> #[trigger] insert_all(m, hs, t)[h] == m[h],
    decreases hs.len(),
{
    if hs.len() > 0 {
        let prev = hs.drop_last();
        lemma_insert_all(m, prev, t);
        assert forall|h: u32| hs.contains(h) <==> (prev.contains(h) || h == hs.last()) by {
            if hs.contains(h) {
                let k = choose|k: int| 0 <= k < hs.len() && hs[k] == h;
                if k < hs.len() - 1 {
                    assert(prev[k] == h);
                }
            }
            if prev.contains(h) {
                let k = choose|k: int| 0 <= k < prev.len() && prev[k] == h;
                assert(hs[k] == h);
            }
            if h == hs.last() {
                assert(hs[hs.len() - 1] == h);
            }
        }
        let pm = insert_all(m, prev, t);
        assert(insert_all(m, hs, t) == pm.insert(hs.last(), t));
        assert forall|h: u32| #[trigger] insert_all(m, hs, t).contains_key(h) <==> (m.contains_key(h) || hs.contains(
            h,
        )) by {
            assert(pm.contains_key(h) <==> (m.contains_key(h) || prev.contains(h)));
        }
        assert forall|h: u32| hs.contains(h) implies #[trigger] insert_all(m, hs, t)[h] == t by {
            if h != hs.last() {
                assert(prev.contains(h));
                assert(pm[h] == t);
            }
        }
        assert forall|h: u32| !hs.contains(h) && m.contains_key(h) implies #[trigger] insert_all(m, hs, t)[h] == m[h] by {
            assert(!prev.contains(h));
            assert(pm[h] == m[h]);
        }
    }
}

/// Every hash of the fingerprint table was emitted by some anchor, and maps
/// to the time of the last anchor that emitted it; every hash that an
/// anchor emits is in the table.
pub proof fn lemma_fingerprint_map_entries(
    peaks: Seq<Peak>,
    time_zone: u64,
    freq_zone: u32,
    min_targets: usize,
    n: int,
)
    requires
        0 <= n <= peaks.len(),
    ensures
        forall|a: int, h: u32|
            0 <= a < n && #[trigger] anchor_hashes(peaks, a, time_zone, freq_zone, min_targets).contains(h)
                ==> fingerprint_map(peaks, time_zone, freq_zone, min_targets, n).contains_key(h),
        forall|h: u32|
            #[trigger] fingerprint_map(peaks, time_zone, freq_zone, min_targets, n).contains_key(h) ==> exists|a: int|
                {
                    &&& 0 <= a < n
                    &&& #[trigger] anchor_hashes(peaks, a, time_zone, freq_zone, min_targets).contains(h)
                    &&& fingerprint_map(peaks, time_zone, freq_zone, min_targets, n)[h] == peaks[a].spec_time()
                    &&& forall|b: int|
                        a < b < n ==> !#[trigger] anchor_hashes(peaks, b, time_zone, freq_zone, min_targets).contains(h)
                },
    decreases n,
{
    if n > 0 {
        lemma_fingerprint_map_entries(peaks, time_zone, freq_zone, min_targets, n - 1);
        let prev = fingerprint_map(peaks, time_zone, freq_zone, min_targets, n - 1);
        let hs = anchor_hashes(peaks, n - 1, time_zone, freq_zone, min_targets);
        let t = peaks[n - 1].spec_time();
        lemma_insert_all(prev, hs, t);
        let cur = fingerprint_map(peaks, time_zone, freq_zone, min_targets, n);
        assert(cur == insert_all(prev, hs, t));
        assert forall|h: u32| #[trigger] cur.contains_key(h) implies exists|a: int|
            {
                &&& 0 <= a < n
                &&& #[trigger] anchor_hashes(peaks, a, time_zone, freq_zone, min_targets).contains(h)
                &&& cur[h] == peaks[a].spec_time()
                &&& forall|b: int|
                    a < b < n ==> !#[trigger] anchor_hashes(peaks, b, time_zone, freq_zone, min_targets).contains(h)
            } by {
            if hs.contains(h) {
                assert(anchor_hashes(peaks, n - 1, time_zone, freq_zone, min_targets).contains(h));
            } else {
                assert(prev.contains_key(h));
                let a = choose|a: int|
                    {
                        &&& 0 <= a < n - 1
                        &&& #[trigger] anchor_hashes(peaks, a, time_zone, freq_zone, min_targets).contains(h)
                        &&& prev[h] == peaks[a].spec_time()
                        &&& forall|b: int|
                            a < b < n - 1 ==> !#[trigger] anchor_hashes(
                                peaks,
                                b,
                                time_zone,
                                freq_zone,
                                min_targets,
                            ).contains(h)
                    };
                assert forall|b: int| a < b < n implies !#[trigger] anchor_hashes(
                    peaks,
                    b,
                    time_zone,
                    freq_zone,
                    min_targets,
                ).contains(h) by {
                    if b == n - 1 {
                        assert(!hs.contains(h));
                    }
                }
            }
        }
    }
}

/// Peak `j` is one of anchor `a`'s zone candidates: another peak within
/// its time and frequency zone.
pub open spec fn zone_candidate(peaks: Seq<Peak>, a: int, j: int, time_zone: u64, freq_zone: u32) -> bool {
    &&& 0 <= j < peaks.len()
    &&& j != a
    &&& in_zone(peaks[a], peaks[j], time_zone, freq_zone)
}

/// No anchor has two zone candidates at the same distance.
pub open spec fn distinct_zone_distances(peaks: Seq<Peak>, time_zone: u64, freq_zone: u32) -> bool {
    forall|a: int, j1: int, j2: int|
        0 <= a < peaks.len() && #[trigger] zone_candidate(peaks, a, j1, time_zone, freq_zone)
            && #[trigger] zone_candidate(peaks, a, j2, time_zone, freq_zone) && j1 != j2 ==> spec_distance(
            peaks[a],
            peaks[j1],
        ) != spec_distance(peaks[a], peaks[j2])
}

/// `q` lists the peaks of `peaks` in another order: `q[k] == peaks[perm[k]]`
/// for a one-to-one, onto `perm`.
pub open spec fn is_permutation(q: Seq<Peak>, peaks: Seq<Peak>, perm: Seq<int>) -> bool {
    &&& q.len() == peaks.len()
    &&& perm.len() == peaks.len()
    &&& forall|k: int| 0 <= k < perm.len() ==> 0 <= #[trigger] perm[k] < peaks.len() && q[k] == peaks[perm[k]]
    &&& forall|k1: int, k2: int| 0 <= k1 < perm.len() && 0 <= k2 < perm.len() && k1 != k2 ==> #[trigger] perm[k1]
        != #[trigger] perm[k2]
    &&& forall|m: int| 0 <= m < peaks.len() ==> #[trigger] has_preimage(perm, m)
}

/// Some position of `perm` holds `m`.
pub open spec fn has_preimage(perm: Seq<int>, m: int) -> bool {
    exists|k: int| 0 <= k < perm.len() && #[trigger] perm[k] == m
}

/// The distances from anchor `a` to its zone candidates, nearest first.
pub open spec fn sorted_zone_distances(peaks: Seq<Peak>, a: int, time_zone: u64, freq_zone: u32) -> Seq<u128> {
    let c = candidates(peaks, a, time_zone, freq_zone, peaks.len() as int);
    let keys = candidate_keys(peaks, a, c);
    stable_order_of(keys, false).map_values(|p: usize| keys[p as int])
}

proof fn lemma_sorted_zone_distances(peaks: Seq<Peak>, a: int, time_zone: u64, freq_zone: u32, min_targets: usize)
    requires
        0 <= a < peaks.len(),
        peaks.len() <= usize::MAX,
        distinct_zone_distances(peaks, time_zone, freq_zone),
    ensures
        sorted_zone_distances(peaks, a, time_zone, freq_zone).len() == candidates(
            peaks,
            a,
            time_zone,
            freq_zone,
            peaks.len() as int,
        ).len(),
        forall|r1: int, r2: int|
            0 <= r1 < r2 < sorted_zone_distances(peaks, a, time_zone, freq_zone).len() ==> #[trigger] sorted_zone_distances(
                peaks,
                a,
                time_zone,
                freq_zone,
            )[r1] < #[trigger] sorted_zone_distances(peaks, a, time_zone, freq_zone)[r2],
        forall|x: u128|
            #[trigger] sorted_zone_distances(peaks, a, time_zone, freq_zone).contains(x) <==> exists|j: int|
                #[trigger] zone_candidate(peaks, a, j, time_zone, freq_zone) && spec_distance(peaks[a], peaks[j]) == x,
        anchor_targets(peaks, a, time_zone, freq_zone, min_targets).len() == if min_targets < candidates(
            peaks,
            a,
            time_zone,
            freq_zone,
            peaks.len() as int,
        ).len() {
            min_targets as int
        } else {
            candidates(peaks, a, time_zone, freq_zone, peaks.len() as int).len() as int
        },
        forall|r: int|
            0 <= r < anchor_targets(peaks, a, time_zone, freq_zone, min_targets).len() ==> zone_candidate(
                peaks,
                a,
                #[trigger] anchor_targets(peaks, a, time_zone, freq_zone, min_targets)[r] as int,
                time_zone,
                freq_zone,
            ) && spec_distance(peaks[a], peaks[anchor_targets(peaks, a, time_zone, freq_zone, min_targets)[r] as int])
                == sorted_zone_distances(peaks, a, time_zone, freq_zone)[r],
{
    let n = peaks.len() as int;
    lemma_candidates(peaks, a, time_zone, freq_zone, n);
    let c = candidates(peaks, a, time_zone, freq_zone, n);
    let keys = candidate_keys(peaks, a, c);
    lemma_stable_order_exists(keys, false);
    let o = stable_order_of(keys, false);
    let kd = sorted_zone_distances(peaks, a, time_zone, freq_zone);
    assert(kd == o.map_values(|p: usize| keys[p as int]));
    assert forall|r1: int, r2: int| 0 <= r1 < r2 < kd.len() implies #[trigger] kd[r1] < #[trigger] kd[r2] by {
        assert(precedes(keys, false, o[r1] as int, o[r2] as int));
        let s1 = o[r1] as int;
        let s2 = o[r2] as int;
        assert(s1 < c.len() && s2 < c.len());
        assert(s1 != s2);
        assert(c[s1] != c[s2]) by {
            if s1 < s2 {
                assert(c[s1] < c[s2]);
            } else {
                assert(c[s2] < c[s1]);
            }
        }
        assert(zone_candidate(peaks, a, c[s1] as int, time_zone, freq_zone));
        assert(zone_candidate(peaks, a, c[s2] as int, time_zone, freq_zone));
        assert(keys[s1] != keys[s2]);
    }
    assert forall|x: u128| #[trigger] kd.contains(x) <==> exists|j: int|
        #[trigger] zone_candidate(peaks, a, j, time_zone, freq_zone) && spec_distance(peaks[a], peaks[j]) == x by {
        if kd.contains(x) {
            let r = choose|r: int| 0 <= r < kd.len() && kd[r] == x;
            let s1 = o[r] as int;
            assert(s1 < c.len());
            assert(zone_candidate(peaks, a, c[s1] as int, time_zone, freq_zone));
        }
        if exists|j: int| #[trigger] zone_candidate(peaks, a, j, time_zone, freq_zone) && spec_distance(
            peaks[a],
            peaks[j],
        ) == x {
            let j = choose|j: int| #[trigger] zone_candidate(peaks, a, j, time_zone, freq_zone) && spec_distance(
                peaks[a],
                peaks[j],
            ) == x;
            assert(peaks[j] == peaks[j]);
            assert(c.contains(j as usize));
            let s1 = choose|s1: int| 0 <= s1 < c.len() && c[s1] == j as usize;
            assert(o.contains(s1 as usize));
            let r = choose|r: int| 0 <= r < o.len() && o[r] == s1 as usize;
            assert(kd[r] == x);
        }
    }
    let t = anchor_targets(peaks, a, time_zone, freq_zone, min_targets);
    assert forall|r: int| 0 <= r < t.len() implies zone_candidate(
        peaks,
        a,
        #[trigger] t[r] as int,
        time_zone,
        freq_zone,
    ) && spec_distance(peaks[a], peaks[t[r] as int]) == kd[r] by {
        assert(t[r] == c[o[r] as int]);
        assert(o[r] < c.len());
    }
}

/// Two strictly increasing sequences with the same elements are equal.
pub proof fn lemma_strictly_sorted_equal(x: Seq<u128>, y: Seq<u128>)
    requires
        forall|i: int, j: int| 0 <= i < j < x.len() ==> #[trigger] x[i] < #[trigger] x[j],
        forall|i: int, j: int| 0 <= i < j < y.len() ==> #[trigger] y[i] < #[trigger] y[j],
        forall|v: u128| x.contains(v) <==> y.contains(v),
    ensures
        x == y,
    decreases x.len(),
{
    if x.len() == 0 {
        if y.len() > 0 {
            assert(y.contains(y[0]));
        }
        assert(x =~= y);
    } else if y.len() == 0 {
        assert(x.contains(x[0]));
    } else {
        assert(x.contains(x[0]));
        assert(y.contains(y[0]));
        let i = choose|i: int| 0 <= i < x.len() && x[i] == y[0];
        let j = choose|j: int| 0 <= j < y.len() && y[j] == x[0];
        if i > 0 {
            assert(x[0] < x[i]);
            if j > 0 {
                assert(y[0] < y[j]);
            }
            assert(false);
        }
        let xt = x.drop_first();
        let yt = y.drop_first();
        assert forall|v: u128| xt.contains(v) <==> yt.contains(v) by {
            if xt.contains(v) {
                let k = choose|k: int| 0 <= k < xt.len() && xt[k] == v;
                assert(x[k + 1] == v);
                assert(x[0] < x[k + 1]);
                assert(y.contains(v));
                let l = choose|l: int| 0 <= l < y.len() && y[l] == v;
                assert(l != 0);
                assert(yt[l - 1] == v);
            }
            if yt.contains(v) {
                let k = choose|k: int| 0 <= k < yt.len() && yt[k] == v;
                assert(y[k + 1] == v);
                assert(y[0] < y[k + 1]);
                assert(x.contains(v));
                let l = choose|l: int| 0 <= l < x.len() && x[l] == v;
                assert(l != 0);
                assert(xt[l - 1] == v);
            }
        }
        assert forall|a: int, b: int| 0 <= a < b < xt.len() implies #[trigger] xt[a] < #[trigger] xt[b] by {
            assert(xt[a] == x[a + 1] && xt[b] == x[b + 1]);
        }
        assert forall|a: int, b: int| 0 <= a < b < yt.len() implies #[trigger] yt[a] < #[trigger] yt[b] by {
            assert(yt[a] == y[a + 1] && yt[b] == y[b + 1]);
        }
        lemma_strictly_sorted_equal(xt, yt);
        assert(x =~= y) by {
            assert forall|k: int| 0 <= k < x.len() implies x[k] == y[k] by {
                if k > 0 {
                    assert(x[k] == xt[k - 1] && y[k] == yt[k - 1]);
                }
            }
        }
    }
}

/// Reordering the peaks does not change what an anchor emits, as long as no
/// anchor has two zone candidates at the same distance: the anchor at
/// position `k` of the reordered list emits the same hashes, in the same
/// order, as the same peak does at its position in the original list.
pub proof fn lemma_anchor_hashes_permuted(
    peaks: Seq<Peak>,
    q: Seq<Peak>,
    perm: Seq<int>,
    time_zone: u64,
    freq_zone: u32,
    min_targets: usize,
    k: int,
)
    requires
        is_permutation(q, peaks, perm),
        distinct_zone_distances(peaks, time_zone, freq_zone),
        peaks.len() <= usize::MAX,
        0 <= k < q.len(),
    ensures
        anchor_hashes(q, k, time_zone, freq_zone, min_targets) == anchor_hashes(
            peaks,
            perm[k],
            time_zone,
            freq_zone,
            min_targets,
        ),
{
    let n = peaks.len() as int;
    let pk = perm[k];
    assert(0 <= pk < n && q[k] == peaks[pk]);
    // Zone candidates correspond through the permutation.
    assert forall|j: int| #[trigger] zone_candidate(q, k, j, time_zone, freq_zone) implies zone_candidate(
        peaks,
        pk,
        perm[j],
        time_zone,
        freq_zone,
    ) && spec_distance(q[k], q[j]) == spec_distance(peaks[pk], peaks[perm[j]]) by {
        assert(q[j] == peaks[perm[j]]);
    }
    assert forall|m: int| #[trigger] zone_candidate(peaks, pk, m, time_zone, freq_zone) implies exists|j: int|
        #[trigger] zone_candidate(q, k, j, time_zone, freq_zone) && perm[j] == m by {
        assert(has_preimage(perm, m));
        let j = choose|j: int| 0 <= j < perm.len() && #[trigger] perm[j] == m;
        assert(q[j] == peaks[perm[j]]);
        assert(zone_candidate(q, k, j, time_zone, freq_zone));
    }
    // Distinct distances carry over to the reordered list.
    assert forall|a: int, j1: int, j2: int|
        0 <= a < q.len() && #[trigger] zone_candidate(q, a, j1, time_zone, freq_zone) && #[trigger] zone_candidate(
            q,
            a,
            j2,
            time_zone,
            freq_zone,
        ) && j1 != j2 implies spec_distance(q[a], q[j1]) != spec_distance(q[a], q[j2]) by {
        assert(q[a] == peaks[perm[a]] && q[j1] == peaks[perm[j1]] && q[j2] == peaks[perm[j2]]);
        assert(perm[j1] != perm[j2] && perm[j1] != perm[a] && perm[j2] != perm[a]);
        assert(zone_candidate(peaks, perm[a], perm[j1], time_zone, freq_zone));
        assert(zone_candidate(peaks, perm[a], perm[j2], time_zone, freq_zone));
    }
    assert(distinct_zone_distances(q, time_zone, freq_zone));
    lemma_sorted_zone_distances(peaks, pk, time_zone, freq_zone, min_targets);
    lemma_sorted_zone_distances(q, k, time_zone, freq_zone, min_targets);
    let dp = sorted_zone_distances(peaks, pk, time_zone, freq_zone);
    let dq = sorted_zone_distances(q, k, time_zone, freq_zone);
    assert forall|x: u128| dq.contains(x) <==> dp.contains(x) by {
        if dq.contains(x) {
            let j = choose|j: int| #[trigger] zone_candidate(q, k, j, time_zone, freq_zone) && spec_distance(
                q[k],
                q[j],
            ) == x;
            assert(zone_candidate(peaks, pk, perm[j], time_zone, freq_zone));
        }
        if dp.contains(x) {
            let m = choose|m: int| #[trigger] zone_candidate(peaks, pk, m, time_zone, freq_zone) && spec_distance(
                peaks[pk],
                peaks[m],
            ) == x;
            let j = choose|j: int| #[trigger] zone_candidate(q, k, j, time_zone, freq_zone) && perm[j] == m;
            assert(spec_distance(q[k], q[j]) == x);
        }
    }
    lemma_strictly_sorted_equal(dq, dp);
    let tq = anchor_targets(q, k, time_zone, freq_zone, min_targets);
    let tp = anchor_targets(peaks, pk, time_zone, freq_zone, min_targets);
    assert(tq.len() == tp.len());
    let hq = anchor_hashes(q, k, time_zone, freq_zone, min_targets);
    let hp = anchor_hashes(peaks, pk, time_zone, freq_zone, min_targets);
    assert forall|r: int| 0 <= r < hq.len() implies hq[r] == hp[r] by {
        let j = tq[r] as int;
        let m = tp[r] as int;
        assert(zone_candidate(q, k, j, time_zone, freq_zone));
        assert(zone_candidate(peaks, pk, m, time_zone, freq_zone));
        assert(zone_candidate(peaks, pk, perm[j], time_zone, freq_zone));
        assert(spec_distance(peaks[pk], peaks[perm[j]]) == dq[r]);
        assert(spec_distance(peaks[pk], peaks[m]) == dp[r]);
        assert(perm[j] == m);
        assert(q[j] == peaks[perm[j]]);
    }
    assert(hq =~= hp);
}

/// Reordering the peaks does not change which hashes the fingerprint table
/// holds, as long as no anchor has two zone candidates at the same
/// distance.  (A hash's anchor time may change when several anchors emit
/// it, since the last of them in the new order wins.)
pub proof fn lemma_fingerprint_keys_permuted(
    peaks: Seq<Peak>,
    q: Seq<Peak>,
    perm: Seq<int>,
    time_zone: u64,
    freq_zone: u32,
    min_targets: usize,
)
    requires
        is_permutation(q, peaks, perm),
        distinct_zone_distances(peaks, time_zone, freq_zone),
        peaks.len() <= usize::MAX,
    ensures
        fingerprint_map(q, time_zone, freq_zone, min_targets, q.len() as int).dom() == fingerprint_map(
            peaks,
            time_zone,
            freq_zone,
            min_targets,
            peaks.len() as int,
        ).dom(),
{
    let n = peaks.len() as int;
    lemma_fingerprint_map_entries(peaks, time_zone, freq_zone, min_targets, n);
    lemma_fingerprint_map_entries(q, time_zone, freq_zone, min_targets, n);
    let mq = fingerprint_map(q, time_zone, freq_zone, min_targets, n);
    let mp = fingerprint_map(peaks, time_zone, freq_zone, min_targets, n);
    assert forall|h: u32| mq.contains_key(h) <==> mp.contains_key(h) by {
        if mq.contains_key(h) {
            let a = choose|a: int|
                {
                    &&& 0 <= a < n
                    &&& #[trigger] anchor_hashes(q, a, time_zone, freq_zone, min_targets).contains(h)
                    &&& mq[h] == q[a].spec_time()
                    &&& forall|b: int|
                        a < b < n ==> !#[trigger] anchor_hashes(q, b, time_zone, freq_zone, min_targets).contains(h)
                };
            lemma_anchor_hashes_permuted(peaks, q, perm, time_zone, freq_zone, min_targets, a);
            assert(anchor_hashes(peaks, perm[a], time_zone, freq_zone, min_targets).contains(h));
        }
        if mp.contains_key(h) {
            let m = choose|m: int|
                {
                    &&& 0 <= m < n
                    &&& #[trigger] anchor_hashes(peaks, m, time_zone, freq_zone, min_targets).contains(h)
                    &&& mp[h] == peaks[m].spec_time()
                    &&& forall|b: int|
                        m < b < n ==> !#[trigger] anchor_hashes(peaks, b, time_zone, freq_zone, min_targets).contains(
                            h,
                        )
                };
            assert(has_preimage(perm, m));
            let a = choose|a: int| 0 <= a < perm.len() && #[trigger] perm[a] == m;
            lemma_anchor_hashes_permuted(peaks, q, perm, time_zone, freq_zone, min_targets, a);
            assert(anchor_hashes(q, a, time_zone, freq_zone, min_targets).contains(h));
        }
    }
    assert(mq.dom() =~= mp.dom());
}

/// The hash of the pair (anchor `i`, target `j`), written out: the
/// anchor's and the target's frequency rounded to 10 Hz steps (low 10 bits
/// each) and their time gap rounded to milliseconds, saturated at
/// `u32::MAX` (low 12 bits), packed high to low.
pub open spec fn pair_hash_value(peaks: Seq<Peak>, i: int, j: int) -> u32 {
    let fa = peaks[i].spec_frequency() as int;
    let ft = peaks[j].spec_frequency() as int;
    let dt = abs_diff(peaks[i].spec_time() as int, peaks[j].spec_time() as int);
    let r = (dt + 500) / 1000;
    let d = if r > u32::MAX {
        u32::MAX as int
    } else {
        r
    };
    ((((fa + 5000) / 10000) % 1024) * 4194304 + (((ft + 5000) / 10000) % 1024) * 4096 + d % 4096) as u32
}

/// The hash of a pair is its two frequencies rounded to 10 Hz steps and its
/// time gap rounded to milliseconds (saturated), packed as
/// `pair_hash_value` writes out.
pub proof fn lemma_pair_hash_written_out(peaks: Seq<Peak>, i: int, j: int)
    ensures
        spec_pair_hash(peaks[i], peaks[j]) == pair_hash_value(peaks, i, j),
{
}

proof fn lemma_target_in_table(
    peaks: Seq<Peak>,
    time_zone: u64,
    freq_zone: u32,
    min_targets: usize,
    i: int,
    j: int,
)
    requires
        peaks.len() <= usize::MAX,
        0 <= i < peaks.len(),
        anchor_targets(peaks, i, time_zone, freq_zone, min_targets).contains(j as usize),
        0 <= j < peaks.len(),
    ensures
        fingerprint_map(peaks, time_zone, freq_zone, min_targets, peaks.len() as int).contains_key(
            pair_hash_value(peaks, i, j),
        ),
{
    let t = anchor_targets(peaks, i, time_zone, freq_zone, min_targets);
    let r = choose|r: int| 0 <= r < t.len() && t[r] == j as usize;
    let hs = anchor_hashes(peaks, i, time_zone, freq_zone, min_targets);
    assert(hs[r] == spec_pair_hash(peaks[i], peaks[j]));
    assert(spec_pair_hash(peaks[i], peaks[j]) == pair_hash_value(peaks, i, j));
    assert(hs.contains(pair_hash_value(peaks, i, j)));
    lemma_fingerprint_map_entries(peaks, time_zone, freq_zone, min_targets, peaks.len() as int);
}

/// Every other peak inside an anchor's zone, whatever its time gap (zero
/// included), is paired with it when targets are not limited below the
/// number of peaks: the table holds the hash of every such ordered pair.
pub proof fn lemma_fingerprint_pairs_every_zone_peak(
    peaks: Seq<Peak>,
    time_zone: u64,
    freq_zone: u32,
    min_targets: usize,
)
    requires
        peaks.len() <= usize::MAX,
        min_targets >= peaks.len(),
    ensures
        forall|i: int, j: int|
            0 <= i < peaks.len() && 0 <= j < peaks.len() && i != j && abs_diff(
                peaks[i].spec_time() as int,
                peaks[j].spec_time() as int,
            ) <= time_zone && abs_diff(peaks[i].spec_frequency() as int, peaks[j].spec_frequency() as int)
                <= freq_zone ==> fingerprint_map(peaks, time_zone, freq_zone, min_targets, peaks.len() as int).contains_key(
                #[trigger] pair_hash_value(peaks, i, j),
            ),
{
    let n = peaks.len() as int;
    assert forall|i: int, j: int|
        0 <= i < n && 0 <= j < n && i != j && abs_diff(peaks[i].spec_time() as int, peaks[j].spec_time() as int)
            <= time_zone && abs_diff(peaks[i].spec_frequency() as int, peaks[j].spec_frequency() as int)
            <= freq_zone implies fingerprint_map(peaks, time_zone, freq_zone, min_targets, n).contains_key(
        #[trigger] pair_hash_value(peaks, i, j),
    ) by {
        lemma_candidates(peaks, i, time_zone, freq_zone, n);
        let c = candidates(peaks, i, time_zone, freq_zone, n);
        let keys = candidate_keys(peaks, i, c);
        lemma_stable_order_exists(keys, false);
        let o = stable_order_of(keys, false);
        assert(peaks[j] == peaks[j]);
        assert(c.contains(j as usize));
        let s = choose|s: int| 0 <= s < c.len() && c[s] == j as usize;
        assert(o.contains(s as usize));
        let r = choose|r: int| 0 <= r < o.len() && o[r] == s as usize;
        let t = anchor_targets(peaks, i, time_zone, freq_zone, min_targets);
        assert(c.len() <= min_targets);
        assert(t[r] == c[o[r] as int]);
        assert(t.contains(j as usize));
        lemma_target_in_table(peaks, time_zone, freq_zone, min_targets, i, j);
    }
}

/// An anchor's nearest zone peak is always paired with it: when one other
/// peak inside the anchor's zone (time gap zero included) is strictly
/// nearer than every other zone peak, and targets are not limited to zero,
/// the table holds the hash of that pair.
pub proof fn lemma_fingerprint_pairs_nearest_zone_peak(
    peaks: Seq<Peak>,
    time_zone: u64,
    freq_zone: u32,
    min_targets: usize,
    i: int,
    j: int,
)
    requires
        peaks.len() <= usize::MAX,
        min_targets >= 1,
        0 <= i < peaks.len(),
        0 <= j < peaks.len(),
        i != j,
        abs_diff(peaks[i].spec_time() as int, peaks[j].spec_time() as int) <= time_zone,
        abs_diff(peaks[i].spec_frequency() as int, peaks[j].spec_frequency() as int) <= freq_zone,
        forall|k: int|
            0 <= k < peaks.len() && k != i && k != j && abs_diff(
                peaks[i].spec_time() as int,
                peaks[k].spec_time() as int,
            ) <= time_zone && abs_diff(peaks[i].spec_frequency() as int, peaks[k].spec_frequency() as int)
                <= freq_zone ==> spec_distance(peaks[i], peaks[j]) < spec_distance(peaks[i], #[trigger] peaks[k]),
    ensures
        fingerprint_map(peaks, time_zone, freq_zone, min_targets, peaks.len() as int).contains_key(
            pair_hash_value(peaks, i, j),
        ),
{
    let n = peaks.len() as int;
    lemma_anchor_targets_nearest(peaks, i, time_zone, freq_zone, min_targets);
    lemma_candidates(peaks, i, time_zone, freq_zone, n);
    let c = candidates(peaks, i, time_zone, freq_zone, n);
    assert(peaks[j] == peaks[j]);
    assert(c.contains(j as usize));
    let keys = candidate_keys(peaks, i, c);
    lemma_stable_order_exists(keys, false);
    let t = anchor_targets(peaks, i, time_zone, freq_zone, min_targets);
    assert(c.len() >= 1);
    assert(t.len() >= 1);
    if !t.contains(j as usize) {
        let t0 = t[0] as int;
        assert(t0 < n && t0 != i && in_zone(peaks[i], peaks[t0], time_zone, freq_zone));
        assert(spec_distance(peaks[i], peaks[t0]) <= spec_distance(peaks[i], peaks[j]));
        if t0 == j {
            assert(t.contains(j as usize));
        }
        assert(spec_distance(peaks[i], peaks[j]) < spec_distance(peaks[i], peaks[t0]));
    }
    lemma_target_in_table(peaks, time_zone, freq_zone, min_targets, i, j);
}

/// The hash of an (anchor, target) pair (see `spec_pair_hash`).
pub fn pair_hash(anchor: &Peak, target: &Peak) -> (h: u32)
    ensures
        h == spec_pair_hash(*anchor, *target),
{
    let fa = anchor.frequency();
    let ft = target.frequency();
    let anchor_bits: u32 = ((fa as u64 + 5000) / 10000) as u32;
    let target_bits: u32 = ((ft as u64 + 5000) / 10000) as u32;
    let ta = anchor.time();
    let tt = target.time();
    let dt: u64 = if ta >= tt {
        ta - tt
    } else {
        tt - ta
    };
    let rounded: u64 = dt / 1000 + if dt % 1000 >= 500 {
        1
    } else {
        0
    };
    assert(rounded == (dt as int + 500) / 1000);
    let dt_bits: u32 = if rounded > u32::MAX as u64 {
        u32::MAX
    } else {
        rounded as u32
    };
    let h = pack_hash(anchor_bits, target_bits, dt_bits);
    h
}

/// Builds the fingerprint table of a peak list.  Each peak in turn is an
/// anchor; its targets are the other peaks within `time_zone` microseconds
/// and `freq_zone` millihertz of it, nearest first, at most `min_targets`
/// of them; each (anchor, target) pair inserts its hash, mapped to the
/// anchor's time, so that a later anchor overwrites an earlier one.
pub fn fingerprint(peaks: &[Peak], time_zone: u64, freq_zone: u32, min_targets: usize) -> (m: HashMap<u32, u64>)
    ensures
        m@ == fingerprint_map(peaks@, time_zone, freq_zone, min_targets, peaks@.len() as int),
{
    let n = peaks.len();
    let mut map: HashMap<u32, u64> = HashMap::new();
    let mut i: usize = 0;
    while i < n
        invariant
            n == peaks@.len(),
            i <= n,
            map@ == fingerprint_map(peaks@, time_zone, freq_zone, min_targets, i as int),
        decreases n - i,
    {
        let anchor = peaks[i];
        let mut cands: Vec<usize> = Vec::new();
        let mut keys: Vec<u128> = Vec::new();
        let mut j: usize = 0;
        while j < n
            invariant
                n == peaks@.len(),
                i < n,
                j <= n,
                anchor == peaks@[i as int],
                cands@ == candidates(peaks@, i as int, time_zone, freq_zone, j as int),
                keys@.len() == cands@.len(),
                forall|q: int| 0 <= q < cands@.len() ==> #[trigger] cands@[q] < n,
                forall|q: int|
                    0 <= q < keys@.len() ==> #[trigger] keys@[q] == spec_distance(
                        peaks@[i as int],
                        peaks@[cands@[q] as int],
                    ),
            decreases n - j,
        {
            let target = peaks[j];
            let tt = target.time();
            let ta = anchor.time();
            let dt: u64 = if ta >= tt {
                ta - tt
            } else {
                tt - ta
            };
            let fa = anchor.frequency();
            let ft = target.frequency();
            let df: u32 = if fa >= ft {
                fa - ft
            } else {
                ft - fa
            };
            if j != i && dt <= time_zone && df <= freq_zone {
                cands.push(j);
                keys.push(anchor.distance(target));
            }
            j = j + 1;
        }
        let ghost c = cands@;
        assert(keys@ =~= candidate_keys(peaks@, i as int, c));
        let order = stable_order(&keys, false);
        let k: usize = if min_targets < cands.len() {
            min_targets
        } else {
            cands.len()
        };
        let ghost hs = anchor_hashes(peaks@, i as int, time_zone, freq_zone, min_targets);
        let ghost prev = map@;
        assert(hs.len() == k);
        let t = anchor.time();
        let mut q: usize = 0;
        while q < k
            invariant
                n == peaks@.len(),
                i < n,
                anchor == peaks@[i as int],
                t == anchor.spec_time(),
                c == candidates(peaks@, i as int, time_zone, freq_zone, n as int),
                cands@ == c,
                order@ == stable_order_of(candidate_keys(peaks@, i as int, c), false),
                order@.len() == c.len(),
                forall|r: int| 0 <= r < order@.len() ==> #[trigger] order@[r] < c.len(),
                forall|r: int| 0 <= r < c.len() ==> #[trigger] c[r] < n,
                k <= c.len(),
                hs == anchor_hashes(peaks@, i as int, time_zone, freq_zone, min_targets),
                hs.len() == k,
                q <= k,
                map@ == insert_all(prev, hs.take(q as int), t),
            decreases k - q,
        {
            let target_idx = cands[order[q]];
            let h = pair_hash(&anchor, &peaks[target_idx]);
            assert(h == hs[q as int]);
            map.insert(h, t);
            assert(hs.take(q as int + 1).drop_last() =~= hs.take(q as int));
            q = q + 1;
        }
        assert(hs.take(k as int) =~= hs);
        i = i + 1;
    }
    map
}

/// The frequency bands after scanning the first `m` frequency rows, with the
/// start row and frequency of the band being built.  A band closes at a row
/// whose frequency exceeds the current band start's by more than a sixth of
/// `max_frequency`, or at the last row; the next band starts there.
pub open spec fn bins_upto(freqs: Seq<u32>, max_frequency: u32, m: int) -> (Seq<(usize, usize)>, usize, u32)
    decreases m,
{
    if m <= 0 {
        (Seq::empty(), 0, 0)
    } else {
        let (bins, last_idx, last_freq) = bins_upto(freqs, max_frequency, m - 1);
        let idx = m - 1;
        if 6 * (freqs[idx] - last_freq) > max_frequency || idx == freqs.len() - 1 {
            (bins.push((last_idx, idx as usize)), idx as usize, freqs[idx])
        } else {
            (bins, last_idx, last_freq)
        }
    }
}

/// The frequency a band is measured from: zero for the first band, its
/// start row's frequency for the others.
pub open spec fn band_base(freqs: Seq<u32>, bins: Seq<(usize, usize)>, k: int) -> int {
    if k == 0 {
        0
    } else {
        freqs[bins[k].0 as int] as int
    }
}

spec fn band_closes(freqs: Seq<u32>, bins: Seq<(usize, usize)>, k: int, max_frequency: u32) -> bool {
    bins[k].1 == freqs.len() - 1 || 6 * (freqs[bins[k].1 as int] - band_base(freqs, bins, k)) > max_frequency
}

spec fn rows_within(freqs: Seq<u32>, from: int, to: int, base: int, max_frequency: u32) -> bool {
    forall|x: int| from <= x < to ==> 6 * (#[trigger] freqs[x] - base) <= max_frequency
}

spec fn band_rows_within(freqs: Seq<u32>, bins: Seq<(usize, usize)>, k: int, max_frequency: u32) -> bool {
    rows_within(
        freqs,
        if k == 0 {
            0
        } else {
            bins[k].0 + 1
        },
        bins[k].1 as int,
        band_base(freqs, bins, k),
        max_frequency,
    )
}

proof fn lemma_bins_upto_inv(freqs: Seq<u32>, max_frequency: u32, m: int)
    requires
        0 <= m <= freqs.len(),
        freqs.len() <= usize::MAX,
    ensures
        ({
            let (bins, li, lf) = bins_upto(freqs, max_frequency, m);
            &&& bins.len() == 0 ==> li == 0 && lf == 0
            &&& bins.len() > 0 ==> li == bins.last().1 && lf == freqs[li as int] && li < m
            &&& forall|k: int| 0 <= k < bins.len() ==> #[trigger] band_closes(freqs, bins, k, max_frequency)
            &&& forall|k: int| 0 <= k < bins.len() ==> #[trigger] band_rows_within(freqs, bins, k, max_frequency)
            &&& rows_within(
                freqs,
                if bins.len() == 0 {
                    0
                } else {
                    li + 1
                },
                m,
                lf as int,
                max_frequency,
            )
        }),
    decreases m,
{
    if m > 0 {
        lemma_bins_upto_inv(freqs, max_frequency, m - 1);
        let (bins, li, lf) = bins_upto(freqs, max_frequency, m - 1);
        let idx = m - 1;
        if 6 * (freqs[idx] - lf) > max_frequency || idx == freqs.len() - 1 {
            let nb = bins.push((li, idx as usize));
            assert(bins_upto(freqs, max_frequency, m) == (nb, idx as usize, freqs[idx]));
            let k = bins.len() as int;
            assert(band_base(freqs, nb, k) == lf) by {
                if k > 0 {
                    assert(nb[k].0 == li);
                }
            }
            let from = if k == 0 {
                0
            } else {
                li + 1
            };
            assert(band_closes(freqs, nb, k, max_frequency));
            assert(rows_within(freqs, from, idx, lf as int, max_frequency));
            assert(band_rows_within(freqs, nb, k, max_frequency)) by {
                if k > 0 {
                    assert(nb[k].0 + 1 == from);
                }
            }
            assert forall|j: int| 0 <= j < nb.len() implies #[trigger] band_closes(freqs, nb, j, max_frequency) by {
                if j < k {
                    assert(nb[j] == bins[j]);
                    assert(band_base(freqs, nb, j) == band_base(freqs, bins, j));
                    assert(band_closes(freqs, bins, j, max_frequency));
                }
            }
            assert forall|j: int| 0 <= j < nb.len() implies #[trigger] band_rows_within(freqs, nb, j, max_frequency)
                by {
                if j < k {
                    assert(nb[j] == bins[j]);
                    assert(band_base(freqs, nb, j) == band_base(freqs, bins, j));
                    assert(band_rows_within(freqs, bins, j, max_frequency));
                }
            }
            assert(rows_within(freqs, idx + 1, m, freqs[idx] as int, max_frequency));
        } else {
            assert(bins_upto(freqs, max_frequency, m) == (bins, li, lf));
            let from = if bins.len() == 0 {
                0
            } else {
                li + 1
            };
            assert(rows_within(freqs, from, m - 1, lf as int, max_frequency));
            assert(rows_within(freqs, from, m, lf as int, max_frequency)) by {
                assert forall|x: int| from <= x < m implies 6 * (#[trigger] freqs[x] - lf) <= max_frequency by {
                    if x < m - 1 {
                    }
                }
            }
        }
    }
}

/// Each band closes at the first row whose frequency exceeds the band's
/// base (zero for the first band, its start row's frequency for the
/// others) by more than a sixth of the top frequency, or at the last row:
/// the rows inside it are within a sixth of the base, and its end row,
/// unless it is the last row, is more than a sixth above it.
pub proof fn lemma_bins_close_at_a_sixth(freqs: Seq<u32>, max_frequency: u32)
    requires
        freqs.len() <= usize::MAX,
    ensures
        ({
            let bins = bins_upto(freqs, max_frequency, freqs.len() as int).0;
            &&& forall|k: int|
                0 <= k < bins.len() ==> #[trigger] bins[k].1 == freqs.len() - 1 || 6 * (
                freqs[bins[k].1 as int] - band_base(freqs, bins, k)) > max_frequency
            &&& forall|k: int, x: int|
                #![trigger freqs[x], bins[k]]
                0 <= k < bins.len() && (if k == 0 {
                    0 <= x
                } else {
                    bins[k].0 < x
                }) && x < bins[k].1 ==> 6 * (freqs[x] - band_base(freqs, bins, k)) <= max_frequency
        }),
{
    lemma_bins_upto_inv(freqs, max_frequency, freqs.len() as int);
    let bins = bins_upto(freqs, max_frequency, freqs.len() as int).0;
    assert forall|k: int| 0 <= k < bins.len() implies #[trigger] bins[k].1 == freqs.len() - 1 || 6 * (
    freqs[bins[k].1 as int] - band_base(freqs, bins, k)) > max_frequency by {
        assert(band_closes(freqs, bins, k, max_frequency));
    }
    assert forall|k: int, x: int|
        #![trigger freqs[x], bins[k]]
        0 <= k < bins.len() && (if k == 0 {
            0 <= x
        } else {
            bins[k].0 < x
        }) && x < bins[k].1 implies 6 * (freqs[x] - band_base(freqs, bins, k)) <= max_frequency by {
        assert(band_rows_within(freqs, bins, k, max_frequency));
    }
}

/// Splits the frequency rows of a spectrogram (millihertz, ascending) into
/// bands of about a sixth of the top frequency each.  Each band is a
/// half-open row range `(start, end)`; consecutive bands share their
/// boundary row, and the last band ends at the last row.
pub fn frequency_bins(freqs: &Vec<u32>, max_frequency: u32) -> (bins: Vec<(usize, usize)>)
    ensures
        bins@ == bins_upto(freqs@, max_frequency, freqs@.len() as int).0,
        forall|k: int| 0 <= k < bins@.len() ==> #[trigger] bins@[k].0 <= bins@[k].1 < freqs@.len(),
        bins@.len() > 0 ==> bins@[0].0 == 0,
        forall|k: int| 0 <= k < bins@.len() - 1 ==> #[trigger] bins@[k].1 == bins@[k + 1].0,
        freqs@.len() > 0 ==> bins@.len() > 0 && bins@.last().1 == freqs@.len() - 1,
{
    let n = freqs.len();
    let mut bins: Vec<(usize, usize)> = Vec::new();
    let mut last_idx: usize = 0;
    let mut last_freq: u32 = 0;
    let mut idx: usize = 0;
    while idx < n
        invariant
            n == freqs@.len(),
            idx <= n,
            (bins@, last_idx, last_freq) == bins_upto(freqs@, max_frequency, idx as int),
            last_idx <= idx,
            idx > 0 ==> last_idx < idx,
            forall|k: int| 0 <= k < bins@.len() ==> #[trigger] bins@[k].0 <= bins@[k].1 < n,
            forall|k: int| 0 <= k < bins@.len() ==> #[trigger] bins@[k].1 <= last_idx,
            bins@.len() > 0 ==> bins@[0].0 == 0,
            bins@.len() > 0 ==> bins@.last().1 == last_idx,
            bins@.len() == 0 ==> last_idx == 0,
            forall|k: int| 0 <= k < bins@.len() - 1 ==> #[trigger] bins@[k].1 == bins@[k + 1].0,
            idx == n && n > 0 ==> bins@.len() > 0 && last_idx == n - 1,
        decreases n - idx,
    {
        let freq = freqs[idx];
        let jump = freq > last_freq && 6 * ((freq - last_freq) as u64) > max_frequency as u64;
        if jump || idx == n - 1 {
            bins.push((last_idx, idx));
            last_idx = idx;
            last_freq = freq;
        }
        idx = idx + 1;
    }
    bins
}

/// Scanning rows `start..end` of a column for its largest value, the way a
/// running maximum that starts at zero does: the result is the row and
/// value of the first strict maximum above zero, or `row0` and zero when no
/// value exceeds zero.
pub open spec fn scan_max(col: Seq<u64>, start: int, end: int, row0: usize) -> (usize, u64)
    decreases end - start,
{
    if end <= start {
        (row0, 0)
    } else {
        let (r, m) = scan_max(col, start, end - 1, row0);
        if col[end - 1] > m {
            ((end - 1) as usize, col[end - 1])
        } else {
            (r, m)
        }
    }
}

/// The per-band maxima of one column after the first `k` bands.  The row
/// found for a band is carried into the next one, where it stands when that
/// band has no value above zero; the first band starts from row 0.
pub open spec fn column_maxima_upto(col: Seq<u64>, bins: Seq<(usize, usize)>, k: int) -> Seq<(usize, u64)>
    decreases k,
{
    if k <= 0 {
        Seq::empty()
    } else {
        let prev = column_maxima_upto(col, bins, k - 1);
        let row0: usize = if k - 1 == 0 {
            0
        } else {
            prev.last().0
        };
        prev.push(scan_max(col, bins[k - 1].0 as int, bins[k - 1].1 as int, row0))
    }
}

/// For one time column of power keys, the row and key of the largest value
/// in each frequency band (see `column_maxima_upto`).
pub fn column_maxima(col: &Vec<u64>, bins: &Vec<(usize, usize)>) -> (maxima: Vec<(usize, u64)>)
    requires
        forall|k: int| 0 <= k < bins@.len() ==> #[trigger] bins@[k].0 <= bins@[k].1 <= col@.len(),
    ensures
        maxima@ == column_maxima_upto(col@, bins@, bins@.len() as int),
        maxima@.len() == bins@.len(),
        forall|k: int, x: int|
            #![trigger maxima@[k], col@[x]]
            0 <= k < bins@.len() && bins@[k].0 <= x < bins@[k].1 ==> col@[x] <= maxima@[k].1,
        forall|k: int|
            0 <= k < bins@.len() && (#[trigger] maxima@[k]).1 > 0 ==> bins@[k].0 <= maxima@[k].0 < bins@[k].1
                && col@[maxima@[k].0 as int] == maxima@[k].1,
{
    let mut maxima: Vec<(usize, u64)> = Vec::new();
    let mut row_idx: usize = 0;
    let mut k: usize = 0;
    while k < bins.len()
        invariant
            forall|q: int| 0 <= q < bins@.len() ==> #[trigger] bins@[q].0 <= bins@[q].1 <= col@.len(),
            k <= bins@.len(),
            maxima@ == column_maxima_upto(col@, bins@, k as int),
            maxima@.len() == k,
            forall|q: int, x: int|
                #![trigger maxima@[q], col@[x]]
                0 <= q < k && bins@[q].0 <= x < bins@[q].1 ==> col@[x] <= maxima@[q].1,
            forall|q: int|
                0 <= q < k && (#[trigger] maxima@[q]).1 > 0 ==> bins@[q].0 <= maxima@[q].0 < bins@[q].1
                    && col@[maxima@[q].0 as int] == maxima@[q].1,
            k > 0 ==> row_idx == maxima@.last().0,
            k == 0 ==> row_idx == 0,
        decreases bins@.len() - k,
    {
        let (start, end) = bins[k];
        let ghost row0 = row_idx;
        let mut max: u64 = 0;
        let mut idx = start;
        while idx < end
            invariant
                start <= idx <= end <= col@.len(),
                (row_idx, max) == scan_max(col@, start as int, idx as int, row0),
                forall|x: int| start <= x < idx ==> #[trigger] col@[x] <= max,
                max > 0 ==> start <= row_idx < idx && col@[row_idx as int] == max,
            decreases end - idx,
        {
            let val = col[idx];
            if val > max {
                max = val;
                row_idx = idx;
            }
            idx = idx + 1;
        }
        maxima.push((row_idx, max));
        k = k + 1;
    }
    maxima
}

/// Why the peaks of a spectrogram column could not be placed: a maximum's
/// row has no frequency, or the column has no time.
#[derive(Debug, Clone, Copy, PartialEq, Eq, Structural)]
pub enum PeakLookupError {
    FrequencyRow,
    TimeColumn,
}

/// The lookup error of column `c`, checking its bands in order, the
/// frequency of each band's row before the column's time.
pub open spec fn column_lookup_error(
    maxima: Seq<Seq<(usize, u64)>>,
    times: Seq<u64>,
    freqs: Seq<u32>,
    bands: int,
    c: int,
) -> Option<PeakLookupError> {
    if bands <= 0 {
        None
    } else if maxima[c][0].0 >= freqs.len() {
        Some(PeakLookupError::FrequencyRow)
    } else if c >= times.len() {
        Some(PeakLookupError::TimeColumn)
    } else if exists|b: int| 0 <= b < bands && #[trigger] maxima[c][b].0 >= freqs.len() {
        Some(PeakLookupError::FrequencyRow)
    } else {
        None
    }
}

/// The first lookup error among the first `m` columns.
pub open spec fn first_lookup_error(
    maxima: Seq<Seq<(usize, u64)>>,
    times: Seq<u64>,
    freqs: Seq<u32>,
    bands: int,
    m: int,
) -> Option<PeakLookupError>
    decreases m,
{
    if m <= 0 {
        None
    } else {
        match first_lookup_error(maxima, times, freqs, bands, m - 1) {
            Some(e) => Some(e),
            None => column_lookup_error(maxima, times, freqs, bands, m - 1),
        }
    }
}

proof fn lemma_first_lookup_error_stays(
    maxima: Seq<Seq<(usize, u64)>>,
    times: Seq<u64>,
    freqs: Seq<u32>,
    bands: int,
    m: int,
    k: int,
)
    requires
        0 <= m <= k,
        first_lookup_error(maxima, times, freqs, bands, m) is Some,
    ensures
        first_lookup_error(maxima, times, freqs, bands, k) == first_lookup_error(maxima, times, freqs, bands, m),
    decreases k - m,
{
    if k > m {
        lemma_first_lookup_error_stays(maxima, times, freqs, bands, m, k - 1);
    }
}

/// Gathers the per-column band maxima into one peak list per band.
/// `maxima[c]` holds the (row, power key) maximum of each of the `bands`
/// bands of column `c`; band `b`'s list has one peak per column, in column
/// order, at that column's time and its row's frequency.  The first column,
/// in order, whose row or time cannot be looked up gives the error.
pub fn band_peaks(maxima: &Vec<Vec<(usize, u64)>>, times: &Vec<u64>, freqs: &Vec<u32>, bands: usize) -> (out: Result<
    Vec<Vec<Peak>>,
    PeakLookupError,
>)
    requires
        forall|c: int| 0 <= c < maxima@.len() ==> (#[trigger] maxima@[c])@.len() >= bands,
    ensures
        match first_lookup_error(
            maxima@.map_values(|col: Vec<(usize, u64)>| col@),
            times@,
            freqs@,
            bands as int,
            maxima@.len() as int,
        ) {
            Some(e) => out == Err::<Vec<Vec<Peak>>, PeakLookupError>(e),
            None => out matches Ok(v) && v@.len() == bands && (forall|b: int|
                0 <= b < bands ==> (#[trigger] v@[b])@.len() == maxima@.len()) && forall|b: int, c: int|
                0 <= b < bands && 0 <= c < maxima@.len() ==> {
                    &&& (#[trigger] v@[b]@[c]).spec_time() == times@[c]
                    &&& v@[b]@[c].spec_frequency() == freqs@[maxima@[c]@[b].0 as int]
                    &&& v@[b]@[c].spec_amplitude() == maxima@[c]@[b].1
                },
        },
{
    let ghost mx = maxima@.map_values(|col: Vec<(usize, u64)>| col@);
    let mut c: usize = 0;
    while c < maxima.len()
        invariant
            mx == maxima@.map_values(|col: Vec<(usize, u64)>| col@),
            forall|q: int| 0 <= q < maxima@.len() ==> (#[trigger] maxima@[q])@.len() >= bands,
            c <= maxima@.len(),
            first_lookup_error(mx, times@, freqs@, bands as int, c as int) is None,
            forall|q: int, b: int|
                0 <= q < c && 0 <= b < bands ==> (#[trigger] mx[q][b]).0 < freqs@.len() && q < times@.len(),
        decreases maxima@.len() - c,
    {
        let col = &maxima[c];
        assert(mx[c as int] == col@);
        let mut b: usize = 0;
        while b < bands
            invariant
                mx == maxima@.map_values(|col: Vec<(usize, u64)>| col@),
                c < maxima@.len(),
                first_lookup_error(mx, times@, freqs@, bands as int, c as int) is None,
                mx[c as int] == col@,
                col@.len() >= bands,
                b <= bands,
                forall|q: int| 0 <= q < b ==> (#[trigger] col@[q]).0 < freqs@.len(),
                b > 0 ==> c < times@.len(),
            decreases bands - b,
        {
            if col[b].0 >= freqs.len() {
                proof {
                    if b > 0 {
                        assert(col@[0].0 < freqs@.len());
                        assert(mx[c as int][b as int].0 >= freqs@.len());
                    }
                    assert(column_lookup_error(mx, times@, freqs@, bands as int, c as int) == Some(
                        PeakLookupError::FrequencyRow,
                    ));
                }
                proof {
                    lemma_first_lookup_error_stays(mx, times@, freqs@, bands as int, c + 1, maxima@.len() as int);
                }
                return Err(PeakLookupError::FrequencyRow);
            }
            if c >= times.len() {
                assert(column_lookup_error(mx, times@, freqs@, bands as int, c as int) == Some(
                    PeakLookupError::TimeColumn,
                ));
                proof {
                    lemma_first_lookup_error_stays(mx, times@, freqs@, bands as int, c + 1, maxima@.len() as int);
                }
                return Err(PeakLookupError::TimeColumn);
            }
            b = b + 1;
        }
        assert(column_lookup_error(mx, times@, freqs@, bands as int, c as int) is None);
        c = c + 1;
    }
    let mut out: Vec<Vec<Peak>> = Vec::new();
    let mut b: usize = 0;
    while b < bands
        invariant
            mx == maxima@.map_values(|col: Vec<(usize, u64)>| col@),
            first_lookup_error(mx, times@, freqs@, bands as int, maxima@.len() as int) is None,
            forall|q: int| 0 <= q < maxima@.len() ==> (#[trigger] maxima@[q])@.len() >= bands,
            forall|q: int, k: int|
                0 <= q < maxima@.len() && 0 <= k < bands ==> (#[trigger] mx[q][k]).0 < freqs@.len() && q
                    < times@.len(),
            b <= bands,
            out@.len() == b,
            forall|k: int| 0 <= k < b ==> (#[trigger] out@[k])@.len() == maxima@.len(),
            forall|k: int, q: int|
                0 <= k < b && 0 <= q < maxima@.len() ==> {
                    &&& (#[trigger] out@[k]@[q]).spec_time() == times@[q]
                    &&& out@[k]@[q].spec_frequency() == freqs@[maxima@[q]@[k].0 as int]
                    &&& out@[k]@[q].spec_amplitude() == maxima@[q]@[k].1
                },
        decreases bands - b,
    {
        let mut band: Vec<Peak> = Vec::new();
        let mut q: usize = 0;
        while q < maxima.len()
            invariant
                mx == maxima@.map_values(|col: Vec<(usize, u64)>| col@),
                forall|r: int| 0 <= r < maxima@.len() ==> (#[trigger] maxima@[r])@.len() >= bands,
                forall|r: int, k: int|
                    0 <= r < maxima@.len() && 0 <= k < bands ==> (#[trigger] mx[r][k]).0 < freqs@.len() && r
                        < times@.len(),
                b < bands,
                q <= maxima@.len(),
                band@.len() == q,
                forall|r: int|
                    0 <= r < q ==> {
                        &&& (#[trigger] band@[r]).spec_time() == times@[r]
                        &&& band@[r].spec_frequency() == freqs@[maxima@[r]@[b as int].0 as int]
                        &&& band@[r].spec_amplitude() == maxima@[r]@[b as int].1
                    },
            decreases maxima@.len() - q,
        {
            let (row, max) = maxima[q][b];
            assert(mx[q as int][b as int] == maxima@[q as int]@[b as int]);
            let peak = Peak::new(times[q], freqs[row], max);
            band.push(peak);
            q = q + 1;
        }
        let ghost prev = out@;
        out.push(band);
        assert forall|k: int| 0 <= k < b + 1 implies (#[trigger] out@[k])@.len() == maxima@.len() by {
            if k < b {
                assert(out@[k] == prev[k]);
            }
        }
        assert forall|k: int, q: int| 0 <= k < b + 1 && 0 <= q < maxima@.len() implies {
            &&& (#[trigger] out@[k]@[q]).spec_time() == times@[q]
            &&& out@[k]@[q].spec_frequency() == freqs@[maxima@[q]@[k].0 as int]
            &&& out@[k]@[q].spec_amplitude() == maxima@[q]@[k].1
        } by {
            if k < b {
                assert(out@[k] == prev[k]);
                assert(out@[k]@[q] == prev[k]@[q]);
            } else {
                assert(out@[k] == band);
                assert(out@[k]@[q] == band@[q]);
            }
        }
        b = b + 1;
    }
    Ok(out)
}

/// The peaks' times, as sort keys.
pub open spec fn peak_time_keys(peaks: Seq<Peak>) -> Seq<u128> {
    peaks.map_values(|p: Peak| p.spec_time() as u128)
}

/// The peaks ordered by time, earlier first; peaks with equal times keep
/// their order.
pub fn sort_peaks_by_time(peaks: &Vec<Peak>) -> (sorted: Vec<Peak>)
    ensures
        sorted@ == stable_order_of(peak_time_keys(peaks@), false).map_values(|p: usize| peaks@[p as int]),
        sorted@.len() == peaks@.len(),
        forall|i: int, j: int|
            0 <= i < j < sorted@.len() ==> (#[trigger] sorted@[i]).spec_time() <= (#[trigger] sorted@[j]).spec_time(),
{
    let mut keys: Vec<u128> = Vec::new();
    let mut i: usize = 0;
    while i < peaks.len()
        invariant
            i <= peaks@.len(),
            keys@ == peak_time_keys(peaks@.take(i as int)),
        decreases peaks@.len() - i,
    {
        keys.push(peaks[i].time() as u128);
        assert(peak_time_keys(peaks@.take(i as int + 1)) =~= peak_time_keys(peaks@.take(i as int)).push(
            peaks@[i as int].spec_time() as u128,
        ));
        i = i + 1;
    }
    assert(peaks@.take(peaks@.len() as int) =~= peaks@);
    let order = stable_order(&keys, false);
    let ghost want = order@.map_values(|p: usize| peaks@[p as int]);
    let mut sorted: Vec<Peak> = Vec::new();
    let mut q: usize = 0;
    while q < order.len()
        invariant
            order@.len() == peaks@.len(),
            forall|r: int| 0 <= r < order@.len() ==> #[trigger] order@[r] < peaks@.len(),
            want == order@.map_values(|p: usize| peaks@[p as int]),
            q <= order@.len(),
            sorted@ == want.take(q as int),
        decreases order@.len() - q,
    {
        sorted.push(peaks[order[q]]);
        assert(want.take(q as int + 1) =~= want.take(q as int).push(want[q as int]));
        q = q + 1;
    }
    assert(want.take(order@.len() as int) =~= want);
    assert forall|i: int, j: int| 0 <= i < j < sorted@.len() implies (#[trigger] sorted@[i]).spec_time()
        <= (#[trigger] sorted@[j]).spec_time() by {
        assert(precedes(keys@, false, order@[i] as int, order@[j] as int));
    }
    sorted
}

} // verus!
