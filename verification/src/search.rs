use std::collections::HashMap;
use vstd::prelude::*;

use crate::fingerprint::Fingerprint;
use crate::order::{lemma_stable_order_exists, precedes, stable_order, stable_order_of};
use crate::shazam::{has_preimage, lemma_strictly_sorted_equal};
use crate::peak::abs_diff;

verus! {

broadcast use vstd::std_specs::hash::group_hash_axioms;

/// How many songs, those with the most matching fingerprints, go on to the
/// time-coherence ranking.
pub const TOP_SONGS: usize = 5;

/// Two consecutive matches are time-coherent when the gap between their
/// anchors in the song and the gap between the same hashes in the recording
/// differ by less than this many microseconds (0.1 s).
pub const COHERENCE_TOLERANCE_US: u64 = 100_000;

/// The song identifiers of `rows`, each once, in order of first appearance.
pub open spec fn matched_ids(rows: Seq<Fingerprint>) -> Seq<i64>
    decreases rows.len(),
{
    if rows.len() == 0 {
        Seq::empty()
    } else {
        let prev = matched_ids(rows.drop_last());
        if prev.contains(rows.last().spec_song_id()) {
            prev
        } else {
            prev.push(rows.last().spec_song_id())
        }
    }
}

/// The rows of `rows` that belong to song `id`, in order.
pub open spec fn rows_of(rows: Seq<Fingerprint>, id: i64) -> Seq<Fingerprint>
    decreases rows.len(),
{
    if rows.len() == 0 {
        Seq::empty()
    } else {
        let prev = rows_of(rows.drop_last(), id);
        if rows.last().spec_song_id() == id {
            prev.push(rows.last())
        } else {
            prev
        }
    }
}

/// The anchor times of fingerprints, as sort keys.
pub open spec fn anchor_time_keys(fps: Seq<Fingerprint>) -> Seq<u128> {
    fps.map_values(|f: Fingerprint| f.spec_anchor_time() as u128)
}

/// Fingerprints ordered by anchor time, equal times keeping their order.
pub open spec fn sorted_by_anchor_time(fps: Seq<Fingerprint>) -> Seq<Fingerprint> {
    stable_order_of(anchor_time_keys(fps), false).map_values(|p: usize| fps[p as int])
}

/// Both hashes of the consecutive pair at `i` occur in the recording.
pub open spec fn pair_found(recording: Map<u32, u64>, s: Seq<Fingerprint>, i: int) -> bool {
    recording.contains_key(s[i].spec_hash()) && recording.contains_key(s[i + 1].spec_hash())
}

/// The consecutive pair at `i` is time-coherent with the recording.
pub open spec fn pair_coherent(recording: Map<u32, u64>, s: Seq<Fingerprint>, i: int) -> bool {
    let song_gap = abs_diff(s[i + 1].spec_anchor_time() as int, s[i].spec_anchor_time() as int);
    let rec_gap = abs_diff(
        recording[s[i + 1].spec_hash()] as int,
        recording[s[i].spec_hash()] as int,
    );
    abs_diff(song_gap, rec_gap) < COHERENCE_TOLERANCE_US
}

/// How many of the consecutive pairs `0..m` are time-coherent.
pub open spec fn coherent_count(recording: Map<u32, u64>, s: Seq<Fingerprint>, m: int) -> nat
    decreases m,
{
    if m <= 0 {
        0
    } else {
        coherent_count(recording, s, m - 1) + if pair_coherent(recording, s, m - 1) {
            1nat
        } else {
            0nat
        }
    }
}

/// The time-coherence score of one song's matches: after ordering them by
/// anchor time, the number of consecutive pairs whose gap agrees with the
/// recording's; `None` when some pair's hash is missing from the recording.
pub open spec fn coherence_score(recording: Map<u32, u64>, fps: Seq<Fingerprint>) -> Option<nat> {
    let s = sorted_by_anchor_time(fps);
    if forall|i: int| 0 <= i < s.len() - 1 ==> #[trigger] pair_found(recording, s, i) {
        Some(coherent_count(recording, s, s.len() - 1))
    } else {
        None
    }
}

/// The songs with the most matching rows, most first (first seen first
/// among equal counts), at most `TOP_SONGS` of them.
pub open spec fn top_songs(rows: Seq<Fingerprint>) -> Seq<i64> {
    let ids = matched_ids(rows);
    let counts = ids.map_values(|id: i64| rows_of(rows, id).len() as u128);
    let k = if TOP_SONGS < ids.len() {
        TOP_SONGS as int
    } else {
        ids.len() as int
    };
    stable_order_of(counts, true).take(k).map_values(|p: usize| ids[p as int])
}

/// The final ranking: the top songs ordered by time-coherence score, highest
/// first (higher match count first among equal scores); `None` when a top
/// song's score cannot be computed.
pub open spec fn ranking(recording: Map<u32, u64>, rows: Seq<Fingerprint>) -> Option<Seq<i64>> {
    let top = top_songs(rows);
    if forall|k: int| 0 <= k < top.len() ==> #[trigger] coherence_score(recording, rows_of(rows, top[k])) is Some {
        let scores = top.map_values(|id: i64| coherence_score(recording, rows_of(rows, id))->0 as u128);
        Some(stable_order_of(scores, true).map_values(|p: usize| top[p as int]))
    } else {
        None
    }
}

/// The matched identifiers are distinct, and are exactly the song
/// identifiers that occur in the rows.
pub proof fn lemma_matched_ids(rows: Seq<Fingerprint>)
    ensures
        forall|a: int, b: int|
            0 <= a < b < matched_ids(rows).len() ==> #[trigger] matched_ids(rows)[a] != #[trigger] matched_ids(
                rows,
            )[b],
        forall|r: int| 0 <= r < rows.len() ==> matched_ids(rows).contains(#[trigger] rows[r].spec_song_id()),
        forall|k: int|
            0 <= k < matched_ids(rows).len() ==> exists|r: int|
                0 <= r < rows.len() && #[trigger] rows[r].spec_song_id() == #[trigger] matched_ids(rows)[k],
    decreases rows.len(),
{
    if rows.len() > 0 {
        let pr = rows.drop_last();
        lemma_matched_ids(pr);
        let prev = matched_ids(pr);
        let ids = matched_ids(rows);
        let last = rows.last().spec_song_id();
        assert forall|r: int| 0 <= r < rows.len() implies ids.contains(#[trigger] rows[r].spec_song_id()) by {
            if r < rows.len() - 1 {
                assert(pr[r] == rows[r]);
                assert(prev.contains(pr[r].spec_song_id()));
                let k = choose|k: int| 0 <= k < prev.len() && prev[k] == pr[r].spec_song_id();
                assert(ids[k] == prev[k]);
            } else {
                if prev.contains(last) {
                } else {
                    assert(ids[ids.len() - 1] == last);
                }
            }
        }
        assert forall|k: int| 0 <= k < ids.len() implies exists|r: int|
            0 <= r < rows.len() && #[trigger] rows[r].spec_song_id() == #[trigger] ids[k] by {
            if k < prev.len() {
                assert(ids[k] == prev[k]);
                let r = choose|r: int| 0 <= r < pr.len() && #[trigger] pr[r].spec_song_id() == prev[k];
                assert(rows[r] == pr[r]);
            } else {
                assert(rows[rows.len() - 1].spec_song_id() == ids[k]);
            }
        }
    }
}

/// `other` lists the fingerprints of `fps` in another order:
/// `other[k] == fps[perm[k]]` for a one-to-one, onto `perm`.
pub open spec fn is_fingerprint_permutation(other: Seq<Fingerprint>, fps: Seq<Fingerprint>, perm: Seq<int>) -> bool {
    &&& other.len() == fps.len()
    &&& perm.len() == fps.len()
    &&& forall|k: int| 0 <= k < perm.len() ==> 0 <= #[trigger] perm[k] < fps.len() && other[k] == fps[perm[k]]
    &&& forall|k1: int, k2: int| 0 <= k1 < perm.len() && 0 <= k2 < perm.len() && k1 != k2 ==> #[trigger] perm[k1]
        != #[trigger] perm[k2]
    &&& forall|m: int| 0 <= m < fps.len() ==> #[trigger] has_preimage(perm, m)
}

/// A song's time-coherence score does not depend on the order in which its
/// matches arrive: scoring looks at the matches in anchor-time order, so
/// any reordering of matches with distinct anchor times scores the same.
pub proof fn lemma_coherence_score_ignores_order(
    recording: Map<u32, u64>,
    fps: Seq<Fingerprint>,
    other: Seq<Fingerprint>,
    perm: Seq<int>,
)
    requires
        is_fingerprint_permutation(other, fps, perm),
        fps.len() <= usize::MAX,
        forall|a: int, b: int|
            0 <= a < fps.len() && 0 <= b < fps.len() && a != b ==> (#[trigger] fps[a]).spec_anchor_time() != (
            #[trigger] fps[b]).spec_anchor_time(),
    ensures
        coherence_score(recording, other) == coherence_score(recording, fps),
{
    let n = fps.len() as int;
    let ko = anchor_time_keys(fps);
    let kq = anchor_time_keys(other);
    lemma_stable_order_exists(ko, false);
    lemma_stable_order_exists(kq, false);
    let o = stable_order_of(ko, false);
    let oq = stable_order_of(kq, false);
    let sp = sorted_by_anchor_time(fps);
    let sq = sorted_by_anchor_time(other);
    let tp = o.map_values(|p: usize| ko[p as int]);
    let tq = oq.map_values(|p: usize| kq[p as int]);
    assert forall|x: int| 0 <= x < n implies (#[trigger] other[x]).spec_anchor_time() == fps[perm[x]].spec_anchor_time()
        by {
        assert(other[x] == fps[perm[x]]);
    }
    assert forall|r1: int, r2: int| 0 <= r1 < r2 < tp.len() implies #[trigger] tp[r1] < #[trigger] tp[r2] by {
        assert(precedes(ko, false, o[r1] as int, o[r2] as int));
        assert(o[r1] != o[r2]);
        assert(o[r1] < n && o[r2] < n);
        assert(fps[o[r1] as int].spec_anchor_time() != fps[o[r2] as int].spec_anchor_time());
    }
    assert forall|r1: int, r2: int| 0 <= r1 < r2 < tq.len() implies #[trigger] tq[r1] < #[trigger] tq[r2] by {
        assert(precedes(kq, false, oq[r1] as int, oq[r2] as int));
        let x1 = oq[r1] as int;
        let x2 = oq[r2] as int;
        assert(x1 != x2 && x1 < n && x2 < n);
        assert(perm[x1] != perm[x2]);
        assert(other[x1] == fps[perm[x1]] && other[x2] == fps[perm[x2]]);
        assert(fps[perm[x1]].spec_anchor_time() != fps[perm[x2]].spec_anchor_time());
    }
    assert forall|v: u128| tq.contains(v) <==> tp.contains(v) by {
        if tq.contains(v) {
            let r = choose|r: int| 0 <= r < tq.len() && tq[r] == v;
            let x = oq[r] as int;
            assert(x < n);
            assert(other[x] == fps[perm[x]]);
            let y = perm[x];
            assert(o.contains(y as usize));
            let r2 = choose|r2: int| 0 <= r2 < o.len() && o[r2] == y as usize;
            assert(tp[r2] == v);
        }
        if tp.contains(v) {
            let r = choose|r: int| 0 <= r < tp.len() && tp[r] == v;
            let y = o[r] as int;
            assert(y < n);
            assert(has_preimage(perm, y));
            let x = choose|x: int| 0 <= x < perm.len() && #[trigger] perm[x] == y;
            assert(other[x] == fps[y]);
            assert(oq.contains(x as usize));
            let r2 = choose|r2: int| 0 <= r2 < oq.len() && oq[r2] == x as usize;
            assert(tq[r2] == v);
        }
    }
    lemma_strictly_sorted_equal(tq, tp);
    assert forall|r: int| 0 <= r < sq.len() implies sq[r] == sp[r] by {
        let x = oq[r] as int;
        let y = o[r] as int;
        assert(x < n && y < n);
        assert(sq[r] == other[x]);
        assert(sp[r] == fps[y]);
        assert(other[x] == fps[perm[x]]);
        assert(tq[r] == tp[r]);
        assert(fps[perm[x]].spec_anchor_time() == fps[y].spec_anchor_time());
        assert(perm[x] == y);
    }
    assert(sq =~= sp);
}

/// Two matches score one when both hashes occur in the recording and the
/// gap between their anchors in the song differs from the gap between
/// their hashes in the recording by less than 0.1 s, zero when it differs
/// by more, and cannot be scored when a hash is missing; in whichever order
/// they come.
pub proof fn lemma_coherence_score_of_two(recording: Map<u32, u64>, f1: Fingerprint, f2: Fingerprint)
    ensures
        ({
            let song_gap = abs_diff(f2.spec_anchor_time() as int, f1.spec_anchor_time() as int);
            let found = recording.contains_key(f1.spec_hash()) && recording.contains_key(f2.spec_hash());
            let rec_gap = abs_diff(recording[f2.spec_hash()] as int, recording[f1.spec_hash()] as int);
            coherence_score(recording, seq![f1, f2]) == if !found {
                None
            } else if abs_diff(song_gap, rec_gap) < 100_000 {
                Some(1nat)
            } else {
                Some(0nat)
            }
        }),
{
    let fps = seq![f1, f2];
    let keys = anchor_time_keys(fps);
    lemma_stable_order_exists(keys, false);
    let o = stable_order_of(keys, false);
    assert(o.len() == 2);
    assert(keys.len() == 2);
    assert(o.contains((0int) as usize) && o.contains((1int) as usize));
    assert(o[0] != o[1]) by {
        assert(precedes(keys, false, o[0] as int, o[1] as int));
    }
    let sp = sorted_by_anchor_time(fps);
    assert(sp.len() == 2);
    assert((sp[0] == f1 && sp[1] == f2) || (sp[0] == f2 && sp[1] == f1)) by {
        if o[0] == 0 {
            assert(o[1] == 1);
        } else {
            assert(o[0] == 1 && o[1] == 0);
        }
    }
    assert(coherent_count(recording, sp, 1) == coherent_count(recording, sp, 0) + if pair_coherent(
        recording,
        sp,
        0,
    ) {
        1nat
    } else {
        0nat
    });
    if recording.contains_key(f1.spec_hash()) && recording.contains_key(f2.spec_hash()) {
        assert forall|i: int| 0 <= i < sp.len() - 1 implies #[trigger] pair_found(recording, sp, i) by {
            assert(i == 0);
        }
    } else {
        assert(!pair_found(recording, sp, 0));
    }
}

fn contains_id(ids: &Vec<i64>, id: i64) -> (b: bool)
    ensures
        b == ids@.contains(id),
{
    let mut i: usize = 0;
    while i < ids.len()
        invariant
            i <= ids@.len(),
            forall|k: int| 0 <= k < i ==> ids@[k] != id,
        decreases ids@.len() - i,
    {
        if ids[i] == id {
            return true;
        }
        i = i + 1;
    }
    false
}

/// The song identifiers of the matched rows, each once, in order of first
/// appearance.
pub fn matched_song_ids(rows: &Vec<Fingerprint>) -> (ids: Vec<i64>)
    ensures
        ids@ == matched_ids(rows@),
{
    let mut ids: Vec<i64> = Vec::new();
    let mut i: usize = 0;
    while i < rows.len()
        invariant
            i <= rows@.len(),
            ids@ == matched_ids(rows@.take(i as int)),
        decreases rows@.len() - i,
    {
        let id = rows[i].song_id();
        assert(rows@.take(i as int + 1).drop_last() =~= rows@.take(i as int));
        if !contains_id(&ids, id) {
            ids.push(id);
        }
        i = i + 1;
    }
    assert(rows@.take(rows@.len() as int) =~= rows@);
    ids
}

/// The matched rows of song `id`, in order.
pub fn rows_for_song(rows: &Vec<Fingerprint>, id: i64) -> (out: Vec<Fingerprint>)
    ensures
        out@ == rows_of(rows@, id),
{
    let mut out: Vec<Fingerprint> = Vec::new();
    let mut i: usize = 0;
    while i < rows.len()
        invariant
            i <= rows@.len(),
            out@ == rows_of(rows@.take(i as int), id),
        decreases rows@.len() - i,
    {
        assert(rows@.take(i as int + 1).drop_last() =~= rows@.take(i as int));
        if rows[i].song_id() == id {
            out.push(rows[i]);
        }
        i = i + 1;
    }
    assert(rows@.take(rows@.len() as int) =~= rows@);
    out
}

/// Orders fingerprints by anchor time, equal times keeping their order.
pub fn sort_by_anchor_time(fps: &Vec<Fingerprint>) -> (sorted: Vec<Fingerprint>)
    ensures
        sorted@ == sorted_by_anchor_time(fps@),
        sorted@.len() == fps@.len(),
        forall|i: int, j: int|
            0 <= i < j < sorted@.len() ==> (#[trigger] sorted@[i]).spec_anchor_time() <= (
            #[trigger] sorted@[j]).spec_anchor_time(),
{
    let mut keys: Vec<u128> = Vec::new();
    let mut i: usize = 0;
    while i < fps.len()
        invariant
            i <= fps@.len(),
            keys@ == anchor_time_keys(fps@.take(i as int)),
        decreases fps@.len() - i,
    {
        keys.push(fps[i].anchor_time() as u128);
        assert(anchor_time_keys(fps@.take(i as int + 1)) =~= anchor_time_keys(fps@.take(i as int)).push(
            fps@[i as int].spec_anchor_time() as u128,
        ));
        i = i + 1;
    }
    assert(fps@.take(fps@.len() as int) =~= fps@);
    let order = stable_order(&keys, false);
    let ghost want = order@.map_values(|p: usize| fps@[p as int]);
    let mut sorted: Vec<Fingerprint> = Vec::new();
    let mut q: usize = 0;
    while q < order.len()
        invariant
            order@.len() == fps@.len(),
            forall|r: int| 0 <= r < order@.len() ==> #[trigger] order@[r] < fps@.len(),
            want == order@.map_values(|p: usize| fps@[p as int]),
            q <= order@.len(),
            sorted@ == want.take(q as int),
        decreases order@.len() - q,
    {
        sorted.push(fps[order[q]]);
        assert(want.take(q as int + 1) =~= want.take(q as int).push(want[q as int]));
        q = q + 1;
    }
    assert(want.take(order@.len() as int) =~= want);
    assert forall|i: int, j: int| 0 <= i < j < sorted@.len() implies (#[trigger] sorted@[i]).spec_anchor_time()
        <= (#[trigger] sorted@[j]).spec_anchor_time() by {
        assert(precedes(keys@, false, order@[i] as int, order@[j] as int));
    }
    sorted
}

/// The time-coherence score of one song's matched fingerprints against the
/// recording's fingerprint table (hash to anchor time), see
/// `coherence_score`.
pub fn time_coherence_score(recording: &HashMap<u32, u64>, fps: &Vec<Fingerprint>) -> (score: Option<usize>)
    ensures
        match coherence_score(recording@, fps@) {
            Some(c) => score matches Some(v) && v as nat == c,
            None => score is None,
        },
{
    let s = sort_by_anchor_time(fps);
    let ghost ss = s@;
    if s.len() == 0 {
        assert(coherent_count(recording@, ss, -1) == 0);
        return Some(0);
    }
    let mut score: usize = 0;
    let mut i: usize = 0;
    let n = s.len();
    while i + 1 < n
        invariant
            n == ss.len(),
            ss == s@,
            ss == sorted_by_anchor_time(fps@),
            ss.len() >= 1,
            i + 1 <= ss.len(),
            score == coherent_count(recording@, ss, i as int),
            score <= i,
            forall|k: int| 0 <= k < i ==> #[trigger] pair_found(recording@, ss, k),
        decreases ss.len() - i,
    {
        let f1 = s[i];
        let f2 = s[i + 1];
        let tk1 = match recording.get(&f1.hash()) {
            Some(t) => *t,
            None => {
                assert(!pair_found(recording@, ss, i as int));
                return None;
            },
        };
        let tk2 = match recording.get(&f2.hash()) {
            Some(t) => *t,
            None => {
                assert(!pair_found(recording@, ss, i as int));
                return None;
            },
        };
        assert(pair_found(recording@, ss, i as int));
        let a1 = f1.anchor_time();
        let a2 = f2.anchor_time();
        let song_gap: u64 = if a2 >= a1 {
            a2 - a1
        } else {
            a1 - a2
        };
        let rec_gap: u64 = if tk2 >= tk1 {
            tk2 - tk1
        } else {
            tk1 - tk2
        };
        let dt: u64 = if song_gap >= rec_gap {
            song_gap - rec_gap
        } else {
            rec_gap - song_gap
        };
        if dt < COHERENCE_TOLERANCE_US {
            score = score + 1;
        }
        i = i + 1;
    }
    Some(score)
}

/// Ranks the songs that a recording matched.  `recording` is the
/// recording's fingerprint table (hash to anchor time); `matches` are the
/// stored fingerprints whose hash occurs in it, in the order the database
/// returned them.  The songs with the most matches, at most `TOP_SONGS`,
/// are ordered by their time-coherence score, best first (see `ranking`).
pub fn rank_songs(recording: &HashMap<u32, u64>, matches: &Vec<Fingerprint>) -> (ranked: Option<Vec<i64>>)
    ensures
        match ranking(recording@, matches@) {
            Some(r) => ranked matches Some(v) && v@ == r,
            None => ranked is None,
        },
        ranked matches Some(v) ==> {
            &&& v@.len() == if TOP_SONGS < matched_ids(matches@).len() {
                TOP_SONGS as int
            } else {
                matched_ids(matches@).len() as int
            }
            &&& forall|k: int| 0 <= k < v@.len() ==> matched_ids(matches@).contains(#[trigger] v@[k])
            &&& forall|a: int, b: int| 0 <= a < b < v@.len() ==> #[trigger] v@[a] != #[trigger] v@[b]
        },
{
    proof {
        lemma_matched_ids(matches@);
    }
    let ids = matched_song_ids(matches);
    let ghost counts_spec = ids@.map_values(|id: i64| rows_of(matches@, id).len() as u128);
    let mut counts: Vec<u128> = Vec::new();
    let mut k: usize = 0;
    while k < ids.len()
        invariant
            ids@ == matched_ids(matches@),
            counts_spec == ids@.map_values(|id: i64| rows_of(matches@, id).len() as u128),
            k <= ids@.len(),
            counts@ == counts_spec.take(k as int),
        decreases ids@.len() - k,
    {
        let rows = rows_for_song(matches, ids[k]);
        counts.push(rows.len() as u128);
        assert(counts_spec.take(k as int + 1) =~= counts_spec.take(k as int).push(counts_spec[k as int]));
        k = k + 1;
    }
    assert(counts_spec.take(ids@.len() as int) =~= counts_spec);
    let order = stable_order(&counts, true);
    let kk: usize = if TOP_SONGS < ids.len() {
        TOP_SONGS
    } else {
        ids.len()
    };
    let ghost top_spec = top_songs(matches@);
    assert(top_spec == order@.take(kk as int).map_values(|p: usize| ids@[p as int]));
    let mut top: Vec<i64> = Vec::new();
    let mut q: usize = 0;
    while q < kk
        invariant
            ids@ == matched_ids(matches@),
            order@.len() == ids@.len(),
            forall|r: int| 0 <= r < order@.len() ==> #[trigger] order@[r] < ids@.len(),
            kk <= ids@.len(),
            top_spec == order@.take(kk as int).map_values(|p: usize| ids@[p as int]),
            q <= kk,
            top@ == top_spec.take(q as int),
        decreases kk - q,
    {
        top.push(ids[order[q]]);
        assert(top_spec.take(q as int + 1) =~= top_spec.take(q as int).push(top_spec[q as int]));
        q = q + 1;
    }
    assert(top_spec.take(kk as int) =~= top_spec);
    let ghost scores_spec = top_spec.map_values(
        |id: i64| coherence_score(recording@, rows_of(matches@, id))->0 as u128,
    );
    let mut scores: Vec<u128> = Vec::new();
    let mut q: usize = 0;
    while q < top.len()
        invariant
            top@ == top_spec,
            top_spec == top_songs(matches@),
            scores_spec == top_spec.map_values(
                |id: i64| coherence_score(recording@, rows_of(matches@, id))->0 as u128,
            ),
            q <= top@.len(),
            scores@ == scores_spec.take(q as int),
            forall|r: int| 0 <= r < q ==> #[trigger] coherence_score(recording@, rows_of(matches@, top_spec[r])) is Some,
        decreases top@.len() - q,
    {
        let fps = rows_for_song(matches, top[q]);
        match time_coherence_score(recording, &fps) {
            Some(c) => {
                scores.push(c as u128);
            },
            None => {
                assert(coherence_score(recording@, rows_of(matches@, top_spec[q as int])) is None);
                return None;
            },
        }
        assert(scores_spec.take(q as int + 1) =~= scores_spec.take(q as int).push(scores_spec[q as int]));
        q = q + 1;
    }
    assert(scores_spec.take(top@.len() as int) =~= scores_spec);
    let order2 = stable_order(&scores, true);
    let ghost want = order2@.map_values(|p: usize| top_spec[p as int]);
    let mut ranked: Vec<i64> = Vec::new();
    let mut q: usize = 0;
    while q < order2.len()
        invariant
            top@ == top_spec,
            order2@.len() == top@.len(),
            forall|r: int| 0 <= r < order2@.len() ==> #[trigger] order2@[r] < top@.len(),
            want == order2@.map_values(|p: usize| top_spec[p as int]),
            q <= order2@.len(),
            ranked@ == want.take(q as int),
        decreases order2@.len() - q,
    {
        ranked.push(top[order2[q]]);
        assert(want.take(q as int + 1) =~= want.take(q as int).push(want[q as int]));
        q = q + 1;
    }
    assert(want.take(order2@.len() as int) =~= want);
    assert forall|a: int| 0 <= a < top@.len() implies ids@.contains(#[trigger] top@[a]) by {
        assert(top@[a] == ids@[order@[a] as int]);
    }
    assert forall|a: int, b: int| 0 <= a < b < top@.len() implies #[trigger] top@[a] != #[trigger] top@[b] by {
        assert(top@[a] == ids@[order@[a] as int] && top@[b] == ids@[order@[b] as int]);
        assert(precedes(counts@, true, order@[a] as int, order@[b] as int));
        if order@[a] < order@[b] {
            assert(ids@[order@[a] as int] != ids@[order@[b] as int]);
        } else {
            assert(ids@[order@[b] as int] != ids@[order@[a] as int]);
        }
    }
    assert forall|k: int| 0 <= k < ranked@.len() implies matched_ids(matches@).contains(#[trigger] ranked@[k]) by {
        assert(ranked@[k] == top@[order2@[k] as int]);
    }
    assert forall|a: int, b: int| 0 <= a < b < ranked@.len() implies #[trigger] ranked@[a] != #[trigger] ranked@[b] by {
        assert(ranked@[a] == top@[order2@[a] as int] && ranked@[b] == top@[order2@[b] as int]);
        assert(precedes(scores@, true, order2@[a] as int, order2@[b] as int));
        if order2@[a] < order2@[b] {
            assert(top@[order2@[a] as int] != top@[order2@[b] as int]);
        } else {
            assert(top@[order2@[b] as int] != top@[order2@[a] as int]);
        }
    }
    Some(ranked)
}

} // verus!
