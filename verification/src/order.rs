use vstd::prelude::*;

verus! {

/// Position `a` comes before position `b` when its key is smaller (larger,
/// when `descending`), and, between equal keys, when it came first.  This is
/// the order that a stable sort by key produces.
pub open spec fn precedes(keys: Seq<u128>, descending: bool, a: int, b: int) -> bool {
    if keys[a] == keys[b] {
        a < b
    } else if descending {
        keys[a] > keys[b]
    } else {
        keys[a] < keys[b]
    }
}

/// `p` lists every position of `keys` exactly once, in stable-sorted order.
pub open spec fn is_stable_order(keys: Seq<u128>, descending: bool, p: Seq<usize>) -> bool {
    &&& p.len() == keys.len()
    &&& forall|i: int| 0 <= i < p.len() ==> #[trigger] p[i] < keys.len()
    &&& forall|x: int| 0 <= x < keys.len() ==> #[trigger] p.contains(x as usize)
    &&& forall|i: int, j: int|
        0 <= i < j < p.len() ==> precedes(keys, descending, #[trigger] p[i] as int, #[trigger] p[j] as int)
}

/// The stable-sorted order of the positions of `keys`.
pub open spec fn stable_order_of(keys: Seq<u128>, descending: bool) -> Seq<usize> {
    choose|p: Seq<usize>| is_stable_order(keys, descending, p)
}

proof fn lemma_sorted_same_elements_equal(keys: Seq<u128>, descending: bool, p: Seq<usize>, q: Seq<usize>)
    requires
        p.len() == q.len(),
        forall|i: int, j: int|
            0 <= i < j < p.len() ==> precedes(keys, descending, #[trigger] p[i] as int, #[trigger] p[j] as int),
        forall|i: int, j: int|
            0 <= i < j < q.len() ==> precedes(keys, descending, #[trigger] q[i] as int, #[trigger] q[j] as int),
        forall|x: usize| p.contains(x) <==> q.contains(x),
    ensures
        p == q,
    decreases p.len(),
{
    if p.len() > 0 {
        assert(p.contains(p[0]));
        assert(q.contains(q[0]));
        let b = choose|b: int| 0 <= b < p.len() && p[b] == q[0];
        let c = choose|c: int| 0 <= c < q.len() && q[c] == p[0];
        if b > 0 && c > 0 {
            assert(precedes(keys, descending, p[0] as int, p[b] as int));
            assert(precedes(keys, descending, q[0] as int, q[c] as int));
            assert(false);
        }
        assert(p[0] == q[0]);
        let pt = p.drop_first();
        let qt = q.drop_first();
        assert forall|x: usize| pt.contains(x) <==> qt.contains(x) by {
            if pt.contains(x) {
                let i = choose|i: int| 0 <= i < pt.len() && pt[i] == x;
                assert(p[i + 1] == x);
                assert(precedes(keys, descending, p[0] as int, p[i + 1] as int));
                assert(p.contains(x));
                let k = choose|k: int| 0 <= k < q.len() && q[k] == x;
                assert(k != 0);
                assert(qt[k - 1] == x);
            }
            if qt.contains(x) {
                let i = choose|i: int| 0 <= i < qt.len() && qt[i] == x;
                assert(q[i + 1] == x);
                assert(precedes(keys, descending, q[0] as int, q[i + 1] as int));
                assert(q.contains(x));
                let k = choose|k: int| 0 <= k < p.len() && p[k] == x;
                assert(k != 0);
                assert(pt[k - 1] == x);
            }
        }
        assert forall|i: int, j: int| 0 <= i < j < pt.len() implies precedes(
            keys,
            descending,
            #[trigger] pt[i] as int,
            #[trigger] pt[j] as int,
        ) by {
            assert(pt[i] == p[i + 1] && pt[j] == p[j + 1]);
        }
        assert forall|i: int, j: int| 0 <= i < j < qt.len() implies precedes(
            keys,
            descending,
            #[trigger] qt[i] as int,
            #[trigger] qt[j] as int,
        ) by {
            assert(qt[i] == q[i + 1] && qt[j] == q[j + 1]);
        }
        lemma_sorted_same_elements_equal(keys, descending, pt, qt);
        assert(p =~= q) by {
            assert forall|i: int| 0 <= i < p.len() implies p[i] == q[i] by {
                if i > 0 {
                    assert(p[i] == pt[i - 1]);
                    assert(q[i] == qt[i - 1]);
                }
            }
        }
    } else {
        assert(p =~= q);
    }
}

/// There is only one stable-sorted order of a key sequence: a stable sort
/// is deterministic.
pub proof fn lemma_stable_order_unique(keys: Seq<u128>, descending: bool, p: Seq<usize>, q: Seq<usize>)
    requires
        is_stable_order(keys, descending, p),
        is_stable_order(keys, descending, q),
    ensures
        p == q,
{
    assert forall|x: usize| p.contains(x) <==> q.contains(x) by {
        if p.contains(x) {
            let i = choose|i: int| 0 <= i < p.len() && p[i] == x;
            assert(p[i] < keys.len());
            assert(q.contains((x as int) as usize));
        }
        if q.contains(x) {
            let i = choose|i: int| 0 <= i < q.len() && q[i] == x;
            assert(q[i] < keys.len());
            assert(p.contains((x as int) as usize));
        }
    }
    lemma_sorted_same_elements_equal(keys, descending, p, q);
}

/// Any stable-sorted order is the one that `stable_order_of` names.
pub proof fn lemma_stable_order_is_named(keys: Seq<u128>, descending: bool, p: Seq<usize>)
    requires
        is_stable_order(keys, descending, p),
    ensures
        stable_order_of(keys, descending) == p,
{
    let q = stable_order_of(keys, descending);
    assert(is_stable_order(keys, descending, q));
    lemma_stable_order_unique(keys, descending, p, q);
}

/// The position at which `i` goes into the sorted sequence `q`: before the
/// first element from `r` on that it precedes, or at the end.
pub open spec fn insert_position(keys: Seq<u128>, descending: bool, q: Seq<usize>, i: int, r: int) -> int
    decreases q.len() - r,
{
    if r >= q.len() || r < 0 {
        q.len() as int
    } else if precedes(keys, descending, i, q[r] as int) {
        r
    } else {
        insert_position(keys, descending, q, i, r + 1)
    }
}

proof fn lemma_insert_position(keys: Seq<u128>, descending: bool, q: Seq<usize>, i: int, r: int)
    requires
        0 <= r <= q.len(),
    ensures
        r <= insert_position(keys, descending, q, i, r) <= q.len(),
        forall|k: int|
            r <= k < insert_position(keys, descending, q, i, r) ==> !precedes(keys, descending, i, #[trigger] q[k] as int),
        insert_position(keys, descending, q, i, r) < q.len() ==> precedes(
            keys,
            descending,
            i,
            q[insert_position(keys, descending, q, i, r)] as int,
        ),
    decreases q.len() - r,
{
    if r < q.len() && !precedes(keys, descending, i, q[r] as int) {
        lemma_insert_position(keys, descending, q, i, r + 1);
    }
}

/// Every key sequence has a stable-sorted order, so `stable_order_of`
/// always names one.
pub proof fn lemma_stable_order_exists(keys: Seq<u128>, descending: bool)
    requires
        keys.len() <= usize::MAX,
    ensures
        is_stable_order(keys, descending, stable_order_of(keys, descending)),
    decreases keys.len(),
{
    let n = keys.len() as int;
    if n == 0 {
        let e = Seq::<usize>::empty();
        assert(is_stable_order(keys, descending, e));
    } else {
        let pk = keys.drop_last();
        lemma_stable_order_exists(pk, descending);
        let q = stable_order_of(pk, descending);
        let i = n - 1;
        lemma_insert_position(keys, descending, q, i, 0);
        let pos = insert_position(keys, descending, q, i, 0);
        let p = q.take(pos).push(i as usize).add(q.skip(pos));
        assert forall|a: int, b: int| 0 <= a < n - 1 && 0 <= b < n - 1 implies precedes(keys, descending, a, b)
            == precedes(pk, descending, a, b) by {
            assert(keys[a] == pk[a] && keys[b] == pk[b]);
        }
        assert forall|k: int| 0 <= k < q.len() implies precedes(keys, descending, #[trigger] q[k] as int, i)
            || precedes(keys, descending, i, q[k] as int) by {
            assert(q[k] < n - 1);
        }
        assert forall|k: int| 0 <= k < p.len() implies #[trigger] p[k] < keys.len() by {
            if k < pos {
                assert(p[k] == q[k]);
            } else if k > pos {
                assert(p[k] == q[k - 1]);
            }
        }
        assert forall|x: int| 0 <= x < keys.len() implies #[trigger] p.contains(x as usize) by {
            if x == i {
                assert(p[pos] == i);
            } else {
                assert(q.contains(x as usize));
                let k = choose|k: int| 0 <= k < q.len() && q[k] == x as usize;
                if k < pos {
                    assert(p[k] == q[k]);
                } else {
                    assert(p[k + 1] == q[k]);
                }
            }
        }
        assert forall|a: int, b: int| 0 <= a < b < p.len() implies precedes(
            keys,
            descending,
            #[trigger] p[a] as int,
            #[trigger] p[b] as int,
        ) by {
            if b < pos {
                assert(p[a] == q[a] && p[b] == q[b]);
                assert(precedes(pk, descending, q[a] as int, q[b] as int));
            } else if b == pos {
                assert(p[a] == q[a]);
                assert(!precedes(keys, descending, i, q[a] as int));
            } else if a > pos {
                assert(p[a] == q[a - 1] && p[b] == q[b - 1]);
                assert(precedes(pk, descending, q[a - 1] as int, q[b - 1] as int));
            } else if a == pos {
                assert(p[b] == q[b - 1]);
                if b - 1 > pos {
                    assert(precedes(pk, descending, q[pos] as int, q[b - 1] as int));
                }
            } else {
                assert(p[a] == q[a] && p[b] == q[b - 1]);
                assert(precedes(pk, descending, q[a] as int, q[b - 1] as int));
            }
        }
        assert(is_stable_order(keys, descending, p));
    }
}

/// A stable order lists the keys sorted: non-decreasing (non-increasing
/// when `descending`).
pub proof fn lemma_stable_order_sorted(keys: Seq<u128>, descending: bool, i: int, j: int)
    requires
        0 <= i < j < keys.len(),
        keys.len() <= usize::MAX,
    ensures
        descending ==> keys[stable_order_of(keys, descending)[i] as int] >= keys[stable_order_of(
            keys,
            descending,
        )[j] as int],
        !descending ==> keys[stable_order_of(keys, descending)[i] as int] <= keys[stable_order_of(
            keys,
            descending,
        )[j] as int],
{
    lemma_stable_order_exists(keys, descending);
    let p = stable_order_of(keys, descending);
    assert(precedes(keys, descending, p[i] as int, p[j] as int));
}

/// The positions of `keys` in stable-sorted order (ascending, or descending
/// when `descending`), as a stable sort by key would arrange them.
pub fn stable_order(keys: &Vec<u128>, descending: bool) -> (p: Vec<usize>)
    ensures
        is_stable_order(keys@, descending, p@),
        p@ == stable_order_of(keys@, descending),
{
    let n = keys.len();
    let mut res: Vec<usize> = Vec::new();
    let mut i: usize = 0;
    while i < n
        invariant
            n == keys.len(),
            i <= n,
            res.len() == i,
            forall|k: int| 0 <= k < res.len() ==> #[trigger] res[k] < i,
            forall|x: int| 0 <= x < i ==> #[trigger] res@.contains(x as usize),
            forall|a: int, b: int|
                0 <= a < b < res.len() ==> precedes(keys@, descending, #[trigger] res[a] as int, #[trigger] res[b] as int),
        decreases n - i,
    {
        let ki = keys[i];
        let mut pos: usize = 0;
        while pos < res.len()
            invariant
                n == keys.len(),
                i < n,
                ki == keys[i as int],
                pos <= res.len(),
                res.len() == i,
                forall|k: int| 0 <= k < res.len() ==> #[trigger] res[k] < i,
                forall|k: int| 0 <= k < pos ==> precedes(keys@, descending, #[trigger] res[k] as int, i as int),
            ensures
                pos <= res.len(),
                forall|k: int| 0 <= k < pos ==> precedes(keys@, descending, #[trigger] res[k] as int, i as int),
                pos < res.len() ==> precedes(keys@, descending, i as int, res[pos as int] as int),
            decreases res.len() - pos,
        {
            let kr = keys[res[pos]];
            let goes_first = if descending { ki > kr } else { ki < kr };
            if goes_first {
                break;
            }
            pos = pos + 1;
        }
        let ghost old_res = res@;
        assert(pos < old_res.len() ==> precedes(keys@, descending, i as int, old_res[pos as int] as int));
        res.insert(pos, i);
        assert(res@ == old_res.take(pos as int).push(i).add(old_res.skip(pos as int)));
        assert forall|k: int| 0 <= k < res.len() implies #[trigger] res[k] < i + 1 by {
            if k < pos {
                assert(res[k] == old_res[k]);
            } else if k > pos {
                assert(res[k] == old_res[k - 1]);
            }
        }
        assert forall|x: int| 0 <= x < i + 1 implies #[trigger] res@.contains(x as usize) by {
            if x == i {
                assert(res[pos as int] == i);
            } else {
                assert(old_res.contains(x as usize));
                let k = choose|k: int| 0 <= k < old_res.len() && old_res[k] == x as usize;
                if k < pos {
                    assert(res[k] == old_res[k]);
                } else {
                    assert(res[k + 1] == old_res[k]);
                }
            }
        }
        assert forall|a: int, b: int| 0 <= a < b < res.len() implies precedes(
            keys@,
            descending,
            #[trigger] res[a] as int,
            #[trigger] res[b] as int,
        ) by {
            if b < pos {
                assert(res[a] == old_res[a] && res[b] == old_res[b]);
            } else if b == pos {
                assert(res[a] == old_res[a]);
            } else if a > pos {
                assert(res[a] == old_res[a - 1] && res[b] == old_res[b - 1]);
            } else if a == pos {
                assert(res[b] == old_res[b - 1]);
                if b - 1 > pos {
                    assert(precedes(keys@, descending, old_res[pos as int] as int, old_res[b - 1] as int));
                }
            } else {
                assert(res[a] == old_res[a] && res[b] == old_res[b - 1]);
            }
        }
        i = i + 1;
    }
    proof {
        lemma_stable_order_is_named(keys@, descending, res@);
    }
    res
}

} // verus!
