//! Stable ordering of positions by an integer key.
use vstd::prelude::*;
use vstd::set_lib::{lemma_int_range, lemma_subset_equality, set_int_range};

verus! {

/// Position `a` comes before `b`: a smaller key, or the same key and an
/// earlier position.
pub open spec fn before(keys: Seq<u128>, a: usize, b: usize) -> bool {
    keys[a as int] < keys[b as int] || (keys[a as int] == keys[b as int] && a < b)
}

/// `ps` lists every position of `keys` once, in the order `before`.
pub open spec fn is_stable_order(keys: Seq<u128>, ps: Seq<usize>) -> bool {
    &&& ps.len() == keys.len()
    &&& forall|i: int| 0 <= i < ps.len() ==> (#[trigger] ps[i]) < keys.len()
    &&& forall|i: int, j: int| 0 <= i < j < ps.len() ==> before(keys, #[trigger] ps[i], #[trigger] ps[j])
}

/// The positions of `keys`, ordered by key; equal keys keep their order.
pub fn stable_order(keys: &Vec<u128>) -> (r: Vec<usize>)
    ensures
        is_stable_order(keys@, r@),
{
    let n = keys.len();
    let mut r: Vec<usize> = Vec::new();
    let mut p: usize = 0;
    while p < n
        invariant
            p <= n,
            n == keys@.len(),
            r@.len() == p,
            forall|i: int| 0 <= i < r@.len() ==> (#[trigger] r@[i]) < p,
            forall|i: int, j: int| 0 <= i < j < r@.len() ==> before(keys@, #[trigger] r@[i], #[trigger] r@[j]),
        decreases n - p,
    {
        let mut q: usize = 0;
        while q < r.len() && keys[r[q]] <= keys[p]
            invariant
                q <= r@.len(),
                p < n,
                n == keys@.len(),
                forall|i: int| 0 <= i < r@.len() ==> (#[trigger] r@[i]) < p,
                forall|i: int| 0 <= i < q ==> keys@[(#[trigger] r@[i]) as int] <= keys@[p as int],
            decreases r@.len() - q,
        {
            q += 1;
        }
        let ghost old_r = r@;
        r.insert(q, p);
        assert forall|i: int, j: int| 0 <= i < j < r@.len() implies before(keys@, #[trigger] r@[i], #[trigger] r@[j]) by {
            if j < q {
                assert(r@[i] == old_r[i] && r@[j] == old_r[j]);
            } else if j == q {
                assert(r@[i] == old_r[i]);
            } else if i < q {
                assert(r@[i] == old_r[i] && r@[j] == old_r[j - 1]);
            } else if i == q {
                assert(r@[j] == old_r[j - 1]);
                assert(keys@[old_r[q as int] as int] > keys@[p as int]);
                if j - 1 > q {
                    assert(before(keys@, old_r[q as int], old_r[j - 1]));
                }
            } else {
                assert(r@[i] == old_r[i - 1] && r@[j] == old_r[j - 1]);
            }
        }
        assert forall|i: int| 0 <= i < r@.len() implies (#[trigger] r@[i]) < p + 1 by {
            if i < q {
                assert(r@[i] == old_r[i]);
            } else if i > q {
                assert(r@[i] == old_r[i - 1]);
            }
        }
        p += 1;
    }
    r
}

/// A stable order lists every position.
pub proof fn lemma_stable_order_covers(keys: Seq<u128>, qs: Seq<usize>, a: int)
    requires
        is_stable_order(keys, qs),
        0 <= a < keys.len(),
    ensures
        exists|t: int| 0 <= t < qs.len() && qs[t] as int == a,
{
    let n = keys.len() as int;
    let qi = qs.map_values(|x: usize| x as int);
    assert(qi.no_duplicates()) by {
        assert forall|i: int, j: int| 0 <= i < qi.len() && 0 <= j < qi.len() && i != j implies qi[i] != qi[j] by {
            if i < j {
                assert(before(keys, qs[i], qs[j]));
            } else {
                assert(before(keys, qs[j], qs[i]));
            }
        }
    }
    qi.unique_seq_to_set();
    lemma_int_range(0, n);
    assert(qi.to_set().subset_of(set_int_range(0, n))) by {
        assert forall|x: int| qi.to_set().contains(x) implies set_int_range(0, n).contains(x) by {
            let i = choose|i: int| 0 <= i < qi.len() && qi[i] == x;
            assert(qs[i] < keys.len());
        }
    }
    lemma_subset_equality(qi.to_set(), set_int_range(0, n));
    assert(set_int_range(0, n).contains(a));
    assert(qi.to_set().contains(a));
    let t = choose|t: int| 0 <= t < qi.len() && qi[t] == a;
    assert(qs[t] as int == a);
}

proof fn lemma_stable_order_prefix(keys: Seq<u128>, ps: Seq<usize>, qs: Seq<usize>, m: int)
    requires
        is_stable_order(keys, ps),
        is_stable_order(keys, qs),
        0 <= m <= ps.len(),
    ensures
        forall|i: int| 0 <= i < m ==> ps[i] == qs[i],
    decreases m,
{
    if m > 0 {
        lemma_stable_order_prefix(keys, ps, qs, m - 1);
        let k = m - 1;
        let a = ps[k];
        let b = qs[k];
        if a != b {
            if before(keys, a, b) {
                lemma_stable_order_covers(keys, qs, a as int);
                let t = choose|t: int| 0 <= t < qs.len() && qs[t] as int == a as int;
                if t < k {
                    assert(ps[t] == qs[t]);
                    assert(before(keys, ps[t], ps[k]));
                } else {
                    assert(before(keys, qs[k], qs[t]));
                }
            } else {
                lemma_stable_order_covers(keys, ps, b as int);
                let t = choose|t: int| 0 <= t < ps.len() && ps[t] as int == b as int;
                if t < k {
                    assert(ps[t] == qs[t]);
                    assert(before(keys, qs[t], qs[k]));
                } else {
                    assert(before(keys, ps[k], ps[t]));
                }
            }
        }
    }
}

/// There is one stable order of given keys.
pub proof fn lemma_stable_order_unique(keys: Seq<u128>, ps: Seq<usize>, qs: Seq<usize>)
    requires
        is_stable_order(keys, ps),
        is_stable_order(keys, qs),
    ensures
        ps == qs,
{
    lemma_stable_order_prefix(keys, ps, qs, ps.len() as int);
    assert(ps =~= qs);
}

} // verus!
