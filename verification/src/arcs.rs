use vstd::prelude::*;

verus! {

/// The half-open arc of the circle that starts at `from` and runs forward up to `to`,
/// going past the top of the range and back to zero when `to` is not above `from`.
pub open spec fn arc_contains(from: int, to: int, x: int) -> bool {
    if from < to {
        from <= x && x < to
    } else {
        from <= x || x < to
    }
}

/// Every key is below every later one.
pub open spec fn strictly_increasing(ks: Seq<int>) -> bool {
    forall|i: int, j: int| 0 <= i < j < ks.len() ==> ks[i] < ks[j]
}

/// The position after `p` in a ring of `len` positions.
pub open spec fn next_pos(p: int, len: int) -> int {
    if p + 1 == len {
        0
    } else {
        p + 1
    }
}

/// The position before `p` in a ring of `len` positions.
pub open spec fn prev_pos(p: int, len: int) -> int {
    if p == 0 {
        len - 1
    } else {
        p - 1
    }
}

/// The arc of the ring `ks` that starts at position `p` holds `x`.
pub open spec fn arc_at(ks: Seq<int>, p: int, x: int) -> bool {
    arc_contains(ks[p], ks[next_pos(p, ks.len() as int)], x)
}

/// Position `p` lies in the cyclic range of positions that starts at `i` and stops before `j`.
pub open spec fn in_cyclic_range(i: int, j: int, p: int) -> bool {
    if i <= j {
        i <= p && p < j
    } else {
        p >= i || p < j
    }
}

/// Between two keys of an increasing ring, some arc in between holds `x`.
proof fn lemma_find(ks: Seq<int>, lo: int, hi: int, x: int) -> (q: int)
    requires
        strictly_increasing(ks),
        0 <= lo < hi < ks.len(),
        ks[lo] <= x < ks[hi],
    ensures
        lo <= q < hi,
        ks[q] <= x < ks[q + 1],
    decreases hi - lo,
{
    if x < ks[lo + 1] {
        lo
    } else {
        lemma_find(ks, lo + 1, hi, x)
    }
}

/// The arcs of an increasing ring of at least two keys cover every value.
pub proof fn lemma_arcs_cover(ks: Seq<int>, x: int) -> (p: int)
    requires
        strictly_increasing(ks),
        ks.len() >= 2,
    ensures
        0 <= p < ks.len(),
        arc_at(ks, p, x),
{
    let n = ks.len() as int;
    if x < ks[0] || x >= ks[n - 1] {
        assert(ks[0] < ks[n - 1]);
        n - 1
    } else {
        lemma_find(ks, 0, n - 1, x)
    }
}

/// No two arcs of an increasing ring hold the same value.
pub proof fn lemma_arcs_disjoint(ks: Seq<int>, x: int, p: int, q: int)
    requires
        strictly_increasing(ks),
        ks.len() >= 2,
        0 <= p < ks.len(),
        0 <= q < ks.len(),
        arc_at(ks, p, x),
        arc_at(ks, q, x),
    ensures
        p == q,
{
    let n = ks.len() as int;
    assert(ks[0] < ks[n - 1]);
    if p < q {
        if q == n - 1 {
            assert(ks[0] <= ks[p]);
            assert(ks[p + 1] <= ks[n - 1]);
        } else {
            assert(ks[p + 1] <= ks[q]);
        }
    } else if q < p {
        if p == n - 1 {
            assert(ks[0] <= ks[q]);
            assert(ks[q + 1] <= ks[n - 1]);
        } else {
            assert(ks[q + 1] <= ks[p]);
        }
    }
}

/// Scaling every key by the same positive factor keeps the order.
pub proof fn lemma_scaled_increasing(ks: Seq<int>, n: int)
    requires
        strictly_increasing(ks),
        n > 0,
    ensures
        strictly_increasing(Seq::new(ks.len(), |p: int| ks[p] * n)),
{
    let s = Seq::new(ks.len(), |p: int| ks[p] * n);
    assert forall|i: int, j: int| 0 <= i < j < s.len() implies s[i] < s[j] by {
        let a = ks[i];
        let b = ks[j];
        assert(a * n < b * n) by (nonlinear_arith)
            requires
                a < b,
                n > 0,
        ;
    }
}

/// Keys that increase from each position to the next are strictly increasing.
pub proof fn lemma_steps_increasing(ks: Seq<int>)
    requires
        forall|a: int| 0 <= a < ks.len() - 1 ==> #[trigger] ks[a] < ks[a + 1],
    ensures
        strictly_increasing(ks),
{
    assert forall|i: int, j: int| 0 <= i < j < ks.len() implies ks[i] < ks[j] by {
        lemma_steps_between(ks, i, j);
    }
}

proof fn lemma_steps_between(ks: Seq<int>, i: int, j: int)
    requires
        forall|a: int| 0 <= a < ks.len() - 1 ==> #[trigger] ks[a] < ks[a + 1],
        0 <= i < j < ks.len(),
    ensures
        ks[i] < ks[j],
    decreases j - i,
{
    if j > i + 1 {
        lemma_steps_between(ks, i, j - 1);
        assert(ks[j - 1] < ks[j]);
    }
}

} // verus!
