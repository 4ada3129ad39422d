use vstd::prelude::*;
use crate::arcs::{arc_contains, next_pos, strictly_increasing};
use crate::hull::{angles_of, has_angle, index_of_angle, inserted, point_covers};

verus! {

/// `x` lies strictly inside the forward arc from `left` to `right`.
pub open spec fn strictly_between(left: int, x: int, right: int) -> bool {
    arc_contains(left, right, x) && x != left
}

/// In points ordered by pseudo-angle, a point lies strictly inside the forward arc from
/// the point at `i` to the point at `j` exactly when its position lies strictly between
/// `i` and `j`, going forward round the sequence.
proof fn lemma_between_positions(pts: Seq<(u32, usize)>, i: int, j: int, k: int)
    requires
        strictly_increasing(angles_of(pts)),
        0 <= i < pts.len(),
        0 <= j < pts.len(),
        0 <= k < pts.len(),
    ensures
        strictly_between(pts[i].0 as int, pts[k].0 as int, pts[j].0 as int) <==> if i < j {
            i < k && k < j
        } else {
            k > i || k < j
        },
{
    let ks = angles_of(pts);
    assert(ks[i] == pts[i].0 && ks[j] == pts[j].0 && ks[k] == pts[k].0);
    if k < i {
        assert(ks[k] < ks[i]);
    } else if k > i {
        assert(ks[i] < ks[k]);
    }
    if k < j {
        assert(ks[k] < ks[j]);
    } else if k > j {
        assert(ks[j] < ks[k]);
    }
    if i < j {
        assert(ks[i] < ks[j]);
    } else if j < i {
        assert(ks[j] < ks[i]);
    }
}

/// Law (on the model): the points after an insertion are still ordered by pseudo-angle,
/// hold the new point, keep every point outside the arc strictly between `left` and
/// `right`, and have no other pseudo-angles than the kept ones and `middle`.
pub proof fn lemma_inserted_effect(
    pts: Seq<(u32, usize)>,
    left: u32,
    middle: u32,
    right: u32,
    vertex: usize,
)
    requires
        pts.len() >= 2,
        strictly_increasing(angles_of(pts)),
        has_angle(pts, left),
        has_angle(pts, right),
        strictly_between(left as int, middle as int, right as int),
    ensures
        ({
            let q = inserted(pts, left, middle, right, vertex);
            &&& strictly_increasing(angles_of(q))
            &&& q.contains((middle, vertex))
            &&& forall|k: int|
                0 <= k < pts.len() && !strictly_between(left as int, pts[k].0 as int, right as int)
                    ==> q.contains(#[trigger] pts[k])
            &&& forall|x: u32|
                #[trigger] has_angle(q, x) <==> (x == middle || (has_angle(pts, x)
                    && !strictly_between(left as int, x as int, right as int)))
        }),
{
    let ks = angles_of(pts);
    let len = pts.len() as int;
    let i = index_of_angle(pts, left);
    let j = index_of_angle(pts, right);
    assert(pts[i].0 == left);
    assert(pts[j].0 == right);
    let q = inserted(pts, left, middle, right, vertex);
    let qs = angles_of(q);
    lemma_between_positions(pts, i, j, i);
    lemma_between_positions(pts, i, j, j);
    // the position of the new point in q, and where each other position of q comes from
    let mid_pos = if i < j {
        i + 1
    } else if left < middle {
        i - j + 1
    } else {
        0
    };
    let origin = |p: int|
        if i < j {
            if p <= i { p } else { p - i - 2 + j }
        } else if left < middle {
            p + j
        } else {
            p - 1 + j
        };
    assert(q.len() == if i < j { i + 2 + len - j } else { i - j + 2 });
    assert(q[mid_pos] == (middle, vertex));
    assert forall|p: int| 0 <= p < q.len() && p != mid_pos implies q[p] == pts[origin(p)] && 0 <= origin(p) < len
        && !strictly_between(left as int, pts[origin(p)].0 as int, right as int) by {
        lemma_between_positions(pts, i, j, origin(p));
    }
    assert(ks[i] == left && ks[j] == right);
    if i < j {
        assert(ks[i] < ks[j]);
        assert(left < middle && middle < right);
    } else if left < middle {
    } else {
        if j < i {
            assert(ks[j] < ks[i]);
        }
        assert(middle < right);
    }
    assert forall|a: int, b: int| 0 <= a < b < q.len() implies qs[a] < qs[b] by {
        assert(qs[a] == q[a].0 && qs[b] == q[b].0);
        if a != mid_pos && b != mid_pos {
            assert(q[a] == pts[origin(a)]);
            assert(q[b] == pts[origin(b)]);
            assert(origin(a) < origin(b));
            assert(ks[origin(a)] < ks[origin(b)]);
        } else if a == mid_pos {
            let ob = origin(b);
            assert(q[b] == pts[ob]);
            assert(ks[ob] == pts[ob].0);
            assert(ks[j] <= ks[ob]);
        } else {
            let oa = origin(a);
            assert(q[a] == pts[oa]);
            assert(ks[oa] == pts[oa].0);
            assert(ks[oa] <= ks[i]);
        }
    }
    assert(q.contains((middle, vertex)));
    assert forall|k: int|
        0 <= k < len && !strictly_between(left as int, pts[k].0 as int, right as int) implies q.contains(
        #[trigger] pts[k],
    ) by {
        lemma_between_positions(pts, i, j, k);
        let p = if i < j {
            if k <= i { k } else { k + i + 2 - j }
        } else if left < middle {
            k - j
        } else {
            k - j + 1
        };
        assert(p != mid_pos);
        assert(origin(p) == k);
        assert(q[p] == pts[k]);
    }
    assert forall|x: u32| #[trigger] has_angle(q, x) <==> (x == middle || (has_angle(pts, x)
        && !strictly_between(left as int, x as int, right as int))) by {
        if has_angle(q, x) {
            let p = choose|p: int| 0 <= p < q.len() && q[p].0 == x;
            if p != mid_pos {
                assert(q[p] == pts[origin(p)]);
            }
        }
        if has_angle(pts, x) && !strictly_between(left as int, x as int, right as int) {
            let k = choose|k: int| 0 <= k < len && pts[k].0 == x;
            assert(q.contains(pts[k]));
            let p = choose|p: int| 0 <= p < q.len() && q[p] == pts[k];
            assert(q[p].0 == x);
        }
        if x == middle {
            assert(q[mid_pos].0 == x);
        }
    }
}

/// Law (on the model): in points ordered by pseudo-angle, the segment of every point holds
/// the point's own pseudo-angle, so a lookup of that angle gives the point's vertex.
pub proof fn lemma_point_covers_own_angle(pts: Seq<(u32, usize)>, p: int)
    requires
        pts.len() >= 2,
        strictly_increasing(angles_of(pts)),
        0 <= p < pts.len(),
    ensures
        point_covers(pts, p, pts[p].0),
{
    let ks = angles_of(pts);
    let q = next_pos(p, pts.len() as int);
    assert(ks[p] == pts[p].0);
    if q != 0 {
        assert(ks[p] < ks[q]);
    }
}

/// Law (on the model): after an insertion, the lookup of the new point's pseudo-angle
/// lands on the new point.
pub proof fn lemma_lookup_after_insert(
    pts: Seq<(u32, usize)>,
    left: u32,
    middle: u32,
    right: u32,
    vertex: usize,
) -> (p: int)
    requires
        pts.len() >= 2,
        strictly_increasing(angles_of(pts)),
        has_angle(pts, left),
        has_angle(pts, right),
        strictly_between(left as int, middle as int, right as int),
    ensures
        ({
            let q = inserted(pts, left, middle, right, vertex);
            &&& 0 <= p < q.len()
            &&& q[p] == (middle, vertex)
            &&& point_covers(q, p, middle)
        }),
{
    lemma_inserted_effect(pts, left, middle, right, vertex);
    let q = inserted(pts, left, middle, right, vertex);
    let p = choose|p: int| 0 <= p < q.len() && q[p] == (middle, vertex);
    assert(q.len() >= 2) by {
        let i = index_of_angle(pts, left);
        let j = index_of_angle(pts, right);
        assert(pts[i].0 == left);
        assert(pts[j].0 == right);
    }
    lemma_point_covers_own_angle(q, p);
    p
}

} // verus!
