use vstd::prelude::*;
use crate::arcs::{
    arc_at, arc_contains, in_cyclic_range, lemma_arcs_cover, lemma_arcs_disjoint,
    lemma_scaled_increasing, next_pos, prev_pos,
    strictly_increasing, lemma_steps_increasing,
};
use crate::segment::{
    bucket_ceil, bucket_floor, bucket_in_arc, ceil_bucket, floor_bucket, lemma_arc_buckets,
    lemma_ceil_from_floor, Segment, TURN,
};
use crate::ring_edit::{
    drop_after, kept_pos, lemma_drop_members, lemma_drop_step, lemma_drop_subset, lemma_free_in_fresh,
    lemma_free_in_spare, lemma_free_out, lemma_insert_increasing, lemma_link_in,
    lemma_remove_increasing, lemma_unlink, step_pos,
};
use crate::typed::{HullIndex, HullVec, TypedIndex};

verus! {

/// One point of the hull, linked to its neighbours.
#[derive(Clone, Copy, Debug)]
pub struct Node {
    /// Pseudo-angle of the point, in units of `1 / TURN` of a turn.
    pub angle: u32,
    /// The vertex of the triangulation that the point stands for.
    pub vertex: usize,
    /// The neighbour before this point.
    pub left: HullIndex,
    /// The neighbour after this point.
    pub right: HullIndex,
}

/// The pseudo-angles of the nodes that `ring` lists, in ring order.
pub open spec fn keys_of(ring: Seq<u32>, nodes: Seq<Node>) -> Seq<int> {
    Seq::new(ring.len(), |p: int| nodes[ring[p] as int].angle as int)
}

/// The (angle, vertex) pairs of the nodes that `ring` lists, in ring order.
pub open spec fn points_of(ring: Seq<u32>, nodes: Seq<Node>) -> Seq<(u32, usize)> {
    Seq::new(ring.len(), |p: int| (nodes[ring[p] as int].angle, nodes[ring[p] as int].vertex))
}

/// The pseudo-angles of a sequence of hull points.
pub open spec fn angles_of(pts: Seq<(u32, usize)>) -> Seq<int> {
    Seq::new(pts.len(), |p: int| pts[p].0 as int)
}

/// The segment of the hull that starts at point `p` holds `angle`.
pub open spec fn point_covers(pts: Seq<(u32, usize)>, p: int, angle: u32) -> bool {
    arc_at(angles_of(pts), p, angle as int)
}

/// Every slot that `ring` lists holds a node, and no slot is listed twice.
pub open spec fn ring_slots_ok(ring: Seq<u32>, len: int) -> bool {
    &&& forall|p: int| 0 <= p < ring.len() ==> ring[p] < len
    &&& forall|p: int, q: int| 0 <= p < q < ring.len() ==> ring[p] != ring[q]
}

/// The `left` and `right` links of the listed nodes follow the ring order.
pub open spec fn linked(ring: Seq<u32>, nodes: Seq<Node>) -> bool {
    forall|p: int|
        0 <= p < ring.len() ==> {
            &&& (#[trigger] nodes[ring[p] as int]).right.0 == ring[next_pos(p, ring.len() as int)]
            &&& nodes[ring[p] as int].left.0 == ring[prev_pos(p, ring.len() as int)]
        }
}

/// Slot `i` is listed as free.
pub open spec fn listed_free(empty: Seq<HullIndex>, i: int) -> bool {
    exists|e: int| 0 <= e < empty.len() && empty[e].0 == i
}

/// The free slots are exactly the slots outside the ring, each listed once.
pub open spec fn free_slots_ok(ring: Seq<u32>, empty: Seq<HullIndex>, len: int) -> bool {
    &&& forall|e: int| 0 <= e < empty.len() ==> #[trigger] empty[e].0 < len && !ring.contains(empty[e].0)
    &&& forall|e: int, f: int| 0 <= e < f < empty.len() ==> empty[e].0 != empty[f].0
    &&& forall|i: int| 0 <= i < len ==> ring.contains(i as u32) || listed_free(empty, i)
    &&& empty.len() + ring.len() == len
}

/// The start of bucket `b` out of `n` lies in the segment that starts at ring position `p`.
pub open spec fn owns_bucket(ring: Seq<u32>, nodes: Seq<Node>, n: int, p: int, b: int) -> bool {
    let ks = keys_of(ring, nodes);
    bucket_in_arc(ks[p], ks[next_pos(p, ring.len() as int)], b, n)
}

/// Every bucket refers to the node whose segment holds the bucket's start.
pub open spec fn buckets_ok(ring: Seq<u32>, nodes: Seq<Node>, buckets: Seq<HullIndex>) -> bool {
    forall|p: int, b: int|
        0 <= p < ring.len() && 0 <= b < buckets.len() && #[trigger] owns_bucket(
            ring,
            nodes,
            buckets.len() as int,
            p,
            b,
        ) ==> buckets[b].0 == ring[p]
}

/// The slot of the node whose segment holds the start of bucket `b` out of `n`.
pub open spec fn bucket_owner(ring: Seq<u32>, nodes: Seq<Node>, n: int, b: int) -> u32 {
    ring[choose|p: int| 0 <= p < ring.len() && owns_bucket(ring, nodes, n, p, b)]
}

/// The ring part of the hull's invariant: at least two nodes, linked in ring order, with
/// pseudo-angles that increase along the ring, and free slots listed once.
pub open spec fn ring_ok(ring: Seq<u32>, nodes: Seq<Node>, empty: Seq<HullIndex>) -> bool {
    &&& ring.len() >= 2
    &&& ring_parts_ok(ring, nodes, empty)
}

/// `ring_ok` without the bound on the number of nodes.
pub open spec fn ring_parts_ok(ring: Seq<u32>, nodes: Seq<Node>, empty: Seq<HullIndex>) -> bool {
    &&& nodes.len() <= TURN
    &&& ring_slots_ok(ring, nodes.len() as int)
    &&& linked(ring, nodes)
    &&& strictly_increasing(keys_of(ring, nodes))
    &&& free_slots_ok(ring, empty, nodes.len() as int)
}

/// `xs` turned so that it starts at position `s`.
pub open spec fn rotate<A>(xs: Seq<A>, s: int) -> Seq<A> {
    Seq::new(
        xs.len(),
        |p: int|
            if p + s < xs.len() {
                xs[p + s]
            } else {
                xs[p + s - xs.len()]
            },
    )
}

/// Some turn of `ks` is strictly increasing: the keys go once round the circle.
pub open spec fn cyclically_increasing(ks: Seq<int>) -> bool {
    exists|s: int| 0 <= s < ks.len() && strictly_increasing(#[trigger] rotate(ks, s))
}

/// Some point of `pts` has pseudo-angle `a`.
pub open spec fn has_angle(pts: Seq<(u32, usize)>, a: u32) -> bool {
    exists|i: int| 0 <= i < pts.len() && pts[i].0 == a
}

/// The position of the point of `pts` with pseudo-angle `a`.
pub open spec fn index_of_angle(pts: Seq<(u32, usize)>, a: u32) -> int {
    choose|i: int| 0 <= i < pts.len() && pts[i].0 == a
}

/// The points of `pts` after `(middle, vertex)` is put between the points with
/// pseudo-angles `left` and `right`, and the points strictly between those two, going
/// forward from `left`, are taken out.  The result stays ordered by pseudo-angle.
pub open spec fn inserted(
    pts: Seq<(u32, usize)>,
    left: u32,
    middle: u32,
    right: u32,
    vertex: usize,
) -> Seq<(u32, usize)> {
    let i = index_of_angle(pts, left);
    let j = index_of_angle(pts, right);
    if i < j {
        pts.subrange(0, i + 1) + seq![(middle, vertex)] + pts.subrange(j, pts.len() as int)
    } else if left < middle {
        pts.subrange(j, i + 1).push((middle, vertex))
    } else {
        seq![(middle, vertex)] + pts.subrange(j, i + 1)
    }
}

/// How many ring positions lie strictly between position `i` and position `j`, going
/// forward from `i` round a ring of `m` positions.
pub open spec fn removed_count(m: int, i: int, j: int) -> int {
    if i < j {
        j - i - 1
    } else {
        j + m - i - 1
    }
}

/// The slots of `ring` strictly between positions `i` and `j`, going forward from `i`.
pub open spec fn slots_between(ring: Seq<u32>, i: int, j: int) -> Seq<u32> {
    Seq::new(
        removed_count(ring.len() as int, i, j) as nat,
        |k: int| ring[step_pos(ring.len() as int, i, k)],
    )
}

/// Slot `i` is listed in `s`.
pub open spec fn in_slots(s: Seq<u32>, i: int) -> bool {
    exists|k: int| 0 <= k < s.len() && s[k] == i
}

/// `n` is a power of two.
pub open spec fn is_pow2(n: int) -> bool
    decreases n,
{
    if n <= 0 {
        false
    } else if n == 1 {
        true
    } else {
        n % 2 == 0 && is_pow2(n / 2)
    }
}

/// A bucket count that a hull can have: the initial 8, or a power of two of at least 16.
pub open spec fn reachable_bucket_count(n: int) -> bool {
    n == 8 || (n >= 16 && is_pow2(n))
}

/// Law: resizing keeps the bucket count reachable, and once it is at least 16 it stays so.
pub proof fn lemma_resized_bucket_count(n: int, size: int)
    requires
        reachable_bucket_count(n),
    ensures
        reachable_bucket_count(resized_bucket_count(n, size)),
        n >= 16 ==> resized_bucket_count(n, size) >= 16,
{
    reveal_with_fuel(is_pow2, 6);
    let r = resized_bucket_count(n, size);
    if n * 2 < size {
        assert((n * 2) / 2 == n);
        if n == 8 {
            assert(is_pow2(16));
        }
    } else if n > size * 4 && n > 16 && n / 4 >= 16 {
        assert(is_pow2(n / 2));
        assert(n / 2 >= 32);
        assert((n / 2) % 2 == 0);
        assert((n / 2) / 2 == n / 4);
    }
}

/// Law: the resize rule. With fewer than twice as many buckets as points the table doubles,
/// however large it already is; otherwise it shrinks to a quarter exactly when it has more
/// than four times as many buckets as points and a quarter keeps at least 16, and else it
/// stays as it is.
pub proof fn lemma_resize_rule(n: int, size: int)
    ensures
        n * 2 < size ==> resized_bucket_count(n, size) == n * 2,
        n * 2 >= size && n > size * 4 && n / 4 >= 16 ==> resized_bucket_count(n, size) == n / 4,
        n * 2 >= size && !(n > size * 4 && n / 4 >= 16) ==> resized_bucket_count(n, size) == n,
{
}

/// The bucket count that `adjust_bucket_size_if_necessary` settles on for `size` points.
pub open spec fn resized_bucket_count(n: int, size: int) -> int {
    if n * 2 < size {
        n * 2
    } else if n > size * 4 && n > 16 && n / 4 >= 16 {
        n / 4
    } else {
        n
    }
}

/// The hull of the points inserted so far, seen from a centre: a ring of points ordered by
/// pseudo-angle, with a table of buckets that finds the point below a given pseudo-angle.
///
/// The Hull supports one kind of lookup: for a pseudo-angle, find the point whose segment
/// (from its own angle up to the next point's angle) holds it.
pub struct Hull {
    buckets: Vec<HullIndex>,
    data: HullVec<Node>,
    /// Spare slots in `data`, to keep it small.
    empty: Vec<HullIndex>,
    /// The slots of the hull's points, from the smallest pseudo-angle up.
    ring: Ghost<Seq<u32>>,
}

impl View for Hull {
    type V = Seq<(u32, usize)>;

    /// The hull's points as (pseudo-angle, vertex) pairs, by increasing pseudo-angle.
    closed spec fn view(&self) -> Seq<(u32, usize)> {
        points_of(self.ring@, self.data@)
    }
}

/// Two segments that hold the start of the same bucket are the same segment.
proof fn lemma_owner_unique(ring: Seq<u32>, nodes: Seq<Node>, n: int, b: int, p: int, q: int)
    requires
        ring.len() >= 2,
        strictly_increasing(keys_of(ring, nodes)),
        n >= 1,
        0 <= p < ring.len(),
        0 <= q < ring.len(),
        owns_bucket(ring, nodes, n, p, b),
        owns_bucket(ring, nodes, n, q, b),
    ensures
        p == q,
{
    let ks = keys_of(ring, nodes);
    lemma_scaled_increasing(ks, n);
    let sk = Seq::new(ks.len(), |i: int| ks[i] * n);
    assert(arc_at(sk, p, b * TURN));
    assert(arc_at(sk, q, b * TURN));
    lemma_arcs_disjoint(sk, b * TURN, p, q);
}

/// The start of every bucket lies in some segment.
proof fn lemma_owner_exists(ring: Seq<u32>, nodes: Seq<Node>, n: int, b: int) -> (p: int)
    requires
        ring.len() >= 2,
        strictly_increasing(keys_of(ring, nodes)),
        n >= 1,
    ensures
        0 <= p < ring.len(),
        owns_bucket(ring, nodes, n, p, b),
{
    let ks = keys_of(ring, nodes);
    lemma_scaled_increasing(ks, n);
    let sk = Seq::new(ks.len(), |i: int| ks[i] * n);
    let p = lemma_arcs_cover(sk, b * TURN);
    assert(arc_at(sk, p, b * TURN));
    p
}

/// A bucket table that refers every bucket to the node owning its start is the table of
/// `bucket_owner`: it is fixed by the ring and the nodes.
proof fn lemma_bucket_table(ring: Seq<u32>, nodes: Seq<Node>, buckets: Seq<HullIndex>)
    requires
        ring.len() >= 2,
        strictly_increasing(keys_of(ring, nodes)),
        buckets.len() >= 1,
        buckets_ok(ring, nodes, buckets),
    ensures
        forall|b: int|
            0 <= b < buckets.len() ==> #[trigger] buckets[b].0 == bucket_owner(
                ring,
                nodes,
                buckets.len() as int,
                b,
            ),
{
    let n = buckets.len() as int;
    assert forall|b: int| 0 <= b < n implies #[trigger] buckets[b].0 == bucket_owner(ring, nodes, n, b) by {
        let p = lemma_owner_exists(ring, nodes, n, b);
        let q = choose|q: int| 0 <= q < ring.len() && owns_bucket(ring, nodes, n, q, b);
        assert(owns_bucket(ring, nodes, n, q, b));
    }
}

/// The pseudo-angles along an increasing ring are pairwise different.
proof fn lemma_keys_distinct(ring: Seq<u32>, nodes: Seq<Node>, p: int, q: int)
    requires
        strictly_increasing(keys_of(ring, nodes)),
        0 <= p < ring.len(),
        0 <= q < ring.len(),
        p != q,
    ensures
        nodes[ring[p] as int].angle != nodes[ring[q] as int].angle,
{
    let ks = keys_of(ring, nodes);
    if p < q {
        assert(ks[p] < ks[q]);
    } else {
        assert(ks[q] < ks[p]);
    }
}

/// One step of `unlink_between`: taking out the node after position `lc` keeps the ring
/// part of the invariant.
proof fn lemma_unlink_step(
    rc: Seq<u32>,
    before: Seq<Node>,
    empty: Seq<HullIndex>,
    lc: int,
    after: Seq<Node>,
    x: HullIndex,
)
    requires
        ring_parts_ok(rc, before, empty),
        rc.len() >= 2,
        0 <= lc < rc.len(),
        x.0 == rc[next_pos(lc, rc.len() as int)],
        after.len() == before.len(),
        ({
            let j = next_pos(lc, rc.len() as int);
            let y = rc[next_pos(j, rc.len() as int)] as int;
            let l = rc[lc] as int;
            &&& forall|i: int| 0 <= i < before.len() && i != l && i != y ==> after[i] == before[i]
            &&& after[l].right.0 == y
            &&& after[l].angle == before[l].angle
            &&& after[y].left.0 == l
            &&& after[y].angle == before[y].angle
            &&& l != y ==> after[l].left == before[l].left && after[y].right == before[y].right
        }),
    ensures
        ring_parts_ok(rc.remove(next_pos(lc, rc.len() as int)), after, empty.push(x)),
{
    let j = next_pos(lc, rc.len() as int);
    if rc.len() >= 3 {
        assert(rc[next_pos(j, rc.len() as int)] != rc[lc]);
        lemma_unlink(rc, before, lc, after);
    } else {
        let rc2 = rc.remove(j);
        assert(rc2.len() == 1);
        assert(rc2[0] == rc[lc]);
        assert(rc[next_pos(j, rc.len() as int)] == rc[lc]);
    }
    lemma_remove_increasing(keys_of(rc, before), j);
    assert(keys_of(rc.remove(j), after) =~= keys_of(rc, before).remove(j));
    lemma_free_out(rc, empty, before.len() as int, j, x);
}

/// After a new node `w` is put after `l` in the ring, every bucket refers to the node whose
/// segment holds the bucket's start, when the buckets of `l`'s new segment refer to `l`,
/// those of `w`'s segment to `w`, and the others are as before.
proof fn lemma_insert_buckets(
    r: Seq<u32>,
    d0: Seq<Node>,
    b0: Seq<HullIndex>,
    ring2: Seq<u32>,
    d2: Seq<Node>,
    b2: Seq<HullIndex>,
    l: u32,
    w: u32,
    rr: u32,
    n: int,
)
    requires
        r.len() >= 2,
        strictly_increasing(keys_of(r, d0)),
        linked(r, d0),
        ring_slots_ok(r, d0.len() as int),
        ring2.len() >= 2,
        strictly_increasing(keys_of(ring2, d2)),
        linked(ring2, d2),
        ring_slots_ok(ring2, d2.len() as int),
        buckets_ok(r, d0, b0),
        b0.len() == n,
        b2.len() == n,
        n >= 1,
        ring2.contains(l),
        ring2.contains(w),
        l != w,
        d2[l as int].right.0 == w,
        d2[w as int].left.0 == l,
        d2[w as int].right.0 == rr,
        forall|q: int|
            0 <= q < ring2.len() && ring2[q] != w ==> {
                &&& r.contains(#[trigger] ring2[q])
                &&& d2[ring2[q] as int].angle == d0[ring2[q] as int].angle
                &&& ring2[q] != l ==> d2[ring2[q] as int].right == d0[ring2[q] as int].right
            },
        forall|b: int|
            0 <= b < n ==> #[trigger] b2[b].0 == if bucket_in_arc(
                d2[w as int].angle as int,
                d2[rr as int].angle as int,
                b,
                n,
            ) {
                w
            } else if bucket_in_arc(d2[l as int].angle as int, d2[w as int].angle as int, b, n) {
                l
            } else {
                b0[b].0
            },
    ensures
        buckets_ok(ring2, d2, b2),
{
    let m2 = ring2.len() as int;
    let m = r.len() as int;
    let pl = choose|q: int| 0 <= q < m2 && ring2[q] == l;
    let pw = choose|q: int| 0 <= q < m2 && ring2[q] == w;
    assert(ring2[next_pos(pl, m2)] == w);
    assert(next_pos(pl, m2) == pw);
    assert(ring2[next_pos(pw, m2)] == rr);
    assert forall|p: int, b: int|
        0 <= p < m2 && 0 <= b < n && #[trigger] owns_bucket(ring2, d2, n, p, b) implies b2[b].0
        == ring2[p] by {
        let o = ring2[p];
        let z = ring2[next_pos(p, m2)];
        assert(owns_bucket(ring2, d2, n, pl, b) == bucket_in_arc(
            d2[l as int].angle as int,
            d2[w as int].angle as int,
            b,
            n,
        ));
        assert(owns_bucket(ring2, d2, n, pw, b) == bucket_in_arc(
            d2[w as int].angle as int,
            d2[rr as int].angle as int,
            b,
            n,
        ));
        if bucket_in_arc(d2[w as int].angle as int, d2[rr as int].angle as int, b, n) {
            lemma_owner_unique(ring2, d2, n, b, p, pw);
        } else if bucket_in_arc(d2[l as int].angle as int, d2[w as int].angle as int, b, n) {
            lemma_owner_unique(ring2, d2, n, b, p, pl);
        } else {
            assert(p != pw);
            assert(p != pl);
            assert(o != w);
            assert(o != l);
            assert(r.contains(o));
            let po = choose|q: int| 0 <= q < m && r[q] == o;
            assert(d0[o as int].right.0 == r[next_pos(po, m)]);
            assert(d2[o as int].right.0 == z);
            if next_pos(p, m2) == pw {
                assert(prev_pos(pw, m2) == p);
                assert(false);
            }
            assert(z != w);
            assert(keys_of(ring2, d2)[p] == keys_of(r, d0)[po]);
            assert(keys_of(ring2, d2)[next_pos(p, m2)] == keys_of(r, d0)[next_pos(po, m)]);
            assert(owns_bucket(r, d0, n, po, b));
        }
    }
}

/// The ring after `insert` lists the points that `inserted` describes.
proof fn lemma_inserted_points(
    r: Seq<u32>,
    d0: Seq<Node>,
    i_l: int,
    j_r: int,
    rc: Seq<u32>,
    ins: int,
    w: u32,
    d2: Seq<Node>,
    middle: u32,
    vertex: usize,
)
    requires
        r.len() >= 2,
        ring_slots_ok(r, d0.len() as int),
        strictly_increasing(keys_of(r, d0)),
        0 <= i_l < r.len(),
        0 <= j_r < r.len(),
        rc == drop_after(r, i_l, removed_count(r.len() as int, i_l, j_r)),
        ins == if kept_pos(r.len() as int, i_l, removed_count(r.len() as int, i_l, j_r)) + 1
            < rc.len() || d0[r[i_l] as int].angle < middle {
            kept_pos(r.len() as int, i_l, removed_count(r.len() as int, i_l, j_r)) + 1
        } else {
            0
        },
        d2[w as int].angle == middle,
        d2[w as int].vertex == vertex,
        forall|q: int|
            0 <= q < rc.len() ==> d2[#[trigger] rc[q] as int].angle == d0[rc[q] as int].angle
                && d2[rc[q] as int].vertex == d0[rc[q] as int].vertex,
    ensures
        points_of(rc.insert(ins, w), d2) == inserted(
            points_of(r, d0),
            d0[r[i_l] as int].angle,
            middle,
            d0[r[j_r] as int].angle,
            vertex,
        ),
{
    let m = r.len() as int;
    let pts = points_of(r, d0);
    let left = d0[r[i_l] as int].angle;
    let right = d0[r[j_r] as int].angle;
    let d = removed_count(m, i_l, j_r);
    let t = m - 1 - i_l;
    assert(pts[i_l].0 == left);
    assert(pts[j_r].0 == right);
    let ci = index_of_angle(pts, left);
    let cj = index_of_angle(pts, right);
    assert(pts[ci].0 == left);
    assert(pts[cj].0 == right);
    if ci != i_l {
        lemma_keys_distinct(r, d0, ci, i_l);
    }
    if cj != j_r {
        lemma_keys_distinct(r, d0, cj, j_r);
    }
    let ring2 = rc.insert(ins, w);
    let got = points_of(ring2, d2);
    let want = inserted(pts, left, middle, right, vertex);
    if i_l < j_r {
        assert(rc =~= r.subrange(0, i_l + 1) + r.subrange(j_r, m));
        assert(ins == i_l + 1);
        assert(got.len() == want.len());
        assert forall|q: int| 0 <= q < got.len() implies got[q] == want[q] by {
            if q <= i_l {
                assert(ring2[q] == rc[q]);
                assert(rc[q] == r[q]);
            } else if q == i_l + 1 {
                assert(ring2[q] == w);
            } else {
                assert(ring2[q] == rc[q - 1]);
                assert(rc[q - 1] == r[q - 1 - (i_l + 1) + j_r]);
            }
        }
        assert(got =~= want);
    } else {
        assert(rc =~= r.subrange(j_r, i_l + 1));
        assert(kept_pos(m, i_l, d) + 1 == rc.len());
        if left < middle {
            assert(ins == rc.len());
            assert(got.len() == want.len());
            assert forall|q: int| 0 <= q < got.len() implies got[q] == want[q] by {
                if q < rc.len() {
                    assert(ring2[q] == rc[q]);
                    assert(rc[q] == r[q + j_r]);
                } else {
                    assert(ring2[q] == w);
                }
            }
            assert(got =~= want);
        } else {
            assert(ins == 0);
            assert(got.len() == want.len());
            assert forall|q: int| 0 <= q < got.len() implies got[q] == want[q] by {
                if q == 0 {
                    assert(ring2[q] == w);
                } else {
                    assert(ring2[q] == rc[q - 1]);
                    assert(rc[q - 1] == r[q - 1 + j_r]);
                }
            }
            assert(got =~= want);
        }
    }
}

/// The points can be given to `Hull::from_triangulation`: there are at least two and at
/// most `TURN` of them, and their pseudo-angles go once round the circle in increasing
/// order, starting anywhere.
pub fn hull_points_accepted(points: &Vec<(u32, usize)>) -> (r: bool)
    ensures
        r == (2 <= points@.len() <= TURN && cyclically_increasing(angles_of(points@))),
{
    let len = points.len();
    if len < 2 || len as u64 > TURN {
        return false;
    }
    let ghost ks = angles_of(points@);
    // the first point with the smallest pseudo-angle
    let mut s: usize = 0;
    let mut i: usize = 1;
    while i < len
        invariant
            len == points@.len(),
            ks == angles_of(points@),
            0 <= s < i <= len,
            forall|q: int| 0 <= q < i ==> ks[s as int] <= #[trigger] ks[q],
        decreases len - i,
    {
        if points[i].0 < points[s].0 {
            s = i;
        }
        i += 1;
    }
    let ghost rot = rotate(ks, s as int);
    let mut p: usize = 0;
    while p + 1 < len
        invariant
            len == points@.len(),
            ks == angles_of(points@),
            2 <= len,
            0 <= s < len,
            rot == rotate(ks, s as int),
            p + 1 <= len,
            forall|q: int| 0 <= q < len ==> ks[s as int] <= #[trigger] ks[q],
            forall|a: int| 0 <= a < p ==> #[trigger] rot[a] < rot[a + 1],
        decreases len - p,
    {
        let a = if s < len - p { p + s } else { p - (len - s) };
        let b = if s < len - (p + 1) { p + 1 + s } else { p + 1 - (len - s) };
        if points[a].0 >= points[b].0 {
            proof {
                assert(rot[p as int] >= rot[p as int + 1]);
                if cyclically_increasing(ks) {
                    let t = choose|t: int| 0 <= t < ks.len() && strictly_increasing(#[trigger] rotate(ks, t));
                    let rt = rotate(ks, t);
                    assert(rt[0] == ks[t]);
                    if t != s {
                        let ps = if s >= t { s - t } else { s + len - t };
                        assert(rt[ps] == ks[s as int]);
                        assert(ks[s as int] <= ks[t]);
                    }
                    assert(rt == rot);
                }
            }
            return false;
        }
        p += 1;
    }
    proof {
        lemma_steps_increasing(rot);
        assert(strictly_increasing(rotate(ks, s as int)));
    }
    true
}

/// The nodes that `unlink_between` leaves untouched, one step further: all but the left
/// node, the next candidate and the nodes taken out so far.
proof fn lemma_gone_frame(
    r: Seq<u32>,
    m: int,
    i_l: int,
    k: int,
    d0: Seq<Node>,
    before: Seq<Node>,
    after: Seq<Node>,
    x: u32,
    y: u32,
    l: u32,
)
    requires
        k >= 0,
        x == r[step_pos(m, i_l, k)],
        before.len() == d0.len(),
        after.len() == d0.len(),
        forall|i: int|
            0 <= i < d0.len() && i != l && i != x && !in_slots(
                Seq::new(k as nat, |q: int| r[step_pos(m, i_l, q)]),
                i,
            ) ==> #[trigger] before[i] == d0[i],
        forall|i: int| 0 <= i < d0.len() && i != l && i != y ==> #[trigger] after[i] == before[i],
    ensures
        forall|i: int|
            0 <= i < d0.len() && i != l && i != y && !in_slots(
                Seq::new((k + 1) as nat, |q: int| r[step_pos(m, i_l, q)]),
                i,
            ) ==> #[trigger] after[i] == d0[i],
{
    let gone = Seq::new(k as nat, |q: int| r[step_pos(m, i_l, q)]);
    let gone2 = Seq::new((k + 1) as nat, |q: int| r[step_pos(m, i_l, q)]);
    assert forall|i: int|
        0 <= i < d0.len() && i != l && i != y && !in_slots(gone2, i) implies #[trigger] after[i]
        == d0[i] by {
        if i == x {
            assert(gone2[k] == x);
        }
        if in_slots(gone, i) {
            let q = choose|q: int| 0 <= q < gone.len() && gone[q] == i;
            assert(gone2[q] == i);
        }
        assert(after[i] == before[i]);
    }
}

/// The slots of the ring after `replace_between`: the new slot and the old ones that were
/// not taken out.
proof fn lemma_ring_members(r: Seq<u32>, i_l: int, j_r: int, rc: Seq<u32>, ins: int, w: u32)
    requires
        forall|p: int, q: int| 0 <= p < q < r.len() ==> r[p] != r[q],
        0 <= i_l < r.len(),
        0 <= j_r < r.len(),
        rc == drop_after(r, i_l, removed_count(r.len() as int, i_l, j_r)),
        0 <= ins <= rc.len(),
        !rc.contains(w),
    ensures
        forall|x: int|
            (exists|q: int| 0 <= q < rc.insert(ins, w).len() && rc.insert(ins, w)[q] == x) <==> (
            x == w || ((exists|q: int| 0 <= q < r.len() && r[q] == x) && !in_slots(
                slots_between(r, i_l, j_r),
                x,
            ))),
        !((exists|q: int| 0 <= q < r.len() && r[q] == w) && !in_slots(
            slots_between(r, i_l, j_r),
            w as int,
        )),
{
    let ring2 = rc.insert(ins, w);
    let gone = slots_between(r, i_l, j_r);
    lemma_drop_members(r, i_l, j_r, w as int);
    if exists|q: int| 0 <= q < rc.len() && rc[q] == w {
        let q = choose|q: int| 0 <= q < rc.len() && rc[q] == w;
        assert(rc.contains(rc[q]));
    }
    assert forall|x: int|
        (exists|q: int| 0 <= q < ring2.len() && ring2[q] == x) <==> (x == w || ((exists|q: int|
            0 <= q < r.len() && r[q] == x) && !in_slots(gone, x))) by {
        lemma_drop_members(r, i_l, j_r, x);
        if exists|q: int| 0 <= q < ring2.len() && ring2[q] == x {
            let q = choose|q: int| 0 <= q < ring2.len() && ring2[q] == x;
            if q != ins {
                let oq = if q < ins { q } else { q - 1 };
                assert(rc[oq] == x);
            }
        }
        if exists|q: int| 0 <= q < rc.len() && rc[q] == x {
            let q = choose|q: int| 0 <= q < rc.len() && rc[q] == x;
            let q2 = if q < ins { q } else { q + 1 };
            assert(ring2[q2] == x);
        }
        if x == w {
            assert(ring2[ins] == w);
        }
    }
}

impl Hull {
    /// The hull's invariant.
    pub closed spec fn wf(&self) -> bool {
        &&& ring_ok(self.ring@, self.data@, self.empty@)
        &&& 2 <= self.buckets@.len() <= TURN
        &&& reachable_bucket_count(self.buckets@.len() as int)
        &&& buckets_ok(self.ring@, self.data@, self.buckets@)
    }

    /// The number of buckets.
    pub closed spec fn num_buckets(&self) -> nat {
        self.buckets@.len()
    }

    /// The number of node slots, used and spare.
    pub closed spec fn num_slots(&self) -> nat {
        self.data@.len()
    }

    /// Looks up what bucket a given pseudo-angle falls into.
    fn floored_bucket(&self, angle: u32) -> (r: usize)
        requires
            1 <= self.buckets@.len() <= TURN,
        ensures
            r == bucket_floor(angle as int, self.buckets@.len() as int),
            r < self.buckets@.len(),
    {
        proof {
            lemma_ceil_from_floor(angle as int, self.buckets@.len() as int);
            vstd::arithmetic::div_mod::lemma_small_mod(
                bucket_floor(angle as int, self.buckets@.len() as int) as nat,
                self.buckets@.len(),
            );
        }
        floor_bucket(angle, self.buckets.len())
    }

    /// The first bucket whose start lies at or above a given pseudo-angle, going round: the
    /// floored bucket when the angle falls exactly on a bucket start, else the next one.
    fn ceiled_bucket(&self, angle: u32) -> (r: usize)
        requires
            1 <= self.buckets@.len() <= TURN,
        ensures
            r == bucket_ceil(angle as int, self.buckets@.len() as int) % (self.buckets@.len() as int),
            r == if (angle * self.buckets@.len()) % (TURN as int) == 0 {
                bucket_floor(angle as int, self.buckets@.len() as int)
            } else {
                (bucket_floor(angle as int, self.buckets@.len() as int) + 1) % (
                self.buckets@.len() as int)
            },
            r < self.buckets@.len(),
    {
        proof {
            lemma_ceil_from_floor(angle as int, self.buckets@.len() as int);
        }
        ceil_bucket(angle, self.buckets.len())
    }

    /// The segment from `node` to its right neighbour.
    fn segment(&self, node: &Node) -> (s: Segment)
        requires
            node.right.0 < self.data@.len(),
            self.data@[node.right.0 as int].angle != node.angle,
        ensures
            s.from == node.angle,
            s.to == self.data@[node.right.0 as int].angle,
    {
        Segment::new(node.angle, self.data.get(node.right).angle)
    }

    /// Sets the buckets of the cyclic range from `left_bucket` up to (not including)
    /// `right_bucket` to `new_value`.
    fn update_bucket_segment(&mut self, left_bucket: usize, right_bucket: usize, new_value: HullIndex)
        requires
            left_bucket <= old(self).buckets@.len(),
            right_bucket <= old(self).buckets@.len(),
        ensures
            final(self).buckets@.len() == old(self).buckets@.len(),
            forall|b: int|
                0 <= b < old(self).buckets@.len() ==> #[trigger] final(self).buckets@[b] == if in_cyclic_range(
                    left_bucket as int,
                    right_bucket as int,
                    b,
                ) {
                    new_value
                } else {
                    old(self).buckets@[b]
                },
            final(self).data@ == old(self).data@,
            final(self).empty@ == old(self).empty@,
            final(self).ring@ == old(self).ring@,
    {
        let n = self.buckets.len();
        if left_bucket <= right_bucket {
            let mut current_bucket = left_bucket;
            while current_bucket < right_bucket
                invariant
                    left_bucket <= current_bucket <= right_bucket <= n,
                    self.buckets@.len() == n,
                    forall|b: int|
                        0 <= b < n ==> #[trigger] self.buckets@[b] == if left_bucket <= b
                            < current_bucket {
                            new_value
                        } else {
                            old(self).buckets@[b]
                        },
                    self.data@ == old(self).data@,
                    self.empty@ == old(self).empty@,
                    self.ring@ == old(self).ring@,
                decreases right_bucket - current_bucket,
            {
                self.buckets.set(current_bucket, new_value);
                current_bucket += 1;
            }
        } else {
            let mut current_bucket = left_bucket;
            while current_bucket < n
                invariant
                    left_bucket <= current_bucket <= n,
                    self.buckets@.len() == n,
                    forall|b: int|
                        0 <= b < n ==> #[trigger] self.buckets@[b] == if left_bucket <= b
                            < current_bucket {
                            new_value
                        } else {
                            old(self).buckets@[b]
                        },
                    self.data@ == old(self).data@,
                    self.empty@ == old(self).empty@,
                    self.ring@ == old(self).ring@,
                decreases n - current_bucket,
            {
                self.buckets.set(current_bucket, new_value);
                current_bucket += 1;
            }
            let mut current_bucket: usize = 0;
            while current_bucket < right_bucket
                invariant
                    current_bucket <= right_bucket < left_bucket <= n,
                    self.buckets@.len() == n,
                    forall|b: int|
                        0 <= b < n ==> #[trigger] self.buckets@[b] == if left_bucket <= b || b
                            < current_bucket {
                            new_value
                        } else {
                            old(self).buckets@[b]
                        },
                    self.data@ == old(self).data@,
                    self.empty@ == old(self).empty@,
                    self.ring@ == old(self).ring@,
                decreases right_bucket - current_bucket,
            {
                self.buckets.set(current_bucket, new_value);
                current_bucket += 1;
            }
        }
    }

    /// Points every bucket at `value`.
    fn fill_buckets(&mut self, value: HullIndex)
        ensures
            final(self).buckets@.len() == old(self).buckets@.len(),
            forall|b: int|
                0 <= b < old(self).buckets@.len() ==> #[trigger] final(self).buckets@[b] == value,
            final(self).data@ == old(self).data@,
            final(self).empty@ == old(self).empty@,
            final(self).ring@ == old(self).ring@,
    {
        let n = self.buckets.len();
        let mut current_bucket: usize = 0;
        while current_bucket < n
            invariant
                current_bucket <= n,
                self.buckets@.len() == n == old(self).buckets@.len(),
                forall|b: int| 0 <= b < current_bucket ==> #[trigger] self.buckets@[b] == value,
                self.data@ == old(self).data@,
                self.empty@ == old(self).empty@,
                self.ring@ == old(self).ring@,
            decreases n - current_bucket,
        {
            self.buckets.set(current_bucket, value);
            current_bucket += 1;
        }
    }

    /// Stores `node` in slot `index`, which is either an existing slot or the next new one.
    fn push_or_update_node(&mut self, node: Node, index: HullIndex)
        requires
            index.0 <= old(self).data@.len(),
        ensures
            final(self).data@ == if index.0 < old(self).data@.len() {
                old(self).data@.update(index.0 as int, node)
            } else {
                old(self).data@.push(node)
            },
            final(self).buckets@ == old(self).buckets@,
            final(self).empty@ == old(self).empty@,
            final(self).ring@ == old(self).ring@,
    {
        if (index.0 as usize) < self.data.len() {
            self.data.set(index, node);
        } else {
            self.data.push(node);
        }
    }

    /// Takes a spare slot, the one listed last, or else names the next new slot.
    fn get_next_index(&mut self) -> (r: HullIndex)
        requires
            old(self).data@.len() <= u32::MAX,
        ensures
            old(self).empty@.len() > 0 ==> r == old(self).empty@.last() && final(self).empty@
                == old(self).empty@.drop_last(),
            old(self).empty@.len() == 0 ==> r.0 == old(self).data@.len() && final(self).empty@
                == old(self).empty@,
            final(self).buckets@ == old(self).buckets@,
            final(self).data@ == old(self).data@,
            final(self).ring@ == old(self).ring@,
    {
        let fresh = HullIndex::new(self.data.len());
        match self.empty.pop() {
            Some(i) => i,
            None => fresh,
        }
    }

    /// Slot `index` is listed as spare.
    fn is_vacant(&self, index: usize) -> (r: bool)
        ensures
            r == listed_free(self.empty@, index as int),
    {
        let mut e: usize = 0;
        while e < self.empty.len()
            invariant
                e <= self.empty@.len(),
                forall|f: int| 0 <= f < e ==> self.empty@[f].0 != index,
            decreases self.empty@.len() - e,
        {
            if self.empty[e].0 as usize == index {
                return true;
            }
            e += 1;
        }
        false
    }

    /// Rebuilds the bucket table with `target_size` buckets, each referring to the node
    /// whose segment holds the bucket's start.
    fn initialize_buckets(&mut self, target_size: usize)
        requires
            ring_ok(old(self).ring@, old(self).data@, old(self).empty@),
            2 <= target_size <= TURN,
            reachable_bucket_count(target_size as int),
        ensures
            final(self).wf(),
            final(self).buckets@.len() == target_size,
            forall|b: int|
                0 <= b < target_size ==> #[trigger] final(self).buckets@[b].0 == bucket_owner(
                    old(self).ring@,
                    old(self).data@,
                    target_size as int,
                    b,
                ),
            final(self).data@ == old(self).data@,
            final(self).empty@ == old(self).empty@,
            final(self).ring@ == old(self).ring@,
    {
        let ghost ring = self.ring@;
        let ghost m = ring.len() as int;
        let ghost n = target_size as int;
        self.buckets.clear();
        self.buckets.reserve(target_size);
        let invalid = HullIndex::const_new(u32::MAX);
        let mut i: usize = 0;
        while i < target_size
            invariant
                self.buckets@.len() == i,
                i <= target_size,
                ring_ok(ring, self.data@, self.empty@),
                n == target_size,
                self.data@ == old(self).data@,
                self.empty@ == old(self).empty@,
                self.ring@ == ring,
            decreases target_size - i,
        {
            self.buckets.push(invalid);
            i += 1;
        }
        assert(ring.contains(ring[0]));
        assert(!listed_free(self.empty@, ring[0] as int));
        let mut first: usize = 0;
        loop
            invariant_except_break
                first <= ring[0],
                ring_ok(ring, self.data@, self.empty@),
                self.buckets@.len() == n,
                self.data@ == old(self).data@,
                self.empty@ == old(self).empty@,
                self.ring@ == ring,
                !listed_free(self.empty@, ring[0] as int),
            ensures
                ring_ok(ring, self.data@, self.empty@),
                first < self.data@.len(),
                !listed_free(self.empty@, first as int),
                self.buckets@.len() == n,
                self.data@ == old(self).data@,
                self.empty@ == old(self).empty@,
                self.ring@ == ring,
            decreases ring[0] - first,
        {
            if !self.is_vacant(first) {
                break;
            }
            first += 1;
        }
        assert(ring.contains(first as u32));
        let ghost s = choose|p: int| 0 <= p < m && ring[p] == first as u32;
        let first_index = HullIndex::new(first);
        let first_node = *self.data.get(first_index);
        let first_bucket = self.ceiled_bucket(first_node.angle);
        self.buckets.set(first_bucket, first_index);
        let mut current_index = first_index;
        let ghost mut pos: int = s;
        let ghost mut k: int = 0;
        loop
            invariant_except_break
                0 <= k < m,
                pos == if s + k < m { s + k } else { s + k - m },
                current_index.0 == ring[pos],
            invariant
                m == ring.len(),
                ring == old(self).ring@,
                n == target_size,
                2 <= target_size <= TURN,
                reachable_bucket_count(n),
                0 <= s < m,
                ring[s] == first_index.0,
                self.buckets@.len() == n,
                self.data@ == old(self).data@,
                self.empty@ == old(self).empty@,
                self.ring@ == ring,
                ring_ok(ring, self.data@, self.empty@),
                forall|q: int, b: int|
                    0 <= q < m && 0 <= b < n && #[trigger] owns_bucket(ring, self.data@, n, q, b)
                        && (if q >= s { q - s } else { q + m - s }) < k ==> self.buckets@[b].0
                        == ring[q],
            ensures
                k == m,
            decreases m - k,
        {
            let current_node = *self.data.get(current_index);
            proof {
                lemma_keys_distinct(ring, self.data@, pos, next_pos(pos, m));
            }
            let segment = self.segment(&current_node);
            let start_bucket = self.ceiled_bucket(segment.from);
            let end_bucket = self.ceiled_bucket(segment.to);
            proof {
                lemma_arc_buckets(segment.from as int, segment.to as int, n);
            }
            if start_bucket == end_bucket && segment.is_greater_than_180_degree() {
                // Special case: All buckets point to the same node
                self.fill_buckets(current_index);
                proof {
                    assert forall|q: int, b: int|
                        0 <= q < m && 0 <= b < n && #[trigger] owns_bucket(
                            ring,
                            self.data@,
                            n,
                            q,
                            b,
                        ) implies self.buckets@[b].0 == ring[q] by {
                        assert(bucket_in_arc(segment.from as int, segment.to as int, b, n));
                        assert(owns_bucket(ring, self.data@, n, pos, b));
                        lemma_owner_unique(ring, self.data@, n, b, pos, q);
                    }
                    lemma_bucket_table(ring, self.data@, self.buckets@);
                }
                return;
            }
            self.update_bucket_segment(start_bucket, end_bucket, current_index);
            proof {
                assert forall|q: int, b: int|
                    0 <= q < m && 0 <= b < n && #[trigger] owns_bucket(ring, self.data@, n, q, b)
                        && (if q >= s { q - s } else { q + m - s }) < k + 1 implies self.buckets@[b].0
                        == ring[q] by {
                    assert(owns_bucket(ring, self.data@, n, pos, b) == bucket_in_arc(
                        segment.from as int,
                        segment.to as int,
                        b,
                        n,
                    ));
                    if q == pos {
                        assert(in_cyclic_range(start_bucket as int, end_bucket as int, b));
                    } else {
                        if owns_bucket(ring, self.data@, n, pos, b) {
                            lemma_owner_unique(ring, self.data@, n, b, pos, q);
                        }
                        assert(!in_cyclic_range(start_bucket as int, end_bucket as int, b));
                    }
                }
            }
            current_index = current_node.right;
            proof {
                pos = next_pos(pos, m);
                k = k + 1;
            }
            if current_index.0 == first_index.0 {
                proof {
                    if k < m {
                        assert(pos != s);
                    }
                }
                break;
            }
        }
        proof {
            assert(buckets_ok(ring, self.data@, self.buckets@));
            lemma_bucket_table(ring, self.data@, self.buckets@);
        }
    }

    /// Builds the hull from the points of a convex hull, given as (pseudo-angle, vertex)
    /// pairs in hull order, going once round the centre by increasing pseudo-angle.
    pub fn from_triangulation(convex_hull: &Vec<(u32, usize)>) -> (r: Hull)
        requires
            2 <= convex_hull@.len() <= TURN,
            cyclically_increasing(angles_of(convex_hull@)),
        ensures
            r.wf(),
            r.num_buckets() == 8,
            r.num_slots() == convex_hull@.len(),
            r.spares().len() == 0,
            forall|i: int|
                0 <= i < convex_hull@.len() ==> {
                    &&& (#[trigger] r.slot(i)).angle == convex_hull@[i].0
                    &&& r.slot(i).vertex == convex_hull@[i].1
                    &&& r.slot(i).left.0 == prev_pos(i, convex_hull@.len() as int)
                    &&& r.slot(i).right.0 == next_pos(i, convex_hull@.len() as int)
                },
            strictly_increasing(angles_of(r@)),
            exists|s: int| 0 <= s < convex_hull@.len() && r@ == rotate(convex_hull@, s),
    {
        let hull_size = convex_hull.len();
        let ghost len = hull_size as int;
        let mut data: HullVec<Node> = HullVec::with_capacity(hull_size);
        let mut prev_index = HullIndex::new(hull_size - 1);
        let mut current_index: usize = 0;
        while current_index < hull_size
            invariant
                len == hull_size,
                hull_size == convex_hull@.len() <= TURN,
                2 <= hull_size,
                current_index <= hull_size,
                data@.len() == current_index,
                prev_index.0 == prev_pos(current_index as int, len),
                forall|i: int|
                    0 <= i < current_index ==> {
                        &&& (#[trigger] data@[i]).angle == convex_hull@[i].0
                        &&& data@[i].vertex == convex_hull@[i].1
                        &&& data@[i].left.0 == prev_pos(i, len)
                        &&& data@[i].right.0 == next_pos(i, len)
                    },
            decreases hull_size - current_index,
        {
            let (angle_from, vertex) = convex_hull[current_index];
            let following = (current_index + 1) % hull_size;
            proof {
                if current_index + 1 == hull_size {
                    vstd::arithmetic::div_mod::lemma_mod_self_0(len);
                } else {
                    vstd::arithmetic::div_mod::lemma_small_mod(
                        (current_index + 1) as nat,
                        hull_size as nat,
                    );
                }
            }
            let next_index = HullIndex::new(following);
            data.push(Node { angle: angle_from, vertex, left: prev_index, right: next_index });
            prev_index = HullIndex::new(current_index);
            current_index += 1;
        }
        let ghost s = choose|s: int|
            0 <= s < len && strictly_increasing(#[trigger] rotate(angles_of(convex_hull@), s));
        let ghost ring = Seq::new(
            len as nat,
            |p: int|
                if p + s < len {
                    (p + s) as u32
                } else {
                    (p + s - len) as u32
                },
        );
        let ghost nodes = data@;
        proof {
            assert(keys_of(ring, nodes) =~= rotate(angles_of(convex_hull@), s));
            assert forall|p: int, q: int| 0 <= p < q < ring.len() implies ring[p] != ring[q] by {}
            assert forall|p: int| 0 <= p < ring.len() implies {
                &&& (#[trigger] nodes[ring[p] as int]).right.0 == ring[next_pos(p, ring.len() as int)]
                &&& nodes[ring[p] as int].left.0 == ring[prev_pos(p, ring.len() as int)]
            } by {}
            assert forall|i: int| 0 <= i < len implies #[trigger] ring.contains(i as u32) by {
                let p = if i >= s { i - s } else { i + len - s };
                assert(ring[p] == i as u32);
            }
            assert(points_of(ring, nodes) =~= rotate(convex_hull@, s));
        }
        let mut result = Hull {
            buckets: Vec::new(),
            data,
            empty: Vec::new(),
            ring: Ghost(ring),
        };
        result.initialize_buckets(8);
        proof {
            assert(angles_of(result@) =~= keys_of(ring, nodes));
        }
        result
    }

    /// The vertex of the hull point whose segment holds `angle`: the segment that starts at
    /// the point and ends at the next point round the hull.
    pub fn get(&self, angle: u32) -> (vertex: usize)
        requires
            self.wf(),
        ensures
            exists|p: int|
                0 <= p < self@.len() && #[trigger] point_covers(self@, p, angle) && vertex
                    == self@[p].1,
            forall|p: int|
                0 <= p < self@.len() && #[trigger] point_covers(self@, p, angle) ==> vertex
                    == self@[p].1,
    {
        let ghost ring = self.ring@;
        let ghost m = ring.len() as int;
        let ghost n = self.buckets@.len() as int;
        let ghost ks = keys_of(ring, self.data@);
        proof {
            assert(angles_of(self@) =~= ks);
        }
        let bucket = self.floored_bucket(angle);
        let ghost p0 = lemma_owner_exists(ring, self.data@, n, bucket as int);
        let ghost target = lemma_arcs_cover(ks, angle as int);
        let ghost d = if target >= p0 { target - p0 } else { target + m - p0 };
        let mut current_handle = self.buckets[bucket];
        let ghost mut pos = p0;
        let ghost mut k: int = 0;
        loop
            invariant
                self.wf(),
                ring == self.ring@,
                m == ring.len(),
                ks == keys_of(ring, self.data@),
                angles_of(self@) == ks,
                0 <= p0 < m,
                0 <= target < m,
                arc_at(ks, target, angle as int),
                d == if target >= p0 { target - p0 } else { target + m - p0 },
                0 <= k <= d,
                pos == if p0 + k < m { p0 + k } else { p0 + k - m },
                current_handle.0 == ring[pos],
            decreases d - k,
        {
            let current_node = *self.data.get(current_handle);
            let left_angle = current_node.angle;
            let next_angle = self.data.get(current_node.right).angle;
            proof {
                lemma_keys_distinct(ring, self.data@, pos, next_pos(pos, m));
            }
            if Segment::new(left_angle, next_angle).contains_angle(angle) {
                proof {
                    lemma_arcs_disjoint(ks, angle as int, pos, target);
                    assert(point_covers(self@, pos, angle));
                    assert forall|p: int|
                        0 <= p < self@.len() && #[trigger] point_covers(self@, p, angle) implies current_node.vertex
                        == self@[p].1 by {
                        lemma_arcs_disjoint(ks, angle as int, p, target);
                    }
                }
                return current_node.vertex;
            }
            current_handle = current_node.right;
            proof {
                assert(pos != target);
                pos = next_pos(pos, m);
                k = k + 1;
            }
        }
    }

    /// Grows the bucket table when it has fewer than half as many buckets as points, and
    /// shrinks it when it has more than four times as many and would keep at least 16.
    fn adjust_bucket_size_if_necessary(&mut self)
        requires
            ring_ok(old(self).ring@, old(self).data@, old(self).empty@),
            2 <= old(self).buckets@.len() <= TURN,
            reachable_bucket_count(old(self).buckets@.len() as int),
            buckets_ok(old(self).ring@, old(self).data@, old(self).buckets@),
        ensures
            final(self).wf(),
            final(self).buckets@.len() == resized_bucket_count(
                old(self).buckets@.len() as int,
                old(self).ring@.len() as int,
            ),
            final(self).data@ == old(self).data@,
            final(self).empty@ == old(self).empty@,
            final(self).ring@ == old(self).ring@,
    {
        let size = self.data.len() - self.empty.len();
        let num_buckets = self.buckets.len();
        proof {
            lemma_resized_bucket_count(num_buckets as int, size as int);
        }
        if (num_buckets as u64) * 2 < size as u64 {
            // Too few buckets - increase bucket count
            self.initialize_buckets(num_buckets * 2);
        } else if num_buckets as u64 > (size as u64) * 4 && num_buckets > 16 {
            let new_size = num_buckets / 4;
            if new_size >= 16 {
                // Too many buckets - shrink
                self.initialize_buckets(new_size);
            }
        }
    }

    /// The slot of the hull point with pseudo-angle `angle`, found by walking from the
    /// bucket that the angle falls into.
    fn node_with_angle(&self, angle: u32) -> (r: HullIndex)
        requires
            self.wf(),
            exists|p: int|
                0 <= p < self.ring@.len() && keys_of(self.ring@, self.data@)[p] == angle,
        ensures
            exists|p: int|
                0 <= p < self.ring@.len() && keys_of(self.ring@, self.data@)[p] == angle
                    && r.0 == self.ring@[p],
    {
        let ghost ring = self.ring@;
        let ghost m = ring.len() as int;
        let ghost n = self.buckets@.len() as int;
        let ghost ks = keys_of(ring, self.data@);
        let ghost target = choose|p: int| 0 <= p < m && ks[p] == angle;
        let bucket = self.floored_bucket(angle);
        let ghost p0 = lemma_owner_exists(ring, self.data@, n, bucket as int);
        let ghost d = if target >= p0 { target - p0 } else { target + m - p0 };
        let mut index = self.buckets[bucket];
        let ghost mut pos = p0;
        let ghost mut k: int = 0;
        loop
            invariant
                self.wf(),
                ring == self.ring@,
                m == ring.len(),
                ks == keys_of(ring, self.data@),
                0 <= p0 < m,
                0 <= target < m,
                ks[target] == angle,
                d == if target >= p0 { target - p0 } else { target + m - p0 },
                0 <= k <= d,
                pos == if p0 + k < m { p0 + k } else { p0 + k - m },
                index.0 == ring[pos],
            decreases d - k,
        {
            let current_node = *self.data.get(index);
            if current_node.angle == angle {
                return index;
            }
            index = current_node.right;
            proof {
                assert(pos != target);
                pos = next_pos(pos, m);
                k = k + 1;
            }
        }
    }

    /// Takes out of the ring every node after `left_index` up to (not including) the first
    /// one whose pseudo-angle is `right_angle`; the nodes taken out become spare slots.
    /// Returns the slot of the node with `right_angle`.
    #[verifier::spinoff_prover]
    #[verifier::rlimit(100)]
    fn unlink_between(
        &mut self,
        left_index: HullIndex,
        right_angle: u32,
        Ghost(i_l): Ghost<int>,
        Ghost(j_r): Ghost<int>,
    ) -> (right_index: HullIndex)
        requires
            ring_ok(old(self).ring@, old(self).data@, old(self).empty@),
            0 <= i_l < old(self).ring@.len(),
            0 <= j_r < old(self).ring@.len(),
            left_index.0 == old(self).ring@[i_l],
            keys_of(old(self).ring@, old(self).data@)[j_r] == right_angle,
        ensures
            ({
                let r = old(self).ring@;
                let m = r.len() as int;
                let d = removed_count(m, i_l, j_r);
                let rc = final(self).ring@;
                let lc = kept_pos(m, i_l, d);
                &&& rc == drop_after(r, i_l, d)
                &&& rc.len() == m - d
                &&& 0 <= lc < rc.len()
                &&& rc[lc] == r[i_l]
                &&& right_index.0 == rc[next_pos(lc, rc.len() as int)]
                &&& right_index.0 == r[j_r]
                &&& forall|q: int| 0 <= q < rc.len() ==> r.contains(#[trigger] rc[q])
            }),
            ring_parts_ok(final(self).ring@, final(self).data@, final(self).empty@),
            final(self).data@.len() == old(self).data@.len(),
            forall|i: int|
                0 <= i < old(self).data@.len() ==> (#[trigger] final(self).data@[i]).angle
                    == old(self).data@[i].angle && final(self).data@[i].vertex == old(self).data@[i].vertex,
            forall|i: int|
                0 <= i < old(self).data@.len() && i != old(self).ring@[i_l] ==> (
                #[trigger] final(self).data@[i]).right == old(self).data@[i].right,
            final(self).buckets@ == old(self).buckets@,
            final(self).spares() == old(self).spares() + slots_between(old(self).ring@, i_l, j_r),
            i_l != j_r ==> final(self).data@[old(self).ring@[i_l] as int].left == old(self).data@[old(self).ring@[i_l] as int].left,
            forall|i: int|
                0 <= i < old(self).data@.len() && i != old(self).ring@[i_l] && i != old(self).ring@[j_r]
                    && !in_slots(slots_between(old(self).ring@, i_l, j_r), i) ==> #[trigger] final(self).data@[i]
                    == old(self).data@[i],
    {
        let ghost r = self.ring@;
        let ghost m = r.len() as int;
        let ghost len = self.data@.len() as int;
        let ghost d0 = self.data@;
        let ghost ks = keys_of(r, d0);
        let ghost d = removed_count(m, i_l, j_r);
        let ghost mut k: int = 0;
        let mut right_index = self.data.get(left_index).right;
        assert(drop_after(r, i_l, 0) =~= r);
        assert(self.spares() =~= old(self).spares() + Seq::new(0, |q: int| r[step_pos(m, i_l, q)]));
        loop
            invariant
                r == old(self).ring@,
                d0 == old(self).data@,
                m == r.len(),
                len == d0.len(),
                ks == keys_of(r, d0),
                strictly_increasing(ks),
                0 <= i_l < m,
                0 <= j_r < m,
                ks[j_r] == right_angle,
                d == removed_count(m, i_l, j_r),
                0 <= k <= d,
                self.ring@ == drop_after(r, i_l, k),
                self.ring@.len() == m - k,
                0 <= kept_pos(m, i_l, k) < self.ring@.len(),
                self.ring@[kept_pos(m, i_l, k)] == r[i_l],
                left_index.0 == r[i_l],
                right_index.0 == self.ring@[next_pos(kept_pos(m, i_l, k), self.ring@.len() as int)],
                right_index.0 == r[step_pos(m, i_l, k)],
                ring_parts_ok(self.ring@, self.data@, self.empty@),
                self.data@.len() == len,
                forall|i: int|
                    0 <= i < len ==> (#[trigger] self.data@[i]).angle == d0[i].angle
                        && self.data@[i].vertex == d0[i].vertex,
                forall|i: int|
                    0 <= i < len && i != r[i_l] ==> (#[trigger] self.data@[i]).right
                        == d0[i].right,
                self.buckets@ == old(self).buckets@,
                self.spares() == old(self).spares() + Seq::new(k as nat, |q: int| r[step_pos(m, i_l, q)]),
                (i_l != j_r || k < d) ==> self.data@[r[i_l] as int].left == d0[r[i_l] as int].left,
                forall|i: int|
                    0 <= i < len && i != r[i_l] && i != right_index.0 && !in_slots(
                        Seq::new(k as nat, |q: int| r[step_pos(m, i_l, q)]),
                        i,
                    ) ==> #[trigger] self.data@[i] == d0[i],
            ensures
                k == d,
            decreases d - k,
        {
            let current_node = *self.data.get(right_index);
            proof {
                if k < d {
                    assert(step_pos(m, i_l, k) != j_r);
                    lemma_keys_distinct(r, d0, step_pos(m, i_l, k), j_r);
                } else {
                    assert(step_pos(m, i_l, k) == j_r);
                }
            }
            if current_node.angle == right_angle {
                break;
            }
            let ghost rc = self.ring@;
            let ghost lc = kept_pos(m, i_l, k);
            let ghost j = next_pos(lc, rc.len() as int);
            let ghost before = self.data@;
            let ghost empty_before = self.empty@;
            let ghost removed = right_index;
            let ghost spares_before = self.spares();
            proof {
                lemma_drop_step(r, i_l, k);
                if rc.len() >= 3 {
                    assert(rc[next_pos(j, rc.len() as int)] != r[i_l]);
                }
                assert(current_node.left.0 == rc[lc]);
                assert(current_node.right.0 == rc[next_pos(j, rc.len() as int)]);
            }
            // The current node lies completely under the new segment: take it out.
            self.empty.push(right_index);
            let mut left_node = *self.data.get(current_node.left);
            left_node.right = current_node.right;
            self.data.set(current_node.left, left_node);
            let mut right_node = *self.data.get(current_node.right);
            right_node.left = current_node.left;
            self.data.set(current_node.right, right_node);
            right_index = current_node.right;
            proof {
                lemma_unlink_step(rc, before, empty_before, lc, self.data@, removed);
                assert(self.spares() =~= spares_before.push(removed.0));
                lemma_gone_frame(r, m, i_l, k, d0, before, self.data@, removed.0, right_index.0, r[i_l]);
                self.ring@ = rc.remove(j);
                k = k + 1;
            }
        }
        proof {
            lemma_drop_subset(r, i_l, d);
            assert(Seq::new(d as nat, |q: int| r[step_pos(m, i_l, q)]) =~= slots_between(r, i_l, j_r));
        }
        right_index
    }

    /// Puts a new node with pseudo-angle `middle_angle` and vertex `vertex` between
    /// `left_index` and `right_index`, neighbours in the ring, in a spare slot or a new one.
    #[verifier::spinoff_prover]
    #[verifier::rlimit(100)]
    fn stitch(
        &mut self,
        left_index: HullIndex,
        right_index: HullIndex,
        middle_angle: u32,
        vertex: usize,
        Ghost(lc): Ghost<int>,
        Ghost(ins): Ghost<int>,
    ) -> (new_index: HullIndex)
        requires
            ring_parts_ok(old(self).ring@, old(self).data@, old(self).empty@),
            old(self).ring@.len() >= 1,
            old(self).data@.len() <= u32::MAX,
            0 <= lc < old(self).ring@.len(),
            old(self).ring@[lc] == left_index.0,
            old(self).ring@[next_pos(lc, old(self).ring@.len() as int)] == right_index.0,
            ins == lc + 1 || (ins == 0 && lc == old(self).ring@.len() - 1),
            ins > 0 ==> keys_of(old(self).ring@, old(self).data@)[ins - 1] < middle_angle,
            ins < old(self).ring@.len() ==> middle_angle < keys_of(old(self).ring@, old(self).data@)[ins],
        ensures
            !old(self).ring@.contains(new_index.0),
            final(self).ring@ == old(self).ring@.insert(ins, new_index.0),
            ring_ok(final(self).ring@, final(self).data@, final(self).empty@),
            final(self).data@.len() == if old(self).empty@.len() > 0 {
                old(self).data@.len()
            } else {
                old(self).data@.len() + 1
            },
            final(self).data@[new_index.0 as int].angle == middle_angle,
            final(self).data@[new_index.0 as int].vertex == vertex,
            final(self).data@[new_index.0 as int].left == left_index,
            final(self).data@[new_index.0 as int].right == right_index,
            final(self).data@[left_index.0 as int].right == new_index,
            final(self).data@[right_index.0 as int].left == new_index,
            left_index.0 != right_index.0 ==> final(self).data@[left_index.0 as int].left == old(
            self).data@[left_index.0 as int].left && final(self).data@[right_index.0 as int].right
                == old(self).data@[right_index.0 as int].right,
            forall|i: int|
                0 <= i < old(self).data@.len() && i != new_index.0 && i != left_index.0 && i
                    != right_index.0 ==> #[trigger] final(self).data@[i] == old(self).data@[i],
            new_index.0 == if old(self).spares().len() > 0 {
                old(self).spares().last()
            } else {
                old(self).data@.len() as u32
            },
            final(self).spares() == if old(self).spares().len() > 0 {
                old(self).spares().drop_last()
            } else {
                old(self).spares()
            },
            forall|i: int|
                0 <= i < old(self).data@.len() && i != new_index.0 ==> (#[trigger] final(self).data@[i]).angle == old(self).data@[i].angle && final(self).data@[i].vertex
                    == old(self).data@[i].vertex,
            forall|i: int|
                0 <= i < old(self).data@.len() && i != new_index.0 && i != left_index.0 ==> (
                #[trigger] final(self).data@[i]).right == old(self).data@[i].right,
            final(self).buckets@ == old(self).buckets@,
    {
        let ghost rc = self.ring@;
        let ghost d1 = self.data@;
        let ghost e1 = self.empty@;
        let ghost len = d1.len() as int;
        let new_index = self.get_next_index();
        let ghost w = new_index.0;
        proof {
            if e1.len() > 0 {
                assert(e1[e1.len() - 1].0 < len);
                assert(!rc.contains(w));
            } else {
                if rc.contains(w) {
                    let q = choose|q: int| 0 <= q < rc.len() && rc[q] == w;
                }
            }
        }
        let mut left_node = *self.data.get(left_index);
        left_node.right = new_index;
        self.data.set(left_index, left_node);
        let mut right_node = *self.data.get(right_index);
        right_node.left = new_index;
        self.data.set(right_index, right_node);
        let new_node = Node { angle: middle_angle, vertex, left: left_index, right: right_index };
        self.push_or_update_node(new_node, new_index);
        proof {
            let d2 = self.data@;
            let ring2 = rc.insert(ins, w);
            lemma_link_in(rc, d1, lc, w, ins, d2);
            let kc = keys_of(rc, d1);
            assert(keys_of(ring2, d2) =~= kc.insert(ins, middle_angle as int));
            lemma_insert_increasing(kc, ins, middle_angle as int);
            if e1.len() > 0 {
                lemma_free_in_spare(rc, e1, len, ins);
            } else {
                lemma_free_in_fresh(rc, e1, len, ins);
            }
            self.ring@ = ring2;
        }
        new_index
    }

    /// Takes out the nodes strictly between `left_index` and the node with `right_angle`
    /// and puts a new node with `middle_angle` and `vertex` between those two, in the last
    /// spare slot or a new one.  Returns the slots of the right node and of the new node.
    #[verifier::spinoff_prover]
    #[verifier::rlimit(100)]
    fn replace_between(
        &mut self,
        left_index: HullIndex,
        middle_angle: u32,
        right_angle: u32,
        vertex: usize,
        Ghost(i_l): Ghost<int>,
        Ghost(j_r): Ghost<int>,
    ) -> (res: (HullIndex, HullIndex))
        requires
            ring_ok(old(self).ring@, old(self).data@, old(self).empty@),
            old(self).data@.len() <= u32::MAX,
            0 <= i_l < old(self).ring@.len(),
            0 <= j_r < old(self).ring@.len(),
            left_index.0 == old(self).ring@[i_l],
            keys_of(old(self).ring@, old(self).data@)[j_r] == right_angle,
            arc_contains(
                keys_of(old(self).ring@, old(self).data@)[i_l],
                right_angle as int,
                middle_angle as int,
            ),
            middle_angle != keys_of(old(self).ring@, old(self).data@)[i_l],
        ensures
            ({
                let r = old(self).ring@;
                let d0 = old(self).data@;
                let d2 = final(self).data@;
                let ring2 = final(self).ring@;
                let gone = slots_between(r, i_l, j_r);
                let pool = old(self).spares() + gone;
                let l = r[i_l];
                let rr = r[j_r];
                let w = res.1.0;
                &&& res.0.0 == rr
                &&& w == if pool.len() > 0 { pool.last() } else { d0.len() as u32 }
                &&& final(self).spares() == if pool.len() > 0 { pool.drop_last() } else { pool }
                &&& d2.len() == if pool.len() > 0 { d0.len() } else { d0.len() + 1 }
                &&& ring_ok(ring2, d2, final(self).empty@)
                &&& ring2.contains(w)
                &&& ring2.contains(l)
                &&& l != w
                &&& rr != w
                &&& !((exists|q: int| 0 <= q < r.len() && r[q] == w) && !in_slots(gone, w as int))
                &&& forall|x: int|
                    (exists|q: int| 0 <= q < ring2.len() && ring2[q] == x) <==> (x == w || ((exists|q: int|
                        0 <= q < r.len() && r[q] == x) && !in_slots(gone, x)))
                &&& d2[w as int].angle == middle_angle
                &&& d2[w as int].vertex == vertex
                &&& d2[w as int].left.0 == l
                &&& d2[w as int].right.0 == rr
                &&& d2[l as int].right.0 == w
                &&& d2[l as int].angle == d0[l as int].angle
                &&& d2[l as int].vertex == d0[l as int].vertex
                &&& d2[rr as int].left.0 == w
                &&& l != rr ==> d2[l as int].left == d0[l as int].left && d2[rr as int].right
                    == d0[rr as int].right
                &&& d2[rr as int].angle == d0[rr as int].angle
                &&& d2[rr as int].vertex == d0[rr as int].vertex
                &&& forall|x: int|
                    0 <= x < d0.len() && x != l && x != rr && x != w && !in_slots(gone, x)
                        ==> #[trigger] d2[x] == d0[x]
                &&& forall|q: int|
                    0 <= q < ring2.len() && ring2[q] != w ==> {
                        &&& r.contains(#[trigger] ring2[q])
                        &&& d2[ring2[q] as int].angle == d0[ring2[q] as int].angle
                        &&& ring2[q] != l ==> d2[ring2[q] as int].right == d0[ring2[q] as int].right
                    }
                &&& ring2 == drop_after(r, i_l, removed_count(r.len() as int, i_l, j_r)).insert(
                    if kept_pos(r.len() as int, i_l, removed_count(r.len() as int, i_l, j_r)) + 1
                        < drop_after(r, i_l, removed_count(r.len() as int, i_l, j_r)).len() || d0[l as int].angle
                        < middle_angle {
                        kept_pos(r.len() as int, i_l, removed_count(r.len() as int, i_l, j_r)) + 1
                    } else {
                        0
                    },
                    w,
                )
                &&& forall|q: int|
                    0 <= q < drop_after(r, i_l, removed_count(r.len() as int, i_l, j_r)).len()
                        ==> d2[#[trigger] drop_after(r, i_l, removed_count(r.len() as int, i_l, j_r))[q] as int].angle
                        == d0[drop_after(r, i_l, removed_count(r.len() as int, i_l, j_r))[q] as int].angle
                        && d2[drop_after(r, i_l, removed_count(r.len() as int, i_l, j_r))[q] as int].vertex
                        == d0[drop_after(r, i_l, removed_count(r.len() as int, i_l, j_r))[q] as int].vertex
            }),
            final(self).buckets@ == old(self).buckets@,
    {
        let ghost r = self.ring@;
        let ghost m = r.len() as int;
        let ghost d0 = self.data@;
        let ghost left_angle = d0[r[i_l] as int].angle;
        let right_index = self.unlink_between(left_index, right_angle, Ghost(i_l), Ghost(j_r));
        let ghost rc = self.ring@;
        let ghost dd = removed_count(m, i_l, j_r);
        let ghost lc = kept_pos(m, i_l, dd);
        let ghost d1 = self.data@;
        let ghost ins = if lc + 1 < rc.len() || left_angle < middle_angle {
            lc + 1
        } else {
            0
        };
        proof {
            let kc = keys_of(rc, d1);
            assert(kc[lc] == left_angle);
            assert(kc[next_pos(lc, rc.len() as int)] == right_angle);
            if lc + 1 < rc.len() {
                assert(kc[lc] < kc[lc + 1]);
            } else {
                if lc > 0 {
                    assert(kc[0] < kc[lc]);
                }
            }
        }
        let new_index = self.stitch(left_index, right_index, middle_angle, vertex, Ghost(lc), Ghost(ins));
        let ghost w = new_index.0;
        proof {
            let d2 = self.data@;
            let ring2 = self.ring@;
            let gone = slots_between(r, i_l, j_r);
            assert(ring2[ins] == w);
            assert(rc.contains(rc[lc]));
            assert(ring2.contains(left_index.0));
            assert(rc.contains(rc[next_pos(lc, rc.len() as int)]));
            assert forall|q: int| 0 <= q < ring2.len() && ring2[q] != w implies {
                &&& r.contains(#[trigger] ring2[q])
                &&& d2[ring2[q] as int].angle == d0[ring2[q] as int].angle
                &&& ring2[q] != left_index.0 ==> d2[ring2[q] as int].right == d0[ring2[q] as int].right
            } by {
                let oq = if q < ins { q } else { q - 1 };
                assert(ring2[q] == rc[oq]);
            }
            lemma_ring_members(r, i_l, j_r, rc, ins, w);
            assert forall|x: int|
                0 <= x < d0.len() && x != r[i_l] && x != r[j_r] && x != w && !in_slots(gone, x)
                    implies #[trigger] d2[x] == d0[x] by {
                assert(d1[x] == d0[x]);
            }
            assert forall|q: int| 0 <= q < rc.len() implies d2[#[trigger] rc[q] as int].angle == d0[rc[q] as int].angle
                && d2[rc[q] as int].vertex == d0[rc[q] as int].vertex by {
                assert(rc.contains(rc[q]));
            }
        }
        (right_index, new_index)
    }

    /// Puts a new hull point with pseudo-angle `middle_angle` and vertex `vertex` between
    /// the points with pseudo-angles `left_angle` and `right_angle`, taking out the points
    /// strictly between those two (going forward from `left_angle`), which the new point
    /// hides; when `left_angle == right_angle`, every other point goes.  The new node takes
    /// the last spare slot (the nodes taken out become spare first), else a new slot.  The
    /// buckets whose start lies in one of the two new segments are pointed at that segment's
    /// node (every bucket, when a segment of more than half a turn holds all their starts),
    /// and the table is resized when the point count calls for it.
    #[verifier::spinoff_prover]
    #[verifier::rlimit(100)]
    pub fn insert(&mut self, left_angle: u32, middle_angle: u32, right_angle: u32, vertex: usize)
        requires
            old(self).wf(),
            old(self).num_slots() <= u32::MAX,
            has_angle(old(self)@, left_angle),
            has_angle(old(self)@, right_angle),
            arc_contains(left_angle as int, right_angle as int, middle_angle as int),
            middle_angle != left_angle,
        ensures
            final(self).wf(),
            final(self)@ == inserted(old(self)@, left_angle, middle_angle, right_angle, vertex),
            final(self).num_buckets() == resized_bucket_count(
                old(self).num_buckets() as int,
                final(self)@.len() as int,
            ),
            old(self).num_buckets() >= 16 ==> final(self).num_buckets() >= 16,
            ({
                let r0 = old(self).ring_slots();
                let l = r0[index_of_angle(old(self)@, left_angle)];
                let rr = r0[index_of_angle(old(self)@, right_angle)];
                let gone = slots_between(
                    r0,
                    index_of_angle(old(self)@, left_angle),
                    index_of_angle(old(self)@, right_angle),
                );
                let pool = old(self).spares() + gone;
                let w = if pool.len() > 0 {
                    pool.last()
                } else {
                    old(self).num_slots() as u32
                };
                &&& final(self).spares() == if pool.len() > 0 {
                    pool.drop_last()
                } else {
                    pool
                }
                &&& final(self).num_slots() == if pool.len() > 0 {
                    old(self).num_slots()
                } else {
                    old(self).num_slots() + 1
                }
                &&& final(self).slot(w as int).angle == middle_angle
                &&& final(self).slot(w as int).vertex == vertex
                &&& final(self).slot(w as int).left.0 == l
                &&& final(self).slot(w as int).right.0 == rr
                &&& final(self).slot(l as int).right.0 == w
                &&& final(self).slot(l as int).angle == old(self).slot(l as int).angle
                &&& final(self).slot(l as int).vertex == old(self).slot(l as int).vertex
                &&& final(self).slot(rr as int).left.0 == w
                &&& l != rr ==> final(self).slot(l as int).left == old(self).slot(l as int).left
                    && final(self).slot(rr as int).right == old(self).slot(rr as int).right
                &&& final(self).slot(rr as int).angle == old(self).slot(rr as int).angle
                &&& final(self).slot(rr as int).vertex == old(self).slot(rr as int).vertex
                &&& forall|s: int|
                    old(self).is_live(s) && s != l && s != rr && !in_slots(gone, s)
                        ==> #[trigger] final(self).slot(s) == old(self).slot(s)
                &&& forall|s: int|
                    #[trigger] final(self).is_live(s) <==> (s == w || (old(self).is_live(s)
                        && !in_slots(gone, s)))
            }),
    {
        let ghost r = self.ring@;
        let ghost m = r.len() as int;
        let ghost d0 = self.data@;
        let ghost b0 = self.buckets@;
        let ghost n = b0.len() as int;
        let ghost ks = keys_of(r, d0);
        proof {
            assert(angles_of(self@) =~= ks);
            let a = choose|i: int| 0 <= i < self@.len() && self@[i].0 == left_angle;
            assert(ks[a] == left_angle);
        }
        let left_index = self.node_with_angle(left_angle);
        let ghost i_l = choose|p: int| 0 <= p < m && ks[p] == left_angle && left_index.0 == r[p];
        let ghost j_r = choose|i: int| 0 <= i < m && self@[i].0 == right_angle;
        proof {
            assert(ks[j_r] == right_angle);
            let ci = index_of_angle(self@, left_angle);
            let cj = index_of_angle(self@, right_angle);
            assert(ks[ci] == left_angle && ks[cj] == right_angle);
            if ci != i_l {
                lemma_keys_distinct(r, d0, ci, i_l);
            }
            if cj != j_r {
                lemma_keys_distinct(r, d0, cj, j_r);
            }
        }
        let (right_index, new_index) = self.replace_between(
            left_index,
            middle_angle,
            right_angle,
            vertex,
            Ghost(i_l),
            Ghost(j_r),
        );
        let ghost w = new_index.0;
        let ghost ring2 = self.ring@;
        proof {
            let dd = removed_count(m, i_l, j_r);
            let rc = drop_after(r, i_l, dd);
            let lc = kept_pos(m, i_l, dd);
            let ins = if lc + 1 < rc.len() || d0[r[i_l] as int].angle < middle_angle { lc + 1 } else { 0 };
            lemma_inserted_points(r, d0, i_l, j_r, rc, ins, w, self.data@, middle_angle, vertex);
        }
        // Update bucket entries appropriately
        let left_bucket = self.ceiled_bucket(left_angle);
        let middle_bucket = self.ceiled_bucket(middle_angle);
        let right_bucket = self.ceiled_bucket(right_angle);
        proof {
            lemma_arc_buckets(left_angle as int, middle_angle as int, n);
            lemma_arc_buckets(middle_angle as int, right_angle as int, n);
        }
        if left_bucket == middle_bucket && Segment::new(left_angle, middle_angle).is_greater_than_180_degree() {
            self.fill_buckets(left_index);
        } else {
            self.update_bucket_segment(left_bucket, middle_bucket, left_index);
        }
        let ghost b1 = self.buckets@;
        proof {
            assert forall|b: int| 0 <= b < n implies #[trigger] b1[b] == if bucket_in_arc(
                left_angle as int,
                middle_angle as int,
                b,
                n,
            ) {
                left_index
            } else {
                b0[b]
            } by {}
        }
        if middle_bucket == right_bucket && Segment::new(middle_angle, right_angle).is_greater_than_180_degree() {
            self.fill_buckets(new_index);
        } else {
            self.update_bucket_segment(middle_bucket, right_bucket, new_index);
        }
        proof {
            let d2 = self.data@;
            assert forall|b: int| 0 <= b < n implies #[trigger] self.buckets@[b].0 == if bucket_in_arc(
                d2[w as int].angle as int,
                d2[right_index.0 as int].angle as int,
                b,
                n,
            ) {
                w
            } else if bucket_in_arc(d2[left_index.0 as int].angle as int, d2[w as int].angle as int, b, n) {
                left_index.0
            } else {
                b0[b].0
            } by {
                assert(b1[b] == if bucket_in_arc(left_angle as int, middle_angle as int, b, n) {
                    left_index
                } else {
                    b0[b]
                });
            }
            lemma_insert_buckets(r, d0, b0, ring2, d2, self.buckets@, left_index.0, w, right_index.0, n);
        }
        self.adjust_bucket_size_if_necessary();
        proof {
            lemma_resized_bucket_count(n, self@.len() as int);
            let gone = slots_between(r, i_l, j_r);
            assert forall|s: int|
                old(self).is_live(s) && s != r[i_l] && s != r[j_r] && !in_slots(gone, s) implies #[trigger] self.slot(s)
                == old(self).slot(s) by {
                let q = choose|q: int| 0 <= q < m && r[q] == s;
                assert(r[q] < d0.len());
            }
            assert forall|s: int|
                #[trigger] self.is_live(s) <==> (s == w || (old(self).is_live(s) && !in_slots(gone, s))) by {}
        }
    }

    /// The hull's points as (pseudo-angle, vertex) pairs, by increasing pseudo-angle.
    pub fn points(&self) -> (r: Vec<(u32, usize)>)
        requires
            self.wf(),
        ensures
            r@ == self@,
    {
        let ghost ring = self.ring@;
        let ghost m = ring.len() as int;
        let ghost n = self.buckets@.len() as int;
        let ghost ks = keys_of(ring, self.data@);
        let head = self.buckets[0];
        let ghost p = lemma_owner_exists(ring, self.data@, n, 0);
        assert(head.0 == ring[p]);
        let head_node = *self.data.get(head);
        let start = if self.data.get(head_node.right).angle < head_node.angle {
            head_node.right
        } else {
            head
        };
        proof {
            if p < m - 1 {
                assert(ks[p] < ks[p + 1]);
                let a = ks[p];
                let c = ks[p + 1];
                assert(a * n < c * n) by (nonlinear_arith)
                    requires
                        a < c,
                        n >= 1,
                ;
                assert(owns_bucket(ring, self.data@, n, p, 0));
                assert(ks[p] * n <= 0 * TURN);
                assert(ks[p] == 0) by (nonlinear_arith)
                    requires
                        ks[p] * n <= 0,
                        ks[p] >= 0,
                        n >= 1,
                ;
                if p > 0 {
                    assert(ks[0] < ks[p]);
                }
                assert(p == 0);
                assert(ks[0] < ks[1]);
            } else {
                assert(ks[0] < ks[m - 1]);
            }
            assert(start.0 == ring[0]);
        }
        let count = self.data.len() - self.empty.len();
        let mut out: Vec<(u32, usize)> = Vec::new();
        let mut index = start;
        let mut i: usize = 0;
        while i < count
            invariant
                self.wf(),
                ring == self.ring@,
                m == ring.len(),
                count == m,
                i <= count,
                i < count ==> index.0 == ring[i as int],
                out@ =~= self@.subrange(0, i as int),
            decreases count - i,
        {
            let node = *self.data.get(index);
            out.push((node.angle, node.vertex));
            index = node.right;
            i += 1;
        }
        out
    }

    /// Slot `i` holds a point of the hull.
    pub closed spec fn is_live(&self, i: int) -> bool {
        exists|p: int| 0 <= p < self.ring@.len() && self.ring@[p] == i
    }

    /// The slots of the hull's points, in the order of the points in `self@`.
    pub closed spec fn ring_slots(&self) -> Seq<u32> {
        self.ring@
    }

    /// The spare slots, in the order in which they are listed; the last one is reused first.
    pub closed spec fn spares(&self) -> Seq<u32> {
        Seq::new(self.empty@.len(), |e: int| self.empty@[e].0)
    }

    /// Slot `i` is listed as spare.
    pub closed spec fn is_spare(&self, i: int) -> bool {
        listed_free(self.empty@, i)
    }

    /// The node in slot `i`.
    pub closed spec fn slot(&self, i: int) -> Node {
        self.data@[i]
    }

    /// The slot that bucket `b` refers to.
    pub closed spec fn bucket(&self, b: int) -> int {
        self.buckets@[b].0 as int
    }

    /// Law: the slots are split into live and spare ones, and the links of every live node
    /// lead to live nodes that link back to it.
    pub proof fn lemma_links_consistent(&self)
        requires
            self.wf(),
        ensures
            forall|i: int| 0 <= i < self.num_slots() ==> (#[trigger] self.is_live(i) <==> !self.is_spare(i)),
            forall|i: int|
                #[trigger] self.is_live(i) ==> {
                    &&& self.is_live(self.slot(i).left.0 as int)
                    &&& self.is_live(self.slot(i).right.0 as int)
                    &&& self.slot(self.slot(i).left.0 as int).right.0 == i
                    &&& self.slot(self.slot(i).right.0 as int).left.0 == i
                },
    {
        let ring = self.ring@;
        let m = ring.len() as int;
        assert forall|i: int| 0 <= i < self.num_slots() implies (#[trigger] self.is_live(i) <==> !self.is_spare(i)) by {
            assert(i as u32 == i);
            assert(ring.contains(i as u32) || listed_free(self.empty@, i));
            if self.is_live(i) {
                let p = choose|p: int| 0 <= p < m && ring[p] == i;
                assert(ring.contains(ring[p]));
                if self.is_spare(i) {
                    let e = choose|e: int| 0 <= e < self.empty@.len() && self.empty@[e].0 == i;
                    assert(!ring.contains(self.empty@[e].0));
                }
            } else {
                if ring.contains(i as u32) {
                    let p = choose|p: int| 0 <= p < m && ring[p] == i as u32;
                }
            }
        }
        assert forall|i: int| #[trigger] self.is_live(i) implies {
            &&& self.is_live(self.slot(i).left.0 as int)
            &&& self.is_live(self.slot(i).right.0 as int)
            &&& self.slot(self.slot(i).left.0 as int).right.0 == i
            &&& self.slot(self.slot(i).right.0 as int).left.0 == i
        } by {
            let p = choose|p: int| 0 <= p < m && ring[p] == i;
            let pl = prev_pos(p, m);
            let pr = next_pos(p, m);
            assert(self.slot(i).left.0 == ring[pl]);
            assert(self.slot(i).right.0 == ring[pr]);
            assert(next_pos(pl, m) == p);
            assert(prev_pos(pr, m) == p);
        }
    }

    /// Law: every bucket refers to the live node whose segment holds the bucket's start,
    /// the angle `b / num_buckets` of a turn.
    pub proof fn lemma_buckets_point_at_owners(&self)
        requires
            self.wf(),
        ensures
            forall|b: int, i: int|
                0 <= b < self.num_buckets() && #[trigger] self.is_live(i) && #[trigger] bucket_in_arc(
                    self.slot(i).angle as int,
                    self.slot(self.slot(i).right.0 as int).angle as int,
                    b,
                    self.num_buckets() as int,
                ) ==> self.bucket(b) == i,
    {
        let ring = self.ring@;
        let m = ring.len() as int;
        let n = self.num_buckets() as int;
        assert forall|b: int, i: int|
            0 <= b < n && #[trigger] self.is_live(i) && #[trigger] bucket_in_arc(
                self.slot(i).angle as int,
                self.slot(self.slot(i).right.0 as int).angle as int,
                b,
                n,
            ) implies self.bucket(b) == i by {
            let p = choose|p: int| 0 <= p < m && ring[p] == i;
            assert(self.slot(i).right.0 == ring[next_pos(p, m)]);
            assert(owns_bucket(ring, self.data@, n, p, b));
        }
    }

    /// Law: the bucket count of a hull is 8, the count it is built with, or a power of two of
    /// at least 16.
    pub proof fn lemma_bucket_count_reachable(&self)
        requires
            self.wf(),
        ensures
            reachable_bucket_count(self.num_buckets() as int),
    {
    }

    /// Law: the hull's points are ordered by strictly increasing pseudo-angle, there are at
    /// least two of them, and every pseudo-angle lies in the segment of exactly one point.
    pub proof fn lemma_one_segment_per_angle(&self, angle: u32) -> (p: int)
        requires
            self.wf(),
        ensures
            self@.len() >= 2,
            strictly_increasing(angles_of(self@)),
            0 <= p < self@.len(),
            point_covers(self@, p, angle),
            forall|q: int| 0 <= q < self@.len() && #[trigger] point_covers(self@, q, angle) ==> q == p,
    {
        let ks = angles_of(self@);
        assert(ks =~= keys_of(self.ring@, self.data@));
        let p = lemma_arcs_cover(ks, angle as int);
        assert forall|q: int| 0 <= q < self@.len() && #[trigger] point_covers(self@, q, angle) implies q == p by {
            lemma_arcs_disjoint(ks, angle as int, p, q);
        }
        p
    }

    /// The number of buckets.
    pub fn bucket_count(&self) -> (n: usize)
        ensures
            n == self.num_buckets(),
    {
        self.buckets.len()
    }

    /// The number of node slots, used and spare.
    pub fn slot_count(&self) -> (n: usize)
        ensures
            n == self.num_slots(),
    {
        self.data.len()
    }

    /// `insert(left_angle, middle_angle, right_angle, _)` may be called on this hull: its
    /// precondition holds.
    pub fn accepts_insert(&self, left_angle: u32, middle_angle: u32, right_angle: u32) -> (r: bool)
        requires
            self.wf(),
        ensures
            r == (self.num_slots() <= u32::MAX && has_angle(self@, left_angle) && has_angle(
                self@,
                right_angle,
            ) && arc_contains(left_angle as int, right_angle as int, middle_angle as int)
                && middle_angle != left_angle),
    {
        if self.data.len() as u64 > u32::MAX as u64 {
            return false;
        }
        if middle_angle == left_angle || middle_angle == right_angle {
            return false;
        }
        if left_angle != right_angle && !Segment::new(left_angle, right_angle).contains_angle(
            middle_angle,
        ) {
            return false;
        }
        let points = self.points();
        let mut has_left = false;
        let mut has_right = false;
        let mut i: usize = 0;
        while i < points.len()
            invariant
                points@ == self@,
                i <= points@.len(),
                has_left == exists|k: int| 0 <= k < i && points@[k].0 == left_angle,
                has_right == exists|k: int| 0 <= k < i && points@[k].0 == right_angle,
            decreases points@.len() - i,
        {
            if points[i].0 == left_angle {
                has_left = true;
            }
            if points[i].0 == right_angle {
                has_right = true;
            }
            i += 1;
        }
        has_left && has_right
    }

    /// Law: the points of the hull are the nodes of the slots in `ring_slots()`, in that
    /// order; those slots are the live ones, each node links to its neighbours in that
    /// order, and the spare slots are the other slots, each listed once.
    pub proof fn lemma_view_slots(&self)
        requires
            self.wf(),
        ensures
            self.ring_slots().len() == self@.len(),
            self@.len() >= 2,
            forall|p: int|
                0 <= p < self@.len() ==> {
                    &&& self.ring_slots()[p] < self.num_slots()
                    &&& #[trigger] self@[p] == (
                        self.slot(self.ring_slots()[p] as int).angle,
                        self.slot(self.ring_slots()[p] as int).vertex,
                    )
                    &&& self.slot(self.ring_slots()[p] as int).right.0 == self.ring_slots()[next_pos(
                        p,
                        self@.len() as int,
                    )]
                    &&& self.slot(self.ring_slots()[p] as int).left.0 == self.ring_slots()[prev_pos(
                        p,
                        self@.len() as int,
                    )]
                },
            forall|i: int|
                #[trigger] self.is_live(i) <==> exists|p: int|
                    0 <= p < self@.len() && self.ring_slots()[p] == i,
            forall|e: int|
                0 <= e < self.spares().len() ==> #[trigger] self.spares()[e] < self.num_slots()
                    && !self.is_live(self.spares()[e] as int),
            forall|e: int, f: int|
                0 <= e < f < self.spares().len() ==> self.spares()[e] != self.spares()[f],
            self.spares().len() + self@.len() == self.num_slots(),
            forall|b: int| 0 <= b < self.num_buckets() ==> #[trigger] self.is_live(self.bucket(b)),
    {
        let ring = self.ring@;
        let m = ring.len() as int;
        let n = self.buckets@.len() as int;
        assert(self@.len() == m);
        assert forall|i: int| #[trigger] self.is_live(i) <==> exists|p: int|
            0 <= p < self@.len() && self.ring_slots()[p] == i by {
            if self.is_live(i) {
                let p = choose|p: int| 0 <= p < m && ring[p] == i;
                assert(self.ring_slots()[p] == i);
            }
            if exists|p: int| 0 <= p < self@.len() && self.ring_slots()[p] == i {
                let p = choose|p: int| 0 <= p < self@.len() && self.ring_slots()[p] == i;
                assert(ring[p] == i);
            }
        }
        assert forall|e: int| 0 <= e < self.spares().len() implies #[trigger] self.spares()[e]
            < self.num_slots() && !self.is_live(self.spares()[e] as int) by {
            assert(self.spares()[e] == self.empty@[e].0);
            assert(!ring.contains(self.empty@[e].0));
            if self.is_live(self.spares()[e] as int) {
                let p = choose|p: int| 0 <= p < m && ring[p] == self.spares()[e] as int;
                assert(ring.contains(ring[p]));
            }
        }
        assert forall|e: int, f: int| 0 <= e < f < self.spares().len() implies self.spares()[e]
            != self.spares()[f] by {
            assert(self.spares()[e] == self.empty@[e].0);
            assert(self.spares()[f] == self.empty@[f].0);
        }
        assert forall|b: int| 0 <= b < n implies #[trigger] self.is_live(self.bucket(b)) by {
            let p = lemma_owner_exists(ring, self.data@, n, b);
            assert(self.buckets@[b].0 == ring[p]);
        }
    }

    /// Law: the bucket table of a well-formed hull is fixed by its nodes and its bucket
    /// count, whatever it held before it was last rebuilt.
    pub proof fn lemma_buckets_determined(a: &Hull, b: &Hull)
        requires
            a.wf(),
            b.wf(),
            a.ring_slots() == b.ring_slots(),
            a.num_slots() == b.num_slots(),
            forall|i: int| 0 <= i < a.num_slots() ==> #[trigger] a.slot(i) == b.slot(i),
            a.num_buckets() == b.num_buckets(),
        ensures
            forall|k: int| 0 <= k < a.num_buckets() ==> #[trigger] a.bucket(k) == b.bucket(k),
    {
        let ring = a.ring@;
        let n = a.buckets@.len() as int;
        assert forall|i: int| 0 <= i < a.data@.len() implies a.data@[i] == b.data@[i] by {
            assert(a.slot(i) == b.slot(i));
        }
        assert(a.data@ =~= b.data@);
        assert forall|k: int| 0 <= k < n implies #[trigger] a.bucket(k) == b.bucket(k) by {
            let p = lemma_owner_exists(ring, a.data@, n, k);
        }
    }
}

} // verus!
