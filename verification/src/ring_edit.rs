use vstd::prelude::*;
use crate::arcs::{next_pos, prev_pos, strictly_increasing};
use crate::hull::{
    free_slots_ok, in_slots, keys_of, linked, listed_free, removed_count, ring_slots_ok, slots_between,
    Node,
};
use crate::typed::HullIndex;

verus! {

/// `r` with the `k` positions after position `i` taken out, going round the ring.
pub open spec fn drop_after(r: Seq<u32>, i: int, k: int) -> Seq<u32> {
    let t = r.len() - 1 - i;
    if k <= t {
        r.subrange(0, i + 1) + r.subrange(i + 1 + k, r.len() as int)
    } else {
        r.subrange(k - t, i + 1)
    }
}

/// Where position `i` of `r` stands in `drop_after(r, i, k)`.
pub open spec fn kept_pos(m: int, i: int, k: int) -> int {
    if k <= m - 1 - i {
        i
    } else {
        i - (k - (m - 1 - i))
    }
}

/// The position `k + 1` steps after `i`, going round a ring of `m` positions
/// (for `k + 1 < m`).
pub open spec fn step_pos(m: int, i: int, k: int) -> int {
    if i + 1 + k < m {
        i + 1 + k
    } else {
        i + 1 + k - m
    }
}

/// Taking one more position out after `i` takes out the position that follows `i` in
/// what is left.
pub proof fn lemma_drop_step(r: Seq<u32>, i: int, k: int)
    requires
        0 <= i < r.len(),
        0 <= k,
        k + 1 < r.len(),
    ensures
        ({
            let rc = drop_after(r, i, k);
            let m = r.len() as int;
            let lc = kept_pos(m, i, k);
            &&& rc.len() == m - k
            &&& 0 <= lc < rc.len()
            &&& rc[lc] == r[i]
            &&& rc[next_pos(lc, rc.len() as int)] == r[step_pos(m, i, k)]
            &&& drop_after(r, i, k + 1) =~= rc.remove(next_pos(lc, rc.len() as int))
            &&& kept_pos(m, i, k + 1) == if next_pos(lc, rc.len() as int) == 0 { lc - 1 } else { lc }
        }),
{
}

/// Every position of `drop_after(r, i, k)` holds an element of `r`.
pub proof fn lemma_drop_subset(r: Seq<u32>, i: int, k: int)
    requires
        0 <= i < r.len(),
        0 <= k < r.len(),
    ensures
        forall|q: int|
            0 <= q < drop_after(r, i, k).len() ==> r.contains(#[trigger] drop_after(r, i, k)[q]),
{
    let rc = drop_after(r, i, k);
    let t = r.len() - 1 - i;
    assert forall|q: int| 0 <= q < rc.len() implies r.contains(#[trigger] rc[q]) by {
        if k <= t {
            if q <= i {
                assert(rc[q] == r[q]);
            } else {
                assert(rc[q] == r[q + k]);
            }
        } else {
            assert(rc[q] == r[q + k - t]);
        }
    }
}

/// Taking a key out of an increasing sequence leaves it increasing.
pub proof fn lemma_remove_increasing(s: Seq<int>, j: int)
    requires
        strictly_increasing(s),
        0 <= j < s.len(),
    ensures
        strictly_increasing(s.remove(j)),
{
    let t = s.remove(j);
    assert forall|a: int, b: int| 0 <= a < b < t.len() implies t[a] < t[b] by {
        let oa = if a < j { a } else { a + 1 };
        let ob = if b < j { b } else { b + 1 };
        assert(t[a] == s[oa]);
        assert(t[b] == s[ob]);
    }
}

/// Putting a key between its neighbours into an increasing sequence keeps it increasing.
pub proof fn lemma_insert_increasing(s: Seq<int>, j: int, v: int)
    requires
        strictly_increasing(s),
        0 <= j <= s.len(),
        j > 0 ==> s[j - 1] < v,
        j < s.len() ==> v < s[j],
    ensures
        strictly_increasing(s.insert(j, v)),
{
    let t = s.insert(j, v);
    assert forall|a: int, b: int| 0 <= a < b < t.len() implies t[a] < t[b] by {
        if a < j && b < j {
            assert(t[a] == s[a] && t[b] == s[b]);
        } else if a < j && b == j {
            assert(s[a] <= s[j - 1]);
        } else if a < j {
            assert(t[a] == s[a] && t[b] == s[b - 1]);
        } else if a == j {
            assert(s[j] <= s[b - 1]);
        } else {
            assert(t[a] == s[a - 1] && t[b] == s[b - 1]);
        }
    }
}

/// Taking out the node after position `lc`, by linking its two neighbours to each other,
/// keeps the rest linked in ring order.
pub proof fn lemma_unlink(rc: Seq<u32>, nodes: Seq<Node>, lc: int, nodes2: Seq<Node>)
    requires
        rc.len() >= 3,
        0 <= lc < rc.len(),
        ring_slots_ok(rc, nodes.len() as int),
        linked(rc, nodes),
        nodes2.len() == nodes.len(),
        ({
            let j = next_pos(lc, rc.len() as int);
            let y = rc[next_pos(j, rc.len() as int)] as int;
            let l = rc[lc] as int;
            &&& forall|i: int| 0 <= i < nodes.len() && i != l && i != y ==> nodes2[i] == nodes[i]
            &&& nodes2[l].right.0 == y
            &&& nodes2[l].left == nodes[l].left
            &&& nodes2[y].left.0 == l
            &&& nodes2[y].right == nodes[y].right
        }),
    ensures
        ring_slots_ok(rc.remove(next_pos(lc, rc.len() as int)), nodes.len() as int),
        linked(rc.remove(next_pos(lc, rc.len() as int)), nodes2),
{
    let m = rc.len() as int;
    let j = next_pos(lc, m);
    let jj = next_pos(j, m);
    let rc2 = rc.remove(j);
    let m2 = m - 1;
    assert forall|q: int| 0 <= q < m2 implies {
        &&& (#[trigger] nodes2[rc2[q] as int]).right.0 == rc2[next_pos(q, m2)]
        &&& nodes2[rc2[q] as int].left.0 == rc2[prev_pos(q, m2)]
    } by {
        let oq = if q < j { q } else { q + 1 };
        assert(rc2[q] == rc[oq]);
        let nq = next_pos(q, m2);
        let pq = prev_pos(q, m2);
        let onq = if nq < j { nq } else { nq + 1 };
        let opq = if pq < j { pq } else { pq + 1 };
        assert(rc2[nq] == rc[onq]);
        assert(rc2[pq] == rc[opq]);
        if oq == lc {
            assert(onq == jj);
            assert(rc[oq] != rc[jj]);
            assert(opq == prev_pos(lc, m));
        } else if oq == jj {
            assert(opq == lc);
            assert(onq == next_pos(jj, m));
        } else {
            assert(rc[oq] != rc[lc]);
            assert(rc[oq] != rc[jj]);
            assert(onq == next_pos(oq, m));
            assert(opq == prev_pos(oq, m));
        }
    }
    assert forall|p: int, q: int| 0 <= p < q < m2 implies rc2[p] != rc2[q] by {
        let op = if p < j { p } else { p + 1 };
        let oq = if q < j { q } else { q + 1 };
        assert(rc2[p] == rc[op] && rc2[q] == rc[oq]);
    }
}

/// Putting a new node between the node at position `lc` and the one after it keeps the
/// ring linked, when the new node's position is right after `lc`, or first when `lc` is
/// the last position.
pub proof fn lemma_link_in(
    rc: Seq<u32>,
    nodes: Seq<Node>,
    lc: int,
    w: u32,
    ins: int,
    nodes2: Seq<Node>,
)
    requires
        rc.len() >= 1,
        0 <= lc < rc.len(),
        ring_slots_ok(rc, nodes.len() as int),
        linked(rc, nodes),
        !rc.contains(w),
        w < nodes2.len(),
        nodes2.len() >= nodes.len(),
        ins == lc + 1 || (ins == 0 && lc == rc.len() - 1),
        ({
            let l = rc[lc] as int;
            let r = rc[next_pos(lc, rc.len() as int)] as int;
            &&& forall|i: int|
                0 <= i < nodes.len() && i != l && i != r && i != w ==> nodes2[i] == nodes[i]
            &&& nodes2[l].right.0 == w
            &&& nodes2[r].left.0 == w
            &&& l != r ==> nodes2[l].left == nodes[l].left && nodes2[r].right == nodes[r].right
            &&& nodes2[w as int].left.0 == l
            &&& nodes2[w as int].right.0 == r
        }),
    ensures
        ring_slots_ok(rc.insert(ins, w), nodes2.len() as int),
        linked(rc.insert(ins, w), nodes2),
{
    let m = rc.len() as int;
    let rc2 = rc.insert(ins, w);
    let m2 = m + 1;
    let l = rc[lc];
    let r = rc[next_pos(lc, m)];
    if m >= 2 {
        assert(l != r);
    } else {
        assert(l == r);
        assert(lc == 0);
    }
    assert forall|q: int| 0 <= q < m2 implies {
        &&& (#[trigger] nodes2[rc2[q] as int]).right.0 == rc2[next_pos(q, m2)]
        &&& nodes2[rc2[q] as int].left.0 == rc2[prev_pos(q, m2)]
    } by {
        let nq = next_pos(q, m2);
        let pq = prev_pos(q, m2);
        if q == ins {
            assert(rc2[q] == w);
            if ins == lc + 1 {
                assert(rc2[pq] == l);
                if lc + 1 < m {
                    assert(rc2[nq] == rc[lc + 1]);
                } else {
                    assert(rc2[nq] == rc[0]);
                }
            } else {
                assert(rc2[pq] == rc[m - 1]);
                assert(rc2[nq] == rc[0]);
            }
        } else {
            let oq = if q < ins { q } else { q - 1 };
            assert(rc2[q] == rc[oq]);
            assert(rc[oq] != w);
            let nn = next_pos(oq, m);
            let pp = prev_pos(oq, m);
            if oq == lc {
                assert(rc2[nq] == w);
                if m == 1 {
                    assert(rc2[pq] == w);
                } else {
                    assert(rc2[pq] == rc[pp]);
                }
            } else if oq == next_pos(lc, m) {
                assert(rc2[pq] == w);
                assert(rc2[nq] == rc[nn]);
                assert(rc[oq] != l);
            } else {
                assert(rc[oq] != l);
                assert(rc[oq] != r);
                assert(rc2[nq] == rc[nn]);
                assert(rc2[pq] == rc[pp]);
            }
        }
    }
    assert forall|p: int, q: int| 0 <= p < q < m2 implies rc2[p] != rc2[q] by {
        if p == ins {
            assert(rc.contains(rc2[q]) ==> rc2[q] != w);
            let oq = q - 1;
            assert(rc2[q] == rc[oq]);
        } else if q == ins {
            assert(rc2[p] == rc[p]);
        } else {
            let op = if p < ins { p } else { p - 1 };
            let oq = if q < ins { q } else { q - 1 };
            assert(rc2[p] == rc[op] && rc2[q] == rc[oq]);
        }
    }
}

/// A node taken out of the ring becomes the last spare slot.
pub proof fn lemma_free_out(rc: Seq<u32>, empty: Seq<HullIndex>, len: int, j: int, x: HullIndex)
    requires
        ring_slots_ok(rc, len),
        free_slots_ok(rc, empty, len),
        0 <= j < rc.len(),
        x.0 == rc[j],
        len <= 0x1_0000_0000,
    ensures
        free_slots_ok(rc.remove(j), empty.push(x), len),
{
    let rc2 = rc.remove(j);
    let e2 = empty.push(x);
    assert forall|q: int| 0 <= q < rc2.len() implies #[trigger] rc2[q] != x.0 by {
        let oq = if q < j { q } else { q + 1 };
        assert(rc2[q] == rc[oq]);
    }
    assert forall|e: int| 0 <= e < e2.len() implies #[trigger] e2[e].0 < len && !rc2.contains(
        e2[e].0,
    ) by {
        if e < empty.len() {
            assert(e2[e] == empty[e]);
            assert(!rc.contains(empty[e].0));
            if rc2.contains(e2[e].0) {
                let q = choose|q: int| 0 <= q < rc2.len() && rc2[q] == e2[e].0;
                let oq = if q < j { q } else { q + 1 };
                assert(rc2[q] == rc[oq]);
            }
        }
    }
    assert forall|e: int, f: int| 0 <= e < f < e2.len() implies e2[e].0 != e2[f].0 by {
        if f == empty.len() {
            assert(rc.contains(rc[j]));
            assert(!rc.contains(empty[e].0));
        }
    }
    assert forall|i: int| 0 <= i < len implies rc2.contains(i as u32) || listed_free(e2, i) by {
        assert(i as u32 == i);
        assert(rc.contains(i as u32) || listed_free(empty, i));
        if i == x.0 {
            assert(e2[empty.len() as int] == x);
        } else if rc.contains(i as u32) {
            let q = choose|q: int| 0 <= q < rc.len() && rc[q] == i as u32;
            let q2 = if q < j { q } else { q - 1 };
            assert(rc2[q2] == rc[q]);
        } else {
            assert(listed_free(empty, i));
            let e = choose|e: int| 0 <= e < empty.len() && empty[e].0 == i;
            assert(e2[e] == empty[e]);
        }
    }
}

/// The last spare slot, taken back into the ring, is no longer spare.
pub proof fn lemma_free_in_spare(rc: Seq<u32>, empty: Seq<HullIndex>, len: int, ins: int)
    requires
        free_slots_ok(rc, empty, len),
        empty.len() > 0,
        0 <= ins <= rc.len(),
        len <= 0x1_0000_0000,
    ensures
        free_slots_ok(rc.insert(ins, empty.last().0), empty.drop_last(), len),
{
    let w = empty.last().0;
    let rc2 = rc.insert(ins, w);
    let e2 = empty.drop_last();
    let last = empty.len() - 1;
    assert forall|e: int| 0 <= e < e2.len() implies #[trigger] e2[e].0 < len && !rc2.contains(
        e2[e].0,
    ) by {
        assert(e2[e] == empty[e]);
        assert(empty[e].0 != empty[last].0);
        if rc2.contains(e2[e].0) {
            let q = choose|q: int| 0 <= q < rc2.len() && rc2[q] == e2[e].0;
            if q != ins {
                let oq = if q < ins { q } else { q - 1 };
                assert(rc2[q] == rc[oq]);
            }
        }
    }
    assert forall|i: int| 0 <= i < len implies rc2.contains(i as u32) || listed_free(e2, i) by {
        assert(i as u32 == i);
        assert(rc.contains(i as u32) || listed_free(empty, i));
        if i == w {
            assert(rc2[ins] == w);
        } else if rc.contains(i as u32) {
            let q = choose|q: int| 0 <= q < rc.len() && rc[q] == i as u32;
            let q2 = if q < ins { q } else { q + 1 };
            assert(rc2[q2] == rc[q]);
        } else {
            let e = choose|e: int| 0 <= e < empty.len() && empty[e].0 == i;
            assert(e != last);
            assert(e2[e] == empty[e]);
        }
    }
}

/// A fresh slot at the end of the storage, taken into the ring, keeps the spare slots right.
pub proof fn lemma_free_in_fresh(rc: Seq<u32>, empty: Seq<HullIndex>, len: int, ins: int)
    requires
        free_slots_ok(rc, empty, len),
        ring_slots_ok(rc, len),
        empty.len() == 0,
        0 <= ins <= rc.len(),
        len <= u32::MAX,
    ensures
        free_slots_ok(rc.insert(ins, len as u32), empty, len + 1),
{
    let rc2 = rc.insert(ins, len as u32);
    assert forall|i: int| 0 <= i < len + 1 implies rc2.contains(i as u32) || listed_free(empty, i) by {
        if i == len {
            assert(rc2[ins] == len as u32);
        } else {
            assert(i as u32 == i);
            assert(rc.contains(i as u32) || listed_free(empty, i));
            if rc.contains(i as u32) {
                let q = choose|q: int| 0 <= q < rc.len() && rc[q] == i as u32;
                let q2 = if q < ins { q } else { q + 1 };
                assert(rc2[q2] == rc[q]);
            }
        }
    }
}

/// What is left of the ring after the slots strictly between positions `i` and `j` are taken
/// out is the ring's slots that are not among those taken out.
pub proof fn lemma_drop_members(r: Seq<u32>, i: int, j: int, x: int)
    requires
        forall|p: int, q: int| 0 <= p < q < r.len() ==> r[p] != r[q],
        0 <= i < r.len(),
        0 <= j < r.len(),
    ensures
        (exists|q: int|
            0 <= q < drop_after(r, i, removed_count(r.len() as int, i, j)).len() && drop_after(
                r,
                i,
                removed_count(r.len() as int, i, j),
            )[q] == x) <==> ((exists|q: int| 0 <= q < r.len() && r[q] == x) && !in_slots(
            slots_between(r, i, j),
            x,
        )),
{
    let m = r.len() as int;
    let d = removed_count(m, i, j);
    let rc = drop_after(r, i, d);
    let gone = slots_between(r, i, j);
    // a position of r is taken out exactly when it lies strictly between i and j
    let out = |q: int| if i < j { i < q && q < j } else { q > i || q < j };
    assert forall|k: int| 0 <= k < gone.len() implies out(step_pos(m, i, k)) && 0 <= step_pos(m, i, k) < m
        && #[trigger] gone[k] == r[step_pos(m, i, k)] by {}
    if i < j {
        assert(rc =~= r.subrange(0, i + 1) + r.subrange(j, m));
    } else {
        assert(rc =~= r.subrange(j, i + 1));
    }
    if exists|q: int| 0 <= q < rc.len() && rc[q] == x {
        let q = choose|q: int| 0 <= q < rc.len() && rc[q] == x;
        let oq = if i < j {
            if q <= i { q } else { q - (i + 1) + j }
        } else {
            q + j
        };
        assert(r[oq] == x && !out(oq));
        if in_slots(gone, x) {
            let k = choose|k: int| 0 <= k < gone.len() && gone[k] == x;
            assert(r[step_pos(m, i, k)] == x);
        }
    }
    if (exists|q: int| 0 <= q < m && r[q] == x) && !in_slots(gone, x) {
        let q = choose|q: int| 0 <= q < m && r[q] == x;
        if out(q) {
            let k = if q > i { q - i - 1 } else { q + m - i - 1 };
            assert(step_pos(m, i, k) == q);
            assert(gone[k] == x);
        }
        let p = if i < j {
            if q <= i { q } else { q - j + (i + 1) }
        } else {
            q - j
        };
        assert(rc[p] == x);
    }
}

} // verus!
