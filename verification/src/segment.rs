use vstd::prelude::*;
use crate::arcs::{arc_contains, in_cyclic_range};

verus! {

/// A full turn in the fixed-point scale of pseudo-angles: the value `a` stands for the
/// fraction `a / TURN` of a turn.
pub const TURN: u64 = 0x1_0000_0000;

/// Half a turn in the same scale.
pub const HALF_TURN: u64 = 0x8000_0000;

/// The length of the forward arc from `from` to `to`.
pub open spec fn arc_length(from: int, to: int) -> int {
    if from < to {
        to - from
    } else {
        to + TURN - from
    }
}

/// The start of bucket `b` out of `n` (the angle `b / n` of a turn) lies in the arc
/// from `from` to `to`.  The comparison is made on values scaled by `n * TURN`.
pub open spec fn bucket_in_arc(from: int, to: int, b: int, n: int) -> bool {
    arc_contains(from * n, to * n, b * TURN)
}

/// The bucket whose start is the last one at or below `angle`, before wrapping.
pub open spec fn bucket_floor(angle: int, n: int) -> int {
    (angle * n) / (TURN as int)
}

/// The bucket whose start is the first one at or above `angle`, before wrapping
/// (it may equal `n`).
pub open spec fn bucket_ceil(angle: int, n: int) -> int {
    (angle * n + TURN - 1) / (TURN as int)
}

/// A pair of pseudo-angles that bounds an arc of the hull.
#[derive(Clone, Copy, Debug)]
pub struct Segment {
    pub from: u32,
    pub to: u32,
}

impl Segment {
    /// The segment from `from` to `to`; the two must differ.
    pub fn new(from: u32, to: u32) -> (s: Segment)
        requires
            from != to,
        ensures
            s.from == from,
            s.to == to,
    {
        Segment { from, to }
    }

    /// The segment does not pass the top of the angle range.
    pub fn is_non_wrapping_segment(&self) -> (r: bool)
        ensures
            r == (self.from < self.to),
    {
        self.from < self.to
    }

    /// The segment holds `angle`: its start is included, its end is not.
    pub fn contains_angle(&self, angle: u32) -> (r: bool)
        ensures
            r == arc_contains(self.from as int, self.to as int, angle as int),
    {
        if self.is_non_wrapping_segment() {
            self.from <= angle && angle < self.to
        } else {
            self.from <= angle || angle < self.to
        }
    }

    /// The segment spans more than half a turn.
    pub fn is_greater_than_180_degree(&self) -> (r: bool)
        ensures
            r == (arc_length(self.from as int, self.to as int) > HALF_TURN),
    {
        if self.is_non_wrapping_segment() {
            (self.to - self.from) as u64 > HALF_TURN
        } else {
            self.to as u64 + TURN - self.from as u64 > HALF_TURN
        }
    }
}

/// `bucket_floor` reduced to the range `0..n`.
pub fn floor_bucket(angle: u32, n: usize) -> (r: usize)
    requires
        1 <= n <= TURN,
    ensures
        r == bucket_floor(angle as int, n as int) % (n as int),
{
    let a = angle as u64;
    let k = n as u64;
    assert(a * k < 0x1_0000_0000_0000_0000) by (nonlinear_arith)
        requires
            a < 0x1_0000_0000,
            k <= 0x1_0000_0000,
    ;
    let p = a * k;
    let q = p / TURN;
    assert(q < k) by (nonlinear_arith)
        requires
            p == a * k,
            q == p / 0x1_0000_0000,
            a < 0x1_0000_0000,
            k >= 1,
    ;
    (q as usize) % n
}

/// `bucket_ceil` reduced to the range `0..n`.
pub fn ceil_bucket(angle: u32, n: usize) -> (r: usize)
    requires
        1 <= n <= TURN,
    ensures
        r == bucket_ceil(angle as int, n as int) % (n as int),
{
    let a = angle as u64;
    let k = n as u64;
    assert(a * k < 0x1_0000_0000_0000_0000) by (nonlinear_arith)
        requires
            a < 0x1_0000_0000,
            k <= 0x1_0000_0000,
    ;
    let p = a * k;
    let q = p / TURN;
    let c = if p % TURN != 0 {
        q + 1
    } else {
        q
    };
    assert(c == (p + TURN - 1) / (TURN as int));
    assert(c <= k) by (nonlinear_arith)
        requires
            p == a * k,
            c == (p + 0x1_0000_0000 - 1) / 0x1_0000_0000,
            a < 0x1_0000_0000,
            k >= 1,
    ;
    (c as usize) % n
}

/// Where the start of bucket `b` lies with respect to an angle is decided by
/// `bucket_ceil` alone.
pub proof fn lemma_bucket_ceil(a: int, n: int)
    requires
        0 <= a < TURN,
        1 <= n,
    ensures
        0 <= bucket_ceil(a, n) <= n,
        (bucket_ceil(a, n) - 1) * TURN < a * n <= bucket_ceil(a, n) * TURN,
{
    let p = a * n;
    let c = bucket_ceil(a, n);
    assert(0 <= p < n * TURN) by (nonlinear_arith)
        requires
            p == a * n,
            0 <= a < TURN,
            1 <= n,
    ;
    assert((c - 1) * TURN < p <= c * TURN);
    assert(c <= n) by (nonlinear_arith)
        requires
            (c - 1) * TURN < p,
            p < n * TURN,
    ;
}

/// What `update_bucket_segment(ceil(from), ceil(to), _)` writes, compared with the
/// buckets whose start lies in the arc from `from` to `to`: when the two reduced
/// bucket numbers differ, the cyclic range between them is exactly that set of buckets;
/// when they agree, the arc holds every bucket start if it spans more than half a turn
/// and none otherwise.
pub proof fn lemma_arc_buckets(f: int, t: int, n: int)
    requires
        0 <= f < TURN,
        0 <= t < TURN,
        f != t,
        2 <= n,
    ensures
        ({
            let l = bucket_ceil(f, n) % n;
            let r = bucket_ceil(t, n) % n;
            &&& l != r ==> forall|b: int|
                0 <= b < n ==> (in_cyclic_range(l, r, b) == #[trigger] bucket_in_arc(f, t, b, n))
            &&& (l == r && arc_length(f, t) > HALF_TURN) ==> forall|b: int|
                0 <= b < n ==> #[trigger] bucket_in_arc(f, t, b, n)
            &&& (l == r && arc_length(f, t) <= HALF_TURN) ==> forall|b: int|
                0 <= b < n ==> !#[trigger] bucket_in_arc(f, t, b, n)
        }),
{
    lemma_bucket_ceil(f, n);
    lemma_bucket_ceil(t, n);
    let cf = bucket_ceil(f, n);
    let ct = bucket_ceil(t, n);
    let fnn = f * n;
    let tnn = t * n;
    let l = cf % n;
    let r = ct % n;
    if cf == n {
        vstd::arithmetic::div_mod::lemma_mod_self_0(n);
    } else {
        vstd::arithmetic::div_mod::lemma_small_mod(cf as nat, n as nat);
    }
    if ct == n {
        vstd::arithmetic::div_mod::lemma_mod_self_0(n);
    } else {
        vstd::arithmetic::div_mod::lemma_small_mod(ct as nat, n as nat);
    }
    assert(l == if cf == n { 0 } else { cf });
    assert(r == if ct == n { 0 } else { ct });
    assert((f < t) == (fnn < tnn)) by (nonlinear_arith)
        requires
            fnn == f * n,
            tnn == t * n,
            n >= 1,
    ;
    assert forall|b: int| 0 <= b < n implies
        #[trigger] bucket_in_arc(f, t, b, n) == (if f < t {
            cf <= b && b < ct
        } else {
            cf <= b || b < ct
        }) by {
        assert(b * TURN >= fnn <==> cf <= b);
        assert(b * TURN >= tnn <==> ct <= b);
    }
    if t < f {
        assert(ct <= cf);
    }
    if l == r {
        if f < t {
            if cf == ct {
                assert((t - f) * n == tnn - fnn) by (nonlinear_arith)
                    requires
                        fnn == f * n,
                        tnn == t * n,
                ;
                assert(2 * (t - f) < TURN) by (nonlinear_arith)
                    requires
                        (t - f) * n < TURN,
                        t - f > 0,
                        n >= 2,
                ;
            } else {
                assert(cf == 0 && ct == n);
                assert(f == 0) by (nonlinear_arith)
                    requires
                        f * n <= 0,
                        f >= 0,
                        n >= 2,
                ;
                assert(2 * t > TURN) by (nonlinear_arith)
                    requires
                        (n - 1) * TURN < t * n,
                        n >= 2,
                        t < TURN,
                ;
            }
        } else {
            if cf == ct {
                assert((f - t) * n == fnn - tnn) by (nonlinear_arith)
                    requires
                        fnn == f * n,
                        tnn == t * n,
                ;
                assert(2 * (f - t) < TURN) by (nonlinear_arith)
                    requires
                        (f - t) * n < TURN,
                        f - t > 0,
                        n >= 2,
                ;
            } else {
                assert(cf == n && ct == 0);
                assert(t == 0) by (nonlinear_arith)
                    requires
                        t * n <= 0,
                        t >= 0,
                        n >= 2,
                ;
                assert(2 * f > TURN) by (nonlinear_arith)
                    requires
                        (n - 1) * TURN < f * n,
                        n >= 2,
                        f < TURN,
                ;
            }
        }
    }
}

/// Law: the ceiled bucket of an angle is its floored bucket when the angle falls exactly on
/// a bucket start, and the next bucket round otherwise; the floored bucket is below `n`.
pub proof fn lemma_ceil_from_floor(a: int, n: int)
    requires
        0 <= a < TURN,
        1 <= n,
    ensures
        0 <= bucket_floor(a, n) < n,
        bucket_ceil(a, n) % n == if (a * n) % (TURN as int) == 0 {
            bucket_floor(a, n)
        } else {
            (bucket_floor(a, n) + 1) % n
        },
{
    let p = a * n;
    let f = bucket_floor(a, n);
    assert(0 <= p < n * TURN) by (nonlinear_arith)
        requires
            p == a * n,
            0 <= a < TURN,
            1 <= n,
    ;
    assert(f * TURN <= p < (f + 1) * TURN);
    assert(f < n) by (nonlinear_arith)
        requires
            f * TURN <= p,
            p < n * TURN,
    ;
    assert(f >= 0);
    vstd::arithmetic::div_mod::lemma_small_mod(f as nat, n as nat);
    if p % (TURN as int) == 0 {
        assert(bucket_ceil(a, n) == f);
    } else {
        assert(bucket_ceil(a, n) == f + 1);
    }
}

} // verus!
