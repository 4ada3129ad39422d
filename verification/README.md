# spade_bulk

The hull that speeds up bulk loading of a Delaunay triangulation, verified with Verus.

While points are inserted from the centre of their bounding box outwards, the hull keeps
the convex hull of the points inserted so far as a ring of (pseudo-angle, vertex) pairs
ordered round the centre, with a table of buckets over the circle that leads straight to
the point whose segment holds a given pseudo-angle. Pseudo-angles are fixed-point
fractions of a turn (`u32`, a full turn being `TURN = 2^32`).

Layout:

- `src/typed.rs`: `TypedIndex` and `TypedVec`, indices and vectors tied together by a tag;
  `src/typed_cmp.rs`: equality and order of `TypedIndex`.
- `src/arcs.rs`: arcs of the circle, rings of increasing keys, and the facts that their
  arcs cover the circle without overlap.
- `src/segment.rs`: `Segment` and the arithmetic of buckets (`floor_bucket`,
  `ceil_bucket`, which buckets an arc holds).
- `src/hull.rs`: `Hull` with its invariant, `from_triangulation`, `get`, `insert`, the
  bucket table upkeep and the laws about links and buckets.
- `src/ring_edit.rs`: lemmas on taking nodes out of the ring and putting one in.
- `src/laws.rs`: laws about the effect of an insertion on the hull's points.
- `app/lib.rs`: the floating-point side (pseudo-angles, cgmath helpers) and the bulk
  loading loop over a triangulation, which uses the verified hull.
