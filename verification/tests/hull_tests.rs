use spade_bulk::hull::{hull_points_accepted, Hull};

/// Fixed-point pseudo-angle of a fraction of a turn.
fn turns(x: f64) -> u32 {
    (x * 4294967296.0) as u32
}

fn build(points: &[(f64, usize)]) -> Hull {
    let v: Vec<(u32, usize)> = points.iter().map(|&(a, h)| (turns(a), h)).collect();
    Hull::from_triangulation(&v)
}

fn expect(hull: &Hull, want: &[(f64, usize)]) {
    let got = hull.points();
    let want: Vec<(u32, usize)> = want.iter().map(|&(a, h)| (turns(a), h)).collect();
    assert_eq!(got, want);
}

#[test]
fn test_hull() {
    // Four vertices round the centre: (1, 1) is vertex 0 at 0.375, (1, -1) vertex 1 at
    // 0.125, (-1, 1) vertex 2 at 0.625, (-1, -1) vertex 3 at 0.875.
    let mut hull = build(&[(0.125, 1), (0.375, 0), (0.625, 2), (0.875, 3)]);
    expect(&hull, &[(0.125, 1), (0.375, 0), (0.625, 2), (0.875, 3)]);
    assert_eq!(hull.bucket_count(), 8);

    hull.insert(turns(0.375), turns(0.4), turns(0.625), 4);
    expect(&hull, &[(0.125, 1), (0.375, 0), (0.4, 4), (0.625, 2), (0.875, 3)]);

    hull.insert(turns(0.375), turns(0.6), turns(0.125), 5);
    expect(&hull, &[(0.125, 1), (0.375, 0), (0.6, 5)]);

    hull.insert(turns(0.375), turns(0.4), turns(0.6), 6);
    expect(&hull, &[(0.125, 1), (0.375, 0), (0.4, 6), (0.6, 5)]);

    hull.insert(turns(0.4), turns(0.5), turns(0.6), 7);
    expect(&hull, &[(0.125, 1), (0.375, 0), (0.4, 6), (0.5, 7), (0.6, 5)]);
    assert_eq!(hull.bucket_count(), 8);
}

#[test]
fn hull_get_finds_segment_owner() {
    let hull = build(&[(0.625, 2), (0.875, 3), (0.125, 1), (0.375, 0)]);
    // the hull is kept from the smallest pseudo-angle up
    expect(&hull, &[(0.125, 1), (0.375, 0), (0.625, 2), (0.875, 3)]);
    assert_eq!(hull.get(turns(0.125)), 1);
    assert_eq!(hull.get(turns(0.2)), 1);
    assert_eq!(hull.get(turns(0.375)), 0);
    assert_eq!(hull.get(turns(0.5)), 0);
    assert_eq!(hull.get(turns(0.7)), 2);
    assert_eq!(hull.get(turns(0.9)), 3);
    assert_eq!(hull.get(0), 3);
    assert_eq!(hull.get(turns(0.1)), 3);
    assert_eq!(hull.get(u32::MAX), 3);
}

#[test]
fn hull_get_after_insert_finds_new_point() {
    let mut hull = build(&[(0.1, 10), (0.5, 11), (0.8, 12)]);
    hull.insert(turns(0.5), turns(0.6), turns(0.8), 13);
    assert_eq!(hull.get(turns(0.6)), 13);
    assert_eq!(hull.get(turns(0.7)), 13);
    assert_eq!(hull.get(turns(0.55)), 11);
    assert_eq!(hull.get(turns(0.85)), 12);
    // wrapping insertion past the top of the range, new point below the top
    hull.insert(turns(0.8), turns(0.95), turns(0.1), 14);
    expect(&hull, &[(0.1, 10), (0.5, 11), (0.6, 13), (0.8, 12), (0.95, 14)]);
    assert_eq!(hull.get(turns(0.05)), 14);
    // wrapping insertion whose new point lies above zero and removes the points round it
    hull.insert(turns(0.8), turns(0.05), turns(0.5), 15);
    expect(&hull, &[(0.05, 15), (0.5, 11), (0.6, 13), (0.8, 12)]);
    assert_eq!(hull.get(turns(0.3)), 15);
    assert_eq!(hull.get(turns(0.99)), 12);
}

#[test]
fn hull_reuses_spare_slots() {
    let mut hull = build(&[(0.1, 1), (0.2, 2), (0.3, 3), (0.6, 4)]);
    assert_eq!(hull.slot_count(), 4);
    // takes out the points at 0.2 and 0.3 and reuses one of their slots
    hull.insert(turns(0.1), turns(0.25), turns(0.6), 5);
    assert_eq!(hull.slot_count(), 4);
    expect(&hull, &[(0.1, 1), (0.25, 5), (0.6, 4)]);
    // reuses the other spare slot
    hull.insert(turns(0.25), turns(0.4), turns(0.6), 6);
    assert_eq!(hull.slot_count(), 4);
    // no spare slot left: a new slot is added
    hull.insert(turns(0.6), turns(0.9), turns(0.1), 7);
    assert_eq!(hull.slot_count(), 5);
    expect(&hull, &[(0.1, 1), (0.25, 5), (0.4, 6), (0.6, 4), (0.9, 7)]);
}

#[test]
fn hull_bucket_table_grows_and_shrinks() {
    let n = 40;
    let points: Vec<(f64, usize)> = (0..n).map(|i| (i as f64 / n as f64 + 0.001, i)).collect();
    let mut hull = build(&points);
    assert_eq!(hull.bucket_count(), 8);
    // 41 points after the insertion: more than twice 8, so the table grows to 16
    hull.insert(turns(points[0].0), turns(points[0].0 + 0.01), turns(points[1].0), 100);
    assert_eq!(hull.bucket_count(), 16);
    assert_eq!(hull.get(turns(points[0].0 + 0.011)), 100);
    // 42 points: more than twice 16, so it grows again
    hull.insert(turns(points[2].0), turns(points[2].0 + 0.01), turns(points[3].0), 101);
    assert_eq!(hull.bucket_count(), 32);
    assert_eq!(hull.get(turns(points[10].0 + 0.001)), 10);
    // a wide insertion leaves 14 points: 32 buckets are not more than four times as many
    hull.insert(turns(points[5].0), turns(points[20].0), turns(points[35].0), 102);
    assert_eq!(hull.bucket_count(), 32);
    assert_eq!(hull.get(turns(0.6)), 102);
    assert_eq!(hull.get(turns(points[36].0)), 36);
}

#[test]
fn hull_bucket_table_shrinks_to_a_quarter() {
    let n = 140;
    let points: Vec<(f64, usize)> = (0..n).map(|i| (i as f64 / n as f64 + 0.0001, i)).collect();
    let mut hull = build(&points);
    let mut expected = 8;
    for k in 0..5 {
        let at = 130 + k;
        hull.insert(turns(points[at].0), turns(points[at].0 + 0.003), turns(points[at + 1].0), 200 + k);
        if expected * 2 < n + k + 1 {
            expected *= 2;
        }
        assert_eq!(hull.bucket_count(), expected);
    }
    assert_eq!(hull.bucket_count(), 128);
    // 27 points are left: 128 buckets are more than four times as many, so a quarter stays
    hull.insert(turns(points[0].0), turns(points[50].0), turns(points[120].0), 300);
    assert_eq!(hull.points().len(), 27);
    assert_eq!(hull.bucket_count(), 32);
    assert_eq!(hull.get(turns(0.5)), 300);
    assert_eq!(hull.get(turns(points[0].0)), 0);
    assert_eq!(hull.get(turns(points[131].0 + 0.004)), 201);
}

#[test]
fn hull_points_order_check() {
    let v = |a: &[f64]| -> Vec<(u32, usize)> { a.iter().enumerate().map(|(i, &x)| (turns(x), i)).collect() };
    assert!(hull_points_accepted(&v(&[0.125, 0.375, 0.625, 0.875])));
    assert!(hull_points_accepted(&v(&[0.625, 0.875, 0.125, 0.375])));
    assert!(hull_points_accepted(&v(&[0.9, 0.1])));
    assert!(!hull_points_accepted(&v(&[0.1, 0.3, 0.2])));
    assert!(!hull_points_accepted(&v(&[0.3, 0.2, 0.1])));
    assert!(!hull_points_accepted(&v(&[0.5])));
    assert!(!hull_points_accepted(&v(&[])));
    assert!(!hull_points_accepted(&v(&[0.5, 0.5])));
}

#[test]
fn hull_insert_precondition_check() {
    let hull = build(&[(0.125, 1), (0.375, 0), (0.625, 2), (0.875, 3)]);
    assert!(hull.accepts_insert(turns(0.375), turns(0.4), turns(0.625)));
    assert!(hull.accepts_insert(turns(0.375), turns(0.6), turns(0.125)));
    // left angle is not a point of the hull
    assert!(!hull.accepts_insert(turns(0.3), turns(0.4), turns(0.625)));
    // right angle is not a point of the hull
    assert!(!hull.accepts_insert(turns(0.375), turns(0.4), turns(0.7)));
    // the new angle is not strictly between its neighbours
    assert!(!hull.accepts_insert(turns(0.375), turns(0.7), turns(0.625)));
    assert!(!hull.accepts_insert(turns(0.375), turns(0.375), turns(0.625)));
    assert!(!hull.accepts_insert(turns(0.375), turns(0.625), turns(0.625)));
    // equal neighbours: every other point is replaced
    assert!(hull.accepts_insert(turns(0.375), turns(0.4), turns(0.375)));
}

#[test]
fn hull_insert_points_every_bucket_at_a_segment_that_spans_them_all() {
    // Inserting 0.88 between 0.9 and 0.89 takes out the point at 0.3 and leaves the segment
    // from 0.9 round to 0.88, which holds the start of every one of the 8 buckets.
    let mut hull = build(&[(0.3, 1), (0.89, 2), (0.9, 3)]);
    assert!(hull.accepts_insert(turns(0.9), turns(0.88), turns(0.89)));
    hull.insert(turns(0.9), turns(0.88), turns(0.89), 4);
    expect(&hull, &[(0.88, 4), (0.89, 2), (0.9, 3)]);
    assert_eq!(hull.get(turns(0.5)), 3);
    assert_eq!(hull.get(turns(0.3)), 3);
    assert_eq!(hull.get(0), 3);
    assert_eq!(hull.get(turns(0.95)), 3);
    assert_eq!(hull.get(turns(0.885)), 4);
    assert_eq!(hull.get(turns(0.895)), 2);
    assert_eq!(hull.slot_count(), 3);
    assert_eq!(hull.bucket_count(), 8);

    // Here the segment after the new point holds every bucket start, while the point taken
    // out (at 0.3) owned only some of them.
    let mut tiny = build(&[(0.004, 1), (0.005, 2), (0.3, 3)]);
    assert!(tiny.accepts_insert(turns(0.005), turns(0.006), turns(0.004)));
    tiny.insert(turns(0.005), turns(0.006), turns(0.004), 9);
    expect(&tiny, &[(0.004, 1), (0.005, 2), (0.006, 9)]);
    assert_eq!(tiny.get(turns(0.5)), 9);
    assert_eq!(tiny.get(turns(0.1)), 9);
    assert_eq!(tiny.get(0), 9);
    assert_eq!(tiny.get(turns(0.0045)), 1);
    assert_eq!(tiny.get(turns(0.0055)), 2);
    assert_eq!(tiny.slot_count(), 3);
}

#[test]
fn hull_insert_into_segment_that_already_owns_every_bucket() {
    // The point at 0.01 owns the starts of all 8 buckets; inserting 0.002 after it takes
    // nothing out and leaves the bucket table right.
    let mut hull = build(&[(0.004, 1), (0.005, 2), (0.01, 3)]);
    assert!(hull.accepts_insert(turns(0.01), turns(0.002), turns(0.004)));
    hull.insert(turns(0.01), turns(0.002), turns(0.004), 4);
    expect(&hull, &[(0.002, 4), (0.004, 1), (0.005, 2), (0.01, 3)]);
    assert_eq!(hull.get(turns(0.5)), 3);
    assert_eq!(hull.get(0), 3);
    assert_eq!(hull.get(turns(0.003)), 4);
    assert_eq!(hull.get(turns(0.0045)), 1);
    assert_eq!(hull.slot_count(), 4);
}

#[test]
fn hull_insert_with_equal_neighbours_replaces_all_other_points() {
    let mut hull = build(&[(0.1, 10), (0.5, 11), (0.8, 12)]);
    assert!(hull.accepts_insert(turns(0.5), turns(0.7), turns(0.5)));
    hull.insert(turns(0.5), turns(0.7), turns(0.5), 9);
    expect(&hull, &[(0.5, 11), (0.7, 9)]);
    assert_eq!(hull.get(turns(0.6)), 11);
    assert_eq!(hull.get(turns(0.9)), 9);
    assert_eq!(hull.get(turns(0.2)), 9);
    assert_eq!(hull.slot_count(), 3);
    // and the other way round: the new point below the one kept
    let mut hull = build(&[(0.1, 10), (0.5, 11), (0.8, 12)]);
    hull.insert(turns(0.5), turns(0.3), turns(0.5), 9);
    expect(&hull, &[(0.3, 9), (0.5, 11)]);
    assert_eq!(hull.get(turns(0.4)), 9);
    assert_eq!(hull.get(turns(0.9)), 11);
}

#[test]
fn hull_insert_reuses_the_slot_that_owned_every_bucket() {
    // The point at 0.01 owns the starts of all 8 buckets and is taken out; the new point
    // at 0.006 takes its slot and, with it, every bucket.
    let mut hull = build(&[(0.004, 1), (0.005, 2), (0.01, 3)]);
    assert!(hull.accepts_insert(turns(0.005), turns(0.006), turns(0.004)));
    hull.insert(turns(0.005), turns(0.006), turns(0.004), 9);
    expect(&hull, &[(0.004, 1), (0.005, 2), (0.006, 9)]);
    assert_eq!(hull.get(turns(0.5)), 9);
    assert_eq!(hull.get(0), 9);
    assert_eq!(hull.get(turns(0.0045)), 1);
    assert_eq!(hull.slot_count(), 3);
}
