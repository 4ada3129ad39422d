use spade_bulk::typed::{HullIndex, HullTag, HullVec, TypedIndex, TypedVec};

#[test]
fn typed_index_new_keeps_value() {
    let i: TypedIndex<HullTag> = TypedIndex::new(42);
    assert_eq!(i.0, 42);
    let j: HullIndex = HullIndex::const_new(u32::MAX);
    assert_eq!(j.0, u32::MAX);
}

#[test]
fn typed_vec_push_returns_position() {
    let mut v: HullVec<u64> = TypedVec::with_capacity(4);
    assert_eq!(v.len(), 0);
    assert_eq!(v.next_index().0, 0);
    let a = v.push(10);
    let b = v.push(20);
    assert_eq!(a.0, 0);
    assert_eq!(b.0, 1);
    assert_eq!(*v.get(a), 10);
    assert_eq!(*v.get(b), 20);
    assert_eq!(v.next_index().0, 2);
    v.set(a, 11);
    assert_eq!(*v.get(a), 11);
    assert_eq!(v.len(), 2);
}

#[test]
fn typed_vec_of_keeps_elements() {
    let v: TypedVec<char, HullTag> = TypedVec::of(vec!['x', 'y', 'z']);
    assert_eq!(v.len(), 3);
    assert_eq!(*v.get(HullIndex::new(2)), 'z');
    assert_eq!(v.next_index().0, 3);
}

#[test]
fn typed_index_compares_and_adds() {
    let a = HullIndex::new(3);
    let b = HullIndex::new(5);
    assert!(a == HullIndex::new(3));
    assert!(a != b);
    assert!(a < b);
    assert!(b > a);
    assert!(a == 3usize);
    assert!(!(a == 4usize));
    let c = a.add(2);
    assert!(c == b);
    let mut d = a;
    d.add_assign(7);
    assert_eq!(d.0, 10);
}
