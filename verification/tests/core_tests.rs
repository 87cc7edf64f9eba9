use exclusion_set::ExclusionSet;

use core::any::TypeId;

#[test]
fn can_only_insert_once() {
    struct Marker;

    let mut set = ExclusionSet::default();
    assert!(set.try_insert(TypeId::of::<Marker>()));
    assert!(!set.try_insert(TypeId::of::<Marker>()));
}

#[test]
fn can_insert_after_remove() {
    struct Marker;

    let mut set = ExclusionSet::default();
    assert!(set.try_insert(TypeId::of::<Marker>()));
    assert!(set.remove(&TypeId::of::<Marker>()));
    assert!(set.try_insert(TypeId::of::<Marker>()));
}

#[test]
fn removing_something_absent_is_false() {
    struct Present;
    struct Absent;

    let mut set = ExclusionSet::default();
    assert!(set.try_insert(TypeId::of::<Present>()));
    assert!(!set.remove(&TypeId::of::<Absent>()));
    assert!(set.remove(&TypeId::of::<Present>()));
    assert!(!set.remove(&TypeId::of::<Present>()));
}

#[test]
fn reinsert_in_reverse() {
    struct Tail;
    struct Middle;
    struct Head;

    let mut set = ExclusionSet::default();
    assert!(set.try_insert(TypeId::of::<Tail>()));
    assert!(set.try_insert(TypeId::of::<Middle>()));
    assert!(set.try_insert(TypeId::of::<Head>()));
    assert!(set.remove(&TypeId::of::<Tail>()));
    assert!(set.remove(&TypeId::of::<Middle>()));
    assert!(set.remove(&TypeId::of::<Head>()));
    assert!(set.try_insert(TypeId::of::<Head>()));
    assert!(set.try_insert(TypeId::of::<Middle>()));
    assert!(set.try_insert(TypeId::of::<Tail>()));
}
