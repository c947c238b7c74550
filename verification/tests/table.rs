use beecrab::metrics::Aggregate;
use beecrab::table::Table;
use std::hash::{BuildHasherDefault, Hasher, RandomState};

#[derive(Default)]
struct ConstantHasher;

impl Hasher for ConstantHasher {
    fn finish(&self) -> u64 {
        0
    }

    fn write(&mut self, _bytes: &[u8]) {}
}

#[test]
fn insert() {
    let mut table = Table::<&[u8], Aggregate, RandomState>::with_hasher(RandomState::default());

    table.insert(b"jac", Aggregate::new(1));

    assert_eq!(table.get(b"jac"), Some(&Aggregate::new(1)));
}

#[test]
fn insert_with_collisions() {
    let mut table = Table::<&[u8], Aggregate, BuildHasherDefault<ConstantHasher>>::with_hasher(
        BuildHasherDefault::default(),
    );

    table.insert(b"jac", Aggregate::new(1));
    table.insert(b"pedro", Aggregate::new(2));

    assert_eq!(table.get(b"jac"), Some(&Aggregate::new(1)));
    assert_eq!(table.get(b"pedro"), Some(&Aggregate::new(2)));
}

#[test]
fn missing_key_is_not_found() {
    let mut table = Table::<&[u8], i32, RandomState>::with_hasher(RandomState::default());
    table.insert(b"jac", 1);
    assert_eq!(table.get(b"pedro"), None);
}

#[test]
fn insert_overwrites_the_value_of_a_present_key() {
    let mut table = Table::<&[u8], i32, BuildHasherDefault<ConstantHasher>>::with_hasher(
        BuildHasherDefault::default(),
    );
    table.insert(b"jac", 1);
    table.insert(b"jac", 5);
    assert_eq!(table.get(b"jac"), Some(&5));
    let occupied = table.into_iter().filter(|slot| slot.is_some()).count();
    assert_eq!(occupied, 1);
}

#[test]
fn collisions_fill_consecutive_slots() {
    let mut table = Table::<&[u8], i32, BuildHasherDefault<ConstantHasher>>::with_hasher(
        BuildHasherDefault::default(),
    );
    table.insert(b"a", 1);
    table.insert(b"b", 2);
    table.insert(b"c", 3);
    let slots: Vec<Option<(&[u8], i32)>> = table.into_iter().take(4).collect();
    assert_eq!(
        slots,
        vec![Some((&b"a"[..], 1)), Some((&b"b"[..], 2)), Some((&b"c"[..], 3)), None]
    );
}

#[test]
fn probing_from_a_home_slot() {
    let mut table = Table::<&[u8], i32, RandomState>::with_hasher(RandomState::default());
    table.insert_at(32767, b"x", 7);
    table.insert_at(32767, b"y", 8);
    // the second key wraps around to the first slot
    assert_eq!(table.get_at(32767, b"y"), Some(&8));
    assert_eq!(table.get_at(0, b"y"), Some(&8));
    assert_eq!(table.get_at(0, b"x"), None);
    let slots: Vec<Option<(&[u8], i32)>> = table.into_iter().collect();
    assert_eq!(slots[32767], Some((&b"x"[..], 7)));
    assert_eq!(slots[0], Some((&b"y"[..], 8)));
}

#[test]
fn get_mut_changes_the_stored_value() {
    let mut table = Table::<&[u8], Aggregate, RandomState>::with_hasher(RandomState::default());
    table.insert(b"jac", Aggregate::new(1));
    if let Some(aggregate) = table.get_mut(b"jac") {
        aggregate.update(5);
    }
    assert!(table.get_mut(b"pedro").is_none());
    assert_eq!(
        table.get(b"jac"),
        Some(&Aggregate { min: 1, max: 5, sum: 6, count: 2 })
    );
}

#[test]
fn new_table_yields_only_empty_slots() {
    let table = Table::<&[u8], i32, RandomState>::with_hasher(RandomState::default());
    let slots: Vec<Option<(&[u8], i32)>> = table.into_iter().collect();
    assert_eq!(slots.len(), 32768);
    assert!(slots.iter().all(|slot| slot.is_none()));
}
