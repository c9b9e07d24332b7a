use neighbors::error::NeighborError;
use neighbors::registry::Registry;

#[test]
fn registry_starts_empty() {
    let r: Registry<[f64; 3]> = Registry::new();
    assert_eq!(r.len(), 0);
    assert!(r.points().is_empty());
    assert_eq!(r.position_of(0), Err(NeighborError::UnknownKey));
    assert!(r.get(0).is_none());
}

#[test]
fn new_keys_are_appended_in_order() {
    let mut r = Registry::new();
    r.insert_or_replace(42, [1.0, 0.0, 0.0]);
    r.insert_or_replace(7, [2.0, 0.0, 0.0]);
    r.insert_or_replace(13, [3.0, 0.0, 0.0]);
    assert_eq!(r.len(), 3);
    assert_eq!(r.position_of(42), Ok(0));
    assert_eq!(r.position_of(7), Ok(1));
    assert_eq!(r.position_of(13), Ok(2));
    assert_eq!(r.key_at(0), Ok(42));
    assert_eq!(r.key_at(1), Ok(7));
    assert_eq!(r.key_at(2), Ok(13));
}

#[test]
fn existing_key_keeps_its_position() {
    let mut r = Registry::new();
    r.insert_or_replace(5, [0.0, 0.0, 0.0]);
    r.insert_or_replace(9, [1.0, 1.0, 1.0]);
    r.insert_or_replace(5, [4.0, 4.0, 4.0]);
    assert_eq!(r.len(), 2);
    assert_eq!(r.position_of(5), Ok(0));
    assert_eq!(r.point_at(0), Ok(&[4.0, 4.0, 4.0]));
    assert_eq!(r.get(5), Some(&[4.0, 4.0, 4.0]));
    assert_eq!(r.points(), &vec![[4.0, 4.0, 4.0], [1.0, 1.0, 1.0]]);
}

#[test]
fn update_last_write_wins() {
    let mut r = Registry::new();
    r.update(vec![(1, [0.0; 3]), (2, [1.0; 3]), (1, [2.0; 3])]);
    assert_eq!(r.len(), 2);
    assert_eq!(r.get(1), Some(&[2.0; 3]));
    assert_eq!(r.position_of(1), Ok(0));
    assert_eq!(r.position_of(2), Ok(1));
}

#[test]
fn update_leaves_unmentioned_keys() {
    let mut r = Registry::new();
    r.update(vec![(1, [0.0; 3]), (2, [1.0; 3]), (3, [2.0; 3])]);
    r.update(vec![(2, [9.0; 3]), (4, [5.0; 3])]);
    assert_eq!(r.len(), 4);
    assert_eq!(r.points(), &vec![[0.0; 3], [9.0; 3], [2.0; 3], [5.0; 3]]);
    assert_eq!(r.key_at(3), Ok(4));
}

#[test]
fn update_twice_is_update_once() {
    let pairs = vec![(3, [0.5; 3]), (1, [1.5; 3]), (3, [2.5; 3])];
    let mut once = Registry::new();
    once.update(vec![(8, [7.0; 3])]);
    let mut twice = Registry::new();
    twice.update(vec![(8, [7.0; 3])]);
    once.update(pairs.clone());
    twice.update(pairs.clone());
    twice.update(pairs);
    assert_eq!(once.len(), twice.len());
    assert_eq!(once.points(), twice.points());
    for i in 0..once.len() {
        assert_eq!(once.key_at(i), twice.key_at(i));
    }
}

#[test]
fn lookups_out_of_range_fail() {
    let mut r = Registry::new();
    r.insert_or_replace(0, [0.0; 3]);
    assert_eq!(r.key_at(1), Err(NeighborError::IndexOutOfRange));
    assert_eq!(r.point_at(1), Err(NeighborError::IndexOutOfRange));
    assert_eq!(r.position_of(1), Err(NeighborError::UnknownKey));
}
