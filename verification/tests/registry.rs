use subscription_map::SubscriptionError;
use subscription_map::SubscriptionMap;

#[test]
fn should_immediately_remove_unused() {
    let mut map: SubscriptionMap<usize> = SubscriptionMap::new();
    assert_eq!(map.len(), 0);

    let r = map.get_or_insert(1, 1);
    map.release(r);
    assert_eq!(map.len(), 0);

    let r = map.get_or_insert(2, 2);
    map.release(r);
    assert_eq!(map.len(), 0);
}

#[test]
fn should_remove_entries_on_ref_drop() {
    let mut map: SubscriptionMap<usize> = SubscriptionMap::new();
    assert_eq!(map.len(), 0);

    let ref_one = map.get_or_insert(1, 1);
    assert_eq!(map.len(), 1);

    let ref_two = map.get_or_insert(2, 2);
    assert_eq!(map.len(), 2);

    map.release(ref_one);
    assert_eq!(map.len(), 1);
    assert!(!map.contains_key(1));
    assert!(map.contains_key(2));

    map.release(ref_two);
    assert_eq!(map.len(), 0);
    assert!(!map.contains_key(1));
    assert!(!map.contains_key(2));
}

#[test]
fn should_keep_track_of_ref_count() {
    let mut map: SubscriptionMap<usize> = SubscriptionMap::new();
    assert_eq!(map.len(), 0);

    let ref_one = map.get_or_insert(1, 1);
    assert_eq!(map.ref_count(1), Some(1));

    let ref_two = map.get_or_insert(1, 1);
    assert_eq!(map.ref_count(1), Some(2));

    map.release(ref_one);
    assert_eq!(map.ref_count(1), Some(1));

    map.release(ref_two);
    assert_eq!(map.len(), 0);
}

#[test]
fn releasing_in_any_order_empties_the_map() {
    let mut map: SubscriptionMap<usize> = SubscriptionMap::new();

    let a = map.get_or_insert(1, 1);
    let b = map.get_or_insert(2, 2);
    let c = map.get_or_insert(1, 1);

    map.release(b);
    assert!(!map.contains_key(2));
    assert_eq!(map.ref_count(1), Some(2));

    map.release(c);
    assert_eq!(map.ref_count(1), Some(1));

    map.release(a);
    assert_eq!(map.len(), 0);
}

#[test]
fn existing_entry_keeps_its_value() {
    let mut map: SubscriptionMap<usize> = SubscriptionMap::new();

    let a = map.get_or_insert(1, 10);
    let b = map.get_or_insert(1, 99);

    assert_eq!(b.latest(), 10);
    assert_eq!(map.ref_count(1), Some(2));

    map.release(a);
    map.release(b);
}

#[test]
fn handles_share_one_value_stream() {
    let mut map: SubscriptionMap<usize> = SubscriptionMap::new();

    let mut a = map.get_or_insert(7, 0);
    let b = map.get_or_insert(7, 0);

    a.publish(42);
    assert_eq!(b.latest(), 42);
    assert_eq!(a.latest(), 42);

    a.modify(|v: &mut usize| *v += 1);
    assert_eq!(b.latest(), 43);

    map.release(a);
    map.release(b);
}

#[test]
fn publish_if_changed_reports_whether_a_change_was_made() {
    let mut map: SubscriptionMap<usize> = SubscriptionMap::new();

    let handle = map.get_or_insert(1, 5);

    assert_eq!(map.publish_if_changed(1, 5), Ok(false));
    assert_eq!(handle.latest(), 5);

    assert_eq!(map.publish_if_changed(1, 7), Ok(true));
    assert_eq!(handle.latest(), 7);

    assert_eq!(map.publish_if_changed(1, 7), Ok(false));

    map.release(handle);
}

#[test]
fn publish_if_changed_fails_for_dead_keys() {
    let mut map: SubscriptionMap<usize> = SubscriptionMap::new();

    assert_eq!(
        map.publish_if_changed(3, 1),
        Err(SubscriptionError::NotFound { key: 3 })
    );

    let r = map.get_or_insert(3, 1);
    map.release(r);

    assert_eq!(
        map.publish_if_changed(3, 1),
        Err(SubscriptionError::NotFound { key: 3 })
    );
}

#[test]
fn modify_and_publish_mutates_in_place() {
    let mut map: SubscriptionMap<usize> = SubscriptionMap::new();

    let handle = map.get_or_insert(1, 20);

    assert_eq!(map.modify_and_publish(1, |v: &mut usize| *v += 2), Ok(()));
    assert_eq!(handle.latest(), 22);

    assert_eq!(
        map.modify_and_publish(9, |v: &mut usize| *v += 2),
        Err(SubscriptionError::NotFound { key: 9 })
    );

    map.release(handle);
}

#[test]
fn handle_publish_if_changed_delegates_to_the_stream() {
    let mut map: SubscriptionMap<usize> = SubscriptionMap::new();

    let mut a = map.get_or_insert(1, 3);
    let b = map.get_or_insert(1, 3);

    assert!(!a.publish_if_changed(3));
    assert!(a.publish_if_changed(4));
    assert_eq!(b.latest(), 4);
    assert_eq!(a.key(), 1);

    map.release(a);
    map.release(b);
}
