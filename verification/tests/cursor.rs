use subscription_map::SubscriptionMap;

#[test]
fn should_be_initially_empty() {
    let map: SubscriptionMap<usize> = SubscriptionMap::new();
    let mut keys = map.keys();
    assert_eq!(keys.next(&map), None);
}

#[test]
fn should_be_ordered() {
    let mut map: SubscriptionMap<usize> = SubscriptionMap::new();

    let _0 = map.get_or_insert(0, 0);
    let _1 = map.get_or_insert(1, 1);
    let _2 = map.get_or_insert(2, 2);

    assert_eq!(map.len(), 3);

    let mut keys = map.keys();

    assert_eq!(keys.next(&map), Some(0));
    assert_eq!(keys.next(&map), Some(1));
    assert_eq!(keys.next(&map), Some(2));
    assert_eq!(keys.next(&map), None);
}

#[test]
fn should_not_retrieve_new_keys_after_first_none() {
    let mut map: SubscriptionMap<usize> = SubscriptionMap::new();

    let _0 = map.get_or_insert(0, 0);
    assert_eq!(map.len(), 1);

    let mut keys = map.keys();
    assert_eq!(keys.next(&map), Some(0));
    assert_eq!(keys.next(&map), None);

    let _1 = map.get_or_insert(1, 1);
    assert_eq!(keys.next(&map), None);

    let _2 = map.get_or_insert(2, 2);
    assert_eq!(keys.next(&map), None);
}

#[test]
fn should_retrieve_new_keys_after_first_usage() {
    let mut map: SubscriptionMap<usize> = SubscriptionMap::new();

    let _0 = map.get_or_insert(0, 0);
    assert_eq!(map.len(), 1);

    let mut keys = map.keys();
    assert_eq!(keys.next(&map), Some(0));

    let _1 = map.get_or_insert(1, 1);
    assert_eq!(keys.next(&map), Some(1));

    let _2 = map.get_or_insert(2, 2);
    assert_eq!(keys.next(&map), Some(2));
    assert_eq!(keys.next(&map), None);
}

#[test]
fn should_retrieve_new_keys_before_first_usage() {
    let mut map: SubscriptionMap<usize> = SubscriptionMap::new();
    let mut keys = map.keys();

    assert_eq!(map.len(), 0);

    let _0 = map.get_or_insert(0, 0);
    assert_eq!(keys.next(&map), Some(0));

    let _1 = map.get_or_insert(1, 1);
    assert_eq!(keys.next(&map), Some(1));
    assert_eq!(keys.next(&map), None);
}

#[test]
fn cursor_skips_keys_removed_before_it_reaches_them() {
    let mut map: SubscriptionMap<usize> = SubscriptionMap::new();

    let _0 = map.get_or_insert(0, 0);
    let one = map.get_or_insert(1, 1);
    let _2 = map.get_or_insert(2, 2);

    let mut keys = map.keys();
    assert_eq!(keys.next(&map), Some(0));

    map.release(one);
    assert_eq!(keys.next(&map), Some(2));
    assert_eq!(keys.next(&map), None);
}

#[test]
fn independent_cursors_do_not_interfere() {
    let mut map: SubscriptionMap<usize> = SubscriptionMap::new();

    let _0 = map.get_or_insert(0, 0);
    let _1 = map.get_or_insert(1, 1);

    let mut first = map.keys();
    let mut second = map.keys();

    assert_eq!(first.next(&map), Some(0));
    assert_eq!(first.next(&map), Some(1));
    assert_eq!(second.next(&map), Some(0));
    assert_eq!(first.next(&map), None);
    assert_eq!(second.next(&map), Some(1));
}
