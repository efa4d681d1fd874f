use dispatch::QueueMap;

#[test]
fn test_new() {
    let _: QueueMap<usize> = QueueMap::new();
}

#[test]
fn test_simple() {
    let mut queue_map: QueueMap<usize> = QueueMap::new();

    queue_map.add(1).unwrap();
    queue_map.push(2);

    assert_eq!(Some(2), queue_map.pop(1));
    assert_eq!(None, queue_map.pop(1));
}

#[test]
fn test_two_queues() {
    let mut queue_map: QueueMap<usize> = QueueMap::new();

    queue_map.add(1).unwrap();
    queue_map.add(2).unwrap();

    queue_map.push(1);
    queue_map.push(2);

    assert_eq!(Some(1), queue_map.pop(1));

    queue_map.add(3).unwrap();

    queue_map.push(3);

    assert_eq!(Some(1), queue_map.pop(2));

    assert_eq!(Some(3), queue_map.pop(3));

    assert_eq!(Some(2), queue_map.pop(1));
    assert_eq!(Some(2), queue_map.pop(2));

    assert_eq!(Some(3), queue_map.pop(1));
    assert_eq!(Some(3), queue_map.pop(2));

    assert_eq!(None, queue_map.pop(1));
    assert_eq!(None, queue_map.pop(2));
    assert_eq!(None, queue_map.pop(3));
}

#[test]
fn duplicate_registration_is_an_error() {
    let mut queue_map: QueueMap<u8> = QueueMap::new();

    queue_map.add(7).unwrap();
    queue_map.push(1);

    assert!(queue_map.add(7).is_err());

    // The live cursor was not overwritten: 7 still sees the value pushed
    // after its first registration.
    assert_eq!(Some(1), queue_map.pop(7));
    assert_eq!(None, queue_map.pop(7));
}

#[test]
fn late_join_sees_only_future_values() {
    let mut queue_map: QueueMap<u32> = QueueMap::new();

    queue_map.add(1).unwrap();
    queue_map.push(10);

    queue_map.add(2).unwrap();
    queue_map.push(20);

    // Key 2 never receives 10; its first value is 20.
    assert_eq!(Some(20), queue_map.pop(2));
    assert_eq!(None, queue_map.pop(2));

    assert_eq!(Some(10), queue_map.pop(1));
    assert_eq!(Some(20), queue_map.pop(1));
    assert_eq!(None, queue_map.pop(1));
}

#[test]
fn independent_cursors_get_the_same_values() {
    let mut queue_map: QueueMap<u32> = QueueMap::new();

    queue_map.add(1).unwrap();
    queue_map.add(2).unwrap();
    queue_map.push(5);
    queue_map.push(6);
    queue_map.push(7);

    // Popping for key 1 does not affect what key 2 will later pop.
    assert_eq!(Some(5), queue_map.pop(1));
    assert_eq!(Some(6), queue_map.pop(1));
    assert_eq!(Some(5), queue_map.pop(2));
    assert_eq!(Some(7), queue_map.pop(1));
    assert_eq!(None, queue_map.pop(1));
    assert_eq!(Some(6), queue_map.pop(2));
    assert_eq!(Some(7), queue_map.pop(2));
    assert_eq!(None, queue_map.pop(2));
}

#[test]
fn is_empty_tracks_availability() {
    let mut queue_map: QueueMap<u32> = QueueMap::new();

    // An unregistered key has nothing available.
    assert!(queue_map.is_empty(1));
    assert_eq!(None, queue_map.pop(1));

    queue_map.add(1).unwrap();
    assert!(queue_map.is_empty(1));

    queue_map.push(3);
    assert!(!queue_map.is_empty(1));

    assert_eq!(Some(3), queue_map.pop(1));
    assert!(queue_map.is_empty(1));
}

#[test]
fn pushes_without_consumers_are_never_seen() {
    let mut queue_map: QueueMap<u32> = QueueMap::new();

    queue_map.push(1);
    queue_map.push(2);

    queue_map.add(9).unwrap();
    assert!(queue_map.is_empty(9));
    assert_eq!(None, queue_map.pop(9));

    queue_map.push(3);
    assert_eq!(Some(3), queue_map.pop(9));
    assert_eq!(None, queue_map.pop(9));
}
