use dispatch::QueueMap;

// The operation script of the larger delivery scenario, with `pop` results
// collected, so the same script can be run with and without forced
// compaction.
fn run_script(compact_every_step: bool) -> Vec<Option<usize>> {
    let mut queue_map: QueueMap<usize> = QueueMap::new();
    let mut results: Vec<Option<usize>> = Vec::new();

    let maybe_compact = |q: &mut QueueMap<usize>| {
        if compact_every_step {
            q.compact();
        }
    };

    queue_map.add(1).unwrap();
    maybe_compact(&mut queue_map);
    queue_map.add(2).unwrap();
    maybe_compact(&mut queue_map);
    queue_map.push(1);
    maybe_compact(&mut queue_map);
    queue_map.push(2);
    maybe_compact(&mut queue_map);
    results.push(queue_map.pop(1));
    maybe_compact(&mut queue_map);
    queue_map.add(3).unwrap();
    maybe_compact(&mut queue_map);
    queue_map.push(3);
    maybe_compact(&mut queue_map);
    for key in [2, 3, 1, 2, 1, 2, 1, 2, 3] {
        results.push(queue_map.pop(key));
        maybe_compact(&mut queue_map);
    }
    results
}

#[test]
fn compaction_is_transparent() {
    let plain = run_script(false);
    let compacted = run_script(true);
    assert_eq!(plain, compacted);
    assert_eq!(
        plain,
        vec![
            Some(1),
            Some(1),
            Some(3),
            Some(2),
            Some(2),
            Some(3),
            Some(3),
            None,
            None,
            None
        ]
    );
}

#[test]
fn compaction_of_an_empty_queue() {
    let mut queue_map: QueueMap<u8> = QueueMap::new();
    queue_map.compact();
    queue_map.add(1).unwrap();
    queue_map.compact();
    assert!(queue_map.is_empty(1));
    queue_map.push(9);
    queue_map.compact();
    assert_eq!(Some(9), queue_map.pop(1));
}
