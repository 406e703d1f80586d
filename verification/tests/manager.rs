use task_tree::manager::TaskManager;

const A: u64 = 0;
const B: u64 = 1;
const C: u64 = 2;
const D: u64 = 3;
const E: u64 = 4;
const F: u64 = 5;
const G: u64 = 6;

fn as_sorted(mut v: Vec<u64>) -> Vec<u64> {
    v.sort();
    v
}

#[test]
fn test_descendants() {
    let mut tm = TaskManager::new(|g: u64| match g {
        A => None,
        B => Some(A),
        C => Some(B),
        D => Some(B),
        E => Some(D),
        F => Some(E),
        G => Some(C),
        _ => None,
    });

    // Register the keys in a scrambled order, as a caller might.
    let keys = [E, B, G, A, C, F, D];
    let mut ids = [0u64; 7];
    for key in keys {
        let (id, _listener) = tm.add_task(key);
        ids[key as usize] = id;
    }

    assert_eq!(as_sorted(tm.descendants(A)), vec![A, B, C, D, E, F, G]);
    assert_eq!(as_sorted(tm.descendants(B)), vec![B, C, D, E, F, G]);
    assert_eq!(as_sorted(tm.descendants(C)), vec![C, G]);
    assert_eq!(as_sorted(tm.descendants(D)), vec![D, E, F]);
    assert_eq!(as_sorted(tm.descendants(E)), vec![E, F]);
    assert_eq!(as_sorted(tm.descendants(F)), vec![F]);
    assert_eq!(as_sorted(tm.descendants(G)), vec![G]);

    let mut gs = tm.stop_group(A);
    assert_eq!(gs.num_groups(), 7);
    for key in [A, B, C, D, E, F, G] {
        assert!(gs.has_pending(key, ids[key as usize]));
        assert!(!gs.is_resolved());
        gs.task_finished(key, ids[key as usize]);
    }
    assert!(gs.is_resolved());
}

#[test]
fn test_group_nesting() {
    let mut tm = TaskManager::new(|g: u64| match g {
        A => None,
        B => Some(A),
        C => Some(B),
        D => Some(B),
        _ => None,
    });

    let (a1, _l) = tm.add_task(A);
    let (a2, _l) = tm.add_task(A);
    let (b1, _l) = tm.add_task(B);
    let (c1, _l) = tm.add_task(C);
    let (d1, _l) = tm.add_task(D);

    assert_eq!(tm.num_tasks(A), 2);
    assert_eq!(tm.num_tasks(B), 1);
    assert_eq!(tm.num_tasks(C), 1);
    assert_eq!(tm.num_tasks(D), 1);

    let mut gs = tm.stop_group(D);
    assert!(gs.has_pending(D, d1));
    gs.task_finished(D, d1);
    assert!(gs.is_resolved());

    assert_eq!(tm.num_tasks(A), 2);
    assert_eq!(tm.num_tasks(B), 1);
    assert_eq!(tm.num_tasks(C), 1);
    assert_eq!(tm.num_tasks(D), 0);

    let (dx, _l) = tm.add_task(D);
    assert_eq!(tm.num_tasks(D), 1);

    let mut gs = tm.stop_group(B);
    assert!(gs.has_pending(B, b1));
    assert!(gs.has_pending(C, c1));
    assert!(gs.has_pending(D, dx));
    assert!(!gs.is_resolved());
    gs.task_finished(B, b1);
    gs.task_finished(C, c1);
    gs.task_finished(D, dx);
    assert!(gs.is_resolved());

    assert_eq!(tm.num_tasks(A), 2);
    assert_eq!(tm.num_tasks(B), 0);
    assert_eq!(tm.num_tasks(C), 0);
    assert_eq!(tm.num_tasks(D), 0);

    let (dy, _l) = tm.add_task(D);
    assert_eq!(tm.num_tasks(D), 1);

    let mut gs = tm.stop_group(A);
    assert!(gs.has_pending(A, a1));
    assert!(gs.has_pending(A, a2));
    assert!(gs.has_pending(D, dy));
    gs.task_finished(A, a1);
    gs.task_finished(A, a2);
    assert!(!gs.is_resolved());
    gs.task_finished(D, dy);
    assert!(gs.is_resolved());
}

#[test]
fn unknown_key_has_no_tasks_and_stops_immediately() {
    let mut tm = TaskManager::new(|_g: u64| None);
    assert_eq!(tm.num_tasks(42), 0);
    assert!(!tm.contains_group(42));
    let gs = tm.stop_group(42);
    assert_eq!(gs.num_groups(), 0);
    assert!(gs.is_resolved());
}

#[test]
fn descendants_contain_key_and_are_closed() {
    let mut tm = TaskManager::new(|g: u64| match g {
        A => None,
        B => Some(A),
        C => Some(B),
        D => Some(B),
        E => Some(D),
        _ => None,
    });
    for key in [A, B, C, D, E] {
        tm.add_task(key);
    }
    for key in [A, B, C, D, E] {
        let closure = tm.descendants(key);
        assert!(closure.contains(&key));
        // Closed under the adjacency relation at every depth: each member's
        // own closure is contained in it.
        for member in &closure {
            for k in tm.descendants(*member) {
                assert!(closure.contains(&k));
            }
        }
    }
}

#[test]
fn stop_removes_subtree_synchronously_and_spares_the_rest() {
    let mut tm = TaskManager::new(|g: u64| match g {
        A => None,
        B => Some(A),
        C => Some(B),
        _ => None,
    });
    let (ida, _l) = tm.add_task(A);
    let (idb, _l) = tm.add_task(B);
    let (idc, _l) = tm.add_task(C);
    assert_eq!(tm.num_tasks(A), 1);
    assert_eq!(tm.num_tasks(B), 1);
    assert_eq!(tm.num_tasks(C), 1);

    let mut gs = tm.stop_group(B);

    // Removal is synchronous: only A stays registered, while the drained
    // tasks are still pending.
    assert!(tm.contains_group(A));
    assert!(!tm.contains_group(B));
    assert!(!tm.contains_group(C));
    assert_eq!(tm.num_tasks(A), 1);
    assert_eq!(tm.num_tasks(B), 0);
    assert_eq!(tm.num_tasks(C), 0);

    // The pass resolves only once both B's and C's tasks have reported.
    assert!(gs.has_pending(B, idb));
    assert!(gs.has_pending(C, idc));
    assert!(!gs.has_pending(A, ida));
    assert!(!gs.is_resolved());
    gs.task_finished(B, idb);
    assert!(!gs.is_resolved());
    gs.task_finished(C, idc);
    assert!(gs.is_resolved());
}

#[test]
fn readding_a_stopped_key_starts_fresh() {
    let mut tm = TaskManager::new(|g: u64| if g == D { Some(B) } else { None });
    let (old_id, _l) = tm.add_task(D);
    let gs = tm.stop_group(D);
    assert!(gs.has_pending(D, old_id));
    assert!(!tm.contains_group(D));

    let (new_id, _l) = tm.add_task(D);
    assert!(tm.contains_group(D));
    assert_eq!(tm.num_tasks(D), 1);
    assert_ne!(new_id, old_id);

    let gs = tm.stop_group(D);
    assert!(gs.has_pending(D, new_id));
    assert!(!gs.has_pending(D, old_id));
}

#[test]
fn unreported_task_keeps_the_stop_pending() {
    // A task that never honors its listener never reports completion: the
    // stop pass stays unresolved for as long as nothing is fed back.
    let mut tm = TaskManager::new(|_g: u64| None);
    tm.add_task(A);
    let gs = tm.stop_group(A);
    assert!(!gs.is_resolved());
}

#[test]
fn finished_tag_leaves_one_occurrence() {
    let mut tm = TaskManager::new(|_g: u64| None);
    let (id1, _l) = tm.add_task(A);
    let (id2, _l) = tm.add_task(A);
    let mut gs = tm.stop_group(A);
    assert!(gs.has_pending(A, id1));
    assert!(gs.has_pending(A, id2));
    gs.task_finished(A, id2);
    assert!(gs.has_pending(A, id1));
    assert!(!gs.has_pending(A, id2));
    gs.task_finished(A, id1);
    assert!(gs.is_resolved());
}
