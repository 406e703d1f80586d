use task_tree::signal::StopBroadcaster;

#[test]
fn test_stop_empty() {
    let x = StopBroadcaster::new();
    assert_eq!(x.len(), 0);
    assert!(x.is_resolved());
}

#[test]
fn test_stop() {
    let mut x = StopBroadcaster::new();
    let a = x.listener();
    let b = x.listener();
    let c = x.listener();
    assert_eq!(x.len(), 3);
    assert!(!x.is_resolved());

    assert!(!x.poll_listener(&a));
    x.drop_listener(a);
    assert_eq!(x.len(), 2);

    x.emit();
    assert!(x.poll_listener(&b));
    x.drop_listener(b);
    assert_eq!(x.len(), 1);
    assert!(!x.is_resolved());

    assert!(x.poll_listener(&c));
    x.drop_listener(c);
    assert_eq!(x.len(), 0);
    assert!(x.is_resolved());
}

#[test]
fn fire_then_drop_all_resolves() {
    let mut x = StopBroadcaster::new();
    let listeners: Vec<_> = (0..5).map(|_| x.listener()).collect();
    x.emit();
    let mut remaining = listeners.len();
    for l in listeners {
        assert!(!x.is_resolved());
        assert!(x.poll_listener(&l));
        x.drop_listener(l);
        remaining -= 1;
        assert_eq!(x.len() as usize, remaining);
    }
    assert!(x.is_resolved());
}

#[test]
fn emit_keeps_live_count() {
    let mut x = StopBroadcaster::new();
    let l = x.listener();
    assert!(!x.poll_listener(&l));
    x.emit();
    assert_eq!(x.len(), 1);
    assert!(x.poll_listener(&l));
    x.drop_listener(l);
    assert!(x.is_resolved());
}
