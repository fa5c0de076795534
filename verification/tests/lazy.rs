use grpc::client::load_balancing::lazy::{Lazy, LazyAction};

#[test]
fn lazy_keeps_latest_update_until_woken() {
    let mut lazy: Lazy<&'static str> = Lazy::new();
    assert!(!lazy.is_built());
    assert_eq!(lazy.resolver_update("first"), None);
    assert_eq!(lazy.resolver_update("second"), None);
    assert!(matches!(lazy.subchannel_update(), LazyAction::Nothing));
    match lazy.work() {
        LazyAction::BuildAndUpdate(u) => assert_eq!(u, "second"),
        other => panic!("unexpected {:?}", other),
    }
    assert!(lazy.is_built());
    // Once built, everything is forwarded.
    assert_eq!(lazy.resolver_update("third"), Some("third"));
    assert!(matches!(lazy.subchannel_update(), LazyAction::Forward));
    assert!(matches!(lazy.exit_idle(), LazyAction::Forward));
    assert!(matches!(lazy.work(), LazyAction::Forward));
}

#[test]
fn lazy_exit_idle_without_update() {
    let mut lazy: Lazy<u32> = Lazy::new();
    assert!(matches!(lazy.exit_idle(), LazyAction::BuildAndExitIdle));
    assert!(lazy.is_built());
}
