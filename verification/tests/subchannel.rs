use grpc::client::subchannel::{SubchannelAction, SubchannelEvent, SubchannelLifecycle};
use grpc::client::ConnectivityState;
use grpc::client::subchannel::SubchannelPhase;

fn notified(actions: &[SubchannelAction]) -> Vec<ConnectivityState> {
    actions
        .iter()
        .filter_map(|a| match a {
            SubchannelAction::Notify(s) => Some(s.connectivity_state),
            _ => None,
        })
        .collect()
}

#[test]
fn connect_then_ready_then_idle() {
    let mut sc = SubchannelLifecycle::new();
    assert_eq!(sc.state().connectivity_state, ConnectivityState::Idle);
    let a = sc.handle(SubchannelEvent::Connect);
    assert_eq!(notified(&a), vec![ConnectivityState::Connecting]);
    assert!(matches!(a[1], SubchannelAction::StartConnecting));
    // A second connect request while connecting does nothing.
    assert!(sc.handle(SubchannelEvent::Connect).is_empty());
    let a = sc.handle(SubchannelEvent::Connected);
    assert!(matches!(a[0], SubchannelAction::ResetBackoff));
    assert_eq!(notified(&a), vec![ConnectivityState::Ready]);
    let a = sc.handle(SubchannelEvent::Disconnected);
    assert_eq!(notified(&a), vec![ConnectivityState::Idle]);
}

#[test]
fn failure_then_backoff_then_idle() {
    let mut sc = SubchannelLifecycle::new();
    sc.handle(SubchannelEvent::Connect);
    let a = sc.handle(SubchannelEvent::ConnectFailed("refused".to_string()));
    match &a[0] {
        SubchannelAction::Notify(s) => {
            assert_eq!(s.connectivity_state, ConnectivityState::TransientFailure);
            assert_eq!(s.last_connection_error.as_deref(), Some("refused"));
        }
        other => panic!("unexpected {:?}", other),
    }
    assert!(matches!(a[1], SubchannelAction::WaitBackoff));
    let a = sc.handle(SubchannelEvent::BackoffExpired);
    assert_eq!(notified(&a), vec![ConnectivityState::Idle]);
}

#[test]
fn connect_timeout_is_a_failure() {
    let mut sc = SubchannelLifecycle::new();
    sc.handle(SubchannelEvent::Connect);
    sc.handle(SubchannelEvent::ConnectTimeout);
    let st = sc.state();
    assert_eq!(st.connectivity_state, ConnectivityState::TransientFailure);
    assert_eq!(st.last_connection_error.as_deref(), Some("connect timeout expired"));
}

#[test]
fn phases_compare_by_kind() {
    assert!(SubchannelPhase::TransientFailure("a".to_string()) == SubchannelPhase::TransientFailure("b".to_string()));
    assert!(SubchannelPhase::Idle == SubchannelPhase::Idle);
    assert!(SubchannelPhase::Idle != SubchannelPhase::Ready);
}
