use grpc::client::load_balancing::pick_first::{
    compile_addresses, PickFirstAction, PickFirstConfig, PickFirstPolicy, PickerUpdate, ResolverUpdateStep, SteadyState,
};
use grpc::client::load_balancing::state_cache::StateCache;
use grpc::client::load_balancing::subchannel::SubchannelState;
use grpc::client::name_resolution::Address;
use grpc::client::ConnectivityState;

fn endpoints(addrs: &[&str]) -> Vec<Vec<Address>> {
    addrs.iter().map(|a| vec![Address::new("tcp", a)]).collect()
}

fn addr(a: &str) -> Address {
    Address::new("tcp", a)
}

/// Sends a resolver update; new subchannels start idle. Returns the actions
/// and the result of the update.
fn update(policy: &mut PickFirstPolicy, eps: Vec<Vec<Address>>) -> (Vec<PickFirstAction>, Result<(), String>) {
    match policy.resolver_update(Ok(eps), None) {
        ResolverUpdateStep::Addresses(addrs) => {
            let missing = policy.missing_subchannels(&addrs);
            let mut created = StateCache::new();
            for a in missing {
                created.insert(a, ConnectivityState::Idle);
            }
            (policy.apply_addresses(addrs, &created), Ok(()))
        }
        ResolverUpdateStep::Done(actions, res) => (actions, res),
    }
}

fn names(policy: &PickFirstPolicy) -> Vec<String> {
    policy.subchannels().iter().map(|a| a.address.clone()).collect()
}

fn connect_target(a: &PickFirstAction) -> Option<String> {
    match a {
        PickFirstAction::Connect(x) => Some(x.address.clone()),
        _ => None,
    }
}

fn ready() -> SubchannelState {
    SubchannelState::ready()
}

fn failed() -> SubchannelState {
    SubchannelState { connectivity_state: ConnectivityState::TransientFailure, last_connection_error: None }
}

#[test]
fn pick_first_basic_connection() {
    let mut policy = PickFirstPolicy::new();
    let (actions, res) = update(&mut policy, endpoints(&["addr1", "addr2"]));
    assert!(res.is_ok());
    assert_eq!(actions.len(), 3);
    assert_eq!(connect_target(&actions[0]), Some("addr1".to_string()));
    assert!(matches!(actions[1], PickFirstAction::StartTimer));
    assert!(matches!(actions[2], PickFirstAction::UpdatePicker(PickerUpdate::Queuing)));
    assert_eq!(policy.connectivity_state(), ConnectivityState::Connecting);

    let actions = policy.subchannel_update(&addr("addr1"), &ready());
    assert_eq!(actions.len(), 2);
    assert!(matches!(actions[0], PickFirstAction::CancelTimer));
    match &actions[1] {
        PickFirstAction::UpdatePicker(PickerUpdate::Ready(a)) => assert_eq!(a.address, "addr1"),
        other => panic!("unexpected action {:?}", other),
    }
    assert_eq!(policy.connectivity_state(), ConnectivityState::Ready);
    assert_eq!(names(&policy), vec!["addr1".to_string()]);
}

#[test]
fn pick_first_failover() {
    let mut policy = PickFirstPolicy::new();
    update(&mut policy, endpoints(&["addr1", "addr2"]));
    let actions = policy.subchannel_update(&addr("addr1"), &failed());
    assert_eq!(connect_target(&actions[0]), Some("addr2".to_string()));
    let actions = policy.subchannel_update(&addr("addr2"), &ready());
    assert!(actions.iter().any(|a| matches!(a, PickFirstAction::UpdatePicker(PickerUpdate::Ready(_)))));
    assert_eq!(policy.connectivity_state(), ConnectivityState::Ready);
    assert_eq!(policy.selected().map(|a| a.address.clone()), Some("addr2".to_string()));
}

#[test]
fn pick_first_stickiness() {
    let mut policy = PickFirstPolicy::new();
    update(&mut policy, endpoints(&["addr1", "addr2"]));
    policy.subchannel_update(&addr("addr1"), &ready());
    assert_eq!(policy.connectivity_state(), ConnectivityState::Ready);

    // A new update that still includes addr1 keeps it: no new pass, nothing
    // published; only the subchannels of the new addresses are missing.
    let eps = endpoints(&["addr2", "addr1", "addr3"]);
    match policy.resolver_update(Ok(eps), None) {
        ResolverUpdateStep::Addresses(addrs) => {
            let missing: Vec<String> =
                policy.missing_subchannels(&addrs).iter().map(|a| a.address.clone()).collect();
            assert_eq!(missing, vec!["addr2".to_string(), "addr3".to_string()]);
            let mut created = StateCache::new();
            for a in policy.missing_subchannels(&addrs) {
                created.insert(a, ConnectivityState::Idle);
            }
            let actions = policy.apply_addresses(addrs, &created);
            assert!(actions.is_empty(), "unexpected actions {:?}", actions);
        }
        ResolverUpdateStep::Done(actions, _) => panic!("unexpected {:?}", actions),
    }
    assert_eq!(policy.connectivity_state(), ConnectivityState::Ready);
    assert_eq!(policy.selected().map(|a| a.address.clone()), Some("addr1".to_string()));
}

#[test]
fn pick_first_exhaustion() {
    let mut policy = PickFirstPolicy::new();
    update(&mut policy, endpoints(&["addr1", "addr2"]));
    policy.subchannel_update(&addr("addr1"), &failed());
    let actions = policy.subchannel_update(
        &addr("addr2"),
        &SubchannelState::transient_failure("connection refused".to_string()),
    );
    assert_eq!(actions.len(), 2);
    match &actions[0] {
        PickFirstAction::UpdatePicker(PickerUpdate::Failing(e)) => assert_eq!(e, "connection refused"),
        other => panic!("unexpected action {:?}", other),
    }
    assert!(matches!(actions[1], PickFirstAction::RequestResolution));
    assert_eq!(policy.connectivity_state(), ConnectivityState::TransientFailure);
    assert!(policy.in_steady_state());
}

#[test]
fn pick_first_interleaving() {
    // The endpoints in the order a shuffle that reverses them would leave.
    let eps = endpoints(&["127.0.0.1", "::1", "127.0.0.2", "::2"]);
    let reversed: Vec<Vec<Address>> = eps.into_iter().rev().collect();
    let out: Vec<String> = compile_addresses(&reversed).iter().map(|a| a.address.clone()).collect();
    assert_eq!(out, vec!["::2", "127.0.0.2", "::1", "127.0.0.1"]);
}

#[test]
fn pick_first_interleaving_uneven() {
    let eps = endpoints(&["::1", "::2", "::3", "10.0.0.1"]);
    let out: Vec<String> = compile_addresses(&eps).iter().map(|a| a.address.clone()).collect();
    assert_eq!(out, vec!["::1", "10.0.0.1", "::2", "::3"]);
}

#[test]
fn pick_first_shuffle_keeps_addresses() {
    let mut policy = PickFirstPolicy::new();
    let names: Vec<String> = (0..20).map(|i| format!("a{:02}", i)).collect();
    let refs: Vec<&str> = names.iter().map(|s| s.as_str()).collect();
    let eps = endpoints(&refs);
    let config = PickFirstConfig { shuffle_address_list: true };
    match policy.resolver_update(Ok(eps), Some(&config)) {
        ResolverUpdateStep::Addresses(addrs) => {
            let got: Vec<String> = addrs.iter().map(|a| a.address.clone()).collect();
            // Twenty addresses come back in another order (all orders are
            // equally likely), and none is lost.
            assert_ne!(got, names);
            let mut sorted = got.clone();
            sorted.sort();
            assert_eq!(sorted, names);
        }
        ResolverUpdateStep::Done(actions, _) => panic!("unexpected {:?}", actions),
    }
}

#[test]
fn pick_first_duplicate_de_duplication() {
    let mut policy = PickFirstPolicy::new();
    let mut eps = endpoints(&["addr1", "addr2"]);
    eps.push(vec![addr("addr1"), addr("addr2")]);
    update(&mut policy, eps);
    assert_eq!(policy.subchannels().len(), 2, "De-duplication failed");
}

#[test]
fn pick_first_empty_update_clears_state() {
    let mut policy = PickFirstPolicy::new();
    update(&mut policy, endpoints(&["addr1", "addr2"]));
    assert_eq!(policy.subchannels().len(), 2);
    policy.subchannel_update(&addr("addr1"), &ready());
    assert!(policy.selected().is_some());

    let (actions, res) = update(&mut policy, vec![]);
    assert_eq!(res, Err("empty address list".to_string()));
    assert_eq!(policy.subchannels().len(), 0);
    assert!(policy.selected().is_none());
    match &actions[0] {
        PickFirstAction::UpdatePicker(PickerUpdate::Failing(e)) => assert_eq!(e, "empty address list"),
        other => panic!("unexpected action {:?}", other),
    }
    assert!(matches!(actions[1], PickFirstAction::RequestResolution));
    assert_eq!(policy.connectivity_state(), ConnectivityState::TransientFailure);
}

#[test]
fn pick_first_timer_advancement() {
    let mut policy = PickFirstPolicy::new();
    update(&mut policy, endpoints(&["addr1", "addr2"]));
    // Work without the timer having fired does nothing.
    let (actions, consumed) = policy.work(false);
    assert!(actions.is_empty());
    assert!(!consumed);
    let (actions, consumed) = policy.work(true);
    assert!(consumed);
    assert_eq!(connect_target(&actions[0]), Some("addr2".to_string()));
}

#[test]
fn pick_first_steady_state_retries() {
    let mut policy = PickFirstPolicy::new();
    update(&mut policy, endpoints(&["addr1"]));
    policy.subchannel_update(&addr("addr1"), &failed());
    assert!(policy.in_steady_state());
    // In steady state, a subchannel that goes idle is connected again.
    let actions = policy.subchannel_update(&addr("addr1"), &SubchannelState::idle());
    assert_eq!(actions.len(), 1);
    assert_eq!(connect_target(&actions[0]), Some("addr1".to_string()));
}

#[test]
fn pick_first_steady_state_multi_backend() {
    let mut policy = PickFirstPolicy::new();
    update(&mut policy, endpoints(&["addr1", "addr2"]));
    let actions = policy.subchannel_update(&addr("addr1"), &failed());
    assert_eq!(connect_target(&actions[0]), Some("addr2".to_string()));
    policy.subchannel_update(&addr("addr2"), &failed());
    assert!(policy.in_steady_state());
    // One failure of two: no re-resolution yet; the second asks for it.
    let actions = policy.subchannel_update(&addr("addr1"), &failed());
    assert!(actions.is_empty(), "unexpected {:?}", actions);
    let actions = policy.subchannel_update(&addr("addr2"), &failed());
    assert_eq!(actions.len(), 1);
    assert!(matches!(actions[0], PickFirstAction::RequestResolution));
    // Idle subchannels are reconnected.
    let actions = policy.subchannel_update(&addr("addr1"), &SubchannelState::idle());
    assert_eq!(connect_target(&actions[0]), Some("addr1".to_string()));
}

#[test]
fn pick_first_lost_connection_goes_idle_then_reconnects() {
    let mut policy = PickFirstPolicy::new();
    update(&mut policy, endpoints(&["addr1", "addr2"]));
    policy.subchannel_update(&addr("addr1"), &ready());
    let actions = policy.subchannel_update(&addr("addr1"), &SubchannelState::idle());
    assert_eq!(actions.len(), 1);
    assert!(matches!(actions[0], PickFirstAction::UpdatePicker(PickerUpdate::Idle)));
    assert_eq!(policy.connectivity_state(), ConnectivityState::Idle);
    // A pick wakes the policy up: a new pass starts.
    let (actions, consumed) = policy.work(false);
    assert!(!consumed);
    assert_eq!(connect_target(&actions[0]), Some("addr1".to_string()));
    assert_eq!(policy.connectivity_state(), ConnectivityState::Connecting);
}

#[test]
fn pick_first_resolver_error() {
    let mut policy = PickFirstPolicy::new();
    // With no subchannel, the error is reported and the update refused.
    match policy.resolver_update(Err("dns failure".to_string()), None) {
        ResolverUpdateStep::Done(actions, res) => {
            assert_eq!(res, Err("dns failure".to_string()));
            assert_eq!(actions.len(), 2);
        }
        other => panic!("unexpected {:?}", matches!(other, ResolverUpdateStep::Addresses(_))),
    }
    // With subchannels in use, the error is only remembered.
    let mut policy = PickFirstPolicy::new();
    update(&mut policy, endpoints(&["addr1"]));
    match policy.resolver_error("dns failure".to_string()) {
        ResolverUpdateStep::Done(actions, res) => {
            assert_eq!(res, Ok(()));
            assert!(actions.is_empty());
        }
        other => panic!("unexpected {:?}", matches!(other, ResolverUpdateStep::Addresses(_))),
    }
    // An empty update then fails with the remembered error.
    let (_, res) = update(&mut policy, vec![]);
    assert_eq!(res, Err("dns failure".to_string()));
}

#[test]
fn pick_first_skips_failed_addresses_in_pass() {
    let mut policy = PickFirstPolicy::new();
    update(&mut policy, endpoints(&["addr1", "addr2", "addr3"]));
    policy.subchannel_update(&addr("addr2"), &failed());
    // addr1 fails: addr2 is known to be failing, so addr3 is next.
    let actions = policy.subchannel_update(&addr("addr1"), &failed());
    assert_eq!(connect_target(&actions[0]), Some("addr3".to_string()));
}

#[test]
fn steady_state_asks_for_resolution_once_per_round_of_failures() {
    for n in 1..6usize {
        let mut ss = SteadyState::new();
        let mut asked = 0;
        for k in 1..=40usize {
            if ss.record_failure(n) {
                asked += 1;
            }
            assert_eq!(asked, k / n);
        }
    }
}

#[test]
fn steady_state_ith_failure_asks_when_i_is_a_multiple_of_n() {
    let mut ss = SteadyState::new();
    let answers: Vec<bool> = (0..4).map(|_| ss.record_failure(2)).collect();
    assert_eq!(answers, vec![false, true, false, true]);
    let mut none = SteadyState::new();
    assert!((0..3).all(|_| none.record_failure(0)));
}
