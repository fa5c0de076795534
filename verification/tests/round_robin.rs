use grpc::client::load_balancing::aggregate_states;
use grpc::client::load_balancing::round_robin::{
    addresses_available, aggregate_picker, empty_address_list_message, should_exit_idle, RoundRobinIndex,
};
use grpc::client::load_balancing::utils::shard_by_endpoint;
use grpc::client::name_resolution::Address;
use grpc::client::ConnectivityState::{Connecting, Idle, Ready, TransientFailure};
use grpc::client::load_balancing::round_robin::{resolver_update_plan, RrUpdatePlan};

#[test]
fn aggregate_state_precedence() {
    assert_eq!(aggregate_states(&vec![TransientFailure, Idle, Ready]), Ready);
    assert_eq!(aggregate_states(&vec![TransientFailure, Connecting, Idle]), Connecting);
    assert_eq!(aggregate_states(&vec![TransientFailure, Idle]), Idle);
    assert_eq!(aggregate_states(&vec![TransientFailure, TransientFailure]), TransientFailure);
    assert_eq!(aggregate_states(&vec![]), TransientFailure);
}

#[test]
fn picker_uses_ready_children() {
    let (state, children) = aggregate_picker(&vec![Connecting, Ready, TransientFailure, Ready]);
    assert_eq!(state, Ready);
    assert_eq!(children, vec![1, 3]);
}

#[test]
fn picker_uses_connecting_children_when_idle_or_connecting() {
    let (state, children) = aggregate_picker(&vec![Idle, Connecting, TransientFailure]);
    assert_eq!(state, Connecting);
    assert_eq!(children, vec![1]);
    let (state, children) = aggregate_picker(&vec![Idle, TransientFailure]);
    assert_eq!(state, Connecting);
    assert!(children.is_empty());
}

#[test]
fn picker_fails_with_all_children_failing() {
    let (state, children) = aggregate_picker(&vec![TransientFailure, TransientFailure]);
    assert_eq!(state, TransientFailure);
    assert_eq!(children, vec![0, 1]);
}

#[test]
fn exit_idle_when_some_child_idle() {
    assert!(should_exit_idle(&vec![Ready, Idle]));
    assert!(!should_exit_idle(&vec![Ready, Connecting, TransientFailure]));
}

#[test]
fn addresses_available_needs_one_address() {
    assert!(!addresses_available(&vec![]));
    assert!(!addresses_available(&vec![vec![], vec![]]));
    assert!(addresses_available(&vec![vec![], vec![Address::new("tcp", "a:1")]]));
    assert_eq!(empty_address_list_message(), "received empty address list from the name resolver");
}

#[test]
fn picks_go_round() {
    let mut index = RoundRobinIndex::new(3);
    let first = index.pick();
    assert!(first < 3);
    let next: Vec<usize> = (0..6).map(|_| index.pick()).collect();
    let expected: Vec<usize> = (1..7).map(|i| (first + i) % 3).collect();
    assert_eq!(next, expected);
}

#[test]
fn resolver_update_plans() {
    let empty: Result<Vec<Vec<Address>>, String> = Ok(vec![vec![]]);
    match resolver_update_plan(&empty, true) {
        RrUpdatePlan::FailEmpty(e) => assert_eq!(e, "received empty address list from the name resolver"),
        other => panic!("unexpected {:?}", other),
    }
    let some: Result<Vec<Vec<Address>>, String> = Ok(vec![vec![Address::new("tcp", "a:1")]]);
    assert!(matches!(resolver_update_plan(&some, false), RrUpdatePlan::Forward));
    let err: Result<Vec<Vec<Address>>, String> = Err("boom".to_string());
    assert!(matches!(resolver_update_plan(&err, true), RrUpdatePlan::Forward));
    match resolver_update_plan(&err, false) {
        RrUpdatePlan::FailNoChildren(e) => assert_eq!(e, "boom"),
        other => panic!("unexpected {:?}", other),
    }
}

#[test]
fn one_child_per_endpoint() {
    let eps = vec![
        vec![Address::new("tcp", "a:1"), Address::new("tcp", "a:2")],
        vec![Address::new("tcp", "b:1")],
    ];
    let shards = shard_by_endpoint(&eps);
    assert_eq!(shards.len(), 2);
    let (id, update) = &shards[0];
    assert_eq!(id.iter().map(|a| a.address.as_str()).collect::<Vec<_>>(), vec!["a:1", "a:2"]);
    assert_eq!(update.len(), 1);
    assert_eq!(update[0].len(), 2);
    assert_eq!(shards[1].1[0][0].address, "b:1");
}
