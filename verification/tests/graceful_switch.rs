use grpc::client::load_balancing::graceful_switch::{swap_decision, update_children, SwapDecision};
use grpc::client::ConnectivityState::{Connecting, Idle, Ready, TransientFailure};
use grpc::client::load_balancing::graceful_switch::{choose_child_config, ConfigChoice};

fn s(x: &str) -> String {
    x.to_string()
}

#[test]
fn first_update_sets_active_child() {
    let (active, children) = update_children("pick_first", None);
    assert_eq!(active, "pick_first");
    assert_eq!(children, vec![s("pick_first")]);
}

#[test]
fn switching_policy_keeps_active_child() {
    let (active, children) = update_children("round_robin", Some("pick_first"));
    assert_eq!(active, "pick_first");
    assert_eq!(children, vec![s("round_robin"), s("pick_first")]);
    let (active, children) = update_children("pick_first", Some("pick_first"));
    assert_eq!(active, "pick_first");
    assert_eq!(children, vec![s("pick_first")]);
}

#[test]
fn pending_child_waits_while_active_ready_and_pending_connecting() {
    let names = vec![s("rr"), s("pf")];
    let active = s("pf");
    assert_eq!(swap_decision(true, Some(&active), &names, &vec![Connecting, Ready]), SwapDecision::Publish(1));
}

#[test]
fn pending_child_promoted_when_it_stops_connecting() {
    let names = vec![s("rr"), s("pf")];
    let active = s("pf");
    assert_eq!(swap_decision(true, Some(&active), &names, &vec![Ready, Ready]), SwapDecision::Promote(0));
    assert_eq!(swap_decision(true, Some(&active), &names, &vec![TransientFailure, Ready]), SwapDecision::Promote(0));
}

#[test]
fn pending_child_promoted_when_active_not_ready() {
    let names = vec![s("rr"), s("pf")];
    let active = s("pf");
    assert_eq!(swap_decision(true, Some(&active), &names, &vec![Connecting, Idle]), SwapDecision::Promote(0));
}

#[test]
fn single_child_state_is_published() {
    let names = vec![s("pf")];
    let active = s("pf");
    assert_eq!(swap_decision(true, Some(&active), &names, &vec![Idle]), SwapDecision::Publish(0));
    assert_eq!(swap_decision(false, Some(&active), &names, &vec![Idle]), SwapDecision::Nothing);
    assert_eq!(swap_decision(true, None, &vec![], &vec![]), SwapDecision::Nothing);
}

#[test]
fn config_choice() {
    assert_eq!(choose_child_config(&vec![1, 1, 1], &vec![false, true, true]), ConfigChoice::Use(1));
    assert_eq!(choose_child_config(&vec![1, 2, 1], &vec![false, false, true]), ConfigChoice::Malformed(1));
    assert_eq!(choose_child_config(&vec![1, 1], &vec![false, false]), ConfigChoice::NoneSupported);
    assert_eq!(choose_child_config(&vec![], &vec![]), ConfigChoice::NoneSupported);
}
