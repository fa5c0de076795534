use grpc::client::load_balancing::child_manager::{new_position, plan_children, ChildSource};
use grpc::client::load_balancing::child_manager::combine_errors;

fn plan(old: &[u64], new: &[u64], retain: bool) -> Vec<(usize, ChildSource)> {
    plan_children(&old.to_vec(), &new.to_vec(), retain).iter().map(|e| (e.position, e.source)).collect()
}

#[test]
fn reset_keeps_children_by_identifier() {
    let p = plan(&[10, 20, 30], &[30, 40, 10], false);
    assert_eq!(p, vec![(0, ChildSource::Existing(2)), (1, ChildSource::New), (2, ChildSource::Existing(0))]);
}

#[test]
fn reset_builds_a_new_child_for_a_repeated_identifier() {
    let p = plan(&[10], &[10, 10], false);
    assert_eq!(p, vec![(0, ChildSource::Existing(0)), (1, ChildSource::New)]);
}

#[test]
fn reset_takes_the_last_old_child_of_an_identifier() {
    let p = plan(&[10, 10], &[10], false);
    assert_eq!(p, vec![(0, ChildSource::Existing(1))]);
}

#[test]
fn retain_only_skips_unknown_identifiers() {
    let p = plan(&[10, 20], &[30, 20], true);
    assert_eq!(p, vec![(1, ChildSource::Existing(1))]);
}

#[test]
fn old_children_are_refiled() {
    let p = plan_children(&vec![10u64, 20, 30], &vec![30u64, 10], false);
    assert_eq!(new_position(&p, 0), Some(1));
    assert_eq!(new_position(&p, 1), None);
    assert_eq!(new_position(&p, 2), Some(0));
}

#[test]
fn child_errors_are_joined() {
    assert_eq!(combine_errors(&vec![]), Ok(()));
    assert_eq!(combine_errors(&vec!["a".to_string()]), Err("a".to_string()));
    assert_eq!(combine_errors(&vec!["a".to_string(), "b".to_string(), "c".to_string()]), Err("a; b; c".to_string()));
}

#[test]
fn reset_keeps_exactly_the_last_old_child_of_each_remaining_identifier() {
    let kept: Vec<ChildSource> = plan(&[1, 2, 1, 3], &[3, 1, 4], true).into_iter().map(|(_, s)| s).collect();
    assert_eq!(kept, vec![ChildSource::Existing(3), ChildSource::Existing(2)]);
    assert!(!kept.contains(&ChildSource::Existing(0)));
    assert!(!kept.contains(&ChildSource::Existing(1)));
}
