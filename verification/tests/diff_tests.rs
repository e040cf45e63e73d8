use easyenv::diff::{compute_diff, Op};
use easyenv::keymap::{ManagedMap, ManagedVar, PriorValue};
use easyenv::state::EasyenvState;
use indexmap::IndexMap;

fn pairs(ps: &[(&str, &str)]) -> IndexMap<String, String> {
    ps.iter().map(|(k, v)| (k.to_string(), v.to_string())).collect()
}

fn snapshot(ps: &[(&str, &str)]) -> IndexMap<String, String> {
    pairs(ps)
}

fn target(ps: &[(&str, &str)]) -> IndexMap<String, String> {
    pairs(ps)
}

fn managed_one(key: &str, prior: PriorValue) -> EasyenvState {
    let mut managed = ManagedMap::new();
    managed.insert(key.to_string(), ManagedVar { prior });
    EasyenvState { managed, signature: 0 }
}

fn prior_of(m: &ManagedMap, key: &str) -> PriorValue {
    m.get(key).unwrap().prior.clone()
}

#[test]
fn fresh_export_of_previously_unset_key() {
    let prev = EasyenvState::empty();
    let (ops, managed) = compute_diff(&prev, &snapshot(&[]), &target(&[("FOO", "1")]));
    assert_eq!(ops, vec![Op::Export("FOO".to_string(), "1".to_string())]);
    assert_eq!(prior_of(&managed, "FOO"), PriorValue::Unset);
}

#[test]
fn fresh_export_overriding_users_existing_value() {
    let prev = EasyenvState::empty();
    let (ops, managed) = compute_diff(&prev, &snapshot(&[("FOO", "user_value")]), &target(&[("FOO", "env_value")]));
    assert_eq!(ops, vec![Op::Export("FOO".to_string(), "env_value".to_string())]);
    assert_eq!(prior_of(&managed, "FOO"), PriorValue::SetTo("user_value".to_string()));
}

#[test]
fn removal_restores_prior_user_value() {
    let prev = managed_one("FOO", PriorValue::SetTo("user_value".to_string()));
    let (ops, managed) = compute_diff(&prev, &snapshot(&[("FOO", "env_value")]), &target(&[]));
    assert_eq!(ops, vec![Op::Export("FOO".to_string(), "user_value".to_string())]);
    assert!(managed.is_empty());
}

#[test]
fn removal_unsets_key_that_never_existed_before() {
    let prev = managed_one("FOO", PriorValue::Unset);
    let (ops, managed) = compute_diff(&prev, &snapshot(&[("FOO", "env_value")]), &target(&[]));
    assert_eq!(ops, vec![Op::Unset("FOO".to_string())]);
    assert!(managed.is_empty());
}

#[test]
fn value_change_while_already_managed_updates_but_keeps_original_prior() {
    let prev = managed_one("FOO", PriorValue::SetTo("original_user_value".to_string()));
    let (ops, managed) =
        compute_diff(&prev, &snapshot(&[("FOO", "old_env_value")]), &target(&[("FOO", "new_env_value")]));
    assert_eq!(ops, vec![Op::Export("FOO".to_string(), "new_env_value".to_string())]);
    assert_eq!(prior_of(&managed, "FOO"), PriorValue::SetTo("original_user_value".to_string()));
}

#[test]
fn no_op_when_value_unchanged() {
    let prev = managed_one("FOO", PriorValue::Unset);
    let (ops, managed) = compute_diff(&prev, &snapshot(&[("FOO", "same")]), &target(&[("FOO", "same")]));
    assert!(ops.is_empty());
    assert_eq!(prior_of(&managed, "FOO"), PriorValue::Unset);
}

#[test]
fn child_overrides_parent_then_cd_out_restores_pre_easyenv_value() {
    let prev0 = EasyenvState::empty();
    let (ops0, managed0) = compute_diff(&prev0, &snapshot(&[]), &target(&[("FOO", "1")]));
    assert_eq!(ops0, vec![Op::Export("FOO".to_string(), "1".to_string())]);
    let state0 = EasyenvState { managed: managed0, signature: 0 };

    let (ops1, managed1) = compute_diff(&state0, &snapshot(&[("FOO", "1")]), &target(&[("FOO", "2")]));
    assert_eq!(ops1, vec![Op::Export("FOO".to_string(), "2".to_string())]);
    assert_eq!(prior_of(&managed1, "FOO"), PriorValue::Unset);
    let state1 = EasyenvState { managed: managed1, signature: 0 };

    let (ops2, managed2) = compute_diff(&state1, &snapshot(&[("FOO", "2")]), &target(&[("FOO", "1")]));
    assert_eq!(ops2, vec![Op::Export("FOO".to_string(), "1".to_string())]);
    assert_eq!(prior_of(&managed2, "FOO"), PriorValue::Unset);
    let state2 = EasyenvState { managed: managed2, signature: 0 };

    let (ops3, managed3) = compute_diff(&state2, &snapshot(&[("FOO", "1")]), &target(&[]));
    assert_eq!(ops3, vec![Op::Unset("FOO".to_string())]);
    assert!(managed3.is_empty());
}

#[test]
fn reentry_is_idempotent() {
    let prev = managed_one("FOO", PriorValue::Unset);
    let (ops, managed) = compute_diff(&prev, &snapshot(&[("FOO", "1")]), &target(&[("FOO", "1")]));
    assert!(ops.is_empty());
    assert_eq!(managed.len(), 1);
}

#[test]
fn exports_come_in_target_order_then_restores_in_key_order() {
    let mut managed = ManagedMap::new();
    managed.insert("ZED".to_string(), ManagedVar { prior: PriorValue::Unset });
    managed.insert("ALPHA".to_string(), ManagedVar { prior: PriorValue::SetTo("a".to_string()) });
    let prev = EasyenvState { managed, signature: 7 };
    let (ops, managed) = compute_diff(&prev, &snapshot(&[]), &target(&[("B", "2"), ("A", "1")]));
    assert_eq!(
        ops,
        vec![
            Op::Export("B".to_string(), "2".to_string()),
            Op::Export("A".to_string(), "1".to_string()),
            Op::Export("ALPHA".to_string(), "a".to_string()),
            Op::Unset("ZED".to_string()),
        ]
    );
    assert_eq!(managed.len(), 2);
    assert_eq!(managed.entry(0).0, "A");
    assert_eq!(managed.entry(1).0, "B");
}

#[test]
fn second_diff_after_applying_the_first_changes_nothing() {
    let mut managed = ManagedMap::new();
    managed.insert("OLD".to_string(), ManagedVar { prior: PriorValue::SetTo("mine".to_string()) });
    let prev = EasyenvState { managed, signature: 0 };
    let snap = snapshot(&[("OLD", "env"), ("FOO", "user")]);
    let tgt = target(&[("FOO", "1"), ("BAR", "2")]);
    let (ops, managed1) = compute_diff(&prev, &snap, &tgt);
    let mut after = snap.clone();
    for op in &ops {
        match op {
            Op::Export(k, v) => {
                after.insert(k.clone(), v.clone());
            }
            Op::Unset(k) => {
                after.shift_remove(k);
            }
        }
    }
    let state1 = EasyenvState { managed: managed1.clone(), signature: 0 };
    let (ops2, managed2) = compute_diff(&state1, &after, &tgt);
    assert!(ops2.is_empty());
    assert_eq!(managed2, managed1);
}
