use iam_auth_controller::facts::{Facts, InstanceMetadata};
use iam_auth_controller::policy::{
    error_policy, requeue_delay_seconds, CrdError, ReconcileOutcome, FAILURE_REQUEUE_SECONDS,
    SUCCESS_REQUEUE_SECONDS,
};

#[test]
fn success_requeues_after_long_delay() {
    assert_eq!(SUCCESS_REQUEUE_SECONDS, 900);
    assert_eq!(requeue_delay_seconds(ReconcileOutcome::Success), 900);
}

#[test]
fn failure_requeues_after_short_delay() {
    assert_eq!(FAILURE_REQUEUE_SECONDS, 10);
    assert_eq!(requeue_delay_seconds(ReconcileOutcome::Failure), 10);
    let e = CrdError::new("boom".to_string());
    assert_eq!(error_policy(&e), 10);
}

#[test]
fn error_carries_its_message() {
    let e = CrdError::new("Error while deserializing mapRoles".to_string());
    assert_eq!(e.message(), "Error while deserializing mapRoles");
}

#[test]
fn facts_lookup() {
    let mut f = Facts::new();
    assert!(f.get(&"accountId".to_string()).is_none());
    f.insert("accountId".to_string(), "111".to_string());
    f.insert("region".to_string(), "eu-west-1".to_string());
    assert_eq!(f.get(&"accountId".to_string()), Some(&"111".to_string()));
    assert_eq!(f.get(&"region".to_string()), Some(&"eu-west-1".to_string()));
    assert!(f.get(&"other".to_string()).is_none());
}

#[test]
fn facts_later_insert_overrides() {
    let mut f = Facts::new();
    f.insert("accountId".to_string(), "111".to_string());
    f.insert("accountId".to_string(), "222".to_string());
    assert_eq!(f.get(&"accountId".to_string()), Some(&"222".to_string()));
}

#[test]
fn metadata_binds_exactly_account_id() {
    let m = InstanceMetadata::new("123456789012".to_string());
    let f = m.get();
    assert_eq!(f.get(&"accountId".to_string()), Some(&"123456789012".to_string()));
    assert!(f.get(&"account_id".to_string()).is_none());
}

#[test]
fn default_metadata_is_empty_account() {
    let m = InstanceMetadata::default();
    assert_eq!(m.account_id, "");
}
