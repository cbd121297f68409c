use iam_auth_controller::engine::reconcile;
use iam_auth_controller::facts::{Facts, InstanceMetadata};
use iam_auth_controller::model::{arn_is_role, IAMIdentityMappingSpec, MapRole, MapUser, ARN};

fn desired(arn: &str, username: &str, groups: Option<&[&str]>) -> IAMIdentityMappingSpec {
    IAMIdentityMappingSpec {
        arn: arn.to_string(),
        username: username.to_string(),
        groups: groups.map(|g| g.iter().map(|s| s.to_string()).collect()),
    }
}

fn role(arn: &str, username: &str, groups: Option<&[&str]>) -> MapRole {
    MapRole {
        username: username.to_string(),
        groups: groups.map(|g| g.iter().map(|s| s.to_string()).collect()),
        rolearn: ARN(arn.to_string()),
    }
}

fn user(arn: &str, username: &str, groups: Option<&[&str]>) -> MapUser {
    MapUser {
        username: username.to_string(),
        groups: groups.map(|g| g.iter().map(|s| s.to_string()).collect()),
        userarn: ARN(arn.to_string()),
    }
}

#[test]
fn empty_start_single_role() {
    let ds = vec![desired("arn:aws:iam::111:role/admin", "admin", Some(&["system:masters"]))];
    let (roles, users) = reconcile(&ds, &vec![], &vec![], &Facts::new());
    assert_eq!(roles, vec![role("arn:aws:iam::111:role/admin", "admin", Some(&["system:masters"]))]);
    assert!(users.is_empty());
}

#[test]
fn stale_role_is_pruned() {
    let roles0 = vec![role("arn:aws:iam::111:role/stale", "old", None)];
    let (roles, users) = reconcile(&vec![], &roles0, &vec![], &Facts::new());
    assert!(roles.is_empty());
    assert!(users.is_empty());
}

#[test]
fn stale_user_is_pruned() {
    let users0 = vec![user("arn:aws:iam::111:user/gone", "old", None)];
    let (roles, users) = reconcile(&vec![], &vec![], &users0, &Facts::new());
    assert!(roles.is_empty());
    assert!(users.is_empty());
}

#[test]
fn matching_stored_entry_survives() {
    let roles0 = vec![role("arn:aws:iam::111:role/keep", "kept", None)];
    let ds = vec![desired("arn:aws:iam::111:role/keep", "kept", None)];
    let (roles, users) = reconcile(&ds, &roles0, &vec![], &Facts::new());
    assert_eq!(roles, vec![role("arn:aws:iam::111:role/keep", "kept", None)]);
    assert!(users.is_empty());
}

#[test]
fn later_record_with_same_arn_wins() {
    let a = "arn:aws:iam::111:role/dup";
    let ds = vec![desired(a, "first", None), desired(a, "second", Some(&["g"]))];
    let (roles, users) = reconcile(&ds, &vec![], &vec![], &Facts::new());
    assert_eq!(roles, vec![role(a, "second", Some(&["g"]))]);
    assert!(users.is_empty());
}

#[test]
fn records_partition_by_identifier() {
    let ds = vec![
        desired("arn:aws:iam::111:role/r", "r", None),
        desired("arn:aws:iam::111:user/u", "u", None),
    ];
    let (roles, users) = reconcile(&ds, &vec![], &vec![], &Facts::new());
    assert_eq!(roles, vec![role("arn:aws:iam::111:role/r", "r", None)]);
    assert_eq!(users, vec![user("arn:aws:iam::111:user/u", "u", None)]);
}

#[test]
fn reconcile_twice_is_idempotent() {
    let ds = vec![
        desired("arn:aws:iam::111:role/a", "a", Some(&["g1", "g2"])),
        desired("arn:aws:iam::111:user/b", "b", None),
        desired("arn:aws:iam::111:role/a", "a2", None),
    ];
    let roles0 = vec![
        role("arn:aws:iam::111:role/a", "stale", None),
        role("arn:aws:iam::111:role/orphan", "x", None),
    ];
    let users0 = vec![user("arn:aws:iam::111:user/orphan", "y", None)];
    let facts = Facts::new();
    let (r1, u1) = reconcile(&ds, &roles0, &users0, &facts);
    let (r2, u2) = reconcile(&ds, &r1, &u1, &facts);
    assert_eq!(r1, r2);
    assert_eq!(u1, u2);
}

#[test]
fn replacement_keeps_position_of_appended_entry() {
    // Every desired record replaces any stored entry with its identifier and
    // is appended, so the result follows snapshot order.
    let a = "arn:aws:iam::111:role/a";
    let b = "arn:aws:iam::111:role/b";
    let roles0 = vec![role(a, "olda", None), role(b, "oldb", None)];
    let ds = vec![desired(a, "newa", None), desired(b, "oldb", None)];
    let (roles, _) = reconcile(&ds, &roles0, &vec![], &Facts::new());
    assert_eq!(roles, vec![role(a, "newa", None), role(b, "oldb", None)]);
}

#[test]
fn stored_identifier_is_resolved_before_pruning() {
    let facts = InstanceMetadata::new("111".to_string()).get();
    let roles0 = vec![role("arn:aws:iam::{{accountId}}:role/x", "x", None)];
    let ds = vec![desired("arn:aws:iam::111:role/x", "x", None)];
    let (roles, _) = reconcile(&ds, &roles0, &vec![], &facts);
    assert_eq!(roles, vec![role("arn:aws:iam::111:role/x", "x", None)]);
}

#[test]
fn templated_identifier_classifies_as_role() {
    let facts = InstanceMetadata::new("111".to_string()).get();
    let resolved = ARN::resolve("arn:aws:iam::{{accountId}}:role/x", &facts);
    assert_eq!(resolved.0, "arn:aws:iam::111:role/x");
    assert!(arn_is_role(resolved.as_str()));
    let ds = vec![desired(&resolved.0, "x", None)];
    let (roles, users) = reconcile(&ds, &vec![], &vec![], &facts);
    assert_eq!(roles.len(), 1);
    assert_eq!(roles[0].rolearn.0, "arn:aws:iam::111:role/x");
    assert!(users.is_empty());
}

#[test]
fn partition_decision_on_plain_identifiers() {
    assert!(arn_is_role("arn:aws:iam::1:role/x"));
    assert!(arn_is_role(":role/"));
    assert!(!arn_is_role("arn:aws:iam::1:user/x"));
    assert!(!arn_is_role("role/"));
    assert!(!arn_is_role(":role"));
    assert!(!arn_is_role(""));
}

#[test]
fn chained_placeholders_re_resolve_on_the_next_run() {
    // A fact value may itself contain a marker; such an identifier is not a
    // fixed point of rendering, so a later run resolves it further and the
    // runs converge instead of being identical.
    let mut facts = Facts::new();
    facts.insert("b".to_string(), "{{c}}".to_string());
    facts.insert("c".to_string(), "2".to_string());
    let users0 = vec![user("u:role/{{b}}", "legacy", None)];
    let ds = vec![desired("u:role/{{c}}", "fresh", None)];
    let (r1, u1) = reconcile(&ds, &vec![], &users0, &facts);
    assert_eq!(u1, vec![user("u:role/{{c}}", "legacy", None)]);
    let (r2, u2) = reconcile(&ds, &r1, &u1, &facts);
    assert_eq!(r1, r2);
    assert!(u2.is_empty());
}

#[test]
fn prune_matches_any_desired_identifier_regardless_of_partition() {
    // A stored user entry whose identifier matches a desired record survives
    // pruning even when that identifier selects the role partition; the
    // desired record itself still lands in the role list.
    let a = "arn:aws:iam::111:role/odd";
    let users0 = vec![user(a, "legacy", None)];
    let ds = vec![desired(a, "fresh", None)];
    let (roles, users) = reconcile(&ds, &vec![], &users0, &Facts::new());
    assert_eq!(roles, vec![role(a, "fresh", None)]);
    assert_eq!(users, vec![user(a, "legacy", None)]);
}
