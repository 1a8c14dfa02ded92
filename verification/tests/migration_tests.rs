// Tests for the migration engine: version allocation, ordering, rollback.

use njord::migration::{dir_name, new_state};
use njord::text::u64_to_string;

#[test]
fn generate_versions_strictly_increase() {
    let mut s = new_state();
    let v1 = s.generate("first".to_string(), 20240101000000).unwrap();
    // A stale or repeated stamp still yields a strictly greater version.
    let v2 = s.generate("second".to_string(), 20240101000000).unwrap();
    let v3 = s.generate("third".to_string(), 0).unwrap();
    assert_eq!(v1, 20240101000000);
    assert_eq!(v2, 20240101000001);
    assert_eq!(v3, 20240101000002);
    assert!(v1 < v2 && v2 < v3);
}

#[test]
fn run_applies_in_ascending_order() {
    let mut s = new_state();
    let v1 = s.generate("a".to_string(), 10).unwrap();
    let v2 = s.generate("b".to_string(), 20).unwrap();
    let v3 = s.generate("c".to_string(), 5).unwrap();
    let plan = s.run_plan();
    let versions: Vec<u64> = plan.iter().map(|u| u.version).collect();
    assert_eq!(versions, vec![v1, v2, v3]);
    for u in &plan {
        s.mark_applied(u.version).unwrap();
    }
    assert_eq!(s.applied, 3);
    assert!(s.run_plan().is_empty());
}

#[test]
fn applied_record_stays_a_prefix() {
    let mut s = new_state();
    let v1 = s.generate("a".to_string(), 10).unwrap();
    let v2 = s.generate("b".to_string(), 20).unwrap();
    // Applying out of order is refused; the record stays a prefix.
    assert!(s.mark_applied(v2).is_err());
    assert_eq!(s.applied, 0);
    s.mark_applied(v1).unwrap();
    // Rolling back anything but the tail is refused too.
    assert!(s.mark_rolled_back(v2).is_err());
    assert_eq!(s.applied, 1);
}

#[test]
fn rollback_reverts_run_in_reverse_order() {
    let mut s = new_state();
    let v1 = s.generate("a".to_string(), 10).unwrap();
    let v2 = s.generate("b".to_string(), 20).unwrap();
    let v3 = s.generate("c".to_string(), 30).unwrap();
    for u in s.run_plan() {
        s.mark_applied(u.version).unwrap();
    }
    assert_eq!(s.applied, 3);

    // Roll back to a version before any were applied.
    let plan = s.rollback_plan(0);
    let versions: Vec<u64> = plan.iter().map(|u| u.version).collect();
    assert_eq!(versions, vec![v3, v2, v1]);
    for u in &plan {
        s.mark_rolled_back(u.version).unwrap();
    }
    // The applied record is back where it started: nothing applied.
    assert_eq!(s.applied, 0);
    assert_eq!(s.units.len(), 3);
}

#[test]
fn rollback_to_middle_version_stops_there() {
    let mut s = new_state();
    let v1 = s.generate("a".to_string(), 10).unwrap();
    let v2 = s.generate("b".to_string(), 20).unwrap();
    for u in s.run_plan() {
        s.mark_applied(u.version).unwrap();
    }
    let plan = s.rollback_plan(v1);
    let versions: Vec<u64> = plan.iter().map(|u| u.version).collect();
    assert_eq!(versions, vec![v2]);
}

#[test]
fn dry_run_plans_without_writing() {
    let mut s = new_state();
    s.generate("first".to_string(), 7).unwrap();
    let (v, dir) = s.plan_generate(&"second".to_string(), 3).unwrap();
    assert_eq!(v, 8);
    assert_eq!(dir, "00000000000008_second");
    // Planning wrote nothing.
    assert_eq!(s.units.len(), 1);
}

#[test]
fn directory_names_are_deterministic() {
    assert_eq!(
        dir_name(0, &"njord_initial_setup".to_string()),
        "00000000000000_njord_initial_setup"
    );
    assert_eq!(
        dir_name(20240101123456, &"add_users".to_string()),
        "20240101123456_add_users"
    );
    assert_eq!(u64_to_string(0), "0");
    assert_eq!(u64_to_string(10), "10");
    assert_eq!(u64_to_string(18446744073709551615), "18446744073709551615");
}
