use admin_core::audit::{AuditAction, AuditTrail, MAX_AUDIT_LOGS};

#[test]
fn test_audit_logging() {
    let mut trail = AuditTrail::new();
    trail.log_audit(
        AuditAction::ConfigUpdate,
        "test_user",
        "Updated layout configuration",
        Some("127.0.0.1".to_string()),
        true,
        0,
    );
    let logs = trail.get_audit_logs();
    assert!(!logs.is_empty());
    assert_eq!(logs[0].user, "test_user");
    assert_eq!(logs[0].action, AuditAction::ConfigUpdate);
    assert_eq!(logs[0].details, "Updated layout configuration");
    assert_eq!(logs[0].ip_address, Some("127.0.0.1".to_string()));
    assert!(logs[0].success);
}

#[test]
fn test_audit_log_rotation() {
    let mut trail = AuditTrail::new();
    for i in 0..MAX_AUDIT_LOGS + 1 {
        trail.log_audit(
            AuditAction::ConfigUpdate,
            &format!("user_{}", i),
            "Test log",
            None,
            true,
            i as i64,
        );
    }
    assert_eq!(trail.len(), MAX_AUDIT_LOGS);
    let logs = trail.get_audit_logs();
    assert_eq!(logs.len(), MAX_AUDIT_LOGS);
    // the very first entry is gone; the rest stand in insertion order
    assert_eq!(logs[0].user, "user_1");
    assert_eq!(logs[MAX_AUDIT_LOGS - 1].user, format!("user_{}", MAX_AUDIT_LOGS));
    for (k, entry) in logs.iter().enumerate() {
        assert_eq!(entry.user, format!("user_{}", k + 1));
    }
}

#[test]
fn cleanup_drops_entries_at_or_before_cutoff() {
    let mut trail = AuditTrail::new();
    for t in 1..=5i64 {
        trail.log_audit(AuditAction::Login, "u", "login", None, true, t);
    }
    trail.cleanup_audit_logs(3);
    let logs = trail.get_audit_logs();
    assert_eq!(logs.len(), 2);
    assert_eq!(logs[0].timestamp, 4);
    assert_eq!(logs[1].timestamp, 5);
}

#[test]
fn snapshot_is_a_copy_not_a_live_view() {
    let mut trail = AuditTrail::new();
    trail.log_audit(AuditAction::Logout, "u", "bye", None, true, 1);
    let before = trail.get_audit_logs();
    trail.log_audit(AuditAction::Login, "u", "hi", None, true, 2);
    assert_eq!(before.len(), 1);
    assert_eq!(trail.get_audit_logs().len(), 2);
}
