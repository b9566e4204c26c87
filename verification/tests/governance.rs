use spectra::governance::{Action, Policy, Rule};

#[test]
fn test_policy_evaluation_age() {
    let rule = Rule {
        extension: Some("log".to_string()),
        min_size_bytes: None,
        min_age_days: Some(30),
    };

    assert_eq!(rule.extension, Some("log".to_string()));
    assert_eq!(rule.min_age_days, Some(30));
}

#[test]
fn test_policy_extension_match() {
    let rule = Rule {
        extension: Some("tmp".to_string()),
        min_size_bytes: None,
        min_age_days: None,
    };

    let policy = Policy {
        name: "Test TMP Files".to_string(),
        rule: rule.clone(),
        action: Action::Report,
    };

    // a freshly created empty .tmp file matches
    assert!(policy.evaluate("test.tmp", 0, None));

    // a .log file does not match
    assert!(!policy.evaluate("test.log", 0, None));
}

#[test]
fn test_policy_size_threshold() {
    let rule = Rule {
        extension: None,
        min_size_bytes: Some(1024), // 1KB threshold
        min_age_days: None,
    };

    let policy = Policy {
        name: "Large Files Only".to_string(),
        rule,
        action: Action::Report,
    };

    // a small file (< 1KB, the 5 bytes of b"small") does not match
    assert!(!policy.evaluate("small.dat", 5, None));

    // a large file (> 1KB) matches
    assert!(policy.evaluate("large.dat", 2048, None));
}

#[test]
fn test_policy_age_threshold() {
    let policy = Policy {
        name: "Old Logs".to_string(),
        rule: Rule {
            extension: None,
            min_size_bytes: None,
            min_age_days: Some(30),
        },
        action: Action::Delete,
    };

    // too young: 29 days
    assert!(!policy.evaluate("old.log", 0, Some(29 * 86400)));
    // exactly 30 days old
    assert!(policy.evaluate("old.log", 0, Some(30 * 86400)));
    // an unknown age passes the age condition
    assert!(policy.evaluate("old.log", 0, None));
}

#[test]
fn test_policy_extension_is_case_folded() {
    let policy = Policy {
        name: "Logs".to_string(),
        rule: Rule {
            extension: Some("log".to_string()),
            min_size_bytes: None,
            min_age_days: None,
        },
        action: Action::Report,
    };

    assert!(policy.evaluate("server.LOG", 0, None));
    assert!(!policy.evaluate("no_extension", 0, None));
}

#[test]
fn test_policy_from_server_entry() {
    let p = Policy::from_server_policy("Cleanup Old Logs".to_string());
    assert_eq!(p.name, "Cleanup Old Logs".to_string());
    assert_eq!(p.rule.extension, Some("log".to_string()));
    assert_eq!(p.rule.min_size_bytes, None);
    assert_eq!(p.rule.min_age_days, Some(90));
    assert!(matches!(p.action, Action::Report));
}
