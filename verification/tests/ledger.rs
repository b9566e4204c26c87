use spectra::ledger::ExtensionLedger;

#[test]
fn test_ledger_records_and_looks_up() {
    let mut led = ExtensionLedger::new();
    led.record("txt".to_string(), 10);
    led.record("bin".to_string(), 5);
    led.record("txt".to_string(), 20);
    assert_eq!(led.len(), 2);
    let txt = led.get("txt").unwrap();
    assert_eq!(txt.count, 2);
    assert_eq!(txt.size, 30);
    let bin = led.get("bin").unwrap();
    assert_eq!(bin.count, 1);
    assert_eq!(bin.size, 5);
    assert!(led.get("log").is_none());
}

#[test]
fn test_ledger_entries_keep_first_sighting_order() {
    let mut led = ExtensionLedger::new();
    led.record("b".to_string(), 1);
    led.record("a".to_string(), 2);
    led.record("b".to_string(), 3);
    assert_eq!(led.triple_at(0), ("b".to_string(), 4, 2));
    assert_eq!(led.triple_at(1), ("a".to_string(), 2, 1));
}

#[test]
fn test_ledger_saturates_at_the_top() {
    let mut led = ExtensionLedger::new();
    led.record("big".to_string(), u64::MAX - 1);
    led.record("big".to_string(), 5);
    let big = led.get("big").unwrap();
    assert_eq!(big.count, 2);
    assert_eq!(big.size, u64::MAX);
}
