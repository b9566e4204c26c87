use spectra::scanner::{Scanner, WalkEntry};
use spectra::velocity::{compute_velocity, AgentSnapshot};

fn snapshot(timestamp: i64, total: u64, files: u64, exts: Vec<(&str, u64, u64)>) -> AgentSnapshot {
    AgentSnapshot {
        agent_id: "agent_1".to_string(),
        timestamp,
        hostname: "host".to_string(),
        total_size_bytes: total,
        file_count: files,
        top_extensions: exts.into_iter().map(|(e, s, c)| (e.to_string(), s, c)).collect(),
    }
}

/// The rate the transport layer derives from a report.
fn bytes_per_second(growth_bytes: i64, duration_seconds: i64) -> f64 {
    if duration_seconds > 0 {
        growth_bytes as f64 / duration_seconds as f64
    } else {
        0.0
    }
}

#[test]
fn test_velocity_arithmetic() {
    let start = snapshot(100, 1000, 10, vec![]);
    let end = snapshot(200, 1500, 12, vec![]);
    let r = compute_velocity("agent_1".to_string(), Some(&start), Some(&end));
    assert_eq!(r.duration_seconds, 100);
    assert_eq!(r.growth_bytes, 500);
    assert_eq!(r.growth_files, 2);
    assert_eq!(r.t_start, 100);
    assert_eq!(r.t_end, 200);
    assert_eq!(bytes_per_second(r.growth_bytes, r.duration_seconds), 5.0);
}

#[test]
fn test_velocity_zero_duration_is_safe() {
    let start = snapshot(100, 1000, 10, vec![]);
    let end = snapshot(100, 1500, 12, vec![]);
    let r = compute_velocity("agent_1".to_string(), Some(&start), Some(&end));
    assert_eq!(r.duration_seconds, 0);
    assert_eq!(r.growth_bytes, 500);
    assert_eq!(bytes_per_second(r.growth_bytes, r.duration_seconds), 0.0);
}

#[test]
fn test_velocity_extension_delta_reconciliation() {
    let start = snapshot(100, 100, 1, vec![("log", 100, 1)]);
    let end = snapshot(200, 70, 3, vec![("log", 50, 1), ("tmp", 20, 2)]);
    let r = compute_velocity("agent_1".to_string(), Some(&start), Some(&end));
    assert_eq!(r.extension_deltas.len(), 2);
    // sorted by descending absolute size impact: 50 > 20
    assert_eq!(r.extension_deltas[0].extension, "log".to_string());
    assert_eq!(r.extension_deltas[0].size_delta, -50);
    assert_eq!(r.extension_deltas[0].count_delta, 0);
    assert_eq!(r.extension_deltas[1].extension, "tmp".to_string());
    assert_eq!(r.extension_deltas[1].size_delta, 20);
    assert_eq!(r.extension_deltas[1].count_delta, 2);
}

#[test]
fn test_velocity_disappeared_extension() {
    let start = snapshot(10, 500, 5, vec![("iso", 400, 1), ("txt", 30, 3)]);
    let end = snapshot(20, 100, 4, vec![("txt", 40, 4)]);
    let r = compute_velocity("agent_1".to_string(), Some(&start), Some(&end));
    assert_eq!(r.extension_deltas.len(), 2);
    // the vanished iso volume dominates the ordering
    assert_eq!(r.extension_deltas[0].extension, "iso".to_string());
    assert_eq!(r.extension_deltas[0].size_delta, -400);
    assert_eq!(r.extension_deltas[0].count_delta, -1);
    assert_eq!(r.extension_deltas[1].extension, "txt".to_string());
    assert_eq!(r.extension_deltas[1].size_delta, 10);
    assert_eq!(r.extension_deltas[1].count_delta, 1);
}

#[test]
fn test_velocity_missing_data_fallback() {
    let end = snapshot(200, 1500, 12, vec![("log", 1, 1)]);
    let r = compute_velocity("agent_1".to_string(), None, Some(&end));
    assert_eq!(r.agent_id, "agent_1".to_string());
    assert_eq!(r.t_start, 0);
    assert_eq!(r.t_end, 0);
    assert_eq!(r.duration_seconds, 0);
    assert_eq!(r.growth_bytes, 0);
    assert_eq!(r.growth_files, 0);
    assert_eq!(bytes_per_second(r.growth_bytes, r.duration_seconds), 0.0);
    assert!(r.extension_deltas.is_empty());

    let start = snapshot(100, 1000, 10, vec![]);
    let r2 = compute_velocity("agent_1".to_string(), Some(&start), None);
    assert_eq!(r2.duration_seconds, 0);
    assert!(r2.extension_deltas.is_empty());

    let r3 = compute_velocity("agent_1".to_string(), None, None);
    assert_eq!(r3.growth_bytes, 0);
}

#[test]
fn test_velocity_shrinkage_is_negative() {
    let start = snapshot(0, 900, 9, vec![]);
    let end = snapshot(300, 300, 3, vec![]);
    let r = compute_velocity("agent_1".to_string(), Some(&start), Some(&end));
    assert_eq!(r.growth_bytes, -600);
    assert_eq!(r.growth_files, -6);
    assert_eq!(bytes_per_second(r.growth_bytes, r.duration_seconds), -2.0);
}

#[test]
fn test_velocity_duplicate_start_extension_last_wins() {
    // the start lookup keeps the later occurrence of a repeated key
    let start = snapshot(0, 30, 3, vec![("a", 10, 1), ("a", 20, 2)]);
    let end = snapshot(10, 5, 1, vec![("a", 5, 1)]);
    let r = compute_velocity("agent_1".to_string(), Some(&start), Some(&end));
    assert_eq!(r.extension_deltas.len(), 1);
    assert_eq!(r.extension_deltas[0].size_delta, -15);
    assert_eq!(r.extension_deltas[0].count_delta, -1);
}

#[test]
fn test_velocity_equal_impact_order_is_stable() {
    // equal absolute impacts keep their reconciliation order
    let start = snapshot(0, 0, 0, vec![]);
    let end = snapshot(10, 60, 3, vec![("x", 30, 1), ("y", 30, 2)]);
    let r = compute_velocity("agent_1".to_string(), Some(&start), Some(&end));
    assert_eq!(r.extension_deltas.len(), 2);
    assert_eq!(r.extension_deltas[0].extension, "x".to_string());
    assert_eq!(r.extension_deltas[1].extension, "y".to_string());
}

#[test]
fn test_snapshot_from_stats() {
    let entries = vec![
        WalkEntry { path: "r".to_string(), size_bytes: 0, is_file: false, is_dir: true },
        WalkEntry { path: "r/a.log".to_string(), size_bytes: 100, is_file: true, is_dir: false },
        WalkEntry { path: "r/b.txt".to_string(), size_bytes: 40, is_file: true, is_dir: false },
    ];
    let scanner = Scanner::new("r".to_string(), 5);
    let stats = scanner.aggregate(&entries, 0);
    let snap = AgentSnapshot::from_stats("agent_9".to_string(), 777, "host".to_string(), &stats);
    assert_eq!(snap.agent_id, "agent_9".to_string());
    assert_eq!(snap.timestamp, 777);
    assert_eq!(snap.hostname, "host".to_string());
    assert_eq!(snap.total_size_bytes, 140);
    assert_eq!(snap.file_count, 2);
    assert_eq!(snap.top_extensions.len(), 2);
    assert_eq!(snap.top_extensions[0], ("log".to_string(), 100, 1));
    assert_eq!(snap.top_extensions[1], ("txt".to_string(), 40, 1));
}
