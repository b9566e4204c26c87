use spectra::scanner::{Scanner, WalkEntry};

fn dir(path: &str) -> WalkEntry {
    WalkEntry { path: path.to_string(), size_bytes: 0, is_file: false, is_dir: true }
}

fn file(path: &str, size: u64) -> WalkEntry {
    WalkEntry { path: path.to_string(), size_bytes: size, is_file: true, is_dir: false }
}

fn sample_tree() -> Vec<WalkEntry> {
    vec![
        dir("root"),
        file("root/a.txt", 10),
        file("root/b.txt", 20),
        file("root/c.bin", 5),
    ]
}

#[test]
fn test_aggregate_counts_and_total_size() {
    let scanner = Scanner::new("root".to_string(), 10);
    let stats = scanner.aggregate(&sample_tree(), 7);
    assert_eq!(stats.root_path, "root".to_string());
    assert_eq!(stats.total_files, 3);
    assert_eq!(stats.total_folders, 1);
    // size additivity: 10 + 20 + 5
    assert_eq!(stats.total_size_bytes, 35);
    assert_eq!(stats.scan_duration_ms, 7);
}

#[test]
fn test_aggregate_extension_ledger_exact() {
    let scanner = Scanner::new("root".to_string(), 10);
    let stats = scanner.aggregate(&sample_tree(), 0);
    let txt = stats.extensions.get("txt").unwrap();
    assert_eq!(txt.count, 2);
    assert_eq!(txt.size, 30);
    let bin = stats.extensions.get("bin").unwrap();
    assert_eq!(bin.count, 1);
    assert_eq!(bin.size, 5);
    assert_eq!(stats.extensions.len(), 2);
}

#[test]
fn test_aggregate_top_k_exact() {
    let scanner = Scanner::new("root".to_string(), 2);
    let stats = scanner.aggregate(&sample_tree(), 0);
    assert_eq!(stats.top_files.len(), 2);
    assert_eq!(stats.top_files[0].size_bytes, 20);
    assert_eq!(stats.top_files[0].path, "root/b.txt".to_string());
    assert_eq!(stats.top_files[1].size_bytes, 10);
    assert_eq!(stats.top_files[1].path, "root/a.txt".to_string());
}

#[test]
fn test_aggregate_top_k_zero_and_large() {
    let scanner0 = Scanner::new("root".to_string(), 0);
    let stats0 = scanner0.aggregate(&sample_tree(), 0);
    assert_eq!(stats0.top_files.len(), 0);
    // totals do not depend on the top-file limit
    assert_eq!(stats0.total_size_bytes, 35);

    let scanner9 = Scanner::new("root".to_string(), 9);
    let stats9 = scanner9.aggregate(&sample_tree(), 0);
    assert_eq!(stats9.top_files.len(), 3);
    assert_eq!(stats9.top_files[0].size_bytes, 20);
    assert_eq!(stats9.top_files[1].size_bytes, 10);
    assert_eq!(stats9.top_files[2].size_bytes, 5);
}

#[test]
fn test_aggregate_skips_extensionless_and_hidden_kinds() {
    let entries = vec![
        dir("r"),
        file("r/README", 11),
        // a symlink-like entry: neither file nor directory
        WalkEntry { path: "r/link".to_string(), size_bytes: 0, is_file: false, is_dir: false },
        file("r/.env", 3),
    ];
    let scanner = Scanner::new("r".to_string(), 5);
    let stats = scanner.aggregate(&entries, 0);
    // both real files count toward the totals
    assert_eq!(stats.total_files, 2);
    assert_eq!(stats.total_size_bytes, 14);
    assert_eq!(stats.total_folders, 1);
    // neither has an extension, so the ledger stays empty
    assert_eq!(stats.extensions.len(), 0);
    assert!(stats.extensions.get("env").is_none());
}

#[test]
fn test_aggregate_rescan_identical_except_duration() {
    let scanner = Scanner::new("root".to_string(), 2);
    let first = scanner.aggregate(&sample_tree(), 111);
    let second = scanner.aggregate(&sample_tree(), 222);
    assert_eq!(first.root_path, second.root_path);
    assert_eq!(first.total_files, second.total_files);
    assert_eq!(first.total_folders, second.total_folders);
    assert_eq!(first.total_size_bytes, second.total_size_bytes);
    assert_eq!(first.extensions.len(), second.extensions.len());
    assert_eq!(
        first.extensions.get("txt").unwrap().size,
        second.extensions.get("txt").unwrap().size
    );
    assert_eq!(first.top_files.len(), second.top_files.len());
    for i in 0..first.top_files.len() {
        assert_eq!(first.top_files[i].path, second.top_files[i].path);
        assert_eq!(first.top_files[i].size_bytes, second.top_files[i].size_bytes);
    }
    assert_ne!(first.scan_duration_ms, second.scan_duration_ms);
}

#[test]
fn test_aggregate_empty_tree() {
    let entries = vec![dir("r")];
    let scanner = Scanner::new("r".to_string(), 10);
    let stats = scanner.aggregate(&entries, 0);
    assert_eq!(stats.total_files, 0);
    assert_eq!(stats.total_folders, 1);
    assert_eq!(stats.total_size_bytes, 0);
    assert_eq!(stats.extensions.len(), 0);
    assert_eq!(stats.top_files.len(), 0);
    assert_eq!(stats.top_extensions(5).len(), 0);
}

#[test]
fn test_aggregate_total_size_saturates() {
    let entries = vec![dir("r"), file("r/a.bin", u64::MAX - 1), file("r/b.bin", 5)];
    let scanner = Scanner::new("r".to_string(), 2);
    let stats = scanner.aggregate(&entries, 0);
    assert_eq!(stats.total_size_bytes, u64::MAX);
    assert_eq!(stats.total_files, 2);
}

#[test]
fn test_aggregate_extensions_are_case_folded() {
    let entries = vec![dir("r"), file("r/photo.JPG", 8), file("r/raw.jpg", 4)];
    let scanner = Scanner::new("r".to_string(), 5);
    let stats = scanner.aggregate(&entries, 0);
    let jpg = stats.extensions.get("jpg").unwrap();
    assert_eq!(jpg.count, 2);
    assert_eq!(jpg.size, 12);
}

#[test]
fn test_top_extensions_sorted_by_volume() {
    let entries = vec![
        dir("r"),
        file("r/a.log", 100),
        file("r/b.log", 50),
        file("r/c.txt", 120),
        file("r/d.bin", 10),
    ];
    let scanner = Scanner::new("r".to_string(), 5);
    let stats = scanner.aggregate(&entries, 0);
    let top = stats.top_extensions(2);
    assert_eq!(top.len(), 2);
    assert_eq!(top[0].0, "log".to_string());
    assert_eq!(top[0].1, 150);
    assert_eq!(top[0].2, 2);
    assert_eq!(top[1].0, "txt".to_string());
    assert_eq!(top[1].1, 120);
    assert_eq!(top[1].2, 1);
}
