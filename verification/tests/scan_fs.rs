use std::io::Write;

use spectra::scanner::Scanner;

#[test]
fn lib_test_scanner_aggregates_correctly() {
    let dir = tempfile::tempdir().unwrap();
    let mut file = tempfile::Builder::new()
        .prefix("test")
        .suffix(".txt")
        .tempfile_in(dir.path())
        .unwrap();
    file.write_all(b"Hello World\n").unwrap(); // ~12 bytes
    file.flush().unwrap();

    let scanner = Scanner::new(dir.path().display().to_string(), 5);
    let stats = scanner.scan().unwrap();

    assert_eq!(stats.total_files, 1);
    assert!(stats.total_size_bytes > 0);
    assert_eq!(stats.extensions.get("txt").unwrap().count, 1);
    assert_eq!(stats.top_files.len(), 1);
}

#[test]
fn scanner_test_scanner_aggregates_correctly() {
    let dir = tempfile::tempdir().unwrap();
    let mut file = tempfile::Builder::new()
        .prefix("test")
        .suffix(".txt")
        .tempfile_in(dir.path())
        .unwrap();
    file.write_all(b"Hello World\n").unwrap(); // ~12 bytes
    file.flush().unwrap();

    let scanner = Scanner::new(dir.path().display().to_string(), 5);
    let stats = scanner.scan().unwrap();

    assert_eq!(stats.total_files, 1);
    assert!(stats.total_size_bytes > 0);
    assert_eq!(stats.extensions.get("txt").unwrap().count, 1);
    assert_eq!(stats.top_files.len(), 1);
}

#[test]
fn test_scan_unreadable_root_fails() {
    let r = Scanner::new("/no/such/path/anywhere_at_all".to_string(), 5).scan();
    assert!(r.is_err());
}
