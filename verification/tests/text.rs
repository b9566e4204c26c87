use spectra::text::{contains_str, ends_with_str, extension_of, file_name_start, str_eq_str};

#[test]
fn test_contains_str() {
    assert!(contains_str("my_secret_key.pem", "secret"));
    assert!(contains_str("abc", ""));
    assert!(contains_str("abc", "abc"));
    assert!(!contains_str("abc", "abcd"));
    assert!(!contains_str("password", "PASS"));
}

#[test]
fn test_ends_with_str() {
    assert!(ends_with_str("private.pem", ".pem"));
    assert!(!ends_with_str("private.pemx", ".pem"));
    assert!(!ends_with_str("em", ".pem"));
}

#[test]
fn test_str_eq_str() {
    assert!(str_eq_str(".env", ".env"));
    assert!(!str_eq_str(".env", "env"));
    assert!(!str_eq_str("a", "b"));
}

#[test]
fn test_file_name_start() {
    assert_eq!(file_name_start("a/b/c.txt"), 4);
    assert_eq!(file_name_start("c.txt"), 0);
    assert_eq!(file_name_start("a/b/"), 4);
}

#[test]
fn test_extension_of() {
    assert_eq!(extension_of("dir/archive.tar.GZ"), Some("GZ"));
    assert_eq!(extension_of("notes.txt"), Some("txt"));
    assert_eq!(extension_of("README"), None);
    // a file name whose only dot leads it has no extension
    assert_eq!(extension_of(".env"), None);
    assert_eq!(extension_of("a.dir/README"), None);
    // a trailing dot leaves an empty extension, recorded as such
    assert_eq!(extension_of("note."), Some(""));
}
