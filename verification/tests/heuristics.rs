use spectra::heuristics::{analyze_filename_risk, risk_of_folded, RiskLevel};

#[test]
fn test_critical_risk_files() {
    assert_eq!(analyze_filename_risk("private.pem"), RiskLevel::Critical);
    assert_eq!(analyze_filename_risk("passwords.txt"), RiskLevel::Critical);
    assert_eq!(analyze_filename_risk(".ssh/id_rsa"), RiskLevel::Critical);
    assert_eq!(analyze_filename_risk("my_secret_key.pem"), RiskLevel::Critical);
}

#[test]
fn test_high_risk_files() {
    assert_eq!(analyze_filename_risk("credentials.json"), RiskLevel::High);
    assert_eq!(analyze_filename_risk(".env"), RiskLevel::High);
    assert_eq!(analyze_filename_risk("database.kdbx"), RiskLevel::High);
}

#[test]
fn test_medium_risk_files() {
    assert_eq!(analyze_filename_risk("backup.zip"), RiskLevel::Medium);
    assert_eq!(analyze_filename_risk("config.yaml"), RiskLevel::Medium);
}

#[test]
fn test_safe_files() {
    assert_eq!(analyze_filename_risk("document.pdf"), RiskLevel::Safe);
    assert_eq!(analyze_filename_risk("main.rs"), RiskLevel::Safe);
}

#[test]
fn test_risk_ignores_case() {
    assert_eq!(analyze_filename_risk("PASSWORDS.TXT"), RiskLevel::Critical);
    assert_eq!(analyze_filename_risk("Wallet.DAT"), RiskLevel::Critical);
    assert_eq!(analyze_filename_risk("My-Backup.tar"), RiskLevel::Medium);
}

#[test]
fn test_risk_uses_directory_part() {
    // the .ssh directory marks the file even when its name is harmless
    assert_eq!(analyze_filename_risk("home/user/.ssh/known_hosts"), RiskLevel::Critical);
    // a sensitive word in the directory alone gates the name in as low risk
    assert_eq!(analyze_filename_risk("backups/notes.md"), RiskLevel::Low);
}

#[test]
fn test_risk_of_folded_exact_tiers() {
    assert_eq!(risk_of_folded("token.txt", "token.txt"), RiskLevel::High);
    assert_eq!(risk_of_folded("dump.sql", "dump.sql"), RiskLevel::Medium);
    assert_eq!(risk_of_folded("turkey.jpg", "turkey.jpg"), RiskLevel::Medium);
    assert_eq!(risk_of_folded("plain.txt", "plain.txt"), RiskLevel::Safe);
}

#[test]
fn test_risk_level_labels() {
    assert_eq!(RiskLevel::Safe.as_str(), "None");
    assert_eq!(RiskLevel::Low.as_str(), "Low");
    assert_eq!(RiskLevel::Medium.as_str(), "Medium");
    assert_eq!(RiskLevel::High.as_str(), "High");
    assert_eq!(RiskLevel::Critical.as_str(), "Critical");
}

#[test]
fn test_path_without_file_name() {
    assert_eq!(analyze_filename_risk(""), RiskLevel::Safe);
    assert_eq!(analyze_filename_risk("secrets/"), RiskLevel::Safe);
}
