use vstd::prelude::*;

use crate::text::{
    contains_seq, contains_str, ends_with_seq, ends_with_str, file_name_start, lower_of, lowercase,
    spec_file_name, str_eq_str,
};

verus! {

/// How sensitive a file looks, judged from its name alone.
#[derive(Debug, Clone, Copy, PartialEq, Eq)]
pub enum RiskLevel {
    Safe,
    Low,
    Medium,
    High,
    Critical,
}

impl RiskLevel {
    /// The label of each level.
    pub open spec fn spec_label(self) -> Seq<char> {
        match self {
            RiskLevel::Safe => "None"@,
            RiskLevel::Low => "Low"@,
            RiskLevel::Medium => "Medium"@,
            RiskLevel::High => "High"@,
            RiskLevel::Critical => "Critical"@,
        }
    }

    /// Human-readable label for the level.
    pub fn as_str(&self) -> (r: &'static str)
        ensures
            r@ == self.spec_label(),
    {
        match self {
            RiskLevel::Safe => "None",
            RiskLevel::Low => "Low",
            RiskLevel::Medium => "Medium",
            RiskLevel::High => "High",
            RiskLevel::Critical => "Critical",
        }
    }
}

/// The lower-cased run matches at least one sensitive name pattern:
/// a tell-tale substring, or a tell-tale suffix.
pub open spec fn spec_sensitive(s: Seq<char>) -> bool {
    ||| contains_seq(s, "password"@)
    ||| contains_seq(s, "secret"@)
    ||| contains_seq(s, "key"@)
    ||| contains_seq(s, "token"@)
    ||| ends_with_seq(s, ".pem"@)
    ||| ends_with_seq(s, ".kdbx"@)
    ||| contains_seq(s, "backup"@)
    ||| contains_seq(s, "dump"@)
    ||| ends_with_seq(s, ".p12"@)
    ||| ends_with_seq(s, ".pfx"@)
    ||| contains_seq(s, "credentials"@)
    ||| ends_with_seq(s, ".env"@)
    ||| contains_seq(s, "config"@)
    ||| contains_seq(s, ".ssh"@)
    ||| contains_seq(s, "wallet"@)
}

/// Risk classification over the lower-cased file name and full path:
/// names that match no sensitive pattern carry no risk; private keys,
/// certificates, password and wallet material are critical; credential
/// stores are high; backups, dumps, configuration and key-like names
/// are medium; everything else that matched a pattern is low.
pub open spec fn spec_risk(name: Seq<char>, path: Seq<char>) -> RiskLevel {
    if !spec_sensitive(name) && !spec_sensitive(path) {
        RiskLevel::Safe
    } else if ends_with_seq(name, ".pem"@) || ends_with_seq(name, ".p12"@) || ends_with_seq(
        name,
        ".pfx"@,
    ) || contains_seq(name, "password"@) || contains_seq(name, "secret"@) || contains_seq(
        path,
        ".ssh"@,
    ) || contains_seq(name, "wallet"@) {
        RiskLevel::Critical
    } else if contains_seq(name, "credential"@) || contains_seq(name, "token"@) || ends_with_seq(
        name,
        ".kdbx"@,
    ) || name == ".env"@ {
        RiskLevel::High
    } else if contains_seq(name, "backup"@) || contains_seq(name, "dump"@) || contains_seq(
        name,
        "config"@,
    ) || contains_seq(name, "key"@) {
        RiskLevel::Medium
    } else {
        RiskLevel::Low
    }
}

/// Classify a file from its already lower-cased name and path.
pub fn risk_of_folded(name: &str, path: &str) -> (r: RiskLevel)
    ensures
        r == spec_risk(name@, path@),
{
    let name_sensitive = contains_str(name, "password") || contains_str(name, "secret")
        || contains_str(name, "key") || contains_str(name, "token") || ends_with_str(name, ".pem")
        || ends_with_str(name, ".kdbx") || contains_str(name, "backup") || contains_str(
        name,
        "dump",
    ) || ends_with_str(name, ".p12") || ends_with_str(name, ".pfx") || contains_str(
        name,
        "credentials",
    ) || ends_with_str(name, ".env") || contains_str(name, "config") || contains_str(name, ".ssh")
        || contains_str(name, "wallet");
    let path_sensitive = contains_str(path, "password") || contains_str(path, "secret")
        || contains_str(path, "key") || contains_str(path, "token") || ends_with_str(path, ".pem")
        || ends_with_str(path, ".kdbx") || contains_str(path, "backup") || contains_str(
        path,
        "dump",
    ) || ends_with_str(path, ".p12") || ends_with_str(path, ".pfx") || contains_str(
        path,
        "credentials",
    ) || ends_with_str(path, ".env") || contains_str(path, "config") || contains_str(path, ".ssh")
        || contains_str(path, "wallet");
    if !name_sensitive && !path_sensitive {
        return RiskLevel::Safe;
    }
    if ends_with_str(name, ".pem") || ends_with_str(name, ".p12") || ends_with_str(name, ".pfx")
        || contains_str(name, "password") || contains_str(name, "secret") || contains_str(
        path,
        ".ssh",
    ) || contains_str(name, "wallet") {
        return RiskLevel::Critical;
    }
    if contains_str(name, "credential") || contains_str(name, "token") || ends_with_str(
        name,
        ".kdbx",
    ) || str_eq_str(name, ".env") {
        return RiskLevel::High;
    }
    if contains_str(name, "backup") || contains_str(name, "dump") || contains_str(name, "config")
        || contains_str(name, "key") {
        return RiskLevel::Medium;
    }
    RiskLevel::Low
}

/// Risk of a path: none when it has no file-name component, else the
/// classification of the lower-cased name and path.
pub open spec fn spec_filename_risk(p: Seq<char>) -> RiskLevel {
    if spec_file_name(p).len() == 0 {
        RiskLevel::Safe
    } else {
        spec_risk(lower_of(spec_file_name(p)), lower_of(p))
    }
}

/// Judge how sensitive a file looks from its path alone.  The path is
/// read with `/` separators; a path with an empty file-name component
/// carries no risk.
pub fn analyze_filename_risk(path: &str) -> (r: RiskLevel)
    ensures
        r == spec_filename_risk(path@),
{
    let n = path.unicode_len();
    let fs = file_name_start(path);
    if fs == n {
        return RiskLevel::Safe;
    }
    let name = path.substring_char(fs, n);
    let name_low = lowercase(name);
    let path_low = lowercase(path);
    proof {
        assert(name@ =~= spec_file_name(path@));
    }
    risk_of_folded(name_low.as_str(), path_low.as_str())
}

} // verus!
