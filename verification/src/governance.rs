use vstd::prelude::*;
use vstd::string::StringExecFns;

use crate::text::{extension_of, lower_of, lowercase, spec_extension_of, str_eq_str};

verus! {

/// What a matched policy calls for.
#[derive(Debug, Clone)]
pub enum Action {
    Report,
    Delete,
    Archive { target_path: String },
}

/// The conditions a file must meet for a policy to apply.  Absent
/// conditions hold of every file.
#[derive(Debug, Clone)]
pub struct Rule {
    pub extension: Option<String>,
    pub min_size_bytes: Option<u64>,
    pub min_age_days: Option<u64>,
}

/// A named governance rule together with its action.
#[derive(Debug)]
pub struct Policy {
    pub name: String,
    pub rule: Rule,
    pub action: Action,
}

/// When a rule matches a file, given its path, its size, and its age
/// in seconds where the filesystem could tell it: a required extension
/// must be present and equal after lower-casing, the size must reach
/// the floor, and a file younger than the age floor is spared — an
/// unknown age passes, as does a missing condition.
pub open spec fn spec_rule_matches(
    rule: Rule,
    path: Seq<char>,
    size_bytes: u64,
    age_seconds: Option<u64>,
) -> bool {
    &&& match rule.extension {
        Some(t) => match spec_extension_of(path) {
            Some(e) => lower_of(e) == t@,
            None => false,
        },
        None => true,
    }
    &&& match rule.min_size_bytes {
        Some(m) => size_bytes >= m,
        None => true,
    }
    &&& match rule.min_age_days {
        Some(days) => match age_seconds {
            Some(age) => age >= days * 86400,
            None => true,
        },
        None => true,
    }
}

impl Policy {
    /// Decide whether this policy applies to a file, from its path,
    /// its size in bytes, and its age in seconds if known.
    pub fn evaluate(&self, path: &str, size_bytes: u64, age_seconds: Option<u64>) -> (r: bool)
        ensures
            r == spec_rule_matches(self.rule, path@, size_bytes, age_seconds),
    {
        match &self.rule.extension {
            Some(target) => {
                match extension_of(path) {
                    Some(e) => {
                        let el = lowercase(e);
                        if !str_eq_str(el.as_str(), target.as_str()) {
                            return false;
                        }
                    },
                    None => {
                        return false;
                    },
                }
            },
            None => {},
        }
        match self.rule.min_size_bytes {
            Some(m) => {
                if size_bytes < m {
                    return false;
                }
            },
            None => {},
        }
        match self.rule.min_age_days {
            Some(days) => {
                match age_seconds {
                    Some(age) => {
                        if (age as u128) < (days as u128) * 86400 {
                            return false;
                        }
                    },
                    None => {},
                }
            },
            None => {},
        }
        true
    }

    /// The policy shape that a fetched server policy entry reduces to:
    /// clean up old log files, reported rather than acted on.
    pub fn from_server_policy(name: String) -> (p: Policy)
        ensures
            p.name == name,
            p.rule.extension matches Some(e) && e@ == "log"@,
            p.rule.min_size_bytes is None,
            p.rule.min_age_days == Some(90u64),
            p.action is Report,
    {
        Policy {
            name,
            rule: Rule {
                extension: Some(String::from_str("log")),
                min_size_bytes: None,
                min_age_days: Some(90),
            },
            action: Action::Report,
        }
    }
}

} // verus!
