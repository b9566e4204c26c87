//! Storage-topology profiling: a streaming scan-and-aggregate engine
//! (exact totals, per-extension rollups, a bounded top-K largest-files
//! list) and a temporal velocity engine that reconciles two agent
//! snapshots into a growth report.

pub mod governance;
pub mod heuristics;
pub mod ledger;
pub mod models;
pub mod scanner;
pub mod stats;
pub mod text;
pub mod topk;
pub mod velocity;

pub use heuristics::analyze_filename_risk;
pub use heuristics::RiskLevel;
pub use ledger::ExtensionLedger;
pub use models::ExtensionStat;
pub use models::FileRecord;
pub use scanner::ScanError;
pub use scanner::Scanner;
pub use scanner::WalkEntry;
pub use stats::ScanStats;
pub use velocity::compute_velocity;
pub use velocity::AgentSnapshot;
pub use velocity::ExtensionDelta;
pub use velocity::VelocityReport;
