//! Reusable Git hooks: hook points, the hook store, shim installation,
//! glob gating and configuration checks.
pub mod hook_types;
pub mod sqllite;
pub mod text;
pub mod changes;
pub mod config_check;
pub mod git_hook;
