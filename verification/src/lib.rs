//! Managed-block reconciliation for subagent registries.
//!
//! The library keeps one marker-delimited region in each destination
//! configuration file up to date while leaving every byte outside that
//! region to the file's owner.  It resolves each definition to the
//! configuration file its scope names, discovers files that still carry
//! a managed region but no longer have definitions, plans every write a
//! run must make, and merges the aggregate block idempotently.
//!
//! The caller performs the reads and writes; every decision about file
//! contents is made, and proved, here.

pub mod escape;
pub mod merge;
pub mod registry;
pub mod scan;
pub mod text;

pub use escape::{escape_multiline_toml, toml_escape};
pub use merge::{has_subagent_managed_block, upsert_block};
pub use registry::{
    render_block_body, render_subagent_config, CodexSubagentConfigEntry,
    CodexSubagentRegistryError, CodexSubagentRegistryWriter, DestinationPlan, DetailFile,
    ScanSnapshot, SubagentScope,
};
pub use scan::DirNode;
