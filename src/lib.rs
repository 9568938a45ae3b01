//! Marking filesystem snapshots for deletion and estimating, through the
//! storage tool's dry-run output, how much space freeing them would reclaim.
pub mod text;
pub mod zfs;
pub mod app;
