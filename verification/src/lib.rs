//! Verified core of a desktop archive tool: format detection by name,
//! path normalisation and zip-slip sanitising, selection filters, split-volume
//! discovery, RAR volume naming, progress bookkeeping, update planning and
//! the autostart/tray decisions.

pub mod text;
pub mod names;
pub mod split;
pub mod rar;
pub mod archive;
pub mod plan;
pub mod ops;
pub mod tray;
