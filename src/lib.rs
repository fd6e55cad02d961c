//! Profile-based swapping of managed files.
//!
//! Each managed file `P` has an original snapshot `P.org` and one snapshot
//! `P.<name>` per profile that holds it. The library keeps the registry of
//! profiles and plans the file operations that add, remove, activate and
//! deactivate profiles; the caller carries the plans out on disk.

pub mod command;
pub mod disk;
pub mod engine;
pub mod laws;
pub mod naming;
pub mod registry;
