//! A package manager for game mod collections.
//!
//! A declarative manifest names the desired mods; a resolver pins concrete
//! versions and their transitive dependencies against a catalog and records
//! them in a lockfile; a sync engine reconciles a directory of artifact files
//! against that lockfile; a merge engine folds packaged configuration trees
//! into existing ones.

pub mod catalog;
pub mod errors;
pub mod file_meta;
pub mod hashing;
pub mod merge;
pub mod mod_meta;
pub mod modpack;
pub mod profiles;
pub mod providers;
pub mod raw;
pub mod resolver;
pub mod strmap;
pub mod sync;
pub mod text;
