//! Incremental backups of Minecraft saves and their content-addressed sync.
//!
//! - `digest`: the content hash of a file, lower-case hex SHA-256.
//! - `manifest`: the path-to-hash mapping that records what was captured or
//!   synced last.
//! - `tree`: snapshots of a scanned tree and its scan-forward diff against a
//!   manifest.
//! - `version`: capturing a tree into a full or incremental version.
//! - `naming`, `restore`: archive names, the versions a recovery replays, and
//!   what replaying them reconstructs.
//! - `sync`: planning a pull or a push against a remote content-addressed
//!   store.
//! - `lock`: the lock that keeps two runs from interleaving.
//! - `save`, `command`, `config`: saves and instances, the commands of the
//!   backup worker, and schedule settings.

pub mod command;
pub mod config;
pub mod digest;
pub mod lock;
pub mod manifest;
pub mod naming;
pub mod restore;
pub mod save;
pub mod sync;
pub mod tree;
pub mod version;
