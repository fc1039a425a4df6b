//! The commands that a front end sends to the worker that runs backups.

use vstd::prelude::*;

use crate::save::MinecraftSave;

verus! {

/// A request to the backup worker; the worker handles them in the order sent.
#[derive(Debug)]
pub enum Signal {
    /// Scan every instance root again for instances and saves.
    Rescan,
    /// Back up every save, then sync if anything changed.
    RunBackup,
    /// Add an instance root.
    AddInstance { name: String, path: String, multimc: bool, version_isolated: bool },
    /// Recover `save` as it was at `timestamp`.
    Recover { save: MinecraftSave, timestamp: u64 },
    /// Persist the configuration.
    SaveConfig,
    /// Stop once the operation in flight has finished.
    Exit,
}

} // verus!
