//! Errors of the snapshot manager.

use vstd::prelude::*;

verus! {

/// Why an operation was refused.
#[derive(Debug, PartialEq, Eq)]
pub enum BtmError {
    /// The volume name is empty.
    EmptyVolume,
    /// The volume name starts with `-` and could be read as a flag.
    VolumeLeadingDash,
    /// The volume name holds a character outside `[A-Za-z0-9/_.-]`.
    VolumeInvalidChar,
    /// `itv` is zero.
    ItvZero,
    /// `cap` is zero.
    CapZero,
    /// `itv` raised to `STEP_CNT` does not fit in a `u64`.
    ItvTooLarge,
    /// A snapshot of this index already exists.
    SnapshotExists(u64),
    /// There is no snapshot to roll back to.
    NoSnapshots,
    /// Strict rollback: no snapshot has the requested index.
    HeightNotFound,
    /// Every snapshot is newer than the requested index.
    AllSnapshotsNewer,
    /// A rollback index that is negative or does not fit in a `u64`.
    IndexOutOfRange,
    /// The operation is carried out by the external tool in `External` mode.
    ExternalMode,
    /// Neither zfs nor btrfs manages the volume.
    NoDriver,
    /// An unknown snapshot mode or algorithm name, with the message.
    UnknownName(String),
}

} // verus!
