//! The store's move from sharded JSON files to a redb database. While the
//! entries are being copied, writes go to both and reads to JSON, so every
//! write stays readable at every moment.

use vstd::prelude::*;

verus! {

/// Where the store is in its move.
#[derive(Debug, Clone, Copy, PartialEq, Eq, Structural)]
pub enum StoragePhase {
    /// Only the sharded JSON files hold the entries.
    ShardedJson,
    /// The entries are being copied into redb.
    Migrating,
    /// Only redb is used.
    Redb,
}

/// The JSON files receive writes before and during the move.
pub open spec fn json_receives_writes(phase: StoragePhase) -> bool {
    phase != StoragePhase::Redb
}

/// redb receives writes during and after the move.
pub open spec fn redb_receives_writes(phase: StoragePhase) -> bool {
    phase != StoragePhase::ShardedJson
}

/// Reads are answered by redb only once the move is done.
pub open spec fn reads_from_redb(phase: StoragePhase) -> bool {
    phase == StoragePhase::Redb
}

/// The phase after a write that left `json_len` entries in the JSON store:
/// the move starts when the JSON store has reached the threshold and no
/// move has started yet.
pub open spec fn phase_after_write(phase: StoragePhase, json_len: int, threshold: int) -> StoragePhase {
    if phase == StoragePhase::ShardedJson && json_len >= threshold {
        StoragePhase::Migrating
    } else {
        phase
    }
}

/// The phase once the copy into redb has finished.
pub open spec fn phase_after_copy(phase: StoragePhase) -> StoragePhase {
    if phase == StoragePhase::Migrating {
        StoragePhase::Redb
    } else {
        phase
    }
}

/// How far along the move a phase is.
pub open spec fn progress(phase: StoragePhase) -> int {
    match phase {
        StoragePhase::ShardedJson => 0,
        StoragePhase::Migrating => 1,
        StoragePhase::Redb => 2,
    }
}

impl StoragePhase {
    /// Whether a write goes to the JSON files.
    pub fn writes_json(&self) -> (r: bool)
        ensures
            r == json_receives_writes(*self),
    {
        match self {
            StoragePhase::Redb => false,
            _ => true,
        }
    }

    /// Whether a write goes to redb.
    pub fn writes_redb(&self) -> (r: bool)
        ensures
            r == redb_receives_writes(*self),
    {
        match self {
            StoragePhase::ShardedJson => false,
            _ => true,
        }
    }

    /// Whether a read is answered by redb (else by the JSON files).
    pub fn reads_redb(&self) -> (r: bool)
        ensures
            r == reads_from_redb(*self),
    {
        match self {
            StoragePhase::Redb => true,
            _ => false,
        }
    }

    /// Whether a write that left `json_len` entries in the JSON store starts
    /// the move.
    pub fn migration_due(&self, json_len: usize, threshold: usize) -> (r: bool)
        ensures
            r == (phase_after_write(*self, json_len as int, threshold as int) != *self),
    {
        match self {
            StoragePhase::ShardedJson => json_len >= threshold,
            _ => false,
        }
    }

    /// The phase after a write that left `json_len` entries in the JSON store.
    pub fn after_write(&self, json_len: usize, threshold: usize) -> (r: StoragePhase)
        ensures
            r == phase_after_write(*self, json_len as int, threshold as int),
    {
        if self.migration_due(json_len, threshold) {
            StoragePhase::Migrating
        } else {
            *self
        }
    }

    /// The phase once the copy into redb has finished.
    pub fn after_copy(&self) -> (r: StoragePhase)
        ensures
            r == phase_after_copy(*self),
    {
        match self {
            StoragePhase::Migrating => StoragePhase::Redb,
            _ => *self,
        }
    }
}

/// Reading one's writes: in every phase, the backend that answers reads
/// receives every write.
pub proof fn lemma_reads_see_writes(phase: StoragePhase)
    ensures
        reads_from_redb(phase) ==> redb_receives_writes(phase),
        !reads_from_redb(phase) ==> json_receives_writes(phase),
{
}

/// The move only goes forward: neither a write nor the end of a copy ever
/// takes the store back to an earlier phase, and redb answers reads only
/// after a copy has finished.
pub proof fn lemma_phases_only_advance(phase: StoragePhase, json_len: int, threshold: int)
    ensures
        progress(phase_after_write(phase, json_len, threshold)) >= progress(phase),
        progress(phase_after_copy(phase)) >= progress(phase),
        progress(phase_after_write(phase, json_len, threshold)) <= progress(phase) + 1,
        reads_from_redb(phase_after_write(phase, json_len, threshold)) ==> reads_from_redb(phase),
        reads_from_redb(phase_after_copy(phase)) ==> phase != StoragePhase::ShardedJson,
{
}

/// When the move starts: in the JSON phase, a write that leaves the JSON
/// store at or past the threshold starts it, however far past (as after a
/// restart over a full store); a write that leaves it below the threshold
/// does not; and once the move has started, writes never change the phase.
pub proof fn lemma_migration_trigger(phase: StoragePhase, json_len: int, threshold: int)
    ensures
        json_len >= threshold ==> phase_after_write(StoragePhase::ShardedJson, json_len, threshold) == StoragePhase::Migrating,
        json_len < threshold ==> phase_after_write(StoragePhase::ShardedJson, json_len, threshold) == StoragePhase::ShardedJson,
        phase != StoragePhase::ShardedJson ==> phase_after_write(phase, json_len, threshold) == phase,
        phase_after_copy(StoragePhase::Migrating) == StoragePhase::Redb,
        phase != StoragePhase::Migrating ==> phase_after_copy(phase) == phase,
{
}

} // verus!
