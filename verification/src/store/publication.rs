//! Publication of a new state directory, in phases that a crash can be
//! recovered from.
use vstd::prelude::*;
use crate::store::layout::{join_path, joined};
use crate::store::merge::{file_name_of, parent_of, path_file_name, path_parent};
use crate::text::str_equal;

verus! {

/// How far a publication got before it stopped.
#[derive(Clone, Copy, Debug, PartialEq, Eq, Structural)]
pub enum PublicationPhase {
    Prepared,
    BackupCreated,
    Published,
}

/// The refusal of a directory that does not sit inside the cache.
pub const OUTSIDE_REPOSITORY_CACHE: &'static str = "publication marker transaction is outside the repository cache";

/// The refusal of an entry that is not a directory.
pub const TRANSACTION_NOT_A_DIRECTORY: &'static str = "publication marker transaction is not a directory";

/// The refusal of a path with no parent.
pub const NO_PARENT: &'static str = "publication marker transaction has no parent";

/// What recovery is about to do with the directory it is checking.
#[derive(Clone, Copy, Debug, PartialEq, Eq, Structural)]
pub enum RecoveryUse {
    /// Recovery will read, rename or delete the directory, so it has to be
    /// on disk and land where its name says it does.
    Touched,
    /// The directory is already gone and recovery only clears the marker.
    AlreadyGone,
}

/// What the file system reported about a candidate directory: its parent
/// resolved (`canonicalize`), the candidate itself resolved, and whether
/// the entry found there is a directory (`symlink_metadata`, not followed).
/// An `Err` holds the message of the failure.
#[derive(Debug, PartialEq, Eq)]
pub struct RecoveryProbes {
    pub canonical_parent: Result<String, String>,
    pub resolved: Result<String, String>,
    pub is_dir: Result<bool, String>,
}

pub struct RecoveryProbesView {
    pub canonical_parent: Result<Seq<char>, Seq<char>>,
    pub resolved: Result<Seq<char>, Seq<char>>,
    pub is_dir: Result<bool, Seq<char>>,
}

pub open spec fn text_result(r: Result<String, String>) -> Result<Seq<char>, Seq<char>> {
    match r {
        Ok(s) => Ok(s@),
        Err(e) => Err(e@),
    }
}

impl View for RecoveryProbes {
    type V = RecoveryProbesView;

    open spec fn view(&self) -> RecoveryProbesView {
        RecoveryProbesView {
            canonical_parent: text_result(self.canonical_parent),
            resolved: text_result(self.resolved),
            is_dir: match self.is_dir {
                Ok(b) => Ok(b),
                Err(e) => Err(e@),
            },
        }
    }
}

/// The directory recovery may use for `candidate`, or why it may not: the
/// candidate's parent must resolve to the container itself, and the
/// directory is the container joined with the candidate's own name. A
/// directory recovery will touch must also resolve to exactly that path and
/// be a directory. Resolved paths are canonical, so they are compared as
/// text.
pub open spec fn recovery_decision(
    container: Seq<char>,
    candidate: Seq<char>,
    recovery_use: RecoveryUse,
    probes: RecoveryProbesView,
) -> Result<Seq<char>, Seq<char>> {
    match parent_of(candidate) {
        None => Err(NO_PARENT@),
        Some(_) => match probes.canonical_parent {
            Err(e) => Err(e),
            Ok(parent) => if parent != container {
                Err(OUTSIDE_REPOSITORY_CACHE@)
            } else {
                match file_name_of(candidate) {
                    None => Err(OUTSIDE_REPOSITORY_CACHE@),
                    Some(name) => {
                        let contained = joined(container, name);
                        if recovery_use == RecoveryUse::AlreadyGone {
                            Ok(contained)
                        } else {
                            match probes.resolved {
                                Err(e) => Err(e),
                                Ok(resolved) => if resolved != contained {
                                    Err(OUTSIDE_REPOSITORY_CACHE@)
                                } else {
                                    match probes.is_dir {
                                        Err(e) => Err(e),
                                        Ok(is_dir) => if !is_dir {
                                            Err(TRANSACTION_NOT_A_DIRECTORY@)
                                        } else {
                                            Ok(contained)
                                        },
                                    }
                                },
                            }
                        }
                    },
                }
            },
        },
    }
}

/// Publication recovery may only use a directory that really sits inside
/// the repository's cache: its parent resolves to the (canonical) container
/// and, when recovery will touch it, it resolves to the container joined
/// with its own name and is a directory. The caller acts on the returned
/// path, not on the name it passed in.
pub fn recovery_dir_inside_cache(
    canonical_container: &str,
    candidate: &str,
    recovery_use: RecoveryUse,
    probes: &RecoveryProbes,
) -> (r: Result<String, String>)
    ensures
        text_result(r) == recovery_decision(canonical_container@, candidate@, recovery_use, probes@),
{
    if path_parent(candidate).is_none() {
        return Err(NO_PARENT.to_owned());
    }
    let parent = match &probes.canonical_parent {
        Err(e) => {
            return Err(e.clone());
        },
        Ok(p) => p,
    };
    if !str_equal(parent.as_str(), canonical_container) {
        return Err(OUTSIDE_REPOSITORY_CACHE.to_owned());
    }
    let name = match path_file_name(candidate) {
        None => {
            return Err(OUTSIDE_REPOSITORY_CACHE.to_owned());
        },
        Some(n) => n,
    };
    let contained = join_path(canonical_container, name.as_str());
    if recovery_use == RecoveryUse::Touched {
        let resolved = match &probes.resolved {
            Err(e) => {
                return Err(e.clone());
            },
            Ok(p) => p,
        };
        if !str_equal(resolved.as_str(), contained.as_str()) {
            return Err(OUTSIDE_REPOSITORY_CACHE.to_owned());
        }
        match &probes.is_dir {
            Err(e) => {
                return Err(e.clone());
            },
            Ok(is_dir) => {
                if !*is_dir {
                    return Err(TRANSACTION_NOT_A_DIRECTORY.to_owned());
                }
            },
        }
    }
    Ok(contained)
}

/// Whatever the file system reports, a directory recovery is allowed to use
/// is a direct child, by the candidate's own name, of the container; and one
/// it will touch is where its name says and is a directory.
pub proof fn law_recovery_stays_in_container(
    container: Seq<char>,
    candidate: Seq<char>,
    recovery_use: RecoveryUse,
    probes: RecoveryProbesView,
)
    ensures
        recovery_decision(container, candidate, recovery_use, probes) matches Ok(dir) ==> {
            &&& file_name_of(candidate) matches Some(name) && dir == joined(container, name)
            &&& probes.canonical_parent == Ok::<Seq<char>, Seq<char>>(container)
            &&& recovery_use == RecoveryUse::Touched ==> probes.resolved == Ok::<Seq<char>, Seq<char>>(dir)
                && probes.is_dir == Ok::<bool, Seq<char>>(true)
        },
{
}

/// The refusal of a marker written by another version.
pub const UNSUPPORTED_MARKER_VERSION: &'static str = "unsupported publication marker version";

/// The refusal of a recovery that has nothing to put back.
pub const NEITHER_STATE_NOR_BACKUP: &'static str = "publication recovery found neither live state nor backup state";

/// The name, inside a transaction directory, of the copy of the state that
/// was live before the publication.
pub const BACKUP_STATE: &'static str = "backup-state";

/// What a publication marker records.
#[derive(Debug, PartialEq, Eq)]
pub struct PublicationMarker {
    pub schema_version: u32,
    pub transaction_dir: String,
    pub phase: PublicationPhase,
}

/// What recovery does once the marker's directory has been checked.
#[derive(Debug, PartialEq, Eq)]
pub enum RecoveryStep {
    /// The publication finished and its transaction is already gone: only
    /// the marker is cleared.
    ClearMarker,
    /// Put the backup (when one is named) back in place of the missing
    /// state, then remove the transaction directory and clear the marker.
    Recover { transaction_dir: String, restore_backup: Option<String> },
}

/// How recovery will use the marker's directory: a finished publication
/// whose transaction is gone only has its marker cleared; in every other
/// case recovery touches the directory.
pub open spec fn recovery_use_of(phase: PublicationPhase, transaction_exists: bool) -> RecoveryUse {
    if phase == PublicationPhase::Published && !transaction_exists {
        RecoveryUse::AlreadyGone
    } else {
        RecoveryUse::Touched
    }
}

/// Reads a marker: only version 1 is understood; then says how recovery
/// will use the directory it names.
pub fn recovery_use_for(marker: &PublicationMarker, transaction_exists: bool) -> (r: Result<
    RecoveryUse,
    String,
>)
    ensures
        marker.schema_version != 1 ==> (r matches Err(e) && e@ == UNSUPPORTED_MARKER_VERSION@),
        marker.schema_version == 1 ==> r == Ok::<RecoveryUse, String>(
            recovery_use_of(marker.phase, transaction_exists),
        ),
{
    if marker.schema_version != 1 {
        return Err(UNSUPPORTED_MARKER_VERSION.to_owned());
    }
    if marker.phase == PublicationPhase::Published && !transaction_exists {
        Ok(RecoveryUse::AlreadyGone)
    } else {
        Ok(RecoveryUse::Touched)
    }
}

/// Where a transaction keeps the state it replaced.
pub fn backup_state_dir(transaction_dir: &str) -> (r: String)
    ensures
        r@ == joined(transaction_dir@, BACKUP_STATE@),
{
    join_path(transaction_dir, BACKUP_STATE)
}

/// The step recovery takes, as a value of plain parts.
pub enum RecoveryPlan {
    ClearMarker,
    Recover { transaction_dir: Seq<char>, restore_backup: Option<Seq<char>> },
}

pub open spec fn step_view(step: RecoveryStep) -> RecoveryPlan {
    match step {
        RecoveryStep::ClearMarker => RecoveryPlan::ClearMarker,
        RecoveryStep::Recover { transaction_dir, restore_backup } => RecoveryPlan::Recover {
            transaction_dir: transaction_dir@,
            restore_backup: match restore_backup {
                Some(b) => Some(b@),
                None => None,
            },
        },
    }
}

/// What recovery does with a checked directory: a directory already gone
/// needs only the marker cleared. Otherwise the transaction is removed;
/// before that, when the live state is missing, its backup takes its place,
/// and with no backup either recovery refuses.
pub open spec fn recovery_plan(
    recovery_use: RecoveryUse,
    transaction_dir: Seq<char>,
    state_exists: bool,
    backup_exists: bool,
) -> Result<RecoveryPlan, Seq<char>> {
    if recovery_use == RecoveryUse::AlreadyGone {
        Ok(RecoveryPlan::ClearMarker)
    } else if state_exists {
        Ok(RecoveryPlan::Recover { transaction_dir, restore_backup: None })
    } else if backup_exists {
        Ok(
            RecoveryPlan::Recover {
                transaction_dir,
                restore_backup: Some(joined(transaction_dir, BACKUP_STATE@)),
            },
        )
    } else {
        Err(NEITHER_STATE_NOR_BACKUP@)
    }
}

/// Decides the recovery of a pending publication whose directory
/// `transaction_dir` has passed [`recovery_dir_inside_cache`] for
/// `recovery_use`; `state_exists` and `backup_exists` say whether the live
/// state directory and [`backup_state_dir`] of the transaction are on disk.
pub fn plan_recovery(
    recovery_use: RecoveryUse,
    transaction_dir: String,
    state_exists: bool,
    backup_exists: bool,
) -> (r: Result<RecoveryStep, String>)
    ensures
        match r {
            Ok(step) => recovery_plan(recovery_use, transaction_dir@, state_exists, backup_exists)
                == Ok::<RecoveryPlan, Seq<char>>(step_view(step)),
            Err(e) => recovery_plan(recovery_use, transaction_dir@, state_exists, backup_exists)
                == Err::<RecoveryPlan, Seq<char>>(e@),
        },
{
    if recovery_use == RecoveryUse::AlreadyGone {
        Ok(RecoveryStep::ClearMarker)
    } else if state_exists {
        Ok(RecoveryStep::Recover { transaction_dir, restore_backup: None })
    } else if backup_exists {
        let backup = backup_state_dir(transaction_dir.as_str());
        Ok(RecoveryStep::Recover { transaction_dir, restore_backup: Some(backup) })
    } else {
        Err(NEITHER_STATE_NOR_BACKUP.to_owned())
    }
}

/// Recovery never leaves the repository without a state directory: when it
/// touches a transaction, either the live state is there and stays, or the
/// backup it puts back is on disk and is the one inside that transaction.
pub proof fn law_recovery_keeps_a_state(
    recovery_use: RecoveryUse,
    transaction_dir: Seq<char>,
    state_exists: bool,
    backup_exists: bool,
)
    ensures
        recovery_plan(recovery_use, transaction_dir, state_exists, backup_exists) matches Ok(
            RecoveryPlan::Recover { restore_backup, .. },
        ) ==> match restore_backup {
            None => state_exists,
            Some(b) => !state_exists && backup_exists && b == joined(transaction_dir, BACKUP_STATE@),
        },
        recovery_plan(recovery_use, transaction_dir, state_exists, backup_exists) is Err
            <==> recovery_use == RecoveryUse::Touched && !state_exists && !backup_exists,
{
}

} // verus!
