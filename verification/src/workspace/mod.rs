//! Workspaces: a mutable tree of files over immutable objects.
//!
//! A workspace is kept as rows: inodes, the names that link them, and the
//! record run of each file. What a mutation does to them is decided here, on
//! plain values; the store that keeps the rows performs the decided changes in
//! one transaction, so that a refused batch leaves no trace.

pub mod cloned;
pub mod collect;
pub mod laws;
pub mod meaning;
pub mod resealed;
pub mod refusals;
pub mod rooted;
pub mod seal;
pub mod settling;
pub mod stage;
pub mod tree;

use crate::object::ObjectDigest;
use crate::planner::PlannerId;
use crate::tfm1::{record_models, FileRecord, RecordModel, SnapshotId, Tfm1Error};
use vstd::prelude::*;

verus! {

/// What a lease pins: an inode that is unlinked but still open, or the objects
/// that a transfer is reading.
#[derive(Clone, Copy, Debug, PartialEq, Eq, Structural)]
pub enum LeaseKind {
    Unlinked,
    PendingSync,
}

impl LeaseKind {
    /// The number under which a lease of this kind is stored.
    pub open spec fn row(self) -> i64 {
        match self {
            LeaseKind::Unlinked => 2,
            LeaseKind::PendingSync => 4,
        }
    }

    pub fn to_row(self) -> (row: i64)
        ensures
            row == self.row(),
    {
        match self {
            LeaseKind::Unlinked => 2,
            LeaseKind::PendingSync => 4,
        }
    }
}

/// One lease.
#[derive(Clone, Copy, Debug, PartialEq, Eq, Structural)]
pub struct LeaseId(pub i64);

/// One change to a workspace's tree.
#[derive(Clone, Debug, PartialEq, Eq)]
pub enum Mutation {
    Mkdir { path: String },
    CreateFile { path: String, executable: bool, planner: PlannerId, records: Vec<FileRecord> },
    SetRecords { path: String, records: Vec<FileRecord> },
    Truncate { path: String, length: u64 },
    Rename { from: String, to: String },
    Unlink { path: String },
    Rmdir { path: String },
    Symlink { path: String, target: String },
    Hardlink { path: String, target: String },
    SetExecutable { path: String, executable: bool },
}

/// The value of a [`Mutation`].
pub enum MutationModel {
    Mkdir { path: Seq<char> },
    CreateFile { path: Seq<char>, executable: bool, planner: PlannerId, records: Seq<RecordModel> },
    SetRecords { path: Seq<char>, records: Seq<RecordModel> },
    Truncate { path: Seq<char>, length: u64 },
    Rename { from: Seq<char>, to: Seq<char> },
    Unlink { path: Seq<char> },
    Rmdir { path: Seq<char> },
    Symlink { path: Seq<char>, target: Seq<char> },
    Hardlink { path: Seq<char>, target: Seq<char> },
    SetExecutable { path: Seq<char>, executable: bool },
}

impl View for Mutation {
    type V = MutationModel;

    open spec fn view(&self) -> MutationModel {
        match self {
            Mutation::Mkdir { path } => MutationModel::Mkdir { path: path@ },
            Mutation::CreateFile { path, executable, planner, records } => MutationModel::CreateFile {
                path: path@,
                executable: *executable,
                planner: *planner,
                records: record_models(records@),
            },
            Mutation::SetRecords { path, records } => MutationModel::SetRecords {
                path: path@,
                records: record_models(records@),
            },
            Mutation::Truncate { path, length } => MutationModel::Truncate {
                path: path@,
                length: *length,
            },
            Mutation::Rename { from, to } => MutationModel::Rename { from: from@, to: to@ },
            Mutation::Unlink { path } => MutationModel::Unlink { path: path@ },
            Mutation::Rmdir { path } => MutationModel::Rmdir { path: path@ },
            Mutation::Symlink { path, target } => MutationModel::Symlink {
                path: path@,
                target: target@,
            },
            Mutation::Hardlink { path, target } => MutationModel::Hardlink {
                path: path@,
                target: target@,
            },
            Mutation::SetExecutable { path, executable } => MutationModel::SetExecutable {
                path: path@,
                executable: *executable,
            },
        }
    }
}

/// Why a workspace operation was refused.
#[derive(Debug)]
pub enum WorkspaceError {
    Tfm1(Tfm1Error),
    UnknownWorkspace(String),
    WorkspaceExists(String),
    Missing(String),
    Exists(String),
    NotADirectory(String),
    NotAFile(String),
    NotEmpty(String),
    CaseFoldCollision(String),
    MidRecordTruncate { path: String, length: u64 },
    MissingObject { digest: ObjectDigest },
    UnknownSnapshot(SnapshotId),
    SnapshotCorrupt,
    UnknownLease(i64),
    RenameIntoSelf(String),
    SealContention,
}

/// The value of a [`WorkspaceError`].
pub enum ErrorModel {
    Tfm1(Tfm1Error),
    UnknownWorkspace(Seq<char>),
    WorkspaceExists(Seq<char>),
    Missing(Seq<char>),
    Exists(Seq<char>),
    NotADirectory(Seq<char>),
    NotAFile(Seq<char>),
    NotEmpty(Seq<char>),
    CaseFoldCollision(Seq<char>),
    MidRecordTruncate { path: Seq<char>, length: u64 },
    MissingObject { digest: Seq<u8> },
    UnknownSnapshot(Seq<u8>),
    SnapshotCorrupt,
    UnknownLease(i64),
    RenameIntoSelf(Seq<char>),
    SealContention,
}

impl View for WorkspaceError {
    type V = ErrorModel;

    open spec fn view(&self) -> ErrorModel {
        match self {
            WorkspaceError::Tfm1(error) => ErrorModel::Tfm1(*error),
            WorkspaceError::UnknownWorkspace(name) => ErrorModel::UnknownWorkspace(name@),
            WorkspaceError::WorkspaceExists(name) => ErrorModel::WorkspaceExists(name@),
            WorkspaceError::Missing(path) => ErrorModel::Missing(path@),
            WorkspaceError::Exists(path) => ErrorModel::Exists(path@),
            WorkspaceError::NotADirectory(path) => ErrorModel::NotADirectory(path@),
            WorkspaceError::NotAFile(path) => ErrorModel::NotAFile(path@),
            WorkspaceError::NotEmpty(path) => ErrorModel::NotEmpty(path@),
            WorkspaceError::CaseFoldCollision(path) => ErrorModel::CaseFoldCollision(path@),
            WorkspaceError::MidRecordTruncate { path, length } => ErrorModel::MidRecordTruncate {
                path: path@,
                length: *length,
            },
            WorkspaceError::MissingObject { digest } => ErrorModel::MissingObject { digest: digest@ },
            WorkspaceError::UnknownSnapshot(id) => ErrorModel::UnknownSnapshot(id@),
            WorkspaceError::SnapshotCorrupt => ErrorModel::SnapshotCorrupt,
            WorkspaceError::UnknownLease(id) => ErrorModel::UnknownLease(*id),
            WorkspaceError::RenameIntoSelf(path) => ErrorModel::RenameIntoSelf(path@),
            WorkspaceError::SealContention => ErrorModel::SealContention,
        }
    }
}

/// What one collection did.
#[derive(Clone, Copy, Debug, PartialEq, Eq, Structural)]
pub struct GcReport {
    pub roots: u64,
    pub resident: u64,
    pub newly_quarantined: u64,
    pub rescued: u64,
    pub deleted: u64,
    pub bytes_deleted: u64,
    pub epoch: u64,
}

impl Default for GcReport {
    fn default() -> (report: Self)
        ensures
            report == (GcReport {
                roots: 0,
                resident: 0,
                newly_quarantined: 0,
                rescued: 0,
                deleted: 0,
                bytes_deleted: 0,
                epoch: 0,
            }),
    {
        GcReport {
            roots: 0,
            resident: 0,
            newly_quarantined: 0,
            rescued: 0,
            deleted: 0,
            bytes_deleted: 0,
            epoch: 0,
        }
    }
}

/// The number under which a planner is stored with a file.
pub open spec fn planner_row(planner: PlannerId) -> i64 {
    match planner {
        PlannerId::SafetensorsV1 => 1,
        PlannerId::GgufV1 => 2,
        PlannerId::BlobV1 => 4,
    }
}

pub fn planner_to_row(planner: PlannerId) -> (row: i64)
    ensures
        row == planner_row(planner),
{
    match planner {
        PlannerId::SafetensorsV1 => 1,
        PlannerId::GgufV1 => 2,
        PlannerId::BlobV1 => 4,
    }
}

/// The planner that a stored number names; a blob's where it names none.
pub open spec fn row_planner(tag: i64) -> PlannerId {
    if tag == 1 {
        PlannerId::SafetensorsV1
    } else if tag == 2 {
        PlannerId::GgufV1
    } else {
        PlannerId::BlobV1
    }
}

pub fn planner_from_row(tag: i64) -> (planner: PlannerId)
    ensures
        planner == row_planner(tag),
{
    if tag == 1 {
        PlannerId::SafetensorsV1
    } else if tag == 2 {
        PlannerId::GgufV1
    } else {
        PlannerId::BlobV1
    }
}

/// A stored planner is read back.
pub proof fn a_stored_planner_is_read_back(planner: PlannerId)
    ensures
        row_planner(planner_row(planner)) == planner,
{
}

/// A stored digest is thirty-two bytes; anything else is corrupt.
pub fn digest_from_row(bytes: &[u8]) -> (outcome: Result<ObjectDigest, WorkspaceError>)
    ensures
        if bytes@.len() == 32 {
            outcome is Ok && outcome->Ok_0@ == bytes@
        } else {
            outcome is Err && outcome->Err_0@ == ErrorModel::SnapshotCorrupt
        },
{
    if bytes.len() != 32 {
        return Err(WorkspaceError::SnapshotCorrupt);
    }
    Ok(ObjectDigest::from_bytes(crate::text::array_of_32(bytes)))
}

} // verus!
