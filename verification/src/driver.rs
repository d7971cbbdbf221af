//! The image lifecycle driver: the decision core that takes one accepted
//! placement from index fetch through staging, hardlink resolution and
//! the block fetch engine to an atomic commit, or to an abort with a
//! definite reason.  The surrounding program performs each step's I/O
//! and reports the outcome as a [`DriverEvent`].

use vstd::prelude::*;
use crate::types::Hash256;
use crate::digest::{digest_of, compute_digest};
use crate::index::{IndexData, parse_index, parse};

verus! {

/// Why a download was abandoned; each reason is reported to peers under
/// its wire tag.
pub enum AbortReason {
    CantFetchIndex,
    CantCreateDirectory,
    InternalErrorWhenHardlinking,
    ClusterAbortNoFileSource,
    CommitError,
}

impl AbortReason {
    /// The tag under which this reason travels in an aborted-image
    /// notification.
    pub fn tag(&self) -> (r: &'static str)
        ensures
            (match self {
                AbortReason::CantFetchIndex => r@ == "cant_fetch_index"@,
                AbortReason::CantCreateDirectory => r@ == "cant_create_directory"@,
                AbortReason::InternalErrorWhenHardlinking => r@
                    == "internal_error_when_hardlinking"@,
                AbortReason::ClusterAbortNoFileSource => r@ == "cluster_abort_no_file_source"@,
                AbortReason::CommitError => r@ == "commit_error"@,
            }),
    {
        match self {
            AbortReason::CantFetchIndex => "cant_fetch_index",
            AbortReason::CantCreateDirectory => "cant_create_directory",
            AbortReason::InternalErrorWhenHardlinking => "internal_error_when_hardlinking",
            AbortReason::ClusterAbortNoFileSource => "cluster_abort_no_file_source",
            AbortReason::CommitError => "commit_error",
        }
    }
}

/// Where a download stands.
#[derive(Clone, Copy, PartialEq, Eq, Debug, Structural)]
pub enum DriverState {
    /// Waiting for the index blob from some peer.
    FetchingIndex,
    /// Waiting for the staging directory to be created.
    Staging,
    /// Waiting for local hardlink sources to be resolved.
    Hardlinking,
    /// The block fetch engine is running.
    Fetching,
    /// Waiting for the atomic rename of the staging directory.
    Committing,
    /// The image is durably committed locally.
    Done,
    /// The image already existed locally; treated as success.
    AlreadyExisted,
    /// The download was abandoned.
    Aborted,
}

/// What the surrounding program reports back to the driver.
#[derive(Clone, Copy, PartialEq, Eq, Debug, Structural)]
pub enum DriverEvent {
    /// No peer could supply a valid index in time.
    IndexUnavailable,
    /// A verified index arrived and its blocks were seeded.
    IndexOk,
    /// The staging directory was created.
    StagingOk,
    /// The committed directory for this path and image already exists.
    StagingAlreadyExists,
    /// The staging directory could not be created.
    StagingFailed,
    /// Hardlink sources were resolved.
    HardlinkOk,
    /// Hardlink source lookup failed.
    HardlinkFailed,
    /// The block fetch engine finished every slice.
    EngineDone,
    /// The block fetch engine gave up.
    EngineFailed,
    /// The staging directory was renamed into place.
    CommitOk,
    /// The rename failed.
    CommitFailed,
}

/// What the surrounding program must do after a transition.
#[derive(Clone, Copy, PartialEq, Eq, Debug, Structural)]
pub enum DriverAction {
    /// Ask a peer for the index blob.
    FetchIndex,
    /// Create the staging directory and preallocate the file tree.
    StartStaging,
    /// Look up local hardlink sources for deduplication.
    ResolveHardlinks,
    /// Hand the seeded download state to the block fetch engine.
    RunEngine,
    /// Rename the staging directory to its final name.
    CommitImage,
    /// Record the path as committed in the metadata store and notify
    /// peers that this node holds the image.
    ReportCommitted,
    /// Record the path as aborted in the metadata store and notify peers
    /// with the reason's tag.
    ReportAborted,
    /// Do nothing; the event did not apply to the state.
    Ignore,
}

/// The transition table of the lifecycle: next state, what to do, and
/// the abort reason where the download is abandoned.
pub open spec fn driver_step_spec(s: DriverState, e: DriverEvent) -> (
    DriverState,
    DriverAction,
    Option<AbortReason>,
) {
    match (s, e) {
        (DriverState::FetchingIndex, DriverEvent::IndexUnavailable) => (
            DriverState::Aborted,
            DriverAction::ReportAborted,
            Some(AbortReason::CantFetchIndex),
        ),
        (DriverState::FetchingIndex, DriverEvent::IndexOk) => (
            DriverState::Staging,
            DriverAction::StartStaging,
            None,
        ),
        (DriverState::Staging, DriverEvent::StagingOk) => (
            DriverState::Hardlinking,
            DriverAction::ResolveHardlinks,
            None,
        ),
        (DriverState::Staging, DriverEvent::StagingAlreadyExists) => (
            DriverState::AlreadyExisted,
            DriverAction::ReportCommitted,
            None,
        ),
        (DriverState::Staging, DriverEvent::StagingFailed) => (
            DriverState::Aborted,
            DriverAction::ReportAborted,
            Some(AbortReason::CantCreateDirectory),
        ),
        (DriverState::Hardlinking, DriverEvent::HardlinkOk) => (
            DriverState::Fetching,
            DriverAction::RunEngine,
            None,
        ),
        (DriverState::Hardlinking, DriverEvent::HardlinkFailed) => (
            DriverState::Aborted,
            DriverAction::ReportAborted,
            Some(AbortReason::InternalErrorWhenHardlinking),
        ),
        (DriverState::Fetching, DriverEvent::EngineDone) => (
            DriverState::Committing,
            DriverAction::CommitImage,
            None,
        ),
        (DriverState::Fetching, DriverEvent::EngineFailed) => (
            DriverState::Aborted,
            DriverAction::ReportAborted,
            Some(AbortReason::ClusterAbortNoFileSource),
        ),
        (DriverState::Committing, DriverEvent::CommitOk) => (
            DriverState::Done,
            DriverAction::ReportCommitted,
            None,
        ),
        (DriverState::Committing, DriverEvent::CommitFailed) => (
            DriverState::Aborted,
            DriverAction::ReportAborted,
            Some(AbortReason::CommitError),
        ),
        _ => (s, DriverAction::Ignore, None),
    }
}

/// Take one lifecycle step.  The driver reaches `Done` only from a
/// successful commit, reports `ReportCommitted` exactly for a commit or
/// an image that already existed, and every abort carries its reason.
pub fn driver_step(s: DriverState, e: DriverEvent) -> (r: (
    DriverState,
    DriverAction,
    Option<AbortReason>,
))
    ensures
        r == driver_step_spec(s, e),
        r.0 is Done <==> (s is Done || (s is Committing && e is CommitOk)),
        r.2 is Some <==> (r.0 is Aborted && !(s is Aborted)),
{
    match (s, e) {
        (DriverState::FetchingIndex, DriverEvent::IndexUnavailable) => (
            DriverState::Aborted,
            DriverAction::ReportAborted,
            Some(AbortReason::CantFetchIndex),
        ),
        (DriverState::FetchingIndex, DriverEvent::IndexOk) => (
            DriverState::Staging,
            DriverAction::StartStaging,
            None,
        ),
        (DriverState::Staging, DriverEvent::StagingOk) => (
            DriverState::Hardlinking,
            DriverAction::ResolveHardlinks,
            None,
        ),
        (DriverState::Staging, DriverEvent::StagingAlreadyExists) => (
            DriverState::AlreadyExisted,
            DriverAction::ReportCommitted,
            None,
        ),
        (DriverState::Staging, DriverEvent::StagingFailed) => (
            DriverState::Aborted,
            DriverAction::ReportAborted,
            Some(AbortReason::CantCreateDirectory),
        ),
        (DriverState::Hardlinking, DriverEvent::HardlinkOk) => (
            DriverState::Fetching,
            DriverAction::RunEngine,
            None,
        ),
        (DriverState::Hardlinking, DriverEvent::HardlinkFailed) => (
            DriverState::Aborted,
            DriverAction::ReportAborted,
            Some(AbortReason::InternalErrorWhenHardlinking),
        ),
        (DriverState::Fetching, DriverEvent::EngineDone) => (
            DriverState::Committing,
            DriverAction::CommitImage,
            None,
        ),
        (DriverState::Fetching, DriverEvent::EngineFailed) => (
            DriverState::Aborted,
            DriverAction::ReportAborted,
            Some(AbortReason::ClusterAbortNoFileSource),
        ),
        (DriverState::Committing, DriverEvent::CommitOk) => (
            DriverState::Done,
            DriverAction::ReportCommitted,
            None,
        ),
        (DriverState::Committing, DriverEvent::CommitFailed) => (
            DriverState::Aborted,
            DriverAction::ReportAborted,
            Some(AbortReason::CommitError),
        ),
        _ => (s, DriverAction::Ignore, None),
    }
}

/// Begin tracking one accepted placement: the initial download state
/// and lifecycle position.  The first thing to do is fetch the index.
pub fn start(image_id: Hash256, virtual_path: crate::types::VPath, replacing: bool) -> (r: (
    crate::progress::Downloading,
    DriverState,
    DriverAction,
))
    ensures
        r.0.wf(),
        r.0.image_id@ == image_id@,
        r.0.virtual_path@ == virtual_path@,
        r.0.replacing == replacing,
        r.0.slices@.len() == 0,
        forall|j: int| 0 <= j < crate::mask::SLICE_COUNT ==> !r.0.mask@[j],
        r.1 == DriverState::FetchingIndex,
        r.2 == DriverAction::FetchIndex,
{
    (
        crate::progress::Downloading::new(image_id, virtual_path, replacing),
        DriverState::FetchingIndex,
        DriverAction::FetchIndex,
    )
}

/// Validate an index blob fetched for image `id`: its digest must equal
/// the image identifier and it must parse.  Succeeds exactly when both
/// hold, and then returns the parsed index.
pub fn check_index(bytes: &Vec<u8>, id: &Hash256) -> (r: Option<IndexData>)
    ensures
        (match r {
            Some(y) => digest_of(bytes@) == id@ && parse_index(bytes@) == Some(y@) && y.wf(),
            None => digest_of(bytes@) != id@ || parse_index(bytes@) is None,
        }),
{
    let d = compute_digest(bytes);
    if !d.same(id) {
        return None;
    }
    match parse(bytes) {
        Ok(y) => Some(y),
        Err(_) => None,
    }
}

} // verus!
