//! Working-file reconciliation: compare the live on-disk artifact against
//! the version recorded as its source.
//!
//! Reconciliation is a pure query over what was observed: the filesystem
//! facts and the external application's status come in as plain values, and
//! the result is a function of them alone — it never mutates branch state.

use vstd::prelude::*;
use crate::strutil::str_eq;

verus! {

/// The live status of the working file of a branch.  Derived, never stored:
/// it is recomputed on every query.
#[derive(Clone, Debug)]
pub struct WorkingFileInfo {
    pub exists: bool,
    pub path: String,
    pub is_open: bool,
    pub has_unsaved_changes: bool,
    pub source_version: Option<String>,
}

/// Spec-level value of a working-file status.
pub struct WfiV {
    pub exists: bool,
    pub path: Seq<char>,
    pub is_open: bool,
    pub has_unsaved_changes: bool,
    pub source_version: Option<Seq<char>>,
}

impl View for WorkingFileInfo {
    type V = WfiV;

    open spec fn view(&self) -> WfiV {
        WfiV {
            exists: self.exists,
            path: self.path@,
            is_open: self.is_open,
            has_unsaved_changes: self.has_unsaved_changes,
            source_version: self.source_version.deep_view(),
        }
    }
}

/// The external structural-analysis application's status, as observed.
#[derive(Clone, Debug)]
pub struct EtabsStatus {
    pub is_running: bool,
    pub version: Option<String>,
    pub current_file: Option<String>,
}

/// Spec-level value of an application status.
pub struct EtabsV {
    pub is_running: bool,
    pub version: Option<Seq<char>>,
    pub current_file: Option<Seq<char>>,
}

impl View for EtabsStatus {
    type V = EtabsV;

    open spec fn view(&self) -> EtabsV {
        EtabsV {
            is_running: self.is_running,
            version: self.version.deep_view(),
            current_file: self.current_file.deep_view(),
        }
    }
}

/// What a validation query reports about the environment and a file.
#[derive(Clone, Debug)]
pub struct ValidationData {
    pub etabs_installed: bool,
    pub etabs_version: Option<String>,
    pub file_valid: Option<bool>,
    pub file_path: Option<String>,
    pub file_exists: Option<bool>,
    pub file_extension: Option<String>,
    pub is_analyzed: Option<bool>,
    pub validation_messages: Vec<String>,
}

/// The modification signature of a file: size and modification time, as
/// recorded at the last checkout or commit.
#[derive(Clone, Copy, Debug, PartialEq, Eq, Structural)]
pub struct FsSignature {
    pub size: u64,
    pub mtime_millis: i64,
}

/// One observation of the working file on disk.
#[derive(Clone, Copy, Debug, PartialEq, Eq, Structural)]
pub struct FsObservation {
    pub exists: bool,
    pub size: u64,
    pub mtime_millis: i64,
}

/// What reconciliation returns for given observations: the file's
/// existence, whether the external application holds it open, and whether
/// its signature moved away from the recorded one.  A working file that was
/// never checked out (no recorded signature) carries no unsaved changes.
pub open spec fn reconcile_spec(
    path: Seq<char>,
    source_version: Option<Seq<char>>,
    recorded: Option<FsSignature>,
    obs: FsObservation,
    app: EtabsV,
) -> WfiV {
    WfiV {
        exists: obs.exists,
        path,
        is_open: app.is_running && app.current_file == Some(path),
        has_unsaved_changes: obs.exists && match recorded {
            Some(sig) => sig.size != obs.size || sig.mtime_millis != obs.mtime_millis,
            None => false,
        },
        source_version,
    }
}

/// Reconcile the working file of a branch against what was observed.
/// This is a query: it owns no state and mutates nothing.
pub fn reconcile(
    path: String,
    source_version: Option<String>,
    recorded: Option<FsSignature>,
    obs: &FsObservation,
    app: &EtabsStatus,
) -> (r: WorkingFileInfo)
    ensures
        r@ == reconcile_spec(path@, source_version.deep_view(), recorded, *obs, app@),
{
    let is_open = app.is_running && match &app.current_file {
        Some(f) => str_eq(f.as_str(), path.as_str()),
        None => false,
    };
    let has_unsaved_changes = obs.exists && match &recorded {
        Some(sig) => sig.size != obs.size || sig.mtime_millis != obs.mtime_millis,
        None => false,
    };
    WorkingFileInfo { exists: obs.exists, path, is_open, has_unsaved_changes, source_version }
}

/// Reconciliation is idempotent absent external mutation: two queries over
/// the same branch state and the same observations yield the same status.
pub proof fn lemma_reconcile_idempotent(
    path: Seq<char>,
    source_version: Option<Seq<char>>,
    recorded: Option<FsSignature>,
    obs1: FsObservation,
    obs2: FsObservation,
    app1: EtabsV,
    app2: EtabsV,
)
    requires
        obs1 == obs2,
        app1 == app2,
    ensures
        reconcile_spec(path, source_version, recorded, obs1, app1) == reconcile_spec(
            path,
            source_version,
            recorded,
            obs2,
            app2,
        ),
{
}

} // verus!
