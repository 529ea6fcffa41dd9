use ext_core::store::{
    CreateBranchRequest, ProjectState, VersionIdentifier, diff_type_of, DiffType,
};
use ext_core::{CliResult, ErrorKind};

fn req(name: &str, from_branch: &str, from_version: &str) -> CreateBranchRequest {
    CreateBranchRequest {
        project_path: "/tmp/proj".to_string(),
        branch_name: name.to_string(),
        from_branch: from_branch.to_string(),
        from_version: from_version.to_string(),
        description: Some("fork".to_string()),
    }
}

#[test]
fn new_project_has_main() {
    let s = ProjectState::new_project("Tower".to_string(), "/tmp/proj".to_string(), 1000);
    assert_eq!(s.current_branch, "main");
    assert_eq!(s.branches.len(), 1);
    assert_eq!(s.branches[0].name, "main");
    assert!(s.branches[0].versions.is_empty());
    assert_eq!(s.branches[0].latest_version, "");
    assert!(s.branches[0].parent_branch.is_none());
}

#[test]
fn create_branch_sets_lineage() {
    let mut s = ProjectState::new_project("Tower".to_string(), "/tmp/proj".to_string(), 1000);
    let main = "main".to_string();
    s.save_version(&main, "first".to_string(), None, None, 1500).unwrap();
    let b = s.create_branch(&req("feature", "main", "v1"), 2000).unwrap();
    assert!(b.versions.is_empty());
    assert_eq!(b.name, "feature");
    assert_eq!(b.parent_branch, Some("main".to_string()));
    assert_eq!(b.parent_version, Some("v1".to_string()));
    assert_eq!(b.latest_version, "");
    assert_eq!(b.created, Some(2000));
    assert_eq!(s.branches.len(), 2);
}

#[test]
fn create_branch_rejects_bad_parent() {
    let mut s = ProjectState::new_project("Tower".to_string(), "/tmp/proj".to_string(), 1000);
    let main = "main".to_string();
    s.save_version(&main, "first".to_string(), None, None, 1500).unwrap();
    let e = s.create_branch(&req("feature", "nope", "v1"), 2000).unwrap_err();
    assert_eq!(e.kind, ErrorKind::NotFound);
    let e = s.create_branch(&req("feature", "main", "v9"), 2000).unwrap_err();
    assert_eq!(e.kind, ErrorKind::NotFound);
    let e = s.create_branch(&req("", "main", "v1"), 2000).unwrap_err();
    assert_eq!(e.kind, ErrorKind::InvalidInput);
    s.create_branch(&req("feature", "main", "v1"), 2000).unwrap();
    let e = s.create_branch(&req("feature", "main", "v1"), 2100).unwrap_err();
    assert_eq!(e.kind, ErrorKind::Conflict);
}

#[test]
fn save_version_tracks_latest() {
    let mut s = ProjectState::new_project("Tower".to_string(), "/tmp/proj".to_string(), 1000);
    let main = "main".to_string();
    let v1 = s.save_version(&main, "first".to_string(), None, None, 1500).unwrap();
    assert_eq!(v1.id, "v1");
    assert_eq!(s.branches[0].latest_version, "v1");
    assert_eq!(s.branches[0].versions.len(), 1);
    let v2 = s
        .save_version(&main, "second".to_string(), Some("ann".to_string()), None, 1600)
        .unwrap();
    assert_eq!(v2.id, "v2");
    assert_eq!(s.branches[0].latest_version, "v2");
    assert_eq!(s.branches[0].versions.len(), 2);
    assert!(!v2.analyzed);
    assert_eq!(v2.author, Some("ann".to_string()));
}

#[test]
fn save_version_clamps_timestamp() {
    let mut s = ProjectState::new_project("Tower".to_string(), "/tmp/proj".to_string(), 1000);
    let main = "main".to_string();
    let v1 = s.save_version(&main, "first".to_string(), None, None, 1500).unwrap();
    // a clock that went backwards must not break timestamp order
    let v2 = s.save_version(&main, "second".to_string(), None, None, 900).unwrap();
    assert_eq!(v1.timestamp, 1500);
    assert_eq!(v2.timestamp, 1500);
    let v3 = s.save_version(&main, "third".to_string(), None, None, 1700).unwrap();
    assert_eq!(v3.timestamp, 1700);
}

#[test]
fn save_version_unknown_branch() {
    let mut s = ProjectState::new_project("Tower".to_string(), "/tmp/proj".to_string(), 1000);
    let nope = "nope".to_string();
    let e = s.save_version(&nope, "first".to_string(), None, None, 1500).unwrap_err();
    assert_eq!(e.kind, ErrorKind::NotFound);
}

#[test]
fn resolve_missing_version_is_not_found() {
    let mut s = ProjectState::new_project("Tower".to_string(), "/tmp/proj".to_string(), 1000);
    let main = "main".to_string();
    s.save_version(&main, "first".to_string(), None, Some("/tmp/a.e2k".to_string()), 1500)
        .unwrap();
    // version2 of a comparison pointing at a missing branch or version
    let bad_branch = VersionIdentifier { branch: "ghost".to_string(), version_id: "v1".to_string() };
    let e = s.resolve_version(&bad_branch).unwrap_err();
    assert_eq!(e.kind, ErrorKind::NotFound);
    let bad_version = VersionIdentifier { branch: "main".to_string(), version_id: "v7".to_string() };
    let e = s.resolve_version(&bad_version).unwrap_err();
    assert_eq!(e.kind, ErrorKind::NotFound);
    let good = VersionIdentifier { branch: "main".to_string(), version_id: "v1".to_string() };
    let v = s.resolve_version(&good).unwrap();
    assert_eq!(v.id, "v1");
    assert_eq!(v.e2k_path, Some("/tmp/a.e2k".to_string()));
}

#[test]
fn resolve_artifact_requires_generated_file() {
    let mut s = ProjectState::new_project("Tower".to_string(), "/tmp/proj".to_string(), 1000);
    let main = "main".to_string();
    s.save_version(&main, "no artifact".to_string(), None, None, 1500).unwrap();
    s.save_version(&main, "with artifact".to_string(), None, Some("/tmp/b.e2k".to_string()), 1600)
        .unwrap();
    let v1 = VersionIdentifier { branch: "main".to_string(), version_id: "v1".to_string() };
    let e = s.resolve_artifact(&v1).unwrap_err();
    assert_eq!(e.kind, ErrorKind::NotFound);
    let v2 = VersionIdentifier { branch: "main".to_string(), version_id: "v2".to_string() };
    assert_eq!(s.resolve_artifact(&v2).unwrap(), "/tmp/b.e2k");
}

#[test]
fn diff_type_selector() {
    assert_eq!(diff_type_of("e2k").unwrap(), DiffType::E2k);
    assert_eq!(diff_type_of("geometry").unwrap(), DiffType::Geometry);
    assert_eq!(diff_type_of("both").unwrap(), DiffType::Both);
    let e = diff_type_of("everything").unwrap_err();
    assert_eq!(e.kind, ErrorKind::InvalidInput);
}

#[test]
fn envelope_is_consistent() {
    let ok: CliResult<u32> = CliResult::ok(7, 1234);
    assert!(ok.success);
    assert!(ok.error.is_none());
    assert_eq!(ok.data, Some(7));
    assert_eq!(ok.timestamp, 1234);
    let err: CliResult<u32> = CliResult::err("boom".to_string(), 1235);
    assert!(!err.success);
    assert_eq!(err.error, Some("boom".to_string()));
    assert!(err.data.is_none());
}
