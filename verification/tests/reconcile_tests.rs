use ext_core::reconcile::{reconcile, EtabsStatus, FsObservation, FsSignature};

fn obs(exists: bool, size: u64, mtime: i64) -> FsObservation {
    FsObservation { exists, size, mtime_millis: mtime }
}

fn app(running: bool, file: Option<&str>) -> EtabsStatus {
    EtabsStatus {
        is_running: running,
        version: Some("21.0".to_string()),
        current_file: file.map(|f| f.to_string()),
    }
}

#[test]
fn reconcile_reports_clean_checkout() {
    let w = reconcile(
        "/tmp/model.edb".to_string(),
        Some("v3".to_string()),
        Some(FsSignature { size: 100, mtime_millis: 5000 }),
        &obs(true, 100, 5000),
        &app(false, None),
    );
    assert!(w.exists);
    assert!(!w.is_open);
    assert!(!w.has_unsaved_changes);
    assert_eq!(w.source_version, Some("v3".to_string()));
    assert_eq!(w.path, "/tmp/model.edb");
}

#[test]
fn reconcile_detects_unsaved_changes_and_open_file() {
    let w = reconcile(
        "/tmp/model.edb".to_string(),
        Some("v3".to_string()),
        Some(FsSignature { size: 100, mtime_millis: 5000 }),
        &obs(true, 120, 6000),
        &app(true, Some("/tmp/model.edb")),
    );
    assert!(w.has_unsaved_changes);
    assert!(w.is_open);
    // the application holds a different file open
    let w2 = reconcile(
        "/tmp/model.edb".to_string(),
        None,
        None,
        &obs(true, 120, 6000),
        &app(true, Some("/tmp/other.edb")),
    );
    assert!(!w2.is_open);
    // never checked out: no baseline, no unsaved changes
    assert!(!w2.has_unsaved_changes);
    assert_eq!(w2.source_version, None);
}

#[test]
fn reconcile_is_idempotent_without_external_change() {
    let o = obs(true, 100, 5000);
    let a = app(true, Some("/tmp/model.edb"));
    let sig = Some(FsSignature { size: 90, mtime_millis: 4000 });
    let w1 = reconcile("/tmp/model.edb".to_string(), Some("v1".to_string()), sig, &o, &a);
    let w2 = reconcile("/tmp/model.edb".to_string(), Some("v1".to_string()), sig, &o, &a);
    assert_eq!(w1.exists, w2.exists);
    assert_eq!(w1.path, w2.path);
    assert_eq!(w1.is_open, w2.is_open);
    assert_eq!(w1.has_unsaved_changes, w2.has_unsaved_changes);
    assert_eq!(w1.source_version, w2.source_version);
}

#[test]
fn missing_file_reconciles_to_absent() {
    let w = reconcile(
        "/tmp/model.edb".to_string(),
        None,
        None,
        &obs(false, 0, 0),
        &app(false, None),
    );
    assert!(!w.exists);
    assert!(!w.has_unsaved_changes);
    assert!(!w.is_open);
}
