use ext_core::e2k::parse_e2k;
use ext_core::e2k_diff::diff_e2k;
use ext_core::geometry::{diff_geometry, extract_members};
use ext_core::store::{run_comparison, CreateBranchRequest, DiffType, ProjectState};

const V1_TEXT: &str = "$ FRAME\nF1 section=W10\n";
const V2_TEXT: &str = "$ FRAME\nF1 section=W12\nF2 section=W10\n";

#[test]
fn parser_reads_sections_and_fields() {
    let out = parse_e2k("$ FRAME\nF1 section=W10 x=1.50\n\nF2 material=A992\n");
    assert_eq!(out.records.len(), 2);
    assert!(out.warnings.is_empty());
    assert_eq!(out.records[0].category, "FRAME");
    assert_eq!(out.records[0].key, "F1");
    assert_eq!(out.records[0].fields.len(), 2);
    assert_eq!(out.records[0].fields[0].name, "section");
    assert_eq!(out.records[0].fields[0].value, "W10");
    assert_eq!(out.records[0].fields[1].name, "x");
    assert_eq!(out.records[0].fields[1].value, "1.50");
    assert_eq!(out.records[1].key, "F2");
}

#[test]
fn parser_skips_malformed_lines_with_warning() {
    let out = parse_e2k("$ FRAME\nF1 section=W10\nbroken token\nF2 section=W12\n");
    assert_eq!(out.records.len(), 2);
    assert_eq!(out.warnings.len(), 1);
    assert_eq!(out.warnings[0], "broken token");
}

#[test]
fn parser_records_before_any_section_get_empty_category() {
    let out = parse_e2k("K1 a=1\n$ JOINT\nJ1 x=0\n");
    assert_eq!(out.records.len(), 2);
    assert_eq!(out.records[0].category, "");
    assert_eq!(out.records[1].category, "JOINT");
}

#[test]
fn e2k_diff_scenario_counts() {
    // branch "main" version "v1" carries F1/W10; the forked branch commits
    // F1/W12 plus a new F2/W10: one modify, one add, nothing removed.
    let mut s = ProjectState::new_project("Tower".to_string(), "/tmp/proj".to_string(), 1000);
    let main = "main".to_string();
    s.save_version(&main, "base".to_string(), None, Some("/tmp/v1.e2k".to_string()), 1500)
        .unwrap();
    s.create_branch(
        &CreateBranchRequest {
            project_path: "/tmp/proj".to_string(),
            branch_name: "feature".to_string(),
            from_branch: "main".to_string(),
            from_version: "v1".to_string(),
            description: None,
        },
        2000,
    )
    .unwrap();
    let feature = "feature".to_string();
    s.save_version(&feature, "rework".to_string(), None, Some("/tmp/v2.e2k".to_string()), 2500)
        .unwrap();
    let cmp = run_comparison(V1_TEXT, V2_TEXT, DiffType::E2k);
    let d = cmp.e2k.unwrap();
    assert!(cmp.geometry.is_none());
    assert_eq!(d.modified, 1);
    assert_eq!(d.added, 1);
    assert_eq!(d.removed, 0);
    assert_eq!(d.changes.len(), 2);
    assert_eq!(d.changes[0].category, "FRAME");
}

#[test]
fn e2k_diff_change_entries() {
    let old = parse_e2k(V1_TEXT).records;
    let new = parse_e2k(V2_TEXT).records;
    let d = diff_e2k(&old, &new);
    // sorted by category then key: F1 before F2
    assert_eq!(d.changes[0].description, "F1");
    assert_eq!(d.changes[0].change_type, "modify");
    assert_eq!(d.changes[0].old_value, Some("section=W10;".to_string()));
    assert_eq!(d.changes[0].new_value, Some("section=W12;".to_string()));
    assert_eq!(d.changes[1].description, "F2");
    assert_eq!(d.changes[1].change_type, "add");
    assert!(d.changes[1].old_value.is_none());
}

#[test]
fn e2k_diff_raw_rendering() {
    let old = parse_e2k("$ FRAME\nF1 section=W10\n").records;
    let new = parse_e2k("$ FRAME\nF1 section=W12\n").records;
    let d = diff_e2k(&old, &new);
    assert_eq!(
        d.raw_diff,
        "--- old\n-FRAME F1 section=W10;\n+++ new\n+FRAME F1 section=W12;\n"
    );
}

#[test]
fn e2k_diff_is_antisymmetric_on_values() {
    let a = parse_e2k(V1_TEXT).records;
    let b = parse_e2k(V2_TEXT).records;
    let ab = diff_e2k(&a, &b);
    let ba = diff_e2k(&b, &a);
    assert_eq!(ab.added, ba.removed);
    assert_eq!(ab.removed, ba.added);
    assert_eq!(ab.modified, ba.modified);
    let aa = diff_e2k(&a, &a);
    assert_eq!(aa.added, 0);
    assert_eq!(aa.removed, 0);
    assert_eq!(aa.modified, 0);
    assert!(aa.changes.is_empty());
}

#[test]
fn e2k_diff_pairs_duplicate_keys_positionally() {
    let a = parse_e2k("$ LOAD\nW a=1\nW a=2\n").records;
    let b = parse_e2k("$ LOAD\nW a=1\n").records;
    let d = diff_e2k(&a, &b);
    // the first W pairs and matches; the surplus second W is a remove
    assert_eq!(d.added, 0);
    assert_eq!(d.removed, 1);
    assert_eq!(d.modified, 0);
}

#[test]
fn geometry_diff_scenario() {
    let cmp = run_comparison(V1_TEXT, V2_TEXT, DiffType::Both);
    let g = cmp.geometry.unwrap();
    assert!(cmp.e2k.is_some());
    assert_eq!(g.members_added, vec!["F2".to_string()]);
    assert!(g.members_removed.is_empty());
    assert_eq!(g.members_modified, vec!["F1".to_string()]);
    assert_eq!(g.total_changes, 2);
}

#[test]
fn geometry_membership_is_exclusive() {
    let cmp = run_comparison(V1_TEXT, V2_TEXT, DiffType::Geometry);
    let g = cmp.geometry.unwrap();
    for id in ["F1", "F2"] {
        let id = id.to_string();
        let mut hits = 0;
        if g.members_added.contains(&id) {
            hits += 1;
        }
        if g.members_removed.contains(&id) {
            hits += 1;
        }
        if g.members_modified.contains(&id) {
            hits += 1;
        }
        assert!(hits <= 1);
    }
}

#[test]
fn e2k_diff_ignores_field_order() {
    // the same name-to-value mapping written in another order is no change
    let a = parse_e2k("$ FRAME\nF1 section=W10 material=A992\n").records;
    let b = parse_e2k("$ FRAME\nF1 material=A992 section=W10\n").records;
    let d = diff_e2k(&a, &b);
    assert_eq!(d.modified, 0);
    assert_eq!(d.added, 0);
    assert_eq!(d.removed, 0);
    assert!(d.changes.is_empty());
}

#[test]
fn geometry_ignores_field_order() {
    let a = parse_e2k("$ JOINT\nJ1 x=1 y=2 z=3\n").records;
    let b = parse_e2k("$ JOINT\nJ1 z=3.0 x=1.000 y=2\n").records;
    let ma = extract_members(&a);
    let mb = extract_members(&b);
    assert_eq!(ma[0].endpoints.len(), 3);
    let g = diff_geometry(&ma, &mb);
    assert_eq!(g.total_changes, 0);
}

#[test]
fn geometry_normalizes_numeric_formatting() {
    // the same coordinate written differently must not count as a change
    let a = parse_e2k("$ JOINT\nJ1 x=1.50 y=-2 z=0\n").records;
    let b = parse_e2k("$ JOINT\nJ1 x=1.5 y=-2.000 z=0.0\n").records;
    let ma = extract_members(&a);
    let mb = extract_members(&b);
    let g = diff_geometry(&ma, &mb);
    assert_eq!(g.total_changes, 0);
    // a genuinely different coordinate does count
    let c = parse_e2k("$ JOINT\nJ1 x=1.501 y=-2 z=0\n").records;
    let mc = extract_members(&c);
    let g2 = diff_geometry(&ma, &mc);
    assert_eq!(g2.members_modified, vec!["J1".to_string()]);
}

#[test]
fn geometry_extracts_member_shape() {
    let recs = parse_e2k("$ FRAME\nF1 j1=N1 j2=N2 section=W10 material=A992\n$ NOTES\nN1 a=b\n")
        .records;
    let ms = extract_members(&recs);
    assert_eq!(ms.len(), 1);
    assert_eq!(ms[0].id, "F1");
    assert_eq!(ms[0].kind, "FRAME");
    assert_eq!(ms[0].section, "W10");
    assert_eq!(ms[0].material, "A992");
    assert_eq!(ms[0].endpoints.len(), 2);
}

#[test]
fn geometry_added_ids_come_sorted() {
    let a = parse_e2k("$ FRAME\n").records;
    let b = parse_e2k("$ FRAME\nF9 section=W1\nF2 section=W1\nF10 section=W1\n").records;
    let ma = extract_members(&a);
    let mb = extract_members(&b);
    let g = diff_geometry(&ma, &mb);
    assert_eq!(
        g.members_added,
        vec!["F10".to_string(), "F2".to_string(), "F9".to_string()]
    );
}
