use merkle_audit::diff::{compare_reports, DiffStatus};
use merkle_audit::export::{ExportedAuditReport, ExportedNode};

fn node(path: &str, name: &str, hash: &str, is_dir: bool) -> ExportedNode {
    ExportedNode {
        id: 0,
        name: name.to_string(),
        path: path.to_string(),
        hash_hex: hash.to_string(),
        is_dir,
        size_bytes: 0,
        modified_timestamp: 0,
        parent: None,
        children: vec![],
    }
}

fn report(target: &str, nodes: Vec<ExportedNode>) -> ExportedAuditReport {
    ExportedAuditReport {
        timestamp: 0,
        root_hash: String::new(),
        target_path: target.to_string(),
        algorithm: "SHA-256".to_string(),
        total_nodes: nodes.len(),
        total_bytes: 0,
        nodes,
    }
}

fn old_report() -> ExportedAuditReport {
    report(
        "/old",
        vec![
            node("/old", "old", "r1", true),
            node("/old/b.txt", "b.txt", "b1", false),
            node("/old/same", "same", "s", false),
            node("/old/gone", "gone", "g", false),
        ],
    )
}

fn new_report() -> ExportedAuditReport {
    report(
        "/new",
        vec![
            node("/new", "new", "r2", true),
            node("/new/same", "same", "s", false),
            node("/new/b.txt", "b.txt", "b2", false),
            node("/new/a", "a", "n", true),
        ],
    )
}

#[test]
fn comparison_goes_by_relative_paths() {
    let result = compare_reports(&old_report(), &new_report());
    let paths: Vec<&str> = result.items.iter().map(|i| i.relative_path.as_str()).collect();
    assert_eq!(paths, vec!["", "a", "b.txt", "gone", "same"]);
    assert_eq!(
        result.items[0].status,
        DiffStatus::Modified { old_hash: "r1".to_string(), new_hash: "r2".to_string() }
    );
    assert_eq!(result.items[1].status, DiffStatus::Added);
    assert!(result.items[1].is_dir);
    assert_eq!(
        result.items[2].status,
        DiffStatus::Modified { old_hash: "b1".to_string(), new_hash: "b2".to_string() }
    );
    assert_eq!(result.items[3].status, DiffStatus::Removed);
    assert_eq!(result.items[4].status, DiffStatus::Unchanged);
    assert_eq!(result.total_added, 1);
    assert_eq!(result.total_removed, 1);
    assert_eq!(result.total_modified, 2);
    assert_eq!(result.total_unchanged, 1);
}

#[test]
fn totals_add_up_to_the_items() {
    let r = compare_reports(&old_report(), &new_report());
    assert_eq!(
        r.total_added + r.total_removed + r.total_modified + r.total_unchanged,
        r.items.len()
    );
}

#[test]
fn audit_compared_with_itself_is_unchanged() {
    let r = compare_reports(&old_report(), &old_report());
    assert_eq!(r.items.len(), 4);
    assert_eq!(r.total_unchanged, 4);
    assert!(r.items.iter().all(|i| i.status == DiffStatus::Unchanged));
}

#[test]
fn reversed_comparison_swaps_the_sides() {
    let forth = compare_reports(&old_report(), &new_report());
    let back = compare_reports(&new_report(), &old_report());
    assert_eq!(forth.total_added, back.total_removed);
    assert_eq!(forth.total_removed, back.total_added);
    assert_eq!(forth.total_modified, back.total_modified);
    assert_eq!(forth.items.len(), back.items.len());
    assert_eq!(
        back.items[0].status,
        DiffStatus::Modified { old_hash: "r2".to_string(), new_hash: "r1".to_string() }
    );
}

#[test]
fn path_outside_the_base_goes_by_its_name() {
    let a = report("/base", vec![node("/elsewhere/x", "x", "1", false)]);
    let b = report("/base", vec![node("/base/x", "x", "1", false)]);
    let r = compare_reports(&a, &b);
    assert_eq!(r.items.len(), 1);
    assert_eq!(r.items[0].relative_path, "x");
    assert_eq!(r.items[0].status, DiffStatus::Unchanged);
}

#[test]
fn later_node_of_the_same_path_counts() {
    let a = report("/d", vec![node("/d/x", "x", "1", false), node("/d/x", "x", "2", true)]);
    let b = report("/d", vec![node("/d/x", "x", "2", false)]);
    let r = compare_reports(&a, &b);
    assert_eq!(r.items.len(), 1);
    assert_eq!(r.total_unchanged, 1);
    assert!(!r.items[0].is_dir);
}

#[test]
fn items_are_ordered_by_characters() {
    let a = report("/d", vec![]);
    let b = report(
        "/d",
        vec![
            node("/d/b", "b", "", false),
            node("/d/\u{e9}", "\u{e9}", "", false),
            node("/d/B", "B", "", false),
            node("/d/b/c", "c", "", false),
            node("/d/a", "a", "", false),
        ],
    );
    let r = compare_reports(&a, &b);
    let paths: Vec<&str> = r.items.iter().map(|i| i.relative_path.as_str()).collect();
    assert_eq!(paths, vec!["B", "a", "b", "b/c", "\u{e9}"]);
    assert_eq!(r.total_added, 5);
}

#[test]
fn empty_reports_compare_to_nothing() {
    let r = compare_reports(&report("/a", vec![]), &report("/b", vec![]));
    assert!(r.items.is_empty());
    assert_eq!(r.total_added + r.total_removed + r.total_modified + r.total_unchanged, 0);
}
