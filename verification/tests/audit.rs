use merkle_audit::audit::{
    complete_audit, history_lines, progress_message, AuditRecord, WorkerMessage,
};
use merkle_audit::graph::build_petgraph_from_nodes;
use merkle_audit::hashing::{hash_single_file, hash_string_bytes, HashAlgorithm};
use merkle_audit::merkle::{compute_hashes, file_indices};
use merkle_audit::node::Node;
use merkle_audit::scan::{build_tree_structure, EntryMetadata, ScannedEntry};

const EMPTY: &str = "e3b0c44298fc1c149afbf4c8996fb92427ae41e4649b934ca495991b7852b855";
const HELLO: &str = "2cf24dba5fb0a30e26e83b2ac5b9e29e1b161e5c1fa7425e73043362938b9824";

fn entry(path: &str, is_dir: bool, len: u64, children: Vec<ScannedEntry>) -> ScannedEntry {
    let name = path.rsplit('/').next().unwrap_or("");
    ScannedEntry {
        path: path.to_string(),
        sort_key: name.as_bytes().to_vec(),
        is_dir,
        metadata: Some(EntryMetadata { modified: Some(1_700_000_000), is_file: !is_dir, len }),
        source: 0,
        children,
    }
}

/// `/data` with the files `a.txt` and `zeta` and the folder `sub`, found in
/// another order than by name.
fn sample() -> ScannedEntry {
    entry(
        "/data",
        true,
        4096,
        vec![
            entry("/data/zeta", false, 7, vec![]),
            entry("/data/sub", true, 4096, vec![entry("/data/sub/hello.txt", false, 5, vec![])]),
            entry("/data/a.txt", false, 0, vec![]),
        ],
    )
}

fn built() -> Vec<Node> {
    let mut nodes = Vec::new();
    let root = build_tree_structure(&sample(), &mut nodes);
    assert_eq!(root, 0);
    nodes
}

#[test]
fn sha256_of_nothing() {
    assert_eq!(hash_string_bytes(b"", HashAlgorithm::Sha256), EMPTY);
}

#[test]
fn sha256_of_hello() {
    assert_eq!(hash_string_bytes(b"hello", HashAlgorithm::Sha256), HELLO);
}

#[test]
fn blake3_of_nothing_and_abc() {
    assert_eq!(
        hash_string_bytes(b"", HashAlgorithm::Blake3),
        "af1349b9f5f9a1a6a0404dea36dcc9499bcb25c9adc112b7cc9a93cae41f3262"
    );
    assert_eq!(
        hash_string_bytes(b"abc", HashAlgorithm::Blake3),
        "6437b3ac38465133ffb63b75273a8db548c558465d79db03fd359c6cd5bd9d85"
    );
}

#[test]
fn unreadable_file_has_a_mark() {
    assert_eq!(hash_single_file(None, HashAlgorithm::Sha256), "EMPTY_OR_UNREADABLE");
    assert_eq!(hash_single_file(None, HashAlgorithm::Blake3), "EMPTY_OR_UNREADABLE");
    assert_eq!(hash_single_file(Some(b"hello"), HashAlgorithm::Sha256), HELLO);
}

#[test]
fn algorithm_labels() {
    assert_eq!(HashAlgorithm::Sha256.label(), "SHA-256");
    assert_eq!(HashAlgorithm::Blake3.label(), "BLAKE3");
    assert_eq!(HashAlgorithm::default(), HashAlgorithm::Sha256);
}

#[test]
fn scanned_tree_is_ordered_by_name() {
    let nodes = built();
    let names: Vec<&str> = nodes.iter().map(|n| n.name.as_str()).collect();
    assert_eq!(names, vec!["data", "a.txt", "sub", "hello.txt", "zeta"]);
    assert_eq!(nodes[0].children, vec![1, 2, 4]);
    assert_eq!(nodes[2].children, vec![3]);
    assert_eq!(nodes[3].parent, Some(2));
    assert_eq!(nodes[0].parent, None);
    for (i, node) in nodes.iter().enumerate() {
        assert_eq!(node.id, i);
    }
}

#[test]
fn directories_have_no_size_of_their_own() {
    let nodes = built();
    assert_eq!(nodes[0].size_bytes, 0);
    assert_eq!(nodes[3].size_bytes, 5);
    assert_eq!(nodes[3].modified_timestamp, 1_700_000_000);
}

#[test]
fn entry_without_metadata_counts_as_empty_and_old() {
    let mut lone = entry("/data/gone", false, 9, vec![]);
    lone.metadata = None;
    let mut nodes = Vec::new();
    build_tree_structure(&lone, &mut nodes);
    assert_eq!(nodes.len(), 1);
    assert_eq!(nodes[0].size_bytes, 0);
    assert_eq!(nodes[0].modified_timestamp, 0);
}

#[test]
fn path_without_a_file_name_has_an_empty_name() {
    let mut nodes = Vec::new();
    build_tree_structure(&entry("/", true, 0, vec![]), &mut nodes);
    assert_eq!(nodes[0].name, "");
    assert_eq!(nodes[0].path, "/");
}

#[test]
fn only_files_are_hashed_from_contents() {
    assert_eq!(file_indices(&built()), vec![1, 3, 4]);
}

#[test]
fn every_file_is_listed_for_hashing() {
    let nodes = built();
    let ids = file_indices(&nodes);
    assert!(ids.windows(2).all(|pair| pair[0] < pair[1]));
    for node in &nodes {
        assert_eq!(ids.contains(&node.id), !node.is_dir);
    }
    assert!(file_indices(&Vec::new()).is_empty());
}

#[test]
fn directory_hash_is_the_digest_of_its_childrens_hashes() {
    let mut nodes = built();
    let files = vec![
        (1, EMPTY.to_string()),
        (3, HELLO.to_string()),
        (4, "EMPTY_OR_UNREADABLE".to_string()),
    ];
    compute_hashes(&mut nodes, HashAlgorithm::Sha256, files);
    let sub = hash_string_bytes(HELLO.as_bytes(), HashAlgorithm::Sha256);
    assert_eq!(nodes[2].hash_hex, sub);
    let joined = format!("{}{}{}", EMPTY, sub, "EMPTY_OR_UNREADABLE");
    assert_eq!(nodes[0].hash_hex, hash_string_bytes(joined.as_bytes(), HashAlgorithm::Sha256));
    assert_eq!(nodes[4].hash_hex, "EMPTY_OR_UNREADABLE");
}

#[test]
fn root_hash_detects_a_change_in_a_file() {
    let files = |last: &str| {
        vec![(1, EMPTY.to_string()), (3, HELLO.to_string()), (4, last.to_string())]
    };
    let mut before = built();
    let mut after = built();
    let mut again = built();
    compute_hashes(&mut before, HashAlgorithm::Sha256, files(EMPTY));
    compute_hashes(&mut after, HashAlgorithm::Sha256, files(HELLO));
    compute_hashes(&mut again, HashAlgorithm::Sha256, files(EMPTY));
    assert_ne!(before[0].hash_hex, after[0].hash_hex);
    assert_eq!(before[2].hash_hex, after[2].hash_hex);
    assert_eq!(before[0].hash_hex, again[0].hash_hex);
}

#[test]
fn hashes_do_not_depend_on_names() {
    let mut a = Vec::new();
    let mut b = Vec::new();
    build_tree_structure(&entry("/x", true, 0, vec![entry("/x/one", false, 5, vec![])]), &mut a);
    build_tree_structure(&entry("/y", true, 0, vec![entry("/y/two", false, 9, vec![])]), &mut b);
    compute_hashes(&mut a, HashAlgorithm::Blake3, vec![(1, HELLO.to_string())]);
    compute_hashes(&mut b, HashAlgorithm::Blake3, vec![(1, HELLO.to_string())]);
    assert_eq!(a[0].hash_hex, b[0].hash_hex);
}

#[test]
fn audit_with_hashes_records_the_root() {
    let files = vec![(1, EMPTY.to_string()), (3, HELLO.to_string()), (4, EMPTY.to_string())];
    let audit = complete_audit(
        built(),
        0,
        Some(files),
        HashAlgorithm::Sha256,
        "/data".to_string(),
        1_700_000_001,
    );
    assert_eq!(audit.audit_record.root_hash, audit.nodes[0].hash_hex);
    assert_eq!(audit.root_id, 0);
    assert_eq!(
        audit.ledger_line,
        Some(format!(
            "[1700000001] PATH: /data | MERKLE_ROOT_SHA-256: {}\n",
            audit.nodes[0].hash_hex
        ))
    );
}

#[test]
fn audit_without_hashes_is_marked() {
    let audit =
        complete_audit(built(), 0, None, HashAlgorithm::Blake3, "/data".to_string(), 12);
    assert_eq!(audit.audit_record.root_hash, "HASH_DISABLED_TEMPORARY");
    for node in &audit.nodes {
        assert_eq!(node.hash_hex, "DISABLED");
    }
    assert_eq!(
        audit.ledger_line.unwrap(),
        "[12] PATH: /data | MERKLE_ROOT_BLAKE3: HASH_DISABLED_TEMPORARY\n"
    );
}

#[test]
fn audit_of_nothing_leaves_no_line() {
    let audit = complete_audit(
        Vec::new(),
        0,
        Some(Vec::new()),
        HashAlgorithm::Sha256,
        "/data".to_string(),
        0,
    );
    assert_eq!(audit.audit_record.root_hash, "EMPTY_DIRECTORY");
    assert_eq!(audit.ledger_line, None);
}

#[test]
fn ledger_reads_back_what_was_appended() {
    let record = |timestamp: u64, hash: &str| AuditRecord {
        timestamp,
        root_hash: hash.to_string(),
        target_path: "/data".to_string(),
        algorithm: HashAlgorithm::Sha256,
    };
    let mut ledger = String::new();
    ledger.push_str(&record(0, "aa").ledger_line());
    ledger.push_str(&record(18_446_744_073_709_551_615, "bb").ledger_line());
    assert_eq!(
        history_lines(&ledger),
        vec![
            "[0] PATH: /data | MERKLE_ROOT_SHA-256: aa".to_string(),
            "[18446744073709551615] PATH: /data | MERKLE_ROOT_SHA-256: bb".to_string(),
        ]
    );
}

#[test]
fn ledger_lines_end_as_text_lines_do() {
    assert_eq!(history_lines("").len(), 0);
    assert_eq!(history_lines("a\r\nb\n\nc"), vec!["a", "b", "", "c"]);
    assert_eq!(history_lines("a\rb\r"), vec!["a\rb\r"]);
}

#[test]
fn progress_comes_with_every_tenth_file() {
    assert!(progress_message(9, 25).is_none());
    assert!(matches!(
        progress_message(20, 25),
        Some(WorkerMessage::Progress { current: 20, total: 25 })
    ));
    assert!(progress_message(25, 25).is_none());
    assert!(progress_message(0, 0).is_none());
}

#[test]
fn exported_report_holds_every_node() {
    let files = vec![(1, EMPTY.to_string()), (3, HELLO.to_string()), (4, EMPTY.to_string())];
    let audit = complete_audit(
        built(),
        0,
        Some(files),
        HashAlgorithm::Sha256,
        "/data".to_string(),
        99,
    );
    let report = audit.audit_record.to_exported_report(&audit.nodes);
    assert_eq!(report.timestamp, 99);
    assert_eq!(report.algorithm, "SHA-256");
    assert_eq!(report.total_nodes, 5);
    assert_eq!(report.total_bytes, 12);
    assert_eq!(report.root_hash, audit.nodes[0].hash_hex);
    assert_eq!(report.nodes[3].path, "/data/sub/hello.txt");
    assert_eq!(report.nodes[3].parent, Some(2));
    assert_eq!(report.nodes[0].children, vec![1, 2, 4]);
}

#[test]
fn graph_has_an_edge_for_every_child() {
    let graph = build_petgraph_from_nodes(&built());
    assert_eq!(graph.node_count(), 5);
    assert_eq!(graph.edge_count(), 4);
    let edges: Vec<(usize, usize)> = graph
        .edge_indices()
        .map(|e| {
            let ends = graph.edge_endpoints(e).unwrap();
            (ends.0.index(), ends.1.index())
        })
        .collect();
    assert_eq!(edges, vec![(0, 1), (0, 2), (0, 4), (2, 3)]);
    let names: Vec<String> =
        graph.node_indices().map(|i| graph.node_weight(i).unwrap().name.clone()).collect();
    assert_eq!(names, vec!["data", "a.txt", "sub", "hello.txt", "zeta"]);
}
