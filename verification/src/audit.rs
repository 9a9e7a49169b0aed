//! Audit records, the audit ledger and the completion of an audit.

use vstd::prelude::*;
use vstd::string::*;
use vstd::utf8::*;
use crate::export::{ExportedAuditReport, ExportedNode, ExportedNodeView, ReportView};
use crate::hashing::{algorithm_label, blake3_hex, sha256_hex, HashAlgorithm};
use crate::merkle::{
    compute_hashes, covers_files, hash_pairs, hash_texts, merkle_hashed, same_but_directory_hashes,
    with_hashes,
};
use crate::node::{consistent, same_but_hashes, table, tree_wf, Node, NodeView};
use crate::text::{decimal, lemma_line_end, lemma_lines_append, line_end, lines, push_decimal,
    split_lines, text_option, texts};

verus! {

/// The result of an audit.
#[derive(Debug)]
pub struct AuditRecord {
    /// Seconds since the epoch.
    pub timestamp: u64,
    pub root_hash: String,
    pub target_path: String,
    pub algorithm: HashAlgorithm,
}

/// The contents of an `AuditRecord`.
pub struct RecordView {
    pub timestamp: u64,
    pub root_hash: Seq<char>,
    pub target_path: Seq<char>,
    pub algorithm: HashAlgorithm,
}

impl View for AuditRecord {
    type V = RecordView;

    open spec fn view(&self) -> RecordView {
        RecordView {
            timestamp: self.timestamp,
            root_hash: self.root_hash@,
            target_path: self.target_path@,
            algorithm: self.algorithm,
        }
    }
}

impl Clone for AuditRecord {
    fn clone(&self) -> (copy: Self)
        ensures
            copy@ == self@,
    {
        AuditRecord {
            timestamp: self.timestamp,
            root_hash: self.root_hash.clone(),
            target_path: self.target_path.clone(),
            algorithm: self.algorithm,
        }
    }
}

/// The ledger's entry for an audit, without its line ending.
pub open spec fn ledger_entry(record: RecordView) -> Seq<char> {
    "["@ + decimal(record.timestamp as nat) + "] PATH: "@ + record.target_path
        + " | MERKLE_ROOT_"@ + algorithm_label(record.algorithm) + ": "@ + record.root_hash
}

/// The sizes of the nodes of a table, added up.
pub open spec fn total_size(t: Seq<NodeView>) -> nat
    decreases t.len(),
{
    if t.len() == 0 {
        0
    } else {
        total_size(t.drop_last()) + t.last().size_bytes as nat
    }
}

/// A node as it is exported.
pub open spec fn exported_node(node: NodeView) -> ExportedNodeView {
    ExportedNodeView {
        id: node.id,
        name: node.name,
        path: node.path,
        hash_hex: node.hash_hex,
        is_dir: node.is_dir,
        size_bytes: node.size_bytes,
        modified_timestamp: node.modified_timestamp,
        parent: node.parent,
        children: node.children,
    }
}

/// An audit as it is exported.
pub open spec fn exported_report(record: RecordView, t: Seq<NodeView>) -> ReportView {
    ReportView {
        timestamp: record.timestamp,
        root_hash: record.root_hash,
        target_path: record.target_path,
        algorithm: algorithm_label(record.algorithm),
        total_nodes: t.len() as usize,
        total_bytes: total_size(t) as u64,
        nodes: t.map_values(|node: NodeView| exported_node(node)),
    }
}

/// The sizes of the first nodes add up to no more than those of all.
pub proof fn lemma_total_size_take(t: Seq<NodeView>, k: int)
    requires
        0 <= k <= t.len(),
    ensures
        total_size(t.take(k)) <= total_size(t),
    decreases t.len() - k,
{
    if k < t.len() {
        lemma_total_size_take(t, k + 1);
        assert(t.take(k + 1).drop_last() =~= t.take(k));
    } else {
        assert(t.take(k) =~= t);
    }
}

/// The total size of a table is the sum of the sizes of all its nodes.
pub proof fn law_total_size_is_sum(t: Seq<NodeView>)
    ensures
        total_size(t) == t.map_values(|node: NodeView| node.size_bytes as int).fold_left(
            0,
            |sum: int, size: int| sum + size,
        ),
    decreases t.len(),
{
    let sizes = t.map_values(|node: NodeView| node.size_bytes as int);
    if t.len() > 0 {
        law_total_size_is_sum(t.drop_last());
        assert(sizes.drop_last() =~= t.drop_last().map_values(
            |node: NodeView| node.size_bytes as int,
        ));
    }
}

/// An exported report holds what the audit's record and its tree hold, each
/// under its own name: node `i` of the report has the id, name, path, hash,
/// kind, size, time, parent and children of node `i` of the tree, and the
/// totals are the number of the report's nodes and the sum of their sizes.
pub proof fn law_export_keeps_every_field(
    record: RecordView,
    t: Seq<NodeView>,
    report: ReportView,
    i: int,
)
    requires
        report == exported_report(record, t),
        t.len() <= usize::MAX,
        total_size(t) <= u64::MAX,
    ensures
        report.timestamp == record.timestamp,
        report.root_hash == record.root_hash,
        report.target_path == record.target_path,
        record.algorithm == HashAlgorithm::Sha256 ==> report.algorithm == "SHA-256"@,
        record.algorithm == HashAlgorithm::Blake3 ==> report.algorithm == "BLAKE3"@,
        report.nodes.len() == t.len(),
        report.total_nodes == report.nodes.len(),
        report.total_bytes == report.nodes.map_values(
            |node: ExportedNodeView| node.size_bytes as int,
        ).fold_left(0, |sum: int, size: int| sum + size),
        0 <= i < t.len() ==> report.nodes[i].id == t[i].id,
        0 <= i < t.len() ==> report.nodes[i].name == t[i].name,
        0 <= i < t.len() ==> report.nodes[i].path == t[i].path,
        0 <= i < t.len() ==> report.nodes[i].hash_hex == t[i].hash_hex,
        0 <= i < t.len() ==> report.nodes[i].is_dir == t[i].is_dir,
        0 <= i < t.len() ==> report.nodes[i].size_bytes == t[i].size_bytes,
        0 <= i < t.len() ==> report.nodes[i].modified_timestamp == t[i].modified_timestamp,
        0 <= i < t.len() ==> report.nodes[i].parent == t[i].parent,
        0 <= i < t.len() ==> report.nodes[i].children == t[i].children,
{
    law_total_size_is_sum(t);
    assert(report.nodes.map_values(|node: ExportedNodeView| node.size_bytes as int)
        =~= t.map_values(|node: NodeView| node.size_bytes as int));
}

/// The ledger's entry names the time of the audit in seconds, the audited
/// path, the algorithm and the root hash, in this order.
pub proof fn law_ledger_entry(record: RecordView)
    ensures
        record.algorithm == HashAlgorithm::Sha256 ==> ledger_entry(record) == "["@ + decimal(
            record.timestamp as nat,
        ) + "] PATH: "@ + record.target_path + " | MERKLE_ROOT_SHA-256: "@ + record.root_hash,
        record.algorithm == HashAlgorithm::Blake3 ==> ledger_entry(record) == "["@ + decimal(
            record.timestamp as nat,
        ) + "] PATH: "@ + record.target_path + " | MERKLE_ROOT_BLAKE3: "@ + record.root_hash,
{
    reveal_strlit(" | MERKLE_ROOT_");
    reveal_strlit("SHA-256");
    reveal_strlit("BLAKE3");
    reveal_strlit(": ");
    reveal_strlit(" | MERKLE_ROOT_SHA-256: ");
    reveal_strlit(" | MERKLE_ROOT_BLAKE3: ");
    let start = "["@ + decimal(record.timestamp as nat) + "] PATH: "@ + record.target_path;
    assert(" | MERKLE_ROOT_"@ + "SHA-256"@ + ": "@ =~= " | MERKLE_ROOT_SHA-256: "@);
    assert(" | MERKLE_ROOT_"@ + "BLAKE3"@ + ": "@ =~= " | MERKLE_ROOT_BLAKE3: "@);
    let label = algorithm_label(record.algorithm);
    assert(ledger_entry(record) =~= start + (" | MERKLE_ROOT_"@ + label + ": "@)
        + record.root_hash);
}

/// A node as it is exported.
fn export_node(node: &Node) -> (exported: ExportedNode)
    ensures
        exported@ == exported_node(node@),
        exported.id == node.id,
        exported.name@ == node.name@,
        exported.path@ == node.path@,
        exported.hash_hex@ == node.hash_hex@,
        exported.is_dir == node.is_dir,
        exported.size_bytes == node.size_bytes,
        exported.modified_timestamp == node.modified_timestamp,
        exported.parent == node.parent,
        exported.children@ == node.children@,
{
    let exported = ExportedNode {
        id: node.id,
        name: node.name.clone(),
        path: node.path.clone(),
        hash_hex: node.hash_hex.clone(),
        is_dir: node.is_dir,
        size_bytes: node.size_bytes,
        modified_timestamp: node.modified_timestamp,
        parent: node.parent,
        children: node.children.clone(),
    };
    assert(exported.children@ =~= node.children@);
    exported
}

impl AuditRecord {
    /// The line that the ledger holds for the audit, with its line ending.
    pub fn ledger_line(&self) -> (line: String)
        ensures
            line@ == ledger_entry(self@).push('\n'),
            self.algorithm == HashAlgorithm::Sha256 ==> line@ == "["@ + decimal(
                self.timestamp as nat,
            ) + "] PATH: "@ + self.target_path@ + " | MERKLE_ROOT_SHA-256: "@ + self.root_hash@
                + seq!['\n'],
            self.algorithm == HashAlgorithm::Blake3 ==> line@ == "["@ + decimal(
                self.timestamp as nat,
            ) + "] PATH: "@ + self.target_path@ + " | MERKLE_ROOT_BLAKE3: "@ + self.root_hash@
                + seq!['\n'],
    {
        let mut line = String::new();
        line.append("[");
        push_decimal(&mut line, self.timestamp);
        line.append("] PATH: ");
        line.append(self.target_path.as_str());
        line.append(" | MERKLE_ROOT_");
        line.append(self.algorithm.label());
        line.append(": ");
        line.append(self.root_hash.as_str());
        assert(line@ =~= ledger_entry(self@));
        line.push('\n');
        proof {
            law_ledger_entry(self@);
            let entry = ledger_entry(self@);
            assert(entry.push('\n') =~= entry + seq!['\n']);
        }
        line
    }

    /// The audit as it is exported, with all the nodes of its tree.
    pub fn to_exported_report(&self, nodes: &[Node]) -> (report: ExportedAuditReport)
        requires
            total_size(table(nodes@)) <= u64::MAX,
        ensures
            report@ == exported_report(self@, table(nodes@)),
            report.timestamp == self.timestamp,
            report.root_hash@ == self.root_hash@,
            report.target_path@ == self.target_path@,
            self.algorithm == HashAlgorithm::Sha256 ==> report.algorithm@ == "SHA-256"@,
            self.algorithm == HashAlgorithm::Blake3 ==> report.algorithm@ == "BLAKE3"@,
            report.total_nodes == nodes.len(),
            report.nodes.len() == nodes.len(),
            forall|i: int|
                0 <= i < nodes.len() ==> {
                    let exported = #[trigger] report.nodes@[i];
                    let node = nodes@[i];
                    &&& exported.id == node.id
                    &&& exported.name@ == node.name@
                    &&& exported.path@ == node.path@
                    &&& exported.hash_hex@ == node.hash_hex@
                    &&& exported.is_dir == node.is_dir
                    &&& exported.size_bytes == node.size_bytes
                    &&& exported.modified_timestamp == node.modified_timestamp
                    &&& exported.parent == node.parent
                    &&& exported.children@ == node.children@
                },
            report.total_bytes == report.nodes@.map_values(
                |node: ExportedNode| node.size_bytes as int,
            ).fold_left(0, |sum: int, size: int| sum + size),
    {
        let ghost t = table(nodes@);
        let ghost exported = t.map_values(|node: NodeView| exported_node(node));
        let mut total_bytes: u64 = 0;
        let mut list: Vec<ExportedNode> = Vec::new();
        let mut i: usize = 0;
        while i < nodes.len()
            invariant
                t == table(nodes@),
                exported == t.map_values(|node: NodeView| exported_node(node)),
                total_size(t) <= u64::MAX,
                i <= nodes.len(),
                total_bytes == total_size(t.take(i as int)),
                list@.map_values(|node: ExportedNode| node@) == exported.take(i as int),
                list.len() == i,
                forall|j: int|
                    0 <= j < i ==> {
                        let exported = #[trigger] list@[j];
                        let node = nodes@[j];
                        &&& exported.id == node.id
                        &&& exported.name@ == node.name@
                        &&& exported.path@ == node.path@
                        &&& exported.hash_hex@ == node.hash_hex@
                        &&& exported.is_dir == node.is_dir
                        &&& exported.size_bytes == node.size_bytes
                        &&& exported.modified_timestamp == node.modified_timestamp
                        &&& exported.parent == node.parent
                        &&& exported.children@ == node.children@
                    },
            decreases nodes.len() - i,
        {
            proof {
                lemma_total_size_take(t, i + 1);
                assert(t.take(i + 1).drop_last() =~= t.take(i as int));
                assert(t.take(i + 1).last() == nodes@[i as int]@);
            }
            let ghost before = list@;
            total_bytes = total_bytes + nodes[i].size_bytes;
            list.push(export_node(&nodes[i]));
            i = i + 1;
            assert(list@.map_values(|node: ExportedNode| node@) =~= before.map_values(
                |node: ExportedNode| node@,
            ).push(exported_node(t[i - 1])));
            assert(exported.take(i as int) =~= exported.take(i - 1).push(exported[i - 1]));
        }
        assert(t.take(i as int) =~= t);
        assert(exported.take(i as int) =~= exported);
        proof {
            law_total_size_is_sum(t);
            assert(list@.map_values(|node: ExportedNode| node.size_bytes as int)
                =~= t.map_values(|node: NodeView| node.size_bytes as int)) by {
                assert forall|j: int| 0 <= j < t.len() implies #[trigger] list@[j].size_bytes
                    == t[j].size_bytes by {
                    assert(t[j] == nodes@[j]@);
                }
            }
        }
        ExportedAuditReport {
            timestamp: self.timestamp,
            root_hash: self.root_hash.clone(),
            target_path: self.target_path.clone(),
            algorithm: self.algorithm.label().to_owned(),
            total_nodes: nodes.len(),
            total_bytes,
            nodes: list,
        }
    }
}

/// What a tree builder reports while it works and when it is done.
#[derive(Debug)]
pub enum WorkerMessage {
    TreeBuilt { nodes: Vec<Node>, root_id: usize, audit_record: AuditRecord },
    Progress { current: usize, total: usize },
    FileAdded(String),
    Error(String),
}

/// Whether progress is reported after `done` files.
pub open spec fn reports_progress(done: usize, total: usize) -> bool {
    total > 0 && done % 10 == 0
}

/// The report on progress after `done` of `total` files: every tenth file brings one.
pub fn progress_message(done: usize, total: usize) -> (message: Option<WorkerMessage>)
    ensures
        message == (if reports_progress(done, total) {
            Some(WorkerMessage::Progress { current: done, total })
        } else {
            None
        }),
        message is Some <==> total > 0 && done % 10 == 0,
        message matches Some(m) ==> m == (WorkerMessage::Progress { current: done, total }),
{
    if total > 0 && done % 10 == 0 {
        Some(WorkerMessage::Progress { current: done, total })
    } else {
        None
    }
}

/// Marks every node as not hashed.
fn disable_hashes(nodes: &mut Vec<Node>)
    ensures
        same_but_hashes(table(old(nodes)@), table(final(nodes)@)),
        forall|i: int|
            0 <= i < final(nodes).len() ==> (#[trigger] table(final(nodes)@)[i]).hash_hex
                == "DISABLED"@,
{
    let ghost start = table(nodes@);
    let mut i: usize = 0;
    while i < nodes.len()
        invariant
            i <= nodes.len(),
            same_but_hashes(start, table(nodes@)),
            forall|j: int| 0 <= j < i ==> (#[trigger] table(nodes@)[j]).hash_hex == "DISABLED"@,
        decreases nodes.len() - i,
    {
        let ghost before = table(nodes@);
        nodes[i].hash_hex = "DISABLED".to_owned();
        proof {
            let after = table(nodes@);
            assert(after =~= before.update(i as int, before[i as int].with_hash("DISABLED"@)));
            assert forall|j: int| 0 <= j < start.len() implies (#[trigger] after[j])
                == start[j].with_hash(after[j].hash_hex) by {
                assert(before[j] == start[j].with_hash(before[j].hash_hex));
            }
            assert forall|j: int| 0 <= j < i + 1 implies (#[trigger] after[j]).hash_hex
                == "DISABLED"@ by {
                if j < i {
                    assert(before[j].hash_hex == "DISABLED"@);
                }
            }
        }
        i = i + 1;
    }
}

/// What an audited table is made of the table that was built: hashed over the
/// hashes of its files, or marked as not hashed.
pub open spec fn audited(
    built: Seq<NodeView>,
    file_hashes: Option<Seq<(usize, Seq<char>)>>,
    algorithm: HashAlgorithm,
    t: Seq<NodeView>,
) -> bool {
    match file_hashes {
        Some(hashes) => {
            &&& same_but_directory_hashes(with_hashes(built, hashes), t)
            &&& merkle_hashed(t, algorithm)
        },
        None => {
            &&& same_but_hashes(built, t)
            &&& forall|i: int| 0 <= i < t.len() ==> (#[trigger] t[i]).hash_hex == "DISABLED"@
        },
    }
}

/// The root hash that goes on record for an audited table.
pub open spec fn recorded_root(t: Seq<NodeView>, root_id: usize, hashed: bool) -> Seq<char> {
    if t.len() == 0 {
        "EMPTY_DIRECTORY"@
    } else if hashed {
        t[root_id as int].hash_hex
    } else {
        "HASH_DISABLED_TEMPORARY"@
    }
}

/// The contents of a list of hashes that may be missing.
pub open spec fn hash_pairs_option(
    file_hashes: Option<Vec<(usize, String)>>,
) -> Option<Seq<(usize, Seq<char>)>> {
    match file_hashes {
        Some(hashes) => Some(hash_pairs(hashes@)),
        None => None,
    }
}

/// A completed audit: the message that announces it, and the line for the
/// ledger. An audit that found nothing leaves no line.
pub struct CompletedAudit {
    pub nodes: Vec<Node>,
    pub root_id: usize,
    pub audit_record: AuditRecord,
    pub ledger_line: Option<String>,
}

/// Completes an audit: hashes the tree that was built over the hashes of its
/// files, or marks it as not hashed where there are none, and records the
/// root hash.
pub fn complete_audit(
    nodes: Vec<Node>,
    root_id: usize,
    file_hashes: Option<Vec<(usize, String)>>,
    algorithm: HashAlgorithm,
    target_path: String,
    timestamp: u64,
) -> (audit: CompletedAudit)
    requires
        consistent(table(nodes@)),
        nodes.len() > 0 ==> root_id < nodes.len(),
        file_hashes matches Some(hashes) ==> forall|k: int|
            0 <= k < hashes.len() ==> (#[trigger] hashes@[k]).0 < nodes.len(),
    ensures
        audited(
            table(nodes@),
            hash_pairs_option(file_hashes),
            algorithm,
            table(audit.nodes@),
        ),
        audit.root_id == (if nodes.len() == 0 {
            0
        } else {
            root_id
        }),
        audit.audit_record@ == (RecordView {
            timestamp,
            root_hash: recorded_root(table(audit.nodes@), root_id, file_hashes is Some),
            target_path: target_path@,
            algorithm,
        }),
        text_option(audit.ledger_line) == (if nodes.len() == 0 {
            None
        } else {
            Some(ledger_entry(audit.audit_record@).push('\n'))
        }),
        same_but_hashes(table(nodes@), table(audit.nodes@)),
        tree_wf(table(nodes@)) ==> tree_wf(table(audit.nodes@)),
        file_hashes matches Some(hashes) ==> (covers_files(table(nodes@), hash_pairs(hashes@))
            ==> hash_texts(table(audit.nodes@))),
        audit.nodes.len() == nodes.len(),
        forall|i: int|
            0 <= i < nodes.len() ==> {
                let before = nodes@[i];
                let after = #[trigger] audit.nodes@[i];
                &&& after.id == before.id
                &&& after.name@ == before.name@
                &&& after.path@ == before.path@
                &&& after.children@ == before.children@
                &&& after.parent == before.parent
                &&& after.modified_timestamp == before.modified_timestamp
                &&& after.size_bytes == before.size_bytes
                &&& after.is_dir == before.is_dir
                &&& after.source == before.source
            },
        file_hashes is Some && algorithm == HashAlgorithm::Sha256 ==> forall|i: int|
            0 <= i < audit.nodes.len() && (#[trigger] audit.nodes@[i]).is_dir
                ==> audit.nodes@[i].hash_hex@ == sha256_hex(
                encode_utf8(
                    Seq::new(
                        audit.nodes@[i].children@.len(),
                        |k: int| audit.nodes@[audit.nodes@[i].children@[k] as int].hash_hex@,
                    ).flatten(),
                ),
            ),
        file_hashes is Some && algorithm == HashAlgorithm::Blake3 ==> forall|i: int|
            0 <= i < audit.nodes.len() && (#[trigger] audit.nodes@[i]).is_dir
                ==> audit.nodes@[i].hash_hex@ == blake3_hex(
                encode_utf8(
                    Seq::new(
                        audit.nodes@[i].children@.len(),
                        |k: int| audit.nodes@[audit.nodes@[i].children@[k] as int].hash_hex@,
                    ).flatten(),
                ),
            ),
        file_hashes matches Some(hashes) ==> forall|i: int, k: int|
            0 <= i < nodes.len() && !nodes@[i].is_dir && 0 <= k < hashes.len() && hashes@[k].0 == i
                && (forall|m: int| k < m < hashes.len() ==> (#[trigger] hashes@[m]).0 != i)
                ==> #[trigger] audit.nodes@[i].hash_hex@ == (#[trigger] hashes@[k]).1@,
        file_hashes is None ==> forall|i: int|
            0 <= i < audit.nodes.len() ==> (#[trigger] audit.nodes@[i]).hash_hex@ == "DISABLED"@,
        audit.audit_record.timestamp == timestamp,
        audit.audit_record.target_path@ == target_path@,
        audit.audit_record.algorithm == algorithm,
        nodes.len() == 0 ==> audit.audit_record.root_hash@ == "EMPTY_DIRECTORY"@,
        nodes.len() > 0 && file_hashes is Some ==> audit.audit_record.root_hash@
            == audit.nodes@[root_id as int].hash_hex@,
        nodes.len() > 0 && file_hashes is None ==> audit.audit_record.root_hash@
            == "HASH_DISABLED_TEMPORARY"@,
        audit.ledger_line is Some <==> nodes.len() > 0,
        audit.ledger_line matches Some(line) ==> algorithm == HashAlgorithm::Sha256 ==> line@
            == "["@ + decimal(timestamp as nat) + "] PATH: "@ + target_path@
            + " | MERKLE_ROOT_SHA-256: "@ + audit.audit_record.root_hash@ + seq!['\n'],
        audit.ledger_line matches Some(line) ==> algorithm == HashAlgorithm::Blake3 ==> line@
            == "["@ + decimal(timestamp as nat) + "] PATH: "@ + target_path@
            + " | MERKLE_ROOT_BLAKE3: "@ + audit.audit_record.root_hash@ + seq!['\n'],
{
    let ghost built = table(nodes@);
    let ghost given = file_hashes;
    let mut nodes = nodes;
    let hashed = file_hashes.is_some();
    match file_hashes {
        Some(hashes) => {
            compute_hashes(&mut nodes, algorithm, hashes);
        },
        None => {
            let ghost first = nodes@;
            disable_hashes(&mut nodes);
            proof {
                let t = table(nodes@);
                assert forall|i: int| 0 <= i < t.len() implies {
                    let before = first[i];
                    let after = #[trigger] nodes@[i];
                    &&& after.id == before.id
                    &&& after.name@ == before.name@
                    &&& after.path@ == before.path@
                    &&& after.children@ == before.children@
                    &&& after.parent == before.parent
                    &&& after.modified_timestamp == before.modified_timestamp
                    &&& after.size_bytes == before.size_bytes
                    &&& after.is_dir == before.is_dir
                    &&& after.source == before.source
                    &&& after.hash_hex@ == "DISABLED"@
                } by {
                    assert(built[i] == first[i]@);
                    assert(t[i] == nodes@[i]@);
                    assert(t[i] == built[i].with_hash(t[i].hash_hex));
                }
                if tree_wf(built) {
                    crate::node::lemma_tree_wf_same(built, table(nodes@));
                }
            }
        },
    }
    if nodes.len() == 0 {
        let audit_record = AuditRecord {
            timestamp,
            root_hash: "EMPTY_DIRECTORY".to_owned(),
            target_path,
            algorithm,
        };
        return CompletedAudit { nodes, root_id: 0, audit_record, ledger_line: None };
    }
    let root_hash = if hashed {
        nodes[root_id].hash_hex.clone()
    } else {
        "HASH_DISABLED_TEMPORARY".to_owned()
    };
    let audit_record = AuditRecord { timestamp, root_hash, target_path, algorithm };
    let ledger_line = Some(audit_record.ledger_line());
    CompletedAudit { nodes, root_id, audit_record, ledger_line }
}

/// The lines of the ledger, in the order in which they were written.
pub fn history_lines(ledger: &str) -> (history: Vec<String>)
    ensures
        texts(history@) == lines(ledger@),
{
    split_lines(ledger)
}

/// The ledger gives back what was appended to it: after an audit is recorded
/// its history is the history before, followed by the audit's entry. An entry
/// that holds a line feed or ends in a carriage return does not read back as
/// one line.
pub proof fn law_ledger_reads_back(ledger: Seq<char>, record: RecordView)
    requires
        ledger.len() == 0 || ledger.last() == '\n',
        !ledger_entry(record).contains('\n'),
        ledger_entry(record).last() != '\r',
    ensures
        lines(ledger + ledger_entry(record).push('\n')) == lines(ledger).push(ledger_entry(record)),
{
    let entry = ledger_entry(record);
    let line = entry.push('\n');
    lemma_lines_append(ledger, line);
    lemma_line_end(line);
    let end = line_end(line) as int;
    assert(line[entry.len() as int] == '\n');
    assert(end == entry.len()) by {
        if end < entry.len() {
            assert(entry[end] == '\n');
            assert(entry.contains('\n'));
        }
    }
    assert(line.take(end) =~= entry);
    assert(line.skip(end + 1) =~= Seq::empty());
    assert(lines(Seq::<char>::empty()) =~= Seq::empty());
    assert(lines(line) =~= seq![entry]);
    assert(lines(ledger) + lines(line) =~= lines(ledger).push(entry));
}

} // verus!
