//! Audit reports as they are exported.

use vstd::prelude::*;

verus! {

/// A node of an exported report.
#[derive(Debug, Clone)]
pub struct ExportedNode {
    pub id: usize,
    pub name: String,
    pub path: String,
    pub hash_hex: String,
    pub is_dir: bool,
    pub size_bytes: u64,
    pub modified_timestamp: u64,
    pub parent: Option<usize>,
    pub children: Vec<usize>,
}

/// The contents of an `ExportedNode`.
#[verifier::ext_equal]
pub struct ExportedNodeView {
    pub id: usize,
    pub name: Seq<char>,
    pub path: Seq<char>,
    pub hash_hex: Seq<char>,
    pub is_dir: bool,
    pub size_bytes: u64,
    pub modified_timestamp: u64,
    pub parent: Option<usize>,
    pub children: Seq<usize>,
}

impl View for ExportedNode {
    type V = ExportedNodeView;

    open spec fn view(&self) -> ExportedNodeView {
        ExportedNodeView {
            id: self.id,
            name: self.name@,
            path: self.path@,
            hash_hex: self.hash_hex@,
            is_dir: self.is_dir,
            size_bytes: self.size_bytes,
            modified_timestamp: self.modified_timestamp,
            parent: self.parent,
            children: self.children@,
        }
    }
}

/// An exported audit: the audit's record and every node of its tree.
#[derive(Debug, Clone)]
pub struct ExportedAuditReport {
    pub timestamp: u64,
    pub root_hash: String,
    pub target_path: String,
    pub algorithm: String,
    pub total_nodes: usize,
    pub total_bytes: u64,
    pub nodes: Vec<ExportedNode>,
}

/// The contents of an `ExportedAuditReport`.
#[verifier::ext_equal]
pub struct ReportView {
    pub timestamp: u64,
    pub root_hash: Seq<char>,
    pub target_path: Seq<char>,
    pub algorithm: Seq<char>,
    pub total_nodes: usize,
    pub total_bytes: u64,
    pub nodes: Seq<ExportedNodeView>,
}

impl View for ExportedAuditReport {
    type V = ReportView;

    open spec fn view(&self) -> ReportView {
        ReportView {
            timestamp: self.timestamp,
            root_hash: self.root_hash@,
            target_path: self.target_path@,
            algorithm: self.algorithm@,
            total_nodes: self.total_nodes,
            total_bytes: self.total_bytes,
            nodes: self.nodes@.map_values(|node: ExportedNode| node@),
        }
    }
}

} // verus!
