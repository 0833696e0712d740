//! Data types shared by the scanner, the pruning step and the export code,
//! together with their mathematical views.

use vstd::prelude::*;

verus! {

/// A node in the scanned disk tree: a directory with all of its descendants
/// aggregated, or a single file.
///
/// `truncated` marks nodes whose children were collapsed by the pruning step
/// (depth budget exhausted, children aggregated into "(其他 N 项)", or loose
/// files folded into "(N 个文件)").
pub struct TreeNode {
    pub name: String,
    /// Total size including every descendant (a file: its own size).
    pub size: u64,
    /// On-disk footprint including every descendant.
    pub allocated_size: u64,
    /// Logical size of the files directly inside this directory (a file: `size`).
    pub size_self: u64,
    /// On-disk footprint of the files directly inside this directory.
    pub allocated_self: u64,
    /// Number of files in this subtree.
    pub file_count: u32,
    /// Number of folders strictly below this node.
    pub folder_count: u32,
    /// Last modification time in Unix seconds; 0 when unknown.
    pub last_modified: i64,
    pub children: Vec<TreeNode>,
    pub truncated: bool,
}

/// The mathematical value of a `TreeNode`: the same fields with the name as a
/// character sequence and the children as a sequence of views.
#[verifier::ext_equal]
pub struct NodeView {
    pub name: Seq<char>,
    pub size: u64,
    pub allocated_size: u64,
    pub size_self: u64,
    pub allocated_self: u64,
    pub file_count: u32,
    pub folder_count: u32,
    pub last_modified: i64,
    pub children: Seq<NodeView>,
    pub truncated: bool,
}

/// The value given for positions outside the index range of a sequence.
pub open spec fn empty_view() -> NodeView {
    NodeView {
        name: Seq::empty(),
        size: 0,
        allocated_size: 0,
        size_self: 0,
        allocated_self: 0,
        file_count: 0,
        folder_count: 0,
        last_modified: 0,
        children: Seq::empty(),
        truncated: false,
    }
}

pub open spec fn node_view(n: TreeNode) -> NodeView
    decreases n,
{
    NodeView {
        name: n.name@,
        size: n.size,
        allocated_size: n.allocated_size,
        size_self: n.size_self,
        allocated_self: n.allocated_self,
        file_count: n.file_count,
        folder_count: n.folder_count,
        last_modified: n.last_modified,
        children: Seq::new(
            n.children@.len(),
            |i: int|
                if 0 <= i < n.children@.len() {
                    node_view(n.children@[i])
                } else {
                    empty_view()
                },
        ),
        truncated: n.truncated,
    }
}

impl View for TreeNode {
    type V = NodeView;

    open spec fn view(&self) -> NodeView {
        node_view(*self)
    }
}

/// Views of a sequence of nodes.
pub open spec fn views(s: Seq<TreeNode>) -> Seq<NodeView> {
    Seq::new(s.len(), |i: int| node_view(s[i]))
}

/// Views of a sequence of node references.
pub open spec fn ref_views(s: Seq<&TreeNode>) -> Seq<NodeView> {
    Seq::new(s.len(), |i: int| node_view(*s[i]))
}

pub proof fn lemma_children_views(n: TreeNode)
    ensures
        n@.children == views(n.children@),
{
    assert(n@.children =~= views(n.children@));
}

/// Errors met while scanning: the full count and the first messages.
pub struct ScanErrors {
    /// Total number of errors encountered during the scan.
    pub count: u64,
    /// Up to `ERROR_LOG_CAP` detail messages, oldest first.
    pub samples: Vec<String>,
}

/// One drive or mount point for the drive picker.
pub struct DriveInfo {
    /// Drive letter with colon ("C:") or mount point ("/home").
    pub letter: String,
    /// Volume label; empty when unknown.
    pub label: String,
    /// Human-readable drive type or filesystem name.
    pub kind: String,
}

/// Result of a scan: the pruned tree plus totals and volume facts.
pub struct ScanResult {
    pub root: TreeNode,
    pub strategy_used: String,
    pub elapsed_ms: u64,
    pub total_files: u64,
    pub total_folders: u64,
    pub total_size: u64,
    /// Volume free space in bytes; 0 when unavailable.
    pub free_bytes: u64,
    /// Volume capacity in bytes; 0 when unavailable.
    pub total_bytes: u64,
    /// Filesystem name; empty when unavailable.
    pub fs_type: String,
    /// Bytes per cluster; 0 when unknown.
    pub cluster_size: u32,
    pub errors: ScanErrors,
}

/// Progress payload emitted while a scan runs.
pub struct ScanProgress {
    pub scanned_files: u64,
    pub scanned_folders: u64,
    pub current_dir: String,
}

#[verifier::external_type_specification]
#[verifier::external_body]
pub struct ExIoError(std::io::Error);

/// Errors produced while scanning.
pub enum ScannerError {
    Io(std::io::Error),
    Msg(String),
}

impl From<String> for ScannerError {
    fn from(s: String) -> (r: Self) {
        ScannerError::Msg(s)
    }
}

impl vstd::std_specs::convert::FromSpecImpl<String> for ScannerError {
    open spec fn obeys_from_spec() -> bool {
        true
    }

    open spec fn from_spec(v: String) -> Self {
        ScannerError::Msg(v)
    }
}

} // verus!
