//! The decisions of a directory walk: per-scan counters and error log,
//! progress throttling, file sizes rounded to clusters, and the aggregation
//! of a directory from its files and sub-directories.

use vstd::prelude::*;
use crate::models::{TreeNode, NodeView, ScanErrors, ScanProgress, ScanResult, views, node_view, lemma_children_views};
use crate::order::{sort_desc, sort_vec, lemma_sort_map, lemma_sort_multiset, lemma_sort_sorted, lemma_distinct_keys_perm,
    lemma_sorted_same_elements, distinct_keys};
use crate::totals::{Field, sum_field, sums_fit_within, sums_fit_seq, lemma_sum_take_step, lemma_sum_split, lemma_sum_concat};
use crate::prune::{TopNMode, prune, prune_view};
use crate::volinfo::VolumeInfo;
use crate::text::str_equal;

verus! {

/// Maximum number of error messages kept by a scan; the count goes on.
pub const ERROR_LOG_CAP: usize = 1000;

/// Minimum time between two progress reports, in nanoseconds (150 ms).
pub const REPORT_INTERVAL_NS: u64 = 150_000_000;

/// Default depth of the tree returned by a scan.
pub const DEFAULT_SCAN_DEPTH: u32 = 4;

/// Default depth of a lazily expanded node.
pub const DEFAULT_NODE_DEPTH: u32 = 2;

/// Default number of directory children kept per node.
pub const DEFAULT_TOP_N: u32 = 100;

/// The error log after recording `msg`: the message is kept while fewer
/// than `ERROR_LOG_CAP` messages are kept.
pub open spec fn logged(log: Seq<String>, msg: String) -> Seq<String> {
    if log.len() < ERROR_LOG_CAP { log.push(msg) } else { log }
}

/// The error log after recording `msgs` in order into an empty log.
pub open spec fn log_of(msgs: Seq<String>) -> Seq<String>
    decreases msgs.len(),
{
    if msgs.len() == 0 {
        Seq::empty()
    } else {
        logged(log_of(msgs.drop_last()), msgs.last())
    }
}

/// A progress report is due at `now_ns` when at least `REPORT_INTERVAL_NS`
/// passed since the last one at `last_ns` (an earlier `now_ns` counts as no
/// time passed).
pub open spec fn report_due(last_ns: u64, now_ns: u64) -> bool {
    now_ns >= last_ns && now_ns - last_ns >= REPORT_INTERVAL_NS
}

/// State shared by the walkers of one scan.
pub struct ScanCtx {
    pub scanned_files: u64,
    pub scanned_folders: u64,
    /// Time of the last progress report, in nanoseconds on a monotonic clock.
    pub last_emit_ns: u64,
    /// Total number of errors met.
    pub error_count: u64,
    /// The first `ERROR_LOG_CAP` error messages, oldest first.
    pub errors: Vec<String>,
    /// Bytes per cluster of the scanned volume; 0 when unknown.
    pub cluster: u32,
}

impl ScanCtx {
    /// A fresh context at time `now_ns`.
    pub fn new(now_ns: u64) -> (r: Self)
        ensures
            r.scanned_files == 0,
            r.scanned_folders == 0,
            r.last_emit_ns == now_ns,
            r.error_count == 0,
            r.errors@.len() == 0,
            r.cluster == 0,
    {
        ScanCtx {
            scanned_files: 0,
            scanned_folders: 0,
            last_emit_ns: now_ns,
            error_count: 0,
            errors: Vec::new(),
            cluster: 0,
        }
    }

    /// Records one scan error: the count always grows (wrapping), the message
    /// is kept unless `ERROR_LOG_CAP` messages are kept already.
    pub fn record_error(&mut self, msg: String)
        ensures
            final(self).error_count == (if old(self).error_count == u64::MAX { 0 } else { old(self).error_count + 1 }),
            final(self).errors@ == logged(old(self).errors@, msg),
            final(self).scanned_files == old(self).scanned_files,
            final(self).scanned_folders == old(self).scanned_folders,
            final(self).last_emit_ns == old(self).last_emit_ns,
            final(self).cluster == old(self).cluster,
    {
        self.error_count = if self.error_count == u64::MAX { 0 } else { self.error_count + 1 };
        if self.errors.len() < ERROR_LOG_CAP {
            self.errors.push(msg);
        }
    }

    /// Hands out the error count and messages and clears them for a fresh
    /// scan.
    pub fn take_errors(&mut self) -> (r: ScanErrors)
        ensures
            r.count == old(self).error_count,
            r.samples@ == old(self).errors@,
            final(self).error_count == 0,
            final(self).errors@.len() == 0,
            final(self).scanned_files == old(self).scanned_files,
            final(self).scanned_folders == old(self).scanned_folders,
            final(self).last_emit_ns == old(self).last_emit_ns,
            final(self).cluster == old(self).cluster,
    {
        let mut samples: Vec<String> = Vec::new();
        std::mem::swap(&mut samples, &mut self.errors);
        let count = self.error_count;
        self.error_count = 0;
        ScanErrors { count, samples }
    }

    /// Counts one scanned directory holding `files` files (both counters
    /// wrap).
    pub fn count_dir(&mut self, files: u64)
        ensures
            final(self).scanned_files == (old(self).scanned_files + files) % 0x1_0000_0000_0000_0000,
            final(self).scanned_folders == (old(self).scanned_folders + 1) % 0x1_0000_0000_0000_0000,
            final(self).error_count == old(self).error_count,
            final(self).errors@ == old(self).errors@,
            final(self).last_emit_ns == old(self).last_emit_ns,
            final(self).cluster == old(self).cluster,
    {
        self.scanned_files = self.scanned_files.wrapping_add(files);
        self.scanned_folders = self.scanned_folders.wrapping_add(1);
    }

    /// Counts `files` file records and `folders` directory records of a
    /// journal page (both counters wrap).
    pub fn count_records(&mut self, files: u64, folders: u64)
        ensures
            final(self).scanned_files == (old(self).scanned_files + files) % 0x1_0000_0000_0000_0000,
            final(self).scanned_folders == (old(self).scanned_folders + folders) % 0x1_0000_0000_0000_0000,
            final(self).error_count == old(self).error_count,
            final(self).errors@ == old(self).errors@,
            final(self).last_emit_ns == old(self).last_emit_ns,
            final(self).cluster == old(self).cluster,
    {
        self.scanned_files = self.scanned_files.wrapping_add(files);
        self.scanned_folders = self.scanned_folders.wrapping_add(folders);
    }

    /// Throttled progress: at time `now_ns`, a report is due when at least
    /// `REPORT_INTERVAL_NS` passed since the last one (an earlier `now_ns`
    /// counts as no time passed). A due report restarts the interval.
    pub fn report(&mut self, now_ns: u64, current_dir: String) -> (r: Option<ScanProgress>)
        ensures
            ({
                let due = report_due(old(self).last_emit_ns, now_ns);
                &&& due ==> (r matches Some(p) && p.scanned_files == old(self).scanned_files
                    && p.scanned_folders == old(self).scanned_folders && p.current_dir == current_dir)
                &&& due ==> final(self).last_emit_ns == now_ns
                &&& !due ==> r is None && final(self).last_emit_ns == old(self).last_emit_ns
            }),
            final(self).scanned_files == old(self).scanned_files,
            final(self).scanned_folders == old(self).scanned_folders,
            final(self).error_count == old(self).error_count,
            final(self).errors@ == old(self).errors@,
            final(self).cluster == old(self).cluster,
    {
        let elapsed = if now_ns >= self.last_emit_ns { now_ns - self.last_emit_ns } else { 0 };
        if elapsed >= REPORT_INTERVAL_NS {
            self.last_emit_ns = now_ns;
            Some(ScanProgress {
                scanned_files: self.scanned_files,
                scanned_folders: self.scanned_folders,
                current_dir,
            })
        } else {
            None
        }
    }
}

/// The on-disk footprint estimated from a logical size: rounded up to whole
/// clusters when the cluster size is known and the file is not empty.
pub open spec fn allocated_estimate_spec(len: u64, cluster: u32) -> int {
    if cluster > 0 && len > 0 {
        ((len + cluster - 1) / (cluster as int)) * cluster
    } else {
        len as int
    }
}

/// Estimates the allocated size of a file of `len` bytes (see
/// `allocated_estimate_spec`).
pub fn allocated_estimate(len: u64, cluster: u32) -> (r: u64)
    requires
        cluster > 0 && len > 0 ==> len + cluster - 1 <= u64::MAX,
    ensures
        r == allocated_estimate_spec(len, cluster),
{
    if cluster > 0 && len > 0 {
        let c = cluster as u64;
        let t = len + (c - 1);
        let q = t / c;
        assert(q * c <= t) by (nonlinear_arith)
            requires
                c > 0,
                q == t / c,
        ;
        q * c
    } else {
        len
    }
}

/// What the walk does with one entry of a directory.
#[derive(PartialEq, Eq, Structural, Clone, Copy, Debug)]
pub enum EntryAction {
    /// Left alone: a symbolic link or junction.
    Skip,
    /// Walked as a sub-directory.
    Descend,
    /// Counted as a file of the directory.
    Count,
}

/// The walk never follows symbolic links or junctions (so it cannot loop or
/// count a tree twice), descends into directories and counts everything
/// else as a file.
pub fn entry_action(is_symlink: bool, is_dir: bool) -> (r: EntryAction)
    ensures
        r == (if is_symlink {
            EntryAction::Skip
        } else if is_dir {
            EntryAction::Descend
        } else {
            EntryAction::Count
        }),
{
    if is_symlink {
        EntryAction::Skip
    } else if is_dir {
        EntryAction::Descend
    } else {
        EntryAction::Count
    }
}

/// The name of a node of the walk: the path as given at the root of the
/// scan, elsewhere its last component (empty when it has none).
pub fn walked_name(is_root: bool, full: String, last: Option<String>) -> (r: String)
    ensures
        r@ == (if is_root {
            full@
        } else {
            match last {
                Some(s) => s@,
                None => Seq::<char>::empty(),
            }
        }),
{
    if is_root {
        full
    } else {
        match last {
            Some(s) => s,
            None => String::new(),
        }
    }
}

/// A file node: one file, no folder, its own size as the size of its files.
pub fn file_node(name: String, size: u64, allocated_size: u64, last_modified: i64) -> (r: TreeNode)
    ensures
        r@.name == name@,
        r@.size == size,
        r@.allocated_size == allocated_size,
        r@.size_self == size,
        r@.allocated_self == allocated_size,
        r@.file_count == 1,
        r@.folder_count == 0,
        r@.last_modified == last_modified,
        r@.children.len() == 0,
        !r@.truncated,
{
    TreeNode {
        name,
        size,
        allocated_size,
        size_self: size,
        allocated_self: allocated_size,
        file_count: 1,
        folder_count: 0,
        last_modified,
        children: Vec::new(),
        truncated: false,
    }
}

/// The node of a directory from its file nodes and its sub-directory nodes:
/// sizes summed over both; files counted one each plus the files below the
/// sub-directories; folders counted one per sub-directory plus the folders
/// below them; the sizes of the direct files as its own sizes; children
/// ordered by size, largest first.
pub open spec fn dir_view(name: Seq<char>, last_modified: i64, files: Seq<NodeView>, subdirs: Seq<NodeView>) -> NodeView {
    NodeView {
        name: name,
        size: sum_field(subdirs + files, Field::Size) as u64,
        allocated_size: sum_field(subdirs + files, Field::Allocated) as u64,
        size_self: sum_field(files, Field::Size) as u64,
        allocated_self: sum_field(files, Field::Allocated) as u64,
        file_count: (files.len() + sum_field(subdirs, Field::Files)) as u32,
        folder_count: (subdirs.len() + sum_field(subdirs, Field::Folders)) as u32,
        last_modified: last_modified,
        children: sort_desc(subdirs + files),
        truncated: false,
    }
}

/// Sums of size and allocated size over `nodes`.
fn sum_sizes(nodes: &Vec<TreeNode>) -> (r: (u64, u64))
    requires
        sum_field(views(nodes@), Field::Size) <= u64::MAX,
        sum_field(views(nodes@), Field::Allocated) <= u64::MAX,
    ensures
        r.0 == sum_field(views(nodes@), Field::Size),
        r.1 == sum_field(views(nodes@), Field::Allocated),
{
    let ghost s = views(nodes@);
    let mut size: u64 = 0;
    let mut allocated: u64 = 0;
    let mut i: usize = 0;
    assert(s.take(0) =~= Seq::<NodeView>::empty());
    while i < nodes.len()
        invariant
            s == views(nodes@),
            sum_field(s, Field::Size) <= u64::MAX,
            sum_field(s, Field::Allocated) <= u64::MAX,
            i <= nodes@.len(),
            size == sum_field(s.take(i as int), Field::Size),
            allocated == sum_field(s.take(i as int), Field::Allocated),
        decreases nodes@.len() - i,
    {
        proof {
            lemma_sum_take_step(s, i as int, Field::Size);
            lemma_sum_take_step(s, i as int, Field::Allocated);
            lemma_sum_split(s, i + 1, Field::Size);
            lemma_sum_split(s, i + 1, Field::Allocated);
        }
        size = size + nodes[i].size;
        allocated = allocated + nodes[i].allocated_size;
        i = i + 1;
    }
    assert(s.take(nodes@.len() as int) =~= s);
    (size, allocated)
}

/// Sums of the file and folder counts over `nodes`.
fn sum_counts(nodes: &Vec<TreeNode>) -> (r: (u32, u32))
    requires
        sum_field(views(nodes@), Field::Files) <= u32::MAX,
        sum_field(views(nodes@), Field::Folders) <= u32::MAX,
    ensures
        r.0 == sum_field(views(nodes@), Field::Files),
        r.1 == sum_field(views(nodes@), Field::Folders),
{
    let ghost s = views(nodes@);
    let mut files: u32 = 0;
    let mut folders: u32 = 0;
    let mut i: usize = 0;
    assert(s.take(0) =~= Seq::<NodeView>::empty());
    while i < nodes.len()
        invariant
            s == views(nodes@),
            sum_field(s, Field::Files) <= u32::MAX,
            sum_field(s, Field::Folders) <= u32::MAX,
            i <= nodes@.len(),
            files == sum_field(s.take(i as int), Field::Files),
            folders == sum_field(s.take(i as int), Field::Folders),
        decreases nodes@.len() - i,
    {
        proof {
            lemma_sum_take_step(s, i as int, Field::Files);
            lemma_sum_take_step(s, i as int, Field::Folders);
            lemma_sum_split(s, i + 1, Field::Files);
            lemma_sum_split(s, i + 1, Field::Folders);
        }
        files = files + nodes[i].file_count;
        folders = folders + nodes[i].folder_count;
        i = i + 1;
    }
    assert(s.take(nodes@.len() as int) =~= s);
    (files, folders)
}

/// Aggregates a directory (see `dir_view`).
pub fn aggregate_dir(name: String, last_modified: i64, files: Vec<TreeNode>, subdirs: Vec<TreeNode>) -> (r: TreeNode)
    requires
        sum_field(views(subdirs@) + views(files@), Field::Size) <= u64::MAX,
        sum_field(views(subdirs@) + views(files@), Field::Allocated) <= u64::MAX,
        files@.len() + sum_field(views(subdirs@), Field::Files) <= u32::MAX,
        subdirs@.len() + sum_field(views(subdirs@), Field::Folders) <= u32::MAX,
    ensures
        r@ == dir_view(name@, last_modified, views(files@), views(subdirs@)),
{
    let ghost fv = views(files@);
    let ghost sv = views(subdirs@);
    proof {
        lemma_sum_concat(sv, fv, Field::Size);
        lemma_sum_concat(sv, fv, Field::Allocated);
        crate::totals::lemma_sum_nonneg(sv, Field::Size);
        crate::totals::lemma_sum_nonneg(sv, Field::Allocated);
        crate::totals::lemma_sum_nonneg(fv, Field::Size);
        crate::totals::lemma_sum_nonneg(fv, Field::Allocated);
        crate::totals::lemma_sum_nonneg(sv, Field::Files);
        crate::totals::lemma_sum_nonneg(sv, Field::Folders);
    }
    let (fsize, falloc) = sum_sizes(&files);
    let (ssize, salloc) = sum_sizes(&subdirs);
    let (sfiles, sfolders) = sum_counts(&subdirs);
    let nfiles = files.len() as u32;
    let nsub = subdirs.len() as u32;
    let mut all = subdirs;
    let mut rest = files;
    let ghost before = all@;
    let ghost fs = rest@;
    all.append(&mut rest);
    assert(views(all@) =~= sv + fv);
    let ghost joined = all@;
    let children = sort_vec(all);
    proof {
        let f = |t: TreeNode| node_view(t);
        lemma_sort_map(joined, f);
        assert(joined.map_values(f) =~= views(joined));
        assert(children@.map_values(f) =~= views(children@));
    }
    let r = TreeNode {
        name,
        size: ssize + fsize,
        allocated_size: salloc + falloc,
        size_self: fsize,
        allocated_self: falloc,
        file_count: nfiles + sfiles,
        folder_count: nsub + sfolders,
        last_modified,
        children,
        truncated: false,
    };
    proof {
        lemma_children_views(r);
    }
    assert(r@ =~= dir_view(name@, last_modified, fv, sv));
    r
}

/// Number of worker threads of a walk: the requested count when positive,
/// otherwise the available parallelism, otherwise 4.
pub fn worker_count(threads: Option<u32>, available: Option<usize>) -> (r: usize)
    ensures
        r == (match threads {
            Some(n) if n > 0 => n as usize,
            _ => match available {
                Some(a) => a,
                None => 4,
            },
        }),
{
    match threads {
        Some(n) if n > 0 => n as usize,
        _ => match available {
            Some(a) => a,
            None => 4,
        },
    }
}

/// The pruning mode named by a request: "percent" selects `Percent`,
/// anything else (or nothing) `Count`.
pub fn parse_top_n_mode(name: Option<&str>) -> (r: TopNMode)
    ensures
        r == (match name {
            Some(s) => if s@ == "percent"@ { TopNMode::Percent } else { TopNMode::Count },
            None => TopNMode::Count,
        }),
{
    match name {
        Some(s) => if str_equal(s, "percent") { TopNMode::Percent } else { TopNMode::Count },
        None => TopNMode::Count,
    }
}

/// The result of a scan: the full tree pruned for display, the tree's
/// totals, the volume facts (0 or empty when unknown) and the errors.
pub fn assemble_scan_result(
    full: &TreeNode,
    strategy_used: String,
    elapsed_ms: u64,
    vol: &Option<VolumeInfo>,
    errors: ScanErrors,
    max_depth: u32,
    top_n: u32,
    mode: TopNMode,
    merge_files: bool,
) -> (r: ScanResult)
    requires
        sums_fit_within(full@, max_depth as nat),
    ensures
        r.root@ == prune_view(full@, max_depth as nat, top_n as nat, mode, merge_files),
        r.strategy_used == strategy_used,
        r.elapsed_ms == elapsed_ms,
        r.total_files == full.file_count,
        r.total_folders == full.folder_count,
        r.total_size == full.size,
        r.free_bytes == (match vol { Some(v) => v.free_bytes, None => 0 }),
        r.total_bytes == (match vol { Some(v) => v.total_bytes, None => 0 }),
        r.fs_type@ == (match vol { Some(v) => v.fs_type@, None => Seq::<char>::empty() }),
        r.cluster_size == (match vol { Some(v) => v.cluster_size, None => 0 }),
        r.errors == errors,
{
    let (free_bytes, total_bytes, fs_type, cluster_size) = match vol {
        Some(v) => (v.free_bytes, v.total_bytes, v.fs_type.clone(), v.cluster_size),
        None => (0, 0, String::new(), 0),
    };
    ScanResult {
        root: prune(full, max_depth, top_n as usize, mode, merge_files),
        strategy_used,
        elapsed_ms,
        total_files: full.file_count as u64,
        total_folders: full.folder_count as u64,
        total_size: full.size,
        free_bytes,
        total_bytes,
        fs_type,
        cluster_size,
        errors,
    }
}

/// A file's logical and allocated sizes on Unix: its length, and its
/// 512-byte blocks in bytes (saturating), but never less than the length.
pub fn unix_file_sizes(len: u64, blocks: u64) -> (r: (u64, u64))
    ensures
        r.0 == len,
        r.1 == (if crate::volinfo::sat_mul(blocks, 512) >= len { crate::volinfo::sat_mul(blocks, 512) } else { len }),
{
    let alloc = crate::volinfo::saturating_mul(blocks, 512);
    (len, if alloc >= len { alloc } else { len })
}

/// A file's logical and allocated sizes from the Windows file information
/// (end of file, allocation size), negative values read as 0.
pub fn windows_file_sizes(end_of_file: i64, allocation_size: i64) -> (r: (u64, u64))
    ensures
        r.0 == (if end_of_file > 0 { end_of_file as int } else { 0 }),
        r.1 == (if allocation_size > 0 { allocation_size as int } else { 0 }),
{
    let size: u64 = if end_of_file > 0 { end_of_file as u64 } else { 0 };
    let alloc: u64 = if allocation_size > 0 { allocation_size as u64 } else { 0 };
    (size, alloc)
}

/// A modification time as Unix seconds: the whole seconds since the epoch
/// when known (reinterpreted as signed, as a cast does), else 0.
pub fn unix_seconds(secs: Option<u64>) -> (r: i64)
    ensures
        r == (match secs {
            Some(s) => if s <= i64::MAX { s as int } else { s - 0x1_0000_0000_0000_0000 },
            None => 0,
        }),
{
    match secs {
        Some(s) => {
            if s <= i64::MAX as u64 {
                s as i64
            } else {
                let d: u64 = u64::MAX - s;
                -1 - (d as i64)
            }
        },
        None => 0,
    }
}

/// The error log keeps the oldest messages: after any sequence of errors it
/// holds exactly the first `ERROR_LOG_CAP` of them (all when fewer), while
/// the count goes on.
pub proof fn lemma_error_log_keeps_oldest(msgs: Seq<String>)
    ensures
        log_of(msgs) == msgs.take(if msgs.len() < ERROR_LOG_CAP { msgs.len() as int } else { ERROR_LOG_CAP as int }),
    decreases msgs.len(),
{
    if msgs.len() > 0 {
        let front = msgs.drop_last();
        lemma_error_log_keeps_oldest(front);
        if front.len() < ERROR_LOG_CAP {
            assert(front.take(front.len() as int) =~= front);
            assert(msgs.take(msgs.len() as int) =~= front.push(msgs.last()));
        } else {
            assert(front.take(ERROR_LOG_CAP as int) =~= msgs.take(ERROR_LOG_CAP as int));
        }
    } else {
        assert(msgs.take(0) =~= Seq::<String>::empty());
    }
}

/// Progress is throttled: after a report at `t1`, no report is due before
/// `REPORT_INTERVAL_NS` more have passed.
pub proof fn lemma_report_throttled(t1: u64, t2: u64)
    requires
        t1 <= t2,
        t2 - t1 < REPORT_INTERVAL_NS,
    ensures
        !report_due(t1, t2),
{
}

/// With a known cluster size a non-empty file is counted in whole clusters:
/// at least its length, less than one cluster more.
pub proof fn lemma_allocated_rounds_up(len: u64, cluster: u32)
    requires
        cluster > 0,
        len > 0,
    ensures
        len <= allocated_estimate_spec(len, cluster) < len + cluster,
        allocated_estimate_spec(len, cluster) % (cluster as int) == 0,
{
    let c = cluster as int;
    let t = len + c - 1;
    let q = t / c;
    assert(q * c <= t < q * c + c) by (nonlinear_arith)
        requires
            c > 0,
            q == t / c,
    ;
    assert((q * c) % c == 0) by (nonlinear_arith)
        requires
            c > 0,
    ;
}

/// Whether the totals of a directory with these files and sub-directories
/// fit their integer types (the condition of `aggregate_dir`).
pub fn dir_sums_fit(files: &Vec<TreeNode>, subdirs: &Vec<TreeNode>) -> (r: bool)
    ensures
        r == (sum_field(views(subdirs@) + views(files@), Field::Size) <= u64::MAX
            && sum_field(views(subdirs@) + views(files@), Field::Allocated) <= u64::MAX
            && files@.len() + sum_field(views(subdirs@), Field::Files) <= u32::MAX
            && subdirs@.len() + sum_field(views(subdirs@), Field::Folders) <= u32::MAX),
{
    let ghost fv = views(files@);
    let ghost sv = views(subdirs@);
    proof {
        lemma_sum_concat(sv, fv, Field::Size);
        lemma_sum_concat(sv, fv, Field::Allocated);
        crate::totals::lemma_sum_nonneg(sv, Field::Size);
        crate::totals::lemma_sum_nonneg(sv, Field::Allocated);
        crate::totals::lemma_sum_nonneg(fv, Field::Size);
        crate::totals::lemma_sum_nonneg(fv, Field::Allocated);
        crate::totals::lemma_sum_nonneg(sv, Field::Files);
        crate::totals::lemma_sum_nonneg(sv, Field::Folders);
    }
    let fsum = crate::totals::checked_size_sums(files);
    let ssum = crate::totals::checked_sums(subdirs);
    match (fsum, ssum) {
        (Some((fs, fa)), Some((ss, sa, sf, sd))) => {
            fs as u128 + ss as u128 <= u64::MAX as u128 && fa as u128 + sa as u128 <= u64::MAX as u128
                && files.len() as u128 + sf as u128 <= u32::MAX as u128
                && subdirs.len() as u128 + sd as u128 <= u32::MAX as u128
        },
        _ => {
            proof {
                if ssum is None {
                    assert(!crate::totals::sums_fit_seq(sv));
                }
            }
            false
        },
    }
}

/// An aggregated directory accounts for its children: its size, allocated
/// size and file count are theirs summed, and its folder count adds one per
/// sub-directory to theirs.
pub proof fn lemma_dir_view_totals(name: Seq<char>, last_modified: i64, files: Seq<NodeView>, subdirs: Seq<NodeView>)
    requires
        sum_field(subdirs + files, Field::Size) <= u64::MAX,
        sum_field(subdirs + files, Field::Allocated) <= u64::MAX,
        forall|i: int| 0 <= i < files.len() ==> (#[trigger] files[i]).file_count == 1 && files[i].folder_count == 0,
        files.len() + sum_field(subdirs, Field::Files) <= u32::MAX,
        subdirs.len() + sum_field(subdirs, Field::Folders) <= u32::MAX,
    ensures
        ({
            let v = dir_view(name, last_modified, files, subdirs);
            &&& v.size == sum_field(v.children, Field::Size)
            &&& v.allocated_size == sum_field(v.children, Field::Allocated)
            &&& v.file_count == sum_field(v.children, Field::Files)
            &&& v.folder_count == subdirs.len() + sum_field(v.children, Field::Folders)
        }),
{
    let all = subdirs + files;
    crate::totals::lemma_sum_nonneg(all, Field::Size);
    crate::totals::lemma_sum_nonneg(all, Field::Allocated);
    crate::totals::lemma_sum_nonneg(subdirs, Field::Files);
    crate::totals::lemma_sum_nonneg(subdirs, Field::Folders);
    crate::totals::lemma_sum_sort(all, Field::Size);
    crate::totals::lemma_sum_sort(all, Field::Allocated);
    crate::totals::lemma_sum_sort(all, Field::Files);
    crate::totals::lemma_sum_sort(all, Field::Folders);
    lemma_sum_concat(subdirs, files, Field::Files);
    lemma_sum_concat(subdirs, files, Field::Folders);
    lemma_leaf_sums(files);
}

proof fn lemma_leaf_sums(files: Seq<NodeView>)
    requires
        forall|i: int| 0 <= i < files.len() ==> (#[trigger] files[i]).file_count == 1 && files[i].folder_count == 0,
    ensures
        sum_field(files, Field::Files) == files.len(),
        sum_field(files, Field::Folders) == 0,
    decreases files.len(),
{
    if files.len() > 0 {
        assert forall|i: int| 0 <= i < files.drop_first().len() implies (#[trigger] files.drop_first()[i]).file_count == 1
            && files.drop_first()[i].folder_count == 0 by {
            assert(files.drop_first()[i] == files[i + 1]);
        }
        lemma_leaf_sums(files.drop_first());
        assert(files[0].file_count == 1);
    }
}

/// Aggregating a directory does not depend on the order in which its files
/// and sub-directories arrive (so neither on the number of workers that
/// walked them): any reordering gives the same sizes and counts, and when no
/// two children share a size, the same node with the same children in the
/// same order.
pub proof fn lemma_dir_view_order_free(
    name: Seq<char>,
    last_modified: i64,
    files: Seq<NodeView>,
    subdirs: Seq<NodeView>,
    files2: Seq<NodeView>,
    subdirs2: Seq<NodeView>,
)
    requires
        files.to_multiset() == files2.to_multiset(),
        subdirs.to_multiset() == subdirs2.to_multiset(),
    ensures
        ({
            let v1 = dir_view(name, last_modified, files, subdirs);
            let v2 = dir_view(name, last_modified, files2, subdirs2);
            &&& v1.size == v2.size
            &&& v1.allocated_size == v2.allocated_size
            &&& v1.size_self == v2.size_self
            &&& v1.allocated_self == v2.allocated_self
            &&& v1.file_count == v2.file_count
            &&& v1.folder_count == v2.folder_count
            &&& distinct_keys(subdirs + files) ==> v1 == v2
        }),
{
    broadcast use vstd::seq_lib::lemma_multiset_commutative, vstd::seq_lib::to_multiset_len;
    let s1 = subdirs + files;
    let s2 = subdirs2 + files2;
    assert(s1.to_multiset() == s2.to_multiset());
    assert(files.len() == files.to_multiset().len());
    assert(files2.len() == files2.to_multiset().len());
    assert(subdirs.len() == subdirs.to_multiset().len());
    assert(subdirs2.len() == subdirs2.to_multiset().len());
    crate::totals::lemma_sum_perm(s1, s2, Field::Size);
    crate::totals::lemma_sum_perm(s1, s2, Field::Allocated);
    crate::totals::lemma_sum_perm(files, files2, Field::Size);
    crate::totals::lemma_sum_perm(files, files2, Field::Allocated);
    crate::totals::lemma_sum_perm(subdirs, subdirs2, Field::Files);
    crate::totals::lemma_sum_perm(subdirs, subdirs2, Field::Folders);
    if distinct_keys(s1) {
        lemma_sort_multiset(s1);
        lemma_sort_multiset(s2);
        lemma_sort_sorted(s1);
        lemma_sort_sorted(s2);
        lemma_distinct_keys_perm(s1, sort_desc(s1));
        lemma_sorted_same_elements(sort_desc(s1), sort_desc(s2));
        let v1 = dir_view(name, last_modified, files, subdirs);
        let v2 = dir_view(name, last_modified, files2, subdirs2);
        assert(v1 =~= v2);
    }
}

} // verus!
