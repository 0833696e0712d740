//! Export of a scanned tree with absolute paths, for external tools.
//!
//! Every exported node carries its absolute path, whether it is a directory,
//! and its share of the parent's size in hundredths of a percent. With a
//! positive threshold only nodes at least that large are exported below the
//! root (directories recursively, files individually); the root is always
//! kept.

use vstd::prelude::*;
use crate::models::{TreeNode, NodeView, lemma_children_views};
use crate::prune::is_dir_view;
use crate::platform::main_separator;
use crate::volinfo::saturating_mul;

verus! {

/// `parent` and `name` joined into a path: `name` alone under an empty
/// parent, directly appended after a trailing `\` or `/`, otherwise with the
/// separator `sep` in between.
pub open spec fn join_spec(parent: Seq<char>, name: Seq<char>, sep: char) -> Seq<char> {
    if parent.len() == 0 {
        name
    } else if parent.last() == '\\' || parent.last() == '/' {
        parent + name
    } else {
        parent.push(sep) + name
    }
}

/// Joins `parent` and `name` with the given separator (see `join_spec`).
pub fn join_path_with(parent: &str, name: &str, sep: char) -> (r: String)
    requires
        sep == '/' || sep == '\\',
    ensures
        r@ == join_spec(parent@, name@, sep),
{
    let n = parent.unicode_len();
    if n == 0 {
        return String::from_str(name);
    }
    let last = parent.get_char(n - 1);
    let mut s = String::from_str(parent);
    if last != '\\' && last != '/' {
        if sep == '\\' {
            proof {
                reveal_strlit("\\");
            }
            s.append("\\");
        } else {
            proof {
                reveal_strlit("/");
            }
            s.append("/");
        }
    }
    s.append(name);
    proof {
        assert(parent@.last() == last);
        if last != '\\' && last != '/' {
            assert(parent@ + seq![sep] == parent@.push(sep));
        }
    }
    assert(s@ =~= join_spec(parent@, name@, sep));
    s
}

/// Joins `parent` and `name` with the platform's path separator.
pub fn join_path(parent: &str, name: &str) -> (r: String)
    ensures
        exists|sep: char| (sep == '/' || sep == '\\') && r@ == join_spec(parent@, name@, sep),
{
    let sep = main_separator();
    join_path_with(parent, name, sep)
}

/// A node is a directory unless it is a single file leaf (same rule as the
/// pruning step).
pub fn is_dir_node(n: &TreeNode) -> (r: bool)
    ensures
        r == is_dir_view(n@),
{
    !(n.file_count == 1 && n.folder_count == 0 && n.children.len() == 0)
}

/// A node of the exported tree.
pub struct ExportNode {
    /// Absolute path of the node.
    pub path: String,
    pub name: String,
    pub size: u64,
    /// Share of the parent's size in hundredths of a percent, rounded half up
    /// (10000 for the root).
    pub pct_of_parent_x100: u128,
    pub file_count: u32,
    pub folder_count: u32,
    pub last_modified: i64,
    pub is_dir: bool,
    pub children: Vec<ExportNode>,
}

/// The mathematical value of an `ExportNode`.
#[verifier::ext_equal]
pub struct ExportView {
    pub path: Seq<char>,
    pub name: Seq<char>,
    pub size: u64,
    pub pct_of_parent_x100: int,
    pub file_count: u32,
    pub folder_count: u32,
    pub last_modified: i64,
    pub is_dir: bool,
    pub children: Seq<ExportView>,
}

pub open spec fn empty_export() -> ExportView {
    ExportView {
        path: Seq::empty(),
        name: Seq::empty(),
        size: 0,
        pct_of_parent_x100: 0,
        file_count: 0,
        folder_count: 0,
        last_modified: 0,
        is_dir: false,
        children: Seq::empty(),
    }
}

pub open spec fn export_node_view(e: ExportNode) -> ExportView
    decreases e,
{
    ExportView {
        path: e.path@,
        name: e.name@,
        size: e.size,
        pct_of_parent_x100: e.pct_of_parent_x100 as int,
        file_count: e.file_count,
        folder_count: e.folder_count,
        last_modified: e.last_modified,
        is_dir: e.is_dir,
        children: Seq::new(
            e.children@.len(),
            |i: int|
                if 0 <= i < e.children@.len() {
                    export_node_view(e.children@[i])
                } else {
                    empty_export()
                },
        ),
    }
}

impl View for ExportNode {
    type V = ExportView;

    open spec fn view(&self) -> ExportView {
        export_node_view(*self)
    }
}

pub open spec fn export_views(s: Seq<ExportNode>) -> Seq<ExportView> {
    Seq::new(s.len(), |i: int| export_node_view(s[i]))
}

/// `size / parent_size` in hundredths of a percent, rounded half up; 10000
/// when there is no parent size.
pub open spec fn pct_x100(size: u64, parent_size: u64) -> int {
    if parent_size > 0 {
        (2 * 10000 * size + parent_size) / (2 * parent_size as int)
    } else {
        10000
    }
}

/// The exported nodes of `s` that pass the threshold (all when it is 0).
pub open spec fn keep_large(s: Seq<ExportView>, threshold: u64) -> Seq<ExportView>
    decreases s.len(),
{
    if s.len() == 0 {
        s
    } else if threshold == 0 || s[0].size >= threshold {
        seq![s[0]] + keep_large(s.drop_first(), threshold)
    } else {
        keep_large(s.drop_first(), threshold)
    }
}

/// The exports of the children of `n`, below the path `path` and size
/// `size` of `n`, before the threshold is applied.
pub open spec fn export_children(n: NodeView, path: Seq<char>, size: u64, threshold: u64, sep: char) -> Seq<ExportView>
    decreases n, 0nat,
{
    Seq::new(
        n.children.len(),
        |i: int|
            if 0 <= i < n.children.len() {
                export_view(n.children[i], path, size, threshold, sep)
            } else {
                empty_export()
            },
    )
}

/// The export of `n` below a parent with path `parent_path` and size
/// `parent_size`, with paths joined by `sep`.
pub open spec fn export_view(n: NodeView, parent_path: Seq<char>, parent_size: u64, threshold: u64, sep: char) -> ExportView
    decreases n, 1nat,
{
    let path = join_spec(parent_path, n.name, sep);
    let is_dir = is_dir_view(n);
    ExportView {
        path: path,
        name: n.name,
        size: n.size,
        pct_of_parent_x100: pct_x100(n.size, parent_size),
        file_count: n.file_count,
        folder_count: n.folder_count,
        last_modified: n.last_modified,
        is_dir: is_dir,
        children: if is_dir {
            keep_large(export_children(n, path, n.size, threshold, sep), threshold)
        } else {
            Seq::empty()
        },
    }
}

proof fn lemma_keep_large_step(s: Seq<ExportView>, i: int, threshold: u64)
    requires
        0 <= i < s.len(),
    ensures
        keep_large(s.take(i + 1), threshold) == keep_large(s.take(i), threshold) + (if threshold == 0
            || s[i].size >= threshold {
            seq![s[i]]
        } else {
            Seq::<ExportView>::empty()
        }),
{
    lemma_keep_large_concat(s.take(i), seq![s[i]], threshold);
    assert(s.take(i + 1) =~= s.take(i) + seq![s[i]]);
    assert(seq![s[i]].drop_first() =~= Seq::<ExportView>::empty());
    assert(keep_large(Seq::<ExportView>::empty(), threshold) == Seq::<ExportView>::empty());
    if threshold == 0 || s[i].size >= threshold {
        assert(seq![s[i]] + Seq::<ExportView>::empty() =~= seq![s[i]]);
    }
}

proof fn lemma_keep_large_concat(a: Seq<ExportView>, b: Seq<ExportView>, threshold: u64)
    ensures
        keep_large(a + b, threshold) == keep_large(a, threshold) + keep_large(b, threshold),
    decreases a.len(),
{
    if a.len() == 0 {
        assert(a + b =~= b);
        assert(keep_large(a, threshold) + keep_large(b, threshold) =~= keep_large(b, threshold));
    } else {
        lemma_keep_large_concat(a.drop_first(), b, threshold);
        assert((a + b).drop_first() =~= a.drop_first() + b);
        assert((a + b)[0] == a[0]);
        if threshold == 0 || a[0].size >= threshold {
            assert(seq![a[0]] + (keep_large(a.drop_first(), threshold) + keep_large(b, threshold))
                =~= (seq![a[0]] + keep_large(a.drop_first(), threshold)) + keep_large(b, threshold));
        }
    }
}

fn pct_of(size: u64, parent_size: u64) -> (r: u128)
    ensures
        r == pct_x100(size, parent_size),
{
    if parent_size > 0 {
        assert(2 * 10000 * (size as u128) <= 20000 * 0xffff_ffff_ffff_ffffu128) by (nonlinear_arith);
        let num: u128 = 2 * 10000 * (size as u128) + (parent_size as u128);
        let den: u128 = 2 * (parent_size as u128);
        num / den
    } else {
        10000
    }
}

/// Exports `node` below a parent with path `parent_path` and size
/// `parent_size`, joining paths with `sep` (see `export_view`).
fn export_with(node: &TreeNode, parent_path: &str, parent_size: u64, threshold: u64, sep: char) -> (r: ExportNode)
    requires
        sep == '/' || sep == '\\',
    ensures
        r@ == export_view(node@, parent_path@, parent_size, threshold, sep),
    decreases node,
{
    proof {
        lemma_children_views(*node);
    }
    let path = join_path_with(parent_path, node.name.as_str(), sep);
    let is_dir = is_dir_node(node);
    let ghost nv = node@;
    let ghost all = export_children(nv, path@, nv.size, threshold, sep);
    let mut children: Vec<ExportNode> = Vec::new();
    if is_dir {
        let n = node.children.len();
        let mut i: usize = 0;
        assert(all.take(0) =~= Seq::<ExportView>::empty());
        assert(export_views(children@) =~= keep_large(all.take(0), threshold));
        while i < n
            invariant
                n == node.children@.len(),
                nv == node@,
                nv.children.len() == n,
                forall|q: int| 0 <= q < n ==> nv.children[q] == node.children@[q]@,
                i <= n,
                sep == '/' || sep == '\\',
                all.len() == n,
                forall|q: int| 0 <= q < n ==> all[q] == export_view(nv.children[q], path@, nv.size, threshold, sep),
                export_views(children@) == keep_large(all.take(i as int), threshold),
            decreases n - i,
        {
            let c = export_with(&node.children[i], path.as_str(), node.size, threshold, sep);
            proof {
                lemma_keep_large_step(all, i as int, threshold);
                assert(c@ == all[i as int]);
            }
            if threshold == 0 || c.size >= threshold {
                let ghost before = children@;
                let ghost cv = c@;
                children.push(c);
                proof {
                    assert(export_views(before).len() == before.len());
                    assert forall|w: int| 0 <= w < children@.len() implies #[trigger] export_views(children@)[w]
                        == (export_views(before) + seq![cv])[w] by {
                        if w < before.len() {
                            assert(children@[w] == before[w]);
                        }
                    }
                    assert(export_views(children@) =~= export_views(before) + seq![cv]);
                }
            } else {
                assert(export_views(children@) =~= export_views(children@) + Seq::<ExportView>::empty());
            }
            i = i + 1;
        }
        assert(all.take(n as int) =~= all);
        assert(export_views(children@) == keep_large(all, threshold));
    } else {
        assert(export_views(children@) =~= Seq::<ExportView>::empty());
    }
    let r = ExportNode {
        path,
        name: node.name.clone(),
        size: node.size,
        pct_of_parent_x100: pct_of(node.size, parent_size),
        file_count: node.file_count,
        folder_count: node.folder_count,
        last_modified: node.last_modified,
        is_dir,
        children,
    };
    assert(r@.children =~= export_views(r.children@));
    let ghost ev = export_view(nv, parent_path@, parent_size, threshold, sep);
    assert(path@ == join_spec(parent_path@, nv.name, sep));
    assert(ev.children == (if is_dir { keep_large(all, threshold) } else { Seq::<ExportView>::empty() }));
    assert(r@.path == ev.path);
    assert(r@.name == ev.name);
    assert(r@.pct_of_parent_x100 == ev.pct_of_parent_x100);
    assert(r@.children == ev.children);
    assert(r@ =~= export_view(nv, parent_path@, parent_size, threshold, sep));
    r
}

/// Builds the export tree of `node` (see `export_view`), joining paths with
/// the platform's separator. `parent_size` 0 marks the root (share 100%);
/// `threshold` 0 exports everything.
pub fn build_export_node(node: &TreeNode, parent_path: &str, parent_size: u64, threshold: u64) -> (r: ExportNode)
    ensures
        exists|sep: char| (sep == '/' || sep == '\\') && r@ == export_view(node@, parent_path@, parent_size, threshold, sep),
{
    let sep = main_separator();
    export_with(node, parent_path, parent_size, threshold, sep)
}

/// Sum of a sequence of integers.
pub open spec fn sum_ints(s: Seq<int>) -> int
    decreases s.len(),
{
    if s.len() == 0 {
        0
    } else {
        sum_ints(s.drop_last()) + s.last()
    }
}

/// Which nodes of an exported tree are counted.
pub enum CountKind {
    All,
    Dirs,
    Files,
}

pub open spec fn counted(v: ExportView, kind: CountKind) -> int {
    match kind {
        CountKind::All => 1,
        CountKind::Dirs => if v.is_dir { 1 } else { 0 },
        CountKind::Files => if v.is_dir { 0 } else { 1 },
    }
}

/// Number of nodes of the given kind in the exported tree `v`.
pub open spec fn export_count(v: ExportView, kind: CountKind) -> int
    decreases v, 1nat,
{
    counted(v, kind) + sum_ints(child_counts(v, kind))
}

/// The counts of the children of `v`.
pub open spec fn child_counts(v: ExportView, kind: CountKind) -> Seq<int>
    decreases v, 0nat,
{
    Seq::new(
        v.children.len(),
        |i: int|
            if 0 <= i < v.children.len() {
                export_count(v.children[i], kind)
            } else {
                0
            },
    )
}

proof fn lemma_export_count_unfold(v: ExportView, kind: CountKind)
    ensures
        export_count(v, kind) == counted(v, kind) + sum_ints(child_counts(v, kind)),
        forall|i: int| 0 <= i < v.children.len() ==> #[trigger] child_counts(v, kind)[i] == export_count(v.children[i], kind),
        child_counts(v, kind).len() == v.children.len(),
{
}

proof fn lemma_sum_ints_take_step(s: Seq<int>, i: int)
    requires
        0 <= i < s.len(),
    ensures
        sum_ints(s.take(i + 1)) == sum_ints(s.take(i)) + s[i],
{
    assert(s.take(i + 1).drop_last() =~= s.take(i));
}

proof fn lemma_sum_ints_prefix(s: Seq<int>, i: int)
    requires
        0 <= i <= s.len(),
        forall|j: int| 0 <= j < s.len() ==> s[j] >= 0,
    ensures
        0 <= sum_ints(s.take(i)) <= sum_ints(s),
    decreases s.len() - i,
{
    assert forall|j: int| 0 <= j < s.take(i).len() implies s.take(i)[j] >= 0 by {
        assert(s.take(i)[j] == s[j]);
    }
    lemma_sum_ints_nonneg(s.take(i));
    if i < s.len() {
        lemma_sum_ints_prefix(s, i + 1);
        lemma_sum_ints_take_step(s, i);
    } else {
        assert(s.take(i) =~= s);
    }
}

proof fn lemma_sum_ints_nonneg(s: Seq<int>)
    requires
        forall|j: int| 0 <= j < s.len() ==> s[j] >= 0,
    ensures
        sum_ints(s) >= 0,
    decreases s.len(),
{
    if s.len() > 0 {
        lemma_sum_ints_nonneg(s.drop_last());
    }
}

/// Counts are never negative.
pub proof fn lemma_export_count_nonneg(v: ExportView, kind: CountKind)
    ensures
        export_count(v, kind) >= 0,
    decreases v,
{
    lemma_export_count_unfold(v, kind);
    assert forall|j: int| 0 <= j < child_counts(v, kind).len() implies child_counts(v, kind)[j] >= 0 by {
        lemma_export_count_nonneg(v.children[j], kind);
    }
    lemma_sum_ints_nonneg(child_counts(v, kind));
}

/// Every exported node is either a directory or a file.
pub proof fn lemma_export_count_partition(v: ExportView)
    ensures
        export_count(v, CountKind::All) == export_count(v, CountKind::Dirs) + export_count(v, CountKind::Files),
    decreases v,
{
    lemma_export_count_unfold(v, CountKind::All);
    lemma_export_count_unfold(v, CountKind::Dirs);
    lemma_export_count_unfold(v, CountKind::Files);
    assert forall|j: int| 0 <= j < v.children.len() implies export_count(v.children[j], CountKind::All)
        == export_count(v.children[j], CountKind::Dirs) + export_count(v.children[j], CountKind::Files) by {
        lemma_export_count_partition(v.children[j]);
    }
    lemma_sum_ints_add(child_counts(v, CountKind::All), child_counts(v, CountKind::Dirs), child_counts(v, CountKind::Files));
}

proof fn lemma_sum_ints_add(a: Seq<int>, b: Seq<int>, c: Seq<int>)
    requires
        a.len() == b.len() == c.len(),
        forall|j: int| 0 <= j < a.len() ==> a[j] == b[j] + c[j],
    ensures
        sum_ints(a) == sum_ints(b) + sum_ints(c),
    decreases a.len(),
{
    if a.len() > 0 {
        lemma_sum_ints_add(a.drop_last(), b.drop_last(), c.drop_last());
    }
}

/// Counts the nodes, directories and files of an exported tree.
pub fn count_export_nodes(n: &ExportNode) -> (r: (u64, u64, u64))
    requires
        export_count(n@, CountKind::All) <= u64::MAX,
    ensures
        r.0 == export_count(n@, CountKind::All),
        r.1 == export_count(n@, CountKind::Dirs),
        r.2 == export_count(n@, CountKind::Files),
    decreases n,
{
    let ghost v = n@;
    proof {
        lemma_export_count_unfold(v, CountKind::All);
        lemma_export_count_unfold(v, CountKind::Dirs);
        lemma_export_count_unfold(v, CountKind::Files);
        lemma_export_count_partition(v);
        lemma_export_count_nonneg(v, CountKind::Dirs);
        lemma_export_count_nonneg(v, CountKind::Files);
        assert forall|j: int| 0 <= j < v.children.len() implies child_counts(v, CountKind::All)[j] >= 0
            && child_counts(v, CountKind::Dirs)[j] >= 0 && child_counts(v, CountKind::Files)[j] >= 0 by {
            lemma_export_count_nonneg(v.children[j], CountKind::All);
            lemma_export_count_nonneg(v.children[j], CountKind::Dirs);
            lemma_export_count_nonneg(v.children[j], CountKind::Files);
        }
        assert(v.children =~= export_views(n.children@));
    }
    let ghost ca = child_counts(v, CountKind::All);
    let ghost cd = child_counts(v, CountKind::Dirs);
    let ghost cf = child_counts(v, CountKind::Files);
    let mut nodes: u64 = 1;
    let mut dirs: u64 = if n.is_dir { 1 } else { 0 };
    let mut files: u64 = if n.is_dir { 0 } else { 1 };
    let mut i: usize = 0;
    proof {
        assert(ca.take(0) =~= Seq::<int>::empty());
        assert(cd.take(0) =~= Seq::<int>::empty());
        assert(cf.take(0) =~= Seq::<int>::empty());
    }
    while i < n.children.len()
        invariant
            v == n@,
            v.children == export_views(n.children@),
            i <= n.children@.len(),
            ca == child_counts(v, CountKind::All),
            cd == child_counts(v, CountKind::Dirs),
            cf == child_counts(v, CountKind::Files),
            forall|j: int| 0 <= j < ca.len() ==> ca[j] >= 0 && cd[j] >= 0 && cf[j] >= 0,
            export_count(v, CountKind::All) == 1 + sum_ints(ca),
            export_count(v, CountKind::All) <= u64::MAX,
            export_count(v, CountKind::Dirs) + export_count(v, CountKind::Files) == export_count(v, CountKind::All),
            export_count(v, CountKind::Dirs) == counted(v, CountKind::Dirs) + sum_ints(cd),
            export_count(v, CountKind::Files) == counted(v, CountKind::Files) + sum_ints(cf),
            export_count(v, CountKind::Dirs) >= 0,
            export_count(v, CountKind::Files) >= 0,
            nodes == 1 + sum_ints(ca.take(i as int)),
            dirs == counted(v, CountKind::Dirs) + sum_ints(cd.take(i as int)),
            files == counted(v, CountKind::Files) + sum_ints(cf.take(i as int)),
        decreases n.children@.len() - i,
    {
        proof {
            lemma_sum_ints_take_step(ca, i as int);
            lemma_sum_ints_take_step(cd, i as int);
            lemma_sum_ints_take_step(cf, i as int);
            lemma_sum_ints_prefix(ca, i + 1);
            lemma_sum_ints_prefix(cd, i + 1);
            lemma_sum_ints_prefix(cf, i + 1);
            assert(v.children[i as int] == n.children@[i as int]@);
            lemma_sum_ints_prefix(ca, i as int);
        }
        let (cn, cdirs, cfiles) = count_export_nodes(&n.children[i]);
        nodes = nodes + cn;
        dirs = dirs + cdirs;
        files = files + cfiles;
        i = i + 1;
    }
    proof {
        assert(ca.take(n.children@.len() as int) =~= ca);
        assert(cd.take(n.children@.len() as int) =~= cd);
        assert(cf.take(n.children@.len() as int) =~= cf);
    }
    (nodes, dirs, files)
}

/// Number of nodes in the tree `n`.
pub open spec fn tree_size(n: NodeView) -> int
    decreases n, 1nat,
{
    1 + sum_ints(child_sizes(n))
}

/// The sizes (node counts) of the subtrees of the children of `n`.
pub open spec fn child_sizes(n: NodeView) -> Seq<int>
    decreases n, 0nat,
{
    Seq::new(
        n.children.len(),
        |i: int|
            if 0 <= i < n.children.len() {
                tree_size(n.children[i])
            } else {
                0
            },
    )
}

/// Node counts of a sequence of exported trees.
pub open spec fn counts_of(s: Seq<ExportView>) -> Seq<int> {
    Seq::new(s.len(), |i: int| export_count(s[i], CountKind::All))
}

proof fn lemma_sum_ints_concat(a: Seq<int>, b: Seq<int>)
    ensures
        sum_ints(a + b) == sum_ints(a) + sum_ints(b),
    decreases b.len(),
{
    if b.len() == 0 {
        assert(a + b =~= a);
    } else {
        lemma_sum_ints_concat(a, b.drop_last());
        assert((a + b).drop_last() =~= a + b.drop_last());
    }
}

proof fn lemma_sum_ints_le(a: Seq<int>, b: Seq<int>)
    requires
        a.len() == b.len(),
        forall|j: int| 0 <= j < a.len() ==> a[j] <= b[j],
    ensures
        sum_ints(a) <= sum_ints(b),
    decreases a.len(),
{
    if a.len() > 0 {
        lemma_sum_ints_le(a.drop_last(), b.drop_last());
    }
}

proof fn lemma_keep_large_counts(s: Seq<ExportView>, threshold: u64)
    ensures
        sum_ints(counts_of(keep_large(s, threshold))) <= sum_ints(counts_of(s)),
    decreases s.len(),
{
    if s.len() > 0 {
        let r = s.drop_first();
        lemma_keep_large_counts(r, threshold);
        assert(counts_of(s) =~= seq![export_count(s[0], CountKind::All)] + counts_of(r));
        lemma_sum_ints_concat(seq![export_count(s[0], CountKind::All)], counts_of(r));
        assert(seq![export_count(s[0], CountKind::All)].drop_last() =~= Seq::<int>::empty());
        assert(sum_ints(Seq::<int>::empty()) == 0);
        assert(sum_ints(seq![export_count(s[0], CountKind::All)]) == export_count(s[0], CountKind::All));
        lemma_export_count_nonneg(s[0], CountKind::All);
        if threshold == 0 || s[0].size >= threshold {
            assert(counts_of(keep_large(s, threshold)) =~= seq![export_count(s[0], CountKind::All)] + counts_of(keep_large(r, threshold)));
            lemma_sum_ints_concat(seq![export_count(s[0], CountKind::All)], counts_of(keep_large(r, threshold)));
        }
    }
}

/// An export never has more nodes than the tree it comes from.
pub proof fn lemma_export_count_le_tree_size(n: NodeView, parent_path: Seq<char>, parent_size: u64, threshold: u64, sep: char)
    ensures
        export_count(export_view(n, parent_path, parent_size, threshold, sep), CountKind::All) <= tree_size(n),
    decreases n,
{
    let ev = export_view(n, parent_path, parent_size, threshold, sep);
    let path = join_spec(parent_path, n.name, sep);
    let ec = export_children(n, path, n.size, threshold, sep);
    lemma_export_count_unfold(ev, CountKind::All);
    assert(child_counts(ev, CountKind::All) =~= counts_of(ev.children));
    assert forall|j: int| 0 <= j < n.children.len() implies counts_of(ec)[j] <= child_sizes(n)[j] by {
        lemma_export_count_le_tree_size(n.children[j], path, n.size, threshold, sep);
    }
    lemma_sum_ints_le(counts_of(ec), child_sizes(n));
    if is_dir_view(n) {
        lemma_keep_large_counts(ec, threshold);
    } else {
        assert(counts_of(ev.children) =~= Seq::<int>::empty());
        assert forall|j: int| 0 <= j < child_sizes(n).len() implies child_sizes(n)[j] >= 0 by {
            lemma_tree_size_pos(n.children[j]);
        }
        lemma_sum_ints_nonneg(child_sizes(n));
    }
}

proof fn lemma_tree_size_pos(n: NodeView)
    ensures
        tree_size(n) >= 1,
    decreases n,
{
    assert forall|j: int| 0 <= j < child_sizes(n).len() implies child_sizes(n)[j] >= 0 by {
        lemma_tree_size_pos(n.children[j]);
    }
    lemma_sum_ints_nonneg(child_sizes(n));
}

/// The size threshold of an export: `min_size_mb` MiB (saturating) when
/// filtering, 0 (everything) otherwise.
pub open spec fn export_threshold(filter: bool, min_size_mb: u64) -> u64 {
    if filter {
        if min_size_mb * 1048576 <= u64::MAX { (min_size_mb * 1048576) as u64 } else { u64::MAX }
    } else {
        0
    }
}

/// Totals of an exported tree.
pub struct ExportSummary {
    /// Number of exported nodes (directories and files).
    pub node_count: u64,
    pub dir_count: u64,
    pub file_count: u64,
    /// Size of the root.
    pub total_size: u64,
}

/// Everything an export file holds apart from its time stamp and the name
/// and version of the application.
pub struct ExportData {
    /// Whether the export was filtered by size.
    pub filtered: bool,
    /// The size threshold in bytes; 0 for a full export.
    pub min_size_bytes: u64,
    /// Name of the root node.
    pub root_path: String,
    pub summary: ExportSummary,
    pub root: ExportNode,
}

/// Exports a full scan tree: everything when `filter` is false, otherwise
/// only nodes of at least `min_size_mb` MiB below the root.
pub fn export_data(root: &TreeNode, filter: bool, min_size_mb: u64) -> (r: ExportData)
    requires
        tree_size(root@) <= u64::MAX,
    ensures
        r.filtered == filter,
        r.min_size_bytes == export_threshold(filter, min_size_mb),
        r.root_path@ == root.name@,
        exists|sep: char|
            (sep == '/' || sep == '\\') && r.root@ == export_view(
                root@,
                Seq::empty(),
                0,
                export_threshold(filter, min_size_mb),
                sep,
            ),
        r.summary.node_count == export_count(r.root@, CountKind::All),
        r.summary.dir_count == export_count(r.root@, CountKind::Dirs),
        r.summary.file_count == export_count(r.root@, CountKind::Files),
        r.summary.total_size == root.size,
{
    let threshold: u64 = if filter { saturating_mul(min_size_mb, 1024 * 1024) } else { 0 };
    let sep = main_separator();
    proof {
        reveal_strlit("");
    }
    let export_root = export_with(root, "", 0, threshold, sep);
    proof {
        lemma_export_count_le_tree_size(root@, ""@, 0, threshold, sep);
    }
    assert(""@ =~= Seq::<char>::empty());
    assert(threshold == export_threshold(filter, min_size_mb));
    assert(export_root@ == export_view(root@, Seq::empty(), 0, export_threshold(filter, min_size_mb), sep));
    let (node_count, dir_count, file_count) = count_export_nodes(&export_root);
    let total_size = export_root.size;
    ExportData {
        filtered: filter,
        min_size_bytes: threshold,
        root_path: root.name.clone(),
        summary: ExportSummary { node_count, dir_count, file_count, total_size },
        root: export_root,
    }
}

/// Every node below `v` is at least `threshold` large, and each child's path
/// is its parent's path joined with the child's name.
pub open spec fn export_shape(v: ExportView, threshold: u64, sep: char) -> bool
    decreases v,
{
    forall|i: int| 0 <= i < v.children.len() ==> {
        &&& (#[trigger] v.children[i]).size >= threshold
        &&& v.children[i].path == join_spec(v.path, v.children[i].name, sep)
        &&& export_shape(v.children[i], threshold, sep)
    }
}

/// What `keep_large` keeps passes the threshold and comes from its input.
proof fn lemma_keep_large_from(s: Seq<ExportView>, threshold: u64, k: int)
    requires
        0 <= k < keep_large(s, threshold).len(),
    ensures
        keep_large(s, threshold)[k].size >= threshold,
        s.contains(keep_large(s, threshold)[k]),
    decreases s.len(),
{
    if s.len() > 0 {
        let t = s.drop_first();
        if threshold == 0 || s[0].size >= threshold {
            if k == 0 {
                assert(keep_large(s, threshold)[0] == s[0]);
            } else {
                lemma_keep_large_from(t, threshold, k - 1);
                let x = keep_large(s, threshold)[k];
                assert(x == keep_large(t, threshold)[k - 1]);
                let i = choose|i: int| 0 <= i < t.len() && t[i] == x;
                assert(s[i + 1] == x);
            }
        } else {
            lemma_keep_large_from(t, threshold, k);
            let x = keep_large(s, threshold)[k];
            let i = choose|i: int| 0 <= i < t.len() && t[i] == x;
            assert(s[i + 1] == x);
        }
    }
}

/// The export keeps its promises at every level: with a threshold, every
/// exported node below the root is at least that large (directories and
/// files alike), and every exported child carries its parent's path joined
/// with its own name.
pub proof fn lemma_export_shape(n: NodeView, parent_path: Seq<char>, parent_size: u64, threshold: u64, sep: char)
    ensures
        export_shape(export_view(n, parent_path, parent_size, threshold, sep), threshold, sep),
    decreases n,
{
    let v = export_view(n, parent_path, parent_size, threshold, sep);
    if is_dir_view(n) {
        let path = join_spec(parent_path, n.name, sep);
        let all = export_children(n, path, n.size, threshold, sep);
        assert forall|i: int| 0 <= i < v.children.len() implies {
            &&& (#[trigger] v.children[i]).size >= threshold
            &&& v.children[i].path == join_spec(v.path, v.children[i].name, sep)
            &&& export_shape(v.children[i], threshold, sep)
        } by {
            lemma_keep_large_from(all, threshold, i);
            let j = choose|j: int| 0 <= j < all.len() && all[j] == v.children[i];
            lemma_export_shape(n.children[j], path, n.size, threshold, sep);
        }
    }
}

/// Without a threshold nothing is dropped.
pub proof fn lemma_keep_large_zero(s: Seq<ExportView>)
    ensures
        keep_large(s, 0) == s,
    decreases s.len(),
{
    if s.len() > 0 {
        lemma_keep_large_zero(s.drop_first());
        assert(s =~= seq![s[0]] + s.drop_first());
    }
}

/// A full export (threshold 0) keeps every node: each exported directory
/// has exactly one exported child per child of the scanned directory, in
/// the same order.
pub proof fn lemma_full_export_keeps_all(n: NodeView, parent_path: Seq<char>, parent_size: u64, sep: char)
    requires
        is_dir_view(n),
    ensures
        export_view(n, parent_path, parent_size, 0, sep).children
            == export_children(n, join_spec(parent_path, n.name, sep), n.size, 0, sep),
        export_view(n, parent_path, parent_size, 0, sep).children.len() == n.children.len(),
{
    lemma_keep_large_zero(export_children(n, join_spec(parent_path, n.name, sep), n.size, 0, sep));
}

/// The share of a node is its size over its parent's size in hundredths of a
/// percent, rounded half up: `p` is the integer with
/// `p - 1/2 <= 10000 * size / parent_size < p + 1/2`. A node no larger than
/// its parent has a share of at most 10000 (100%).
pub proof fn lemma_pct_rounding(size: u64, parent_size: u64)
    requires
        parent_size > 0,
    ensures
        2 * parent_size * pct_x100(size, parent_size) <= 20000 * size + parent_size,
        20000 * size + parent_size < 2 * parent_size * (pct_x100(size, parent_size) + 1),
        size <= parent_size ==> 0 <= pct_x100(size, parent_size) <= 10000,
{
    let d = 2 * parent_size as int;
    let x = 2 * 10000 * size + parent_size;
    let p = x / d;
    assert(d * p <= x < d * (p + 1)) by (nonlinear_arith)
        requires
            d > 0,
            p == x / d,
    ;
    assert(p >= 0) by (nonlinear_arith)
        requires
            d > 0,
            x >= 0,
            p == x / d,
    ;
    if size <= parent_size {
        assert(p <= 10000) by (nonlinear_arith)
            requires
                d == 2 * parent_size,
                parent_size > 0,
                d * p <= x,
                x == 20000 * size + parent_size,
                size <= parent_size,
        ;
    }
}

/// An exported node is a directory unless the scanned node it stands for
/// is a single file: exactly one file, no folder and no children. An empty
/// directory is therefore exported as a directory.
pub proof fn lemma_export_is_dir(n: NodeView, parent_path: Seq<char>, parent_size: u64, threshold: u64, sep: char)
    ensures
        export_view(n, parent_path, parent_size, threshold, sep).is_dir
            == !(n.file_count == 1 && n.folder_count == 0 && n.children.len() == 0),
{
}

/// At every node of an exported tree, the directory flag is set exactly
/// when the node is not a single file (one file, no folder, no children).
pub open spec fn dir_flags_agree(e: ExportView) -> bool
    decreases e,
{
    &&& e.is_dir == !(e.file_count == 1 && e.folder_count == 0 && e.children.len() == 0)
    &&& forall|i: int| 0 <= i < e.children.len() ==> dir_flags_agree(#[trigger] e.children[i])
}

/// A full export (threshold 0) flags directories correctly at every depth.
pub proof fn lemma_full_export_dir_flags(n: NodeView, parent_path: Seq<char>, parent_size: u64, sep: char)
    ensures
        dir_flags_agree(export_view(n, parent_path, parent_size, 0, sep)),
    decreases n,
{
    let v = export_view(n, parent_path, parent_size, 0, sep);
    if !(n.file_count == 1 && n.folder_count == 0 && n.children.len() == 0) {
        lemma_full_export_keeps_all(n, parent_path, parent_size, sep);
        let path = join_spec(parent_path, n.name, sep);
        assert forall|i: int| 0 <= i < v.children.len() implies dir_flags_agree(#[trigger] v.children[i]) by {
            assert(v.children[i] == export_view(n.children[i], path, n.size, 0, sep));
            lemma_full_export_dir_flags(n.children[i], path, n.size, sep);
        }
    }
}

} // verus!
