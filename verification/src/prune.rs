//! Size-bounded copies of a scanned tree for display.
//!
//! Below every node whose depth budget is still positive, the directory
//! children are sorted by size, the largest are kept (a count, or until a
//! share of the parent's size is covered), the rest are summed into one
//! "(其他 N 项)" node, and loose files are kept one by one or folded into a
//! "(N 个文件)" node. The children of the result are ordered by size,
//! largest first.

use vstd::prelude::*;
use crate::models::{TreeNode, NodeView, views, ref_views, node_view, lemma_children_views};
use crate::order::{sort_desc, sort_vec, lemma_sort_map, lemma_sort_from, lemma_sort_len, sorted_desc, lemma_sort_sorted, lemma_sort_multiset};
use crate::totals::{Field, field, sum_field, sums_fit_within, sums_fit_seq, lemma_sum_concat, lemma_sum_single,
    lemma_sum_split, lemma_sum_take_step, lemma_sum_sort, lemma_sum_nonneg};
use crate::text::{decimal, push_decimal};

verus! {

/// How `top_n` is read when choosing which directory children to keep.
#[derive(Clone, Copy, PartialEq, Eq, Structural)]
pub enum TopNMode {
    /// Keep the `top_n` largest directory children.
    Count,
    /// Keep the largest directory children until together they cover
    /// `top_n` percent (clamped to 1..=100) of the parent's size.
    Percent,
}

/// A node is a plain file exactly when it counts one file, no folder and has
/// no children; everything else is treated as a directory.
pub open spec fn is_dir_view(n: NodeView) -> bool {
    !(n.file_count == 1 && n.folder_count == 0 && n.children.len() == 0)
}

/// The directory children (`dir == true`) or the file children of `s`, in order.
pub open spec fn of_kind(s: Seq<NodeView>, dir: bool) -> Seq<NodeView>
    decreases s.len(),
{
    if s.len() == 0 {
        s
    } else if is_dir_view(s[0]) == dir {
        seq![s[0]] + of_kind(s.drop_first(), dir)
    } else {
        of_kind(s.drop_first(), dir)
    }
}

/// Number of leading elements of `s` (at least one) whose sizes, times 100,
/// reach `need`; all of `s` when they never do.
pub open spec fn cover_len(s: Seq<NodeView>, need: int) -> nat
    decreases s.len(),
{
    if s.len() == 0 {
        0
    } else if 100 * s[0].size >= need {
        1
    } else {
        1 + cover_len(s.drop_first(), need - 100 * s[0].size)
    }
}

/// `top_n` clamped to the range 1..=100.
pub open spec fn clamp_percent(top_n: nat) -> int {
    if top_n < 1 {
        1
    } else if top_n > 100 {
        100
    } else {
        top_n as int
    }
}

/// How many of the sorted directory children are kept.
pub open spec fn keep_len(dirs: Seq<NodeView>, top_n: nat, mode: TopNMode, parent_size: u64) -> nat {
    match mode {
        TopNMode::Count => {
            let m: nat = if top_n == 0 { 1 } else { top_n };
            if dirs.len() > m { m } else { dirs.len() }
        },
        TopNMode::Percent => {
            if parent_size == 0 {
                dirs.len()
            } else {
                cover_len(dirs, clamp_percent(top_n) * parent_size)
            }
        },
    }
}

pub open spec fn others_name(k: nat) -> Seq<char> {
    "(其他 "@ + decimal(k) + " 项)"@
}

pub open spec fn files_name(k: nat) -> Seq<char> {
    "("@ + decimal(k) + " 个文件)"@
}

/// The node that stands for the directory children that were not kept.
pub open spec fn others_view(rest: Seq<NodeView>) -> NodeView {
    NodeView {
        name: others_name(rest.len()),
        size: sum_field(rest, Field::Size) as u64,
        allocated_size: sum_field(rest, Field::Allocated) as u64,
        size_self: 0,
        allocated_self: 0,
        file_count: sum_field(rest, Field::Files) as u32,
        folder_count: sum_field(rest, Field::Folders) as u32,
        last_modified: 0,
        children: Seq::empty(),
        truncated: true,
    }
}

/// The node that folds all loose files of a directory.
pub open spec fn files_view(files: Seq<NodeView>) -> NodeView {
    NodeView {
        name: files_name(sum_field(files, Field::Files) as nat),
        size: sum_field(files, Field::Size) as u64,
        allocated_size: sum_field(files, Field::Allocated) as u64,
        size_self: sum_field(files, Field::Size) as u64,
        allocated_self: sum_field(files, Field::Allocated) as u64,
        file_count: sum_field(files, Field::Files) as u32,
        folder_count: 0,
        last_modified: 0,
        children: Seq::empty(),
        truncated: true,
    }
}

/// `n` with the given children and truncation flag.
pub open spec fn with_children(n: NodeView, children: Seq<NodeView>, truncated: bool) -> NodeView {
    NodeView {
        name: n.name,
        size: n.size,
        allocated_size: n.allocated_size,
        size_self: n.size_self,
        allocated_self: n.allocated_self,
        file_count: n.file_count,
        folder_count: n.folder_count,
        last_modified: n.last_modified,
        children: children,
        truncated: truncated,
    }
}

/// The sorted directory children of `n`.
pub open spec fn sorted_dirs(n: NodeView) -> Seq<NodeView> {
    sort_desc(of_kind(n.children, true))
}

/// The children of a pruned node before the final ordering by size: the kept
/// directories (pruned one level less deep), the aggregate of the other
/// directories, then the files (kept or folded).
pub open spec fn pruned_parts(n: NodeView, d: nat, top_n: nat, mode: TopNMode, merge: bool) -> Seq<NodeView>
    recommends
        d > 0,
    decreases d, 0nat,
{
    if d == 0 {
        Seq::empty()
    } else {
        let dirs = sorted_dirs(n);
        let files = of_kind(n.children, false);
        let k = keep_len(dirs, top_n, mode, n.size);
        let kept = Seq::new(k, |i: int| prune_view(dirs[i], (d - 1) as nat, top_n, mode, merge));
        let rest = dirs.skip(k as int);
        let agg = if rest.len() > 0 { seq![others_view(rest)] } else { Seq::empty() };
        let loose = if merge {
            if files.len() > 0 { seq![files_view(files)] } else { Seq::empty() }
        } else {
            files
        };
        kept + agg + loose
    }
}

/// The pruned copy of `n` with depth budget `d`.
pub open spec fn prune_view(n: NodeView, d: nat, top_n: nat, mode: TopNMode, merge: bool) -> NodeView
    decreases d, 1nat,
{
    if d == 0 {
        with_children(n, Seq::empty(), n.children.len() > 0)
    } else {
        let dirs = sorted_dirs(n);
        let files = of_kind(n.children, false);
        let k = keep_len(dirs, top_n, mode, n.size);
        with_children(
            n,
            sort_desc(pruned_parts(n, d, top_n, mode, merge)),
            k < dirs.len() || (merge && files.len() > 0),
        )
    }
}

pub proof fn lemma_of_kind_concat(a: Seq<NodeView>, b: Seq<NodeView>, dir: bool)
    ensures
        of_kind(a + b, dir) == of_kind(a, dir) + of_kind(b, dir),
    decreases a.len(),
{
    if a.len() == 0 {
        assert(a + b =~= b);
        assert(of_kind(a, dir) + of_kind(b, dir) =~= of_kind(b, dir));
    } else {
        lemma_of_kind_concat(a.drop_first(), b, dir);
        assert((a + b).drop_first() =~= a.drop_first() + b);
        assert((a + b)[0] == a[0]);
        if is_dir_view(a[0]) == dir {
            assert(seq![a[0]] + (of_kind(a.drop_first(), dir) + of_kind(b, dir))
                =~= (seq![a[0]] + of_kind(a.drop_first(), dir)) + of_kind(b, dir));
        }
    }
}

pub proof fn lemma_of_kind_single(x: NodeView, dir: bool)
    ensures
        of_kind(seq![x], dir) == (if is_dir_view(x) == dir { seq![x] } else { Seq::<NodeView>::empty() }),
{
    assert(seq![x].drop_first() =~= Seq::<NodeView>::empty());
    assert(seq![x][0] == x);
    assert(of_kind(Seq::<NodeView>::empty(), dir) == Seq::<NodeView>::empty());
    if is_dir_view(x) == dir {
        assert(seq![x] + Seq::<NodeView>::empty() =~= seq![x]);
    }
}

/// Each element of `of_kind(s, dir)` is an element of `s` of that kind.
pub proof fn lemma_of_kind_from(s: Seq<NodeView>, dir: bool, k: int)
    requires
        0 <= k < of_kind(s, dir).len(),
    ensures
        s.contains(of_kind(s, dir)[k]),
        is_dir_view(of_kind(s, dir)[k]) == dir,
    decreases s.len(),
{
    if s.len() > 0 {
        let t = s.drop_first();
        if is_dir_view(s[0]) == dir {
            if k == 0 {
                assert(s[0] == of_kind(s, dir)[0]);
            } else {
                lemma_of_kind_from(t, dir, k - 1);
                let i = choose|i: int| 0 <= i < t.len() && t[i] == of_kind(t, dir)[k - 1];
                assert(s[i + 1] == of_kind(s, dir)[k]);
            }
        } else {
            lemma_of_kind_from(t, dir, k);
            let i = choose|i: int| 0 <= i < t.len() && t[i] == of_kind(t, dir)[k];
            assert(s[i + 1] == of_kind(s, dir)[k]);
        }
    }
}

/// Directories and files together sum to the whole.
pub proof fn lemma_of_kind_sums(s: Seq<NodeView>, f: Field)
    ensures
        sum_field(of_kind(s, true), f) + sum_field(of_kind(s, false), f) == sum_field(s, f),
        0 <= sum_field(of_kind(s, true), f) <= sum_field(s, f),
        0 <= sum_field(of_kind(s, false), f) <= sum_field(s, f),
    decreases s.len(),
{
    lemma_sum_nonneg(of_kind(s, true), f);
    lemma_sum_nonneg(of_kind(s, false), f);
    if s.len() > 0 {
        let t = s.drop_first();
        lemma_of_kind_sums(t, f);
        lemma_sum_single(s[0], f);
        if is_dir_view(s[0]) {
            lemma_sum_concat(seq![s[0]], of_kind(t, true), f);
        } else {
            lemma_sum_concat(seq![s[0]], of_kind(t, false), f);
        }
    }
}

/// The sums of a node's sorted directories and files fit when its children do.
proof fn lemma_parts_fit(n: NodeView, k: int)
    requires
        sums_fit_seq(n.children),
        0 <= k <= of_kind(n.children, true).len(),
    ensures
        sums_fit_seq(sorted_dirs(n).skip(k)),
        sums_fit_seq(of_kind(n.children, false)),
        sum_field(sorted_dirs(n), Field::Size) <= u64::MAX,
{
    let d = of_kind(n.children, true);
    lemma_sort_len(d);
    let fs = [Field::Size, Field::Allocated, Field::Files, Field::Folders];
    assert forall|f: Field| sum_field(sorted_dirs(n).skip(k), f) <= sum_field(n.children, f)
        && sum_field(of_kind(n.children, false), f) <= sum_field(n.children, f)
        && sum_field(sorted_dirs(n), f) <= sum_field(n.children, f) by {
        lemma_of_kind_sums(n.children, f);
        lemma_sum_sort(d, f);
        lemma_sum_split(sorted_dirs(n), k, f);
    }
    assert(sum_field(sorted_dirs(n).skip(k), Field::Size) <= sum_field(n.children, Field::Size));
    assert(sum_field(sorted_dirs(n).skip(k), Field::Allocated) <= sum_field(n.children, Field::Allocated));
    assert(sum_field(sorted_dirs(n).skip(k), Field::Files) <= sum_field(n.children, Field::Files));
    assert(sum_field(sorted_dirs(n).skip(k), Field::Folders) <= sum_field(n.children, Field::Folders));
    assert(sum_field(of_kind(n.children, false), Field::Size) <= sum_field(n.children, Field::Size));
    assert(sum_field(of_kind(n.children, false), Field::Allocated) <= sum_field(n.children, Field::Allocated));
    assert(sum_field(of_kind(n.children, false), Field::Files) <= sum_field(n.children, Field::Files));
    assert(sum_field(of_kind(n.children, false), Field::Folders) <= sum_field(n.children, Field::Folders));
    assert(sum_field(sorted_dirs(n), Field::Size) <= sum_field(n.children, Field::Size));
}

/// True for a child that is a directory rather than a plain file.
fn is_dir_child(c: &TreeNode) -> (r: bool)
    ensures
        r == is_dir_view(c@),
{
    !(c.file_count == 1 && c.folder_count == 0 && c.children.len() == 0)
}

/// A copy of a file node.
fn copy_leaf(f: &TreeNode) -> (r: TreeNode)
    requires
        f@.children.len() == 0,
    ensures
        r@ == f@,
{
    let r = TreeNode {
        name: f.name.clone(),
        size: f.size,
        allocated_size: f.allocated_size,
        size_self: f.size_self,
        allocated_self: f.allocated_self,
        file_count: f.file_count,
        folder_count: f.folder_count,
        last_modified: f.last_modified,
        children: Vec::new(),
        truncated: f.truncated,
    };
    assert(r@.children =~= f@.children);
    assert(r@.name == f@.name);
    assert(r@ =~= f@);
    r
}

/// Sums of the four fields over `nodes`, each proved to fit its type.
fn sum_nodes(nodes: &[&TreeNode]) -> (r: (u64, u64, u32, u32))
    requires
        sums_fit_seq(ref_views(nodes@)),
    ensures
        r.0 == sum_field(ref_views(nodes@), Field::Size),
        r.1 == sum_field(ref_views(nodes@), Field::Allocated),
        r.2 == sum_field(ref_views(nodes@), Field::Files),
        r.3 == sum_field(ref_views(nodes@), Field::Folders),
{
    let ghost s = ref_views(nodes@);
    let mut size: u64 = 0;
    let mut allocated: u64 = 0;
    let mut files: u32 = 0;
    let mut folders: u32 = 0;
    let mut i: usize = 0;
    proof {
        assert(s.take(0) =~= Seq::<NodeView>::empty());
    }
    while i < nodes.len()
        invariant
            s == ref_views(nodes@),
            sums_fit_seq(s),
            i <= nodes@.len(),
            size == sum_field(s.take(i as int), Field::Size),
            allocated == sum_field(s.take(i as int), Field::Allocated),
            files == sum_field(s.take(i as int), Field::Files),
            folders == sum_field(s.take(i as int), Field::Folders),
        decreases nodes@.len() - i,
    {
        let n = nodes[i];
        proof {
            lemma_sum_take_step(s, i as int, Field::Size);
            lemma_sum_take_step(s, i as int, Field::Allocated);
            lemma_sum_take_step(s, i as int, Field::Files);
            lemma_sum_take_step(s, i as int, Field::Folders);
            lemma_sum_split(s, i + 1, Field::Size);
            lemma_sum_split(s, i + 1, Field::Allocated);
            lemma_sum_split(s, i + 1, Field::Files);
            lemma_sum_split(s, i + 1, Field::Folders);
            assert(s[i as int] == node_view(*n));
        }
        size = size + n.size;
        allocated = allocated + n.allocated_size;
        files = files + n.file_count;
        folders = folders + n.folder_count;
        i = i + 1;
    }
    proof {
        assert(s.take(nodes@.len() as int) =~= s);
    }
    (size, allocated, files, folders)
}

/// The synthetic node summing the directory children that were not kept.
fn aggregate_others(rest: &[&TreeNode]) -> (r: TreeNode)
    requires
        sums_fit_seq(ref_views(rest@)),
    ensures
        r@ == others_view(ref_views(rest@)),
{
    let (size, allocated_size, file_count, folder_count) = sum_nodes(rest);
    let mut name = String::from_str("(其他 ");
    push_decimal(&mut name, rest.len() as u64);
    name.append(" 项)");
    let r = TreeNode {
        name,
        size,
        allocated_size,
        size_self: 0,
        allocated_self: 0,
        file_count,
        folder_count,
        last_modified: 0,
        children: Vec::new(),
        truncated: true,
    };
    assert(r@.children =~= Seq::<NodeView>::empty());
    assert(r@.name =~= others_name(ref_views(rest@).len()));
    assert(r@ =~= others_view(ref_views(rest@)));
    r
}

/// The synthetic node folding every loose file of a directory.
fn file_aggregate(files: &[&TreeNode]) -> (r: TreeNode)
    requires
        sums_fit_seq(ref_views(files@)),
    ensures
        r@ == files_view(ref_views(files@)),
{
    let (size, allocated_size, file_count, _folders) = sum_nodes(files);
    let mut name = String::from_str("(");
    push_decimal(&mut name, file_count as u64);
    name.append(" 个文件)");
    let r = TreeNode {
        name,
        size,
        allocated_size,
        size_self: size,
        allocated_self: allocated_size,
        file_count,
        folder_count: 0,
        last_modified: 0,
        children: Vec::new(),
        truncated: true,
    };
    assert(r@.children =~= Seq::<NodeView>::empty());
    assert(r@.name =~= files_name(sum_field(ref_views(files@), Field::Files) as nat));
    assert(r@ =~= files_view(ref_views(files@)));
    r
}

/// Number of sorted directory children kept in percent mode.
fn percent_keep(dirs: &Vec<&TreeNode>, top_n: usize, parent_size: u64) -> (k: usize)
    requires
        parent_size > 0,
        sum_field(ref_views(dirs@), Field::Size) <= u64::MAX,
    ensures
        k == cover_len(ref_views(dirs@), clamp_percent(top_n as nat) * parent_size),
{
    let p: u128 = if top_n < 1 {
        1
    } else if top_n > 100 {
        100
    } else {
        top_n as u128
    };
    assert(p * (parent_size as u128) <= 100 * u64::MAX && p * (parent_size as u128) >= 1) by (nonlinear_arith)
        requires
            1 <= p <= 100,
            1 <= parent_size <= u64::MAX,
    ;
    let need: u128 = p * (parent_size as u128);
    let ghost s = ref_views(dirs@);
    let mut acc: u128 = 0;
    let mut idx: usize = 0;
    proof {
        assert(s.take(0) =~= Seq::<NodeView>::empty());
        assert(s.skip(0) =~= s);
    }
    while idx < dirs.len()
        invariant_except_break
            s == ref_views(dirs@),
            sum_field(s, Field::Size) <= u64::MAX,
            need == clamp_percent(top_n as nat) * parent_size,
            idx <= dirs@.len(),
            acc == sum_field(s.take(idx as int), Field::Size),
            cover_len(s, need as int) == idx + cover_len(s.skip(idx as int), need - 100 * acc),
            100 * acc < need,
        ensures
            idx == cover_len(s, need as int),
        decreases dirs@.len() - idx,
    {
        proof {
            lemma_sum_take_step(s, idx as int, Field::Size);
            lemma_sum_split(s, idx + 1, Field::Size);
            let t = s.skip(idx as int);
            assert(t[0] == s[idx as int]);
            assert(t.drop_first() =~= s.skip(idx + 1));
        }
        acc = acc + dirs[idx].size as u128;
        idx = idx + 1;
        if acc * 100 >= need {
            break;
        }
    }
    proof {
        if idx == dirs@.len() {
            assert(s.skip(idx as int).len() == 0);
        }
    }
    idx
}

/// The directory children and the file children of `node`, in order.
fn partition_children(node: &TreeNode) -> (r: (Vec<&TreeNode>, Vec<&TreeNode>))
    ensures
        ref_views(r.0@) == of_kind(node@.children, true),
        ref_views(r.1@) == of_kind(node@.children, false),
{
    proof {
        lemma_children_views(*node);
    }
    let ghost cs = node@.children;
    let n = node.children.len();
    let mut dirs: Vec<&TreeNode> = Vec::new();
    let mut files: Vec<&TreeNode> = Vec::new();
    let mut i: usize = 0;
    proof {
        assert(cs.take(0) =~= Seq::<NodeView>::empty());
        assert(ref_views(dirs@) =~= Seq::<NodeView>::empty());
        assert(ref_views(files@) =~= Seq::<NodeView>::empty());
    }
    while i < n
        invariant
            n == node.children@.len(),
            cs == views(node.children@),
            i <= n,
            ref_views(dirs@) == of_kind(cs.take(i as int), true),
            ref_views(files@) == of_kind(cs.take(i as int), false),
        decreases n - i,
    {
        let c = &node.children[i];
        proof {
            assert(cs.take(i + 1) =~= cs.take(i as int) + seq![cs[i as int]]);
            lemma_of_kind_concat(cs.take(i as int), seq![cs[i as int]], true);
            lemma_of_kind_concat(cs.take(i as int), seq![cs[i as int]], false);
            lemma_of_kind_single(cs[i as int], true);
            lemma_of_kind_single(cs[i as int], false);
            assert(cs[i as int] == node_view(*c));
        }
        let ghost old_dirs = dirs@;
        let ghost old_files = files@;
        if is_dir_child(c) {
            dirs.push(c);
            assert(ref_views(dirs@) =~= ref_views(old_dirs) + seq![node_view(*c)]);
            assert(ref_views(files@) =~= ref_views(old_files) + Seq::<NodeView>::empty());
        } else {
            files.push(c);
            assert(ref_views(files@) =~= ref_views(old_files) + seq![node_view(*c)]);
            assert(ref_views(dirs@) =~= ref_views(old_dirs) + Seq::<NodeView>::empty());
        }
        i = i + 1;
    }
    proof {
        assert(cs.take(n as int) =~= cs);
    }
    (dirs, files)
}

/// The node references of `v` from position `k` on.
fn refs_from<'a>(v: &Vec<&'a TreeNode>, k: usize) -> (r: Vec<&'a TreeNode>)
    requires
        k <= v@.len(),
    ensures
        ref_views(r@) == ref_views(v@).skip(k as int),
{
    let n = v.len();
    let ghost sv = ref_views(v@);
    let mut r: Vec<&TreeNode> = Vec::new();
    let mut q: usize = k;
    proof {
        assert(ref_views(r@) =~= sv.subrange(k as int, k as int));
    }
    while q < n
        invariant
            k <= q <= n,
            n == v@.len(),
            sv == ref_views(v@),
            ref_views(r@) == sv.subrange(k as int, q as int),
        decreases n - q,
    {
        let ghost before = r@;
        r.push(v[q]);
        proof {
            assert(ref_views(before).len() == before.len());
            assert(ref_views(before) == sv.subrange(k as int, q as int));
            assert(sv.subrange(k as int, q as int).len() == q - k);
            assert(sv.len() == n);
            assert forall|w: int| 0 <= w < r@.len() implies #[trigger] ref_views(r@)[w] == sv.subrange(k as int, q + 1)[w] by {
                assert(ref_views(r@)[w] == node_view(*r@[w]));
                if w < before.len() {
                    assert(r@[w] == before[w]);
                    assert(ref_views(before)[w] == node_view(*before[w]));
                    assert(ref_views(before)[w] == sv.subrange(k as int, q as int)[w]);
                } else {
                    assert(r@[w] == v@[q as int]);
                    assert(sv[q as int] == node_view(*v@[q as int]));
                }
            }
            assert(ref_views(r@) =~= sv.subrange(k as int, q + 1));
        }
        q = q + 1;
    }
    assert(sv.subrange(k as int, n as int) =~= sv.skip(k as int));
    r
}

/// Appends copies of the file nodes `files` to `out`.
fn push_leaves(out: &mut Vec<TreeNode>, files: &Vec<&TreeNode>)
    requires
        forall|q: int| 0 <= q < ref_views(files@).len() ==> !is_dir_view(#[trigger] ref_views(files@)[q]),
    ensures
        views(final(out)@) == views(old(out)@) + ref_views(files@),
{
    let nf = files.len();
    let ghost fv = ref_views(files@);
    let ghost base = views(out@);
    let mut q: usize = 0;
    assert(base =~= base + fv.take(0));
    while q < nf
        invariant
            q <= nf,
            nf == files@.len(),
            fv == ref_views(files@),
            forall|w: int| 0 <= w < fv.len() ==> !is_dir_view(#[trigger] fv[w]),
            views(out@) == base + fv.take(q as int),
        decreases nf - q,
    {
        proof {
            assert(fv[q as int] == node_view(*files@[q as int]));
            assert(!is_dir_view(fv[q as int]));
        }
        let leaf = copy_leaf(files[q]);
        let ghost lv = leaf@;
        let ghost before = out@;
        out.push(leaf);
        proof {
            assert(views(before).len() == before.len());
            assert(views(before) == base + fv.take(q as int));
            assert(fv.take(q as int).len() == q);
            assert(fv.len() == nf);
            assert forall|w: int| 0 <= w < out@.len() implies #[trigger] views(out@)[w] == (base + fv.take(q + 1))[w] by {
                assert(views(out@)[w] == node_view(out@[w]));
                if w < before.len() {
                    assert(views(before)[w] == node_view(before[w]));
                    assert(out@[w] == before[w]);
                    assert(views(before)[w] == (base + fv.take(q as int))[w]);
                } else {
                    assert(out@[w] == before.push(out@[w]).last());
                }
            }
            assert(views(out@) =~= base + fv.take(q + 1));
        }
        q = q + 1;
    }
    assert(fv.take(nf as int) =~= fv);
}

/// The kept directory children pruned with depth budget `d`.
fn prune_kept(sorted: &Vec<&TreeNode>, k: usize, d: u32, top_n: usize, mode: TopNMode, merge_files: bool) -> (r: Vec<TreeNode>)
    requires
        k <= sorted@.len(),
        forall|q: int| 0 <= q < sorted@.len() ==> sums_fit_within(#[trigger] ref_views(sorted@)[q], d as nat),
    ensures
        views(r@) == Seq::new(k as nat, |q: int| prune_view(ref_views(sorted@)[q], d as nat, top_n as nat, mode, merge_files)),
    decreases d as int + 1, 0int,
{
    let ghost sd = ref_views(sorted@);
    let mut out: Vec<TreeNode> = Vec::new();
    let mut j: usize = 0;
    while j < k
        invariant
            j <= k <= sorted@.len(),
            sd == ref_views(sorted@),
            forall|q: int| 0 <= q < sorted@.len() ==> sums_fit_within(#[trigger] ref_views(sorted@)[q], d as nat),
            views(out@).len() == j,
            forall|q: int| 0 <= q < j ==> views(out@)[q] == prune_view(sd[q], d as nat, top_n as nat, mode, merge_files),
        decreases k - j,
    {
        proof {
            assert(sd[j as int] == node_view(*sorted@[j as int]));
            assert(sums_fit_within(sd[j as int], d as nat));
        }
        let child = prune(sorted[j], d, top_n, mode, merge_files);
        let ghost before = out@;
        let ghost cv = child@;
        out.push(child);
        proof {
            assert(views(out@)[j as int] == cv);
            assert forall|q: int| 0 <= q < j + 1 implies views(out@)[q] == prune_view(sd[q], d as nat, top_n as nat, mode, merge_files) by {
                if q < j {
                    assert(out@[q] == before[q]);
                    assert(views(before)[q] == node_view(before[q]));
                    assert(views(out@)[q] == node_view(out@[q]));
                }
            }
        }
        j = j + 1;
    }
    assert(views(out@) =~= Seq::new(k as nat, |q: int| prune_view(sd[q], d as nat, top_n as nat, mode, merge_files)));
    out
}

/// Each sorted directory child of a node whose sums fit within `d > 0`
/// levels has fitting sums within one level less.
proof fn lemma_sorted_dirs_fit(n: NodeView, d: nat)
    requires
        d > 0,
        sums_fit_within(n, d),
    ensures
        forall|q: int| 0 <= q < sorted_dirs(n).len() ==> sums_fit_within(#[trigger] sorted_dirs(n)[q], (d - 1) as nat),
{
    assert forall|q: int| 0 <= q < sorted_dirs(n).len() implies sums_fit_within(#[trigger] sorted_dirs(n)[q], (d - 1) as nat) by {
        let dv = of_kind(n.children, true);
        lemma_sort_from(dv, q);
        let x = sorted_dirs(n)[q];
        let i = choose|i: int| 0 <= i < dv.len() && dv[i] == x;
        lemma_of_kind_from(n.children, true, i);
        let w = choose|w: int| 0 <= w < n.children.len() && n.children[w] == x;
        assert(sums_fit_within(n.children[w], (d - 1) as nat));
    }
}

/// The file children of a node are all plain files.
proof fn lemma_files_are_files(n: NodeView)
    ensures
        forall|q: int| 0 <= q < of_kind(n.children, false).len() ==> !is_dir_view(#[trigger] of_kind(n.children, false)[q]),
{
    assert forall|q: int| 0 <= q < of_kind(n.children, false).len() implies !is_dir_view(#[trigger] of_kind(n.children, false)[q]) by {
        lemma_of_kind_from(n.children, false, q);
    }
}

/// Produces a size-bounded copy of `node` for display.
///
/// `max_depth` is a remaining-depth budget: with budget 0 the copy has no
/// children and is marked truncated when the node had any. Otherwise the
/// directory children are sorted by size (largest first, stable), the first
/// `keep_len` of them are pruned with one level less, the rest are summed into
/// a "(其他 N 项)" node, and the loose files are kept one by one or, with
/// `merge_files`, folded into a "(N 个文件)" node. The resulting children are
/// ordered by size, largest first. The copy is marked truncated exactly when
/// some directory child was aggregated or files were folded.
#[verifier::spinoff_prover]
#[verifier::rlimit(40)]
pub fn prune(node: &TreeNode, max_depth: u32, top_n: usize, mode: TopNMode, merge_files: bool) -> (r: TreeNode)
    requires
        sums_fit_within(node@, max_depth as nat),
    ensures
        r@ == prune_view(node@, max_depth as nat, top_n as nat, mode, merge_files),
    decreases max_depth as int, 1int,
{
    let ghost nv = node@;
    if max_depth == 0 {
        let r = TreeNode {
            name: node.name.clone(),
            size: node.size,
            allocated_size: node.allocated_size,
            size_self: node.size_self,
            allocated_self: node.allocated_self,
            file_count: node.file_count,
            folder_count: node.folder_count,
            last_modified: node.last_modified,
            children: Vec::new(),
            truncated: node.children.len() > 0,
        };
        proof {
            lemma_children_views(*node);
        }
        assert(r@.children =~= Seq::<NodeView>::empty());
        assert(r@ =~= prune_view(nv, max_depth as nat, top_n as nat, mode, merge_files));
        return r;
    }
    let (dirs, files) = partition_children(node);
    let ghost dir_views = of_kind(nv.children, true);
    let ghost file_views = of_kind(nv.children, false);
    let ghost unsorted = dirs@;
    let sorted = sort_vec(dirs);
    let ghost sd = sorted_dirs(nv);
    proof {
        let f = |r: &TreeNode| node_view(*r);
        lemma_sort_map(unsorted, f);
        assert(unsorted.map_values(f) =~= ref_views(unsorted));
        assert(sorted@.map_values(f) =~= ref_views(sorted@));
        lemma_sort_len(dir_views);
        lemma_parts_fit(nv, 0);
        lemma_sorted_dirs_fit(nv, max_depth as nat);
        lemma_files_are_files(nv);
    }
    assert(ref_views(sorted@) == sd);
    let nd = sorted.len();
    let k: usize = match mode {
        TopNMode::Count => {
            let m = if top_n == 0 { 1 } else { top_n };
            if nd > m { m } else { nd }
        },
        TopNMode::Percent => {
            if node.size == 0 {
                nd
            } else {
                percent_keep(&sorted, top_n, node.size)
            }
        },
    };
    assert(k == keep_len(sd, top_n as nat, mode, nv.size));
    proof {
        if mode == TopNMode::Percent && node.size != 0 {
            lemma_cover_len_le(sd, clamp_percent(top_n as nat) * nv.size);
        }
    }
    assert(k <= nd);
    let mut out = prune_kept(&sorted, k, max_depth - 1, top_n, mode, merge_files);
    let ghost kept = views(out@);
    let ghost rest = sd.skip(k as int);
    let ghost agg: Seq<NodeView> = if rest.len() > 0 { seq![others_view(rest)] } else { Seq::empty() };
    if k < nd {
        let rest_refs = refs_from(&sorted, k);
        proof {
            lemma_parts_fit(nv, k as int);
        }
        let a = aggregate_others(rest_refs.as_slice());
        let ghost before = out@;
        out.push(a);
        assert(views(out@) =~= views(before) + agg);
    } else {
        assert(views(out@) =~= views(out@) + agg);
    }
    let ghost loose: Seq<NodeView> = if merge_files {
        if file_views.len() > 0 { seq![files_view(file_views)] } else { Seq::empty() }
    } else {
        file_views
    };
    let ghost mid = views(out@);
    if merge_files {
        if files.len() > 0 {
            let fa = file_aggregate(files.as_slice());
            out.push(fa);
            assert(views(out@) =~= mid + loose);
        } else {
            assert(views(out@) =~= mid + loose);
        }
    } else {
        push_leaves(&mut out, &files);
    }
    assert(views(out@) =~= kept + agg + loose);
    assert(kept + agg + loose =~= pruned_parts(nv, max_depth as nat, top_n as nat, mode, merge_files));
    let ghost parts = out@;
    let children = sort_vec(out);
    proof {
        let f = |t: TreeNode| node_view(t);
        lemma_sort_map(parts, f);
        assert(parts.map_values(f) =~= views(parts));
        assert(children@.map_values(f) =~= views(children@));
    }
    let truncated = k < nd || (merge_files && files.len() > 0);
    let r = TreeNode {
        name: node.name.clone(),
        size: node.size,
        allocated_size: node.allocated_size,
        size_self: node.size_self,
        allocated_self: node.allocated_self,
        file_count: node.file_count,
        folder_count: node.folder_count,
        last_modified: node.last_modified,
        children,
        truncated,
    };
    proof {
        lemma_children_views(r);
    }
    assert(r@ =~= prune_view(nv, max_depth as nat, top_n as nat, mode, merge_files));
    r
}

/// `cover_len` never exceeds the length of the sequence.
pub proof fn lemma_cover_len_le(s: Seq<NodeView>, need: int)
    ensures
        cover_len(s, need) <= s.len(),
    decreases s.len(),
{
    if s.len() > 0 && 100 * s[0].size < need {
        lemma_cover_len_le(s.drop_first(), need - 100 * s[0].size);
    }
}

/// The tree below `v` is at most `d` levels deep.
pub open spec fn depth_within(v: NodeView, d: nat) -> bool
    decreases v,
{
    if d == 0 {
        v.children.len() == 0
    } else {
        forall|i: int| 0 <= i < v.children.len() ==> depth_within(#[trigger] v.children[i], (d - 1) as nat)
    }
}

/// At most `k` directory children are kept.
proof fn lemma_keep_len_le(n: NodeView, top_n: nat, mode: TopNMode)
    ensures
        keep_len(sorted_dirs(n), top_n, mode, n.size) <= sorted_dirs(n).len(),
        sorted_dirs(n).len() == of_kind(n.children, true).len(),
{
    lemma_sort_len(of_kind(n.children, true));
    lemma_cover_len_le(sorted_dirs(n), clamp_percent(top_n) * n.size);
}

/// Pruning keeps a node's own name, totals, own sizes and modification
/// time; only its children and its truncation flag change.
pub proof fn lemma_prune_keeps_node(n: NodeView, d: nat, top_n: nat, mode: TopNMode, merge: bool)
    ensures
        ({
            let p = prune_view(n, d, top_n, mode, merge);
            &&& p.name == n.name
            &&& p.size == n.size
            &&& p.allocated_size == n.allocated_size
            &&& p.size_self == n.size_self
            &&& p.allocated_self == n.allocated_self
            &&& p.file_count == n.file_count
            &&& p.folder_count == n.folder_count
            &&& p.last_modified == n.last_modified
        }),
{
}

proof fn lemma_sum_same_fields(a: Seq<NodeView>, b: Seq<NodeView>, f: Field)
    requires
        a.len() == b.len(),
        forall|i: int| 0 <= i < a.len() ==> field(#[trigger] a[i], f) == field(b[i], f),
    ensures
        sum_field(a, f) == sum_field(b, f),
    decreases a.len(),
{
    if a.len() > 0 {
        assert forall|i: int| 0 <= i < a.drop_first().len() implies field(#[trigger] a.drop_first()[i], f) == field(b.drop_first()[i], f) by {
            assert(a.drop_first()[i] == a[i + 1]);
            assert(b.drop_first()[i] == b[i + 1]);
        }
        lemma_sum_same_fields(a.drop_first(), b.drop_first(), f);
    }
}

/// Files have no folders below them.
proof fn lemma_files_have_no_folders(s: Seq<NodeView>)
    ensures
        sum_field(of_kind(s, false), Field::Folders) == 0,
    decreases s.len(),
{
    if s.len() > 0 {
        let t = s.drop_first();
        lemma_files_have_no_folders(t);
        if !is_dir_view(s[0]) {
            lemma_sum_concat(seq![s[0]], of_kind(t, false), Field::Folders);
            lemma_sum_single(s[0], Field::Folders);
        }
    }
}

/// Pruning accounts for every byte and every count: below a node with a
/// positive depth budget, the children of the copy (kept directories,
/// the "(其他 N 项)" aggregate, the files or their "(N 个文件)" fold) sum to
/// exactly what the node's own children sum to, for the size, the
/// allocated size, the file count and the folder count.
pub proof fn lemma_prune_conserves_sums(n: NodeView, d: nat, top_n: nat, mode: TopNMode, merge: bool, f: Field)
    requires
        d > 0,
        sums_fit_seq(n.children),
    ensures
        sum_field(prune_view(n, d, top_n, mode, merge).children, f) == sum_field(n.children, f),
{
    let dirs = sorted_dirs(n);
    let files = of_kind(n.children, false);
    let k = keep_len(dirs, top_n, mode, n.size);
    lemma_keep_len_le(n, top_n, mode);
    let kept = Seq::new(k, |i: int| prune_view(dirs[i], (d - 1) as nat, top_n, mode, merge));
    let rest = dirs.skip(k as int);
    let agg = if rest.len() > 0 { seq![others_view(rest)] } else { Seq::<NodeView>::empty() };
    let loose = if merge {
        if files.len() > 0 { seq![files_view(files)] } else { Seq::<NodeView>::empty() }
    } else {
        files
    };
    let parts = pruned_parts(n, d, top_n, mode, merge);
    assert(parts == kept + agg + loose);
    lemma_sum_sort(parts, f);
    lemma_sum_concat(kept + agg, loose, f);
    lemma_sum_concat(kept, agg, f);
    assert forall|i: int| 0 <= i < kept.len() implies field(#[trigger] kept[i], f) == field(dirs.take(k as int)[i], f) by {
        lemma_prune_keeps_node(dirs[i], (d - 1) as nat, top_n, mode, merge);
    }
    lemma_sum_same_fields(kept, dirs.take(k as int), f);
    lemma_parts_fit(n, k as int);
    if rest.len() > 0 {
        lemma_sum_single(others_view(rest), f);
    } else {
        assert(agg =~= Seq::<NodeView>::empty());
        assert(sum_field(rest, f) == 0);
    }
    if merge {
        if files.len() > 0 {
            lemma_sum_single(files_view(files), f);
            lemma_files_have_no_folders(n.children);
        } else {
            assert(sum_field(files, f) == 0);
        }
    }
    lemma_sum_split(dirs, k as int, f);
    lemma_sum_sort(of_kind(n.children, true), f);
    lemma_of_kind_sums(n.children, f);
}

/// The children of a pruned copy are ordered by size, largest first.
pub proof fn lemma_prune_sorted(n: NodeView, d: nat, top_n: nat, mode: TopNMode, merge: bool)
    ensures
        sorted_desc(prune_view(n, d, top_n, mode, merge).children),
{
    if d > 0 {
        lemma_sort_sorted(pruned_parts(n, d, top_n, mode, merge));
    }
}

/// A pruned copy is never deeper than its depth budget: with budget `d`
/// no node lies more than `d` levels below the root.
pub proof fn lemma_prune_depth(n: NodeView, d: nat, top_n: nat, mode: TopNMode, merge: bool)
    ensures
        depth_within(prune_view(n, d, top_n, mode, merge), d),
    decreases d,
{
    if d > 0 {
        let p = prune_view(n, d, top_n, mode, merge);
        let dirs = sorted_dirs(n);
        let files = of_kind(n.children, false);
        let k = keep_len(dirs, top_n, mode, n.size);
        let kept = Seq::new(k, |i: int| prune_view(dirs[i], (d - 1) as nat, top_n, mode, merge));
        let rest = dirs.skip(k as int);
        let agg = if rest.len() > 0 { seq![others_view(rest)] } else { Seq::<NodeView>::empty() };
        let loose = if merge {
            if files.len() > 0 { seq![files_view(files)] } else { Seq::<NodeView>::empty() }
        } else {
            files
        };
        let parts = pruned_parts(n, d, top_n, mode, merge);
        assert(parts == kept + agg + loose);
        lemma_sort_len(parts);
        assert forall|i: int| 0 <= i < p.children.len() implies depth_within(#[trigger] p.children[i], (d - 1) as nat) by {
            let c = p.children[i];
            lemma_sort_from(parts, i);
            let j = choose|j: int| 0 <= j < parts.len() && parts[j] == c;
            if j < kept.len() {
                lemma_prune_depth(dirs[j], (d - 1) as nat, top_n, mode, merge);
                assert(c == kept[j]);
            } else if j < kept.len() + agg.len() {
                assert(c == others_view(rest));
                assert(c.children.len() == 0);
            } else {
                let q = j - kept.len() - agg.len();
                assert(c == loose[q]);
                if merge {
                    assert(c.children.len() == 0);
                } else {
                    lemma_of_kind_from(n.children, false, q);
                    assert(!is_dir_view(c));
                    assert(c.children.len() == 0);
                }
            }
        }
    }
}

/// At every node of the tree below `v` (`v` included) the children are
/// ordered by size, largest first.
pub open spec fn sorted_throughout(v: NodeView) -> bool
    decreases v,
{
    &&& sorted_desc(v.children)
    &&& forall|i: int| 0 <= i < v.children.len() ==> sorted_throughout(#[trigger] v.children[i])
}

/// Every node of a pruned copy, at any depth, has its children ordered by
/// size, largest first; the aggregates of other entries and of loose files
/// take their places among them by size.
pub proof fn lemma_prune_sorted_throughout(n: NodeView, d: nat, top_n: nat, mode: TopNMode, merge: bool)
    ensures
        sorted_throughout(prune_view(n, d, top_n, mode, merge)),
    decreases d,
{
    let p = prune_view(n, d, top_n, mode, merge);
    lemma_prune_sorted(n, d, top_n, mode, merge);
    if d > 0 {
        let dirs = sorted_dirs(n);
        let files = of_kind(n.children, false);
        let k = keep_len(dirs, top_n, mode, n.size);
        let kept = Seq::new(k, |i: int| prune_view(dirs[i], (d - 1) as nat, top_n, mode, merge));
        let rest = dirs.skip(k as int);
        let agg = if rest.len() > 0 { seq![others_view(rest)] } else { Seq::<NodeView>::empty() };
        let loose = if merge {
            if files.len() > 0 { seq![files_view(files)] } else { Seq::<NodeView>::empty() }
        } else {
            files
        };
        let parts = pruned_parts(n, d, top_n, mode, merge);
        assert(parts == kept + agg + loose);
        lemma_sort_len(parts);
        assert forall|i: int| 0 <= i < p.children.len() implies sorted_throughout(#[trigger] p.children[i]) by {
            let c = p.children[i];
            lemma_sort_from(parts, i);
            let j = choose|j: int| 0 <= j < parts.len() && parts[j] == c;
            if j < kept.len() {
                lemma_prune_sorted_throughout(dirs[j], (d - 1) as nat, top_n, mode, merge);
                assert(c == kept[j]);
            } else if j < kept.len() + agg.len() {
                assert(c == others_view(rest));
                assert(c.children.len() == 0);
            } else {
                let q = j - kept.len() - agg.len();
                assert(c == loose[q]);
                if merge {
                    assert(c.children.len() == 0);
                } else {
                    lemma_of_kind_from(n.children, false, q);
                    assert(!is_dir_view(c));
                    assert(c.children.len() == 0);
                }
            }
        }
    }
}

/// In count mode at most `top_n` (at least 1) directories are kept, so a
/// pruned node has at most that many children plus one aggregate plus its
/// files (or their one fold).
pub proof fn lemma_prune_count_bound(n: NodeView, d: nat, top_n: nat, merge: bool)
    requires
        d > 0,
    ensures
        prune_view(n, d, top_n, TopNMode::Count, merge).children.len()
            <= (if top_n == 0 { 1 } else { top_n }) + 1 + (if merge { 1 } else { of_kind(n.children, false).len() }),
{
    let parts = pruned_parts(n, d, top_n, TopNMode::Count, merge);
    lemma_sort_len(parts);
}

proof fn lemma_take_first(s: Seq<NodeView>, j: int)
    requires
        1 <= j <= s.len(),
    ensures
        sum_field(s.take(j), Field::Size) == s[0].size + sum_field(s.drop_first().take(j - 1), Field::Size),
{
    assert(s.take(j) =~= seq![s[0]] + s.drop_first().take(j - 1));
    lemma_sum_concat(seq![s[0]], s.drop_first().take(j - 1), Field::Size);
    lemma_sum_single(s[0], Field::Size);
}

/// `cover_len` is the length of the shortest prefix whose sizes, times 100,
/// reach `need` (all of the sequence when none does).
pub proof fn lemma_cover_len_shortest(s: Seq<NodeView>, need: int)
    requires
        need > 0,
    ensures
        cover_len(s, need) <= s.len(),
        s.len() > 0 ==> cover_len(s, need) >= 1,
        cover_len(s, need) < s.len() ==> 100 * sum_field(s.take(cover_len(s, need) as int), Field::Size) >= need,
        forall|j: int| 0 <= j < cover_len(s, need) ==> 100 * sum_field(#[trigger] s.take(j), Field::Size) < need,
    decreases s.len(),
{
    lemma_cover_len_le(s, need);
    if s.len() > 0 {
        let c = cover_len(s, need);
        assert(s.take(0) =~= Seq::<NodeView>::empty());
        if 100 * s[0].size >= need {
            lemma_take_first(s, 1);
            assert(s.drop_first().take(0) =~= Seq::<NodeView>::empty());
        } else {
            let s1 = s.drop_first();
            let need1 = need - 100 * s[0].size;
            lemma_cover_len_shortest(s1, need1);
            let c1 = cover_len(s1, need1);
            if c < s.len() {
                lemma_take_first(s, c as int);
            }
            assert forall|j: int| 0 <= j < c implies 100 * sum_field(#[trigger] s.take(j), Field::Size) < need by {
                if j >= 1 {
                    lemma_take_first(s, j);
                    assert(100 * sum_field(s1.take(j - 1), Field::Size) < need1);
                }
            }
        }
    }
}

/// In percent mode (under a non-empty parent) the kept directories are the
/// fewest largest ones that together cover `top_n` percent (clamped to
/// 1..=100) of the parent's size, or all of them when they never do; at
/// least one is kept when there are any.
pub proof fn lemma_percent_keeps_fewest(n: NodeView, top_n: nat)
    requires
        n.size > 0,
    ensures
        ({
            let dirs = sorted_dirs(n);
            let k = keep_len(dirs, top_n, TopNMode::Percent, n.size);
            let need = clamp_percent(top_n) * n.size;
            &&& k <= dirs.len()
            &&& dirs.len() > 0 ==> k >= 1
            &&& k < dirs.len() ==> 100 * sum_field(dirs.take(k as int), Field::Size) >= need
            &&& forall|j: int| 0 <= j < k ==> 100 * sum_field(#[trigger] dirs.take(j), Field::Size) < need
        }),
{
    let need = clamp_percent(top_n) * n.size;
    assert(need > 0) by (nonlinear_arith)
        requires
            need == clamp_percent(top_n) * n.size,
            clamp_percent(top_n) >= 1,
            n.size > 0,
    ;
    lemma_cover_len_shortest(sorted_dirs(n), need);
}

proof fn lemma_of_kind_lens(s: Seq<NodeView>)
    ensures
        of_kind(s, true).len() + of_kind(s, false).len() == s.len(),
    decreases s.len(),
{
    if s.len() > 0 {
        lemma_of_kind_lens(s.drop_first());
    }
}

/// A pruned node with a positive budget that is not marked truncated shows
/// every one of its children individually.
pub proof fn lemma_prune_untruncated_complete(n: NodeView, d: nat, top_n: nat, mode: TopNMode, merge: bool)
    requires
        d > 0,
        !prune_view(n, d, top_n, mode, merge).truncated,
    ensures
        prune_view(n, d, top_n, mode, merge).children.len() == n.children.len(),
{
    lemma_keep_len_le(n, top_n, mode);
    lemma_sort_len(pruned_parts(n, d, top_n, mode, merge));
    lemma_of_kind_lens(n.children);
}

/// Sorting keeps every element.
proof fn lemma_sort_keeps(parts: Seq<NodeView>, x: NodeView)
    requires
        parts.contains(x),
    ensures
        sort_desc(parts).contains(x),
{
    lemma_sort_multiset(parts);
    parts.to_multiset_ensures();
    sort_desc(parts).to_multiset_ensures();
    assert(parts.to_multiset().count(x) > 0);
    assert(sort_desc(parts).to_multiset().count(x) > 0);
}

/// The pieces a pruned node's children are made of (see `pruned_parts`).
proof fn lemma_parts_split(n: NodeView, d: nat, top_n: nat, mode: TopNMode, merge: bool)
    requires
        d > 0,
    ensures
        ({
            let dirs = sorted_dirs(n);
            let files = of_kind(n.children, false);
            let k = keep_len(dirs, top_n, mode, n.size);
            let kept = Seq::new(k, |i: int| prune_view(dirs[i], (d - 1) as nat, top_n, mode, merge));
            let rest = dirs.skip(k as int);
            let agg = if rest.len() > 0 { seq![others_view(rest)] } else { Seq::<NodeView>::empty() };
            let loose = if merge {
                if files.len() > 0 { seq![files_view(files)] } else { Seq::<NodeView>::empty() }
            } else {
                files
            };
            pruned_parts(n, d, top_n, mode, merge) == kept + agg + loose
        }),
{
}

/// A kept directory is pruned like its parent: with one level less of
/// depth budget and the same cut-off and file folding, so that every level
/// of the result follows the same settings.
pub proof fn lemma_prune_kept_same_settings(n: NodeView, d: nat, top_n: nat, mode: TopNMode, merge: bool, i: int)
    requires
        d > 0,
        0 <= i < keep_len(sorted_dirs(n), top_n, mode, n.size),
    ensures
        prune_view(n, d, top_n, mode, merge).children.contains(
            prune_view(sorted_dirs(n)[i], (d - 1) as nat, top_n, mode, merge),
        ),
{
    let dirs = sorted_dirs(n);
    let k = keep_len(dirs, top_n, mode, n.size);
    let kept = Seq::new(k, |j: int| prune_view(dirs[j], (d - 1) as nat, top_n, mode, merge));
    let parts = pruned_parts(n, d, top_n, mode, merge);
    lemma_parts_split(n, d, top_n, mode, merge);
    let x = prune_view(dirs[i], (d - 1) as nat, top_n, mode, merge);
    assert(kept[i] == x);
    assert(parts[i] == x);
    lemma_sort_keeps(parts, x);
}

/// With file folding, a pruned directory with loose files shows them as
/// one "(N 个文件)" node summing them, and is marked truncated; without it,
/// every loose file stays among its children as it is.
pub proof fn lemma_prune_loose_files(n: NodeView, d: nat, top_n: nat, mode: TopNMode, merge: bool)
    requires
        d > 0,
        of_kind(n.children, false).len() > 0,
    ensures
        ({
            let p = prune_view(n, d, top_n, mode, merge);
            let files = of_kind(n.children, false);
            &&& merge ==> {
                &&& p.truncated
                &&& p.children.contains(files_view(files))
                &&& files_view(files).name == files_name(sum_field(files, Field::Files) as nat)
                &&& files_view(files).truncated
            }
            &&& !merge ==> forall|j: int| 0 <= j < files.len() ==> p.children.contains(#[trigger] files[j])
        }),
{
    let files = of_kind(n.children, false);
    let parts = pruned_parts(n, d, top_n, mode, merge);
    lemma_parts_split(n, d, top_n, mode, merge);
    let dirs = sorted_dirs(n);
    let k = keep_len(dirs, top_n, mode, n.size);
    let kept = Seq::new(k, |j: int| prune_view(dirs[j], (d - 1) as nat, top_n, mode, merge));
    let rest = dirs.skip(k as int);
    let agg = if rest.len() > 0 { seq![others_view(rest)] } else { Seq::<NodeView>::empty() };
    let loose = if merge { seq![files_view(files)] } else { files };
    assert(parts == kept + agg + loose);
    if merge {
        let at: int = (kept.len() + agg.len()) as int;
        assert(parts[at] == files_view(files));
        lemma_sort_keeps(parts, files_view(files));
    } else {
        assert forall|j: int| 0 <= j < files.len() implies sort_desc(parts).contains(#[trigger] files[j]) by {
            assert(parts[kept.len() + agg.len() + j] == files[j]);
            lemma_sort_keeps(parts, files[j]);
        }
    }
}

/// Folding reaches below the top: with file folding, a kept directory that
/// has loose files appears among the pruned children (when the budget
/// reaches it with a level to spare) with those files folded into one
/// "(N 个文件)" node, and is itself marked truncated.
pub proof fn lemma_prune_folds_in_kept(n: NodeView, d: nat, top_n: nat, mode: TopNMode, i: int)
    requires
        d > 1,
        0 <= i < keep_len(sorted_dirs(n), top_n, mode, n.size),
        of_kind(sorted_dirs(n)[i].children, false).len() > 0,
    ensures
        exists|j: int|
            0 <= j < prune_view(n, d, top_n, mode, true).children.len() && {
                let q = #[trigger] prune_view(n, d, top_n, mode, true).children[j];
                &&& q.name == sorted_dirs(n)[i].name
                &&& q.truncated
                &&& q.children.contains(files_view(of_kind(sorted_dirs(n)[i].children, false)))
            },
{
    let c = sorted_dirs(n)[i];
    let q = prune_view(c, (d - 1) as nat, top_n, mode, true);
    lemma_prune_kept_same_settings(n, d, top_n, mode, true, i);
    lemma_prune_loose_files(c, (d - 1) as nat, top_n, mode, true);
    lemma_prune_keeps_node(c, (d - 1) as nat, top_n, mode, true);
    let ch = prune_view(n, d, top_n, mode, true).children;
    let j = choose|j: int| 0 <= j < ch.len() && ch[j] == q;
    assert(ch[j] == q);
}

} // verus!
