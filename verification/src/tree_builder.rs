//! Rebuilding the aggregated tree from the flat records of a volume's
//! change journal: every record names itself and its parent by reference
//! number, and the tree hangs below the volume root. One node stands for
//! each reference number (the last record that carries it), and a depth
//! first walk from the root takes up every number at most once.

use vstd::prelude::*;
use std::collections::{HashMap, HashSet};
use crate::models::{TreeNode, NodeView, views, node_view, lemma_children_views};
use crate::order::{sort_desc, sort_vec, lemma_sort_map, lemma_sort_len};
use crate::totals::{Field, sum_field, lemma_sum_nonneg, lemma_sum_sort, lemma_sum_split, lemma_sum_take_step};

verus! {

broadcast use vstd::std_specs::hash::group_hash_axioms;

/// A flat record of the journal enumeration. `frn` is the file reference
/// number (the parent/child link); `size` and `allocated_size` are filled in
/// afterwards by reading each file's metadata.
#[derive(Clone)]
pub struct FlatEntry {
    pub frn: u64,
    pub parent_frn: u64,
    pub name: String,
    pub is_dir: bool,
    pub size: u64,
    pub allocated_size: u64,
}

/// Some record carries the reference number `f`.
pub open spec fn has_frn(es: Seq<FlatEntry>, f: u64) -> bool {
    exists|j: int| 0 <= j < es.len() && #[trigger] es[j].frn == f
}

/// The index of the last record carrying `f` among the first `n`, or -1.
pub open spec fn last_upto(es: Seq<FlatEntry>, f: u64, n: int) -> int
    decreases n,
{
    if n <= 0 {
        -1
    } else if es[n - 1].frn == f {
        n - 1
    } else {
        last_upto(es, f, n - 1)
    }
}

/// The index of the last record carrying `f`, or -1 when none does.
pub open spec fn last_idx(es: Seq<FlatEntry>, f: u64) -> int {
    last_upto(es, f, es.len() as int)
}

/// The record that stands for the reference number `f`: the last one that
/// carries it (a later record with the same number replaces an earlier one).
pub open spec fn rec_of(es: Seq<FlatEntry>, f: u64) -> FlatEntry {
    es[last_idx(es, f)]
}

/// The reference numbers of the records among the first `k` whose parent is
/// `f`, in input order, once per record.
pub open spec fn kid_frns_upto(es: Seq<FlatEntry>, f: u64, k: int) -> Seq<u64>
    decreases k,
{
    if k <= 0 {
        Seq::empty()
    } else {
        let s = kid_frns_upto(es, f, k - 1);
        if es[k - 1].parent_frn == f {
            s.push(es[k - 1].frn)
        } else {
            s
        }
    }
}

/// The reference numbers listed as children of `f`: one entry per record
/// whose parent is `f`, in input order.
pub open spec fn kid_frns(es: Seq<FlatEntry>, f: u64) -> Seq<u64> {
    kid_frns_upto(es, f, es.len() as int)
}

/// A candidate for the volume root: a record that stands for its number, on
/// the first pass with parent 0 or itself, on the second with a parent that
/// no record carries.
pub open spec fn root_candidate(es: Seq<FlatEntry>, i: int, second: bool) -> bool {
    &&& last_idx(es, es[i].frn) == i
    &&& if !second {
        es[i].parent_frn == 0 || es[i].parent_frn == es[i].frn
    } else {
        es[i].parent_frn != es[i].frn && !has_frn(es, es[i].parent_frn)
    }
}

/// The first candidate of a pass at or after index `k`.
pub open spec fn first_candidate(es: Seq<FlatEntry>, second: bool, k: int) -> Option<int>
    decreases es.len() - k,
{
    if k < 0 || k >= es.len() {
        None
    } else if root_candidate(es, k, second) {
        Some(k)
    } else {
        first_candidate(es, second, k + 1)
    }
}

/// The volume root: the first record standing for its number whose parent
/// is 0 or itself, else the first whose parent is missing from the records.
pub open spec fn root_index(es: Seq<FlatEntry>) -> Option<int> {
    match first_candidate(es, false, 0) {
        Some(i) => Some(i),
        None => first_candidate(es, true, 0),
    }
}

/// How many of the first `n` records carry a number outside `seen`.
pub open spec fn unseen_upto(es: Seq<FlatEntry>, seen: Set<u64>, n: int) -> nat
    decreases n,
{
    if n <= 0 {
        0
    } else {
        unseen_upto(es, seen, n - 1) + (if seen.contains(es[n - 1].frn) { 0nat } else { 1nat })
    }
}

/// How many records carry a number outside `seen`.
pub open spec fn unseen(es: Seq<FlatEntry>, seen: Set<u64>) -> nat {
    unseen_upto(es, seen, es.len() as int)
}

/// Taking up more numbers leaves no more records outside them.
pub proof fn lemma_unseen_mono(es: Seq<FlatEntry>, a: Set<u64>, b: Set<u64>, n: int)
    requires
        a.subset_of(b),
    ensures
        unseen_upto(es, b, n) <= unseen_upto(es, a, n),
    decreases n,
{
    if n > 0 {
        lemma_unseen_mono(es, a, b, n - 1);
    }
}

/// Taking up a number that a record carries leaves fewer records outside.
pub proof fn lemma_unseen_insert(es: Seq<FlatEntry>, a: Set<u64>, j: int, n: int)
    requires
        0 <= j < n,
        !a.contains(es[j].frn),
    ensures
        unseen_upto(es, a.insert(es[j].frn), n) < unseen_upto(es, a, n),
    decreases n,
{
    let c = es[j].frn;
    if es[n - 1].frn == c {
        lemma_unseen_mono(es, a, a.insert(c), n - 1);
    } else {
        lemma_unseen_insert(es, a, j, n - 1);
    }
}

/// What the walk makes of the number `x`, entered with the numbers `seen`
/// already taken up (`x` among them): the node of `x`, the numbers taken up
/// once its subtree is done, and whether every sum below it fits.
///
/// The children of `x` are handled from the last listed to the first; a
/// number already taken up is passed over, any other is taken up and walked
/// in turn. So every number is walked at most once, and a number listed
/// under several parents hangs below the one that reached it first.
pub open spec fn visit(es: Seq<FlatEntry>, x: u64, seen: Set<u64>) -> (NodeView, Set<u64>, bool)
    decreases unseen(es, seen), 1int, 0int,
{
    let kf = kid_frns(es, x);
    let l = visit_list(es, kf, kf.len() as int, seen);
    let n = node_of(es, x, kf, l.0);
    (n.0, l.1, l.2 && n.1)
}

/// The walk over the children `kf[0..m]`, from the last to the first: the
/// nodes of the numbers it takes up, the numbers taken up after it, and
/// whether every sum fits.
pub open spec fn visit_list(es: Seq<FlatEntry>, kf: Seq<u64>, m: int, seen: Set<u64>) -> (Map<u64, NodeView>, Set<u64>, bool)
    decreases unseen(es, seen), 0int, m,
{
    if m <= 0 {
        (Map::empty(), seen, true)
    } else {
        let c = kf[m - 1];
        if seen.contains(c) || !has_frn(es, c) {
            visit_list(es, kf, m - 1, seen)
        } else {
            proof {
                let j = choose|j: int| 0 <= j < es.len() && #[trigger] es[j].frn == c;
                lemma_unseen_insert(es, seen, j, es.len() as int);
            }
            let ch = visit(es, c, seen.insert(c));
            let s1 = seen.union(ch.1);
            proof {
                lemma_unseen_mono(es, seen, s1, es.len() as int);
            }
            let rest = visit_list(es, kf, m - 1, s1);
            (rest.0.insert(c, ch.0), rest.1, ch.2 && rest.2)
        }
    }
}

/// The numbers of `kf[0..n]` that have a node in `m`, each at its first
/// place in `kf`: the order in which the children are handed to their
/// parent.
pub open spec fn arrange(kf: Seq<u64>, m: Map<u64, NodeView>, n: int) -> Seq<u64>
    decreases n,
{
    if n <= 0 {
        Seq::empty()
    } else {
        let a = arrange(kf, m, n - 1);
        let c = kf[n - 1];
        if m.contains_key(c) && !kf.take(n - 1).contains(c) {
            a.push(c)
        } else {
            a
        }
    }
}

/// How many of the numbers `af` stand for directories.
pub open spec fn dirs_among(es: Seq<FlatEntry>, af: Seq<u64>) -> int
    decreases af.len(),
{
    if af.len() == 0 {
        0
    } else {
        dirs_among(es, af.drop_last()) + (if rec_of(es, af.last()).is_dir { 1int } else { 0int })
    }
}

/// The logical or on-disk size of a record.
pub open spec fn entry_size(e: FlatEntry, f: Field) -> int {
    match f {
        Field::Allocated => e.allocated_size as int,
        _ => e.size as int,
    }
}

/// The summed sizes of the files among the numbers `af`.
pub open spec fn files_size(es: Seq<FlatEntry>, af: Seq<u64>, f: Field) -> int
    decreases af.len(),
{
    if af.len() == 0 {
        0
    } else {
        let e = rec_of(es, af.last());
        files_size(es, af.drop_last(), f) + (if !e.is_dir { entry_size(e, f) } else { 0 })
    }
}

/// The node of the number `x` given the nodes `m` of the children it took
/// up (listed in `kf`), and whether its sums fit their integer types.
///
/// The children are handed over in the order of `arrange` and then ordered
/// by size, largest first. A directory sums sizes and counts over them; its
/// own sizes are those of its direct files, and its folder count adds one
/// for every directory among them, so that it counts exactly the folders
/// strictly below it. A file keeps its own sizes and counts one file. No
/// record carries a modification time, so it is 0 throughout.
pub open spec fn node_of(es: Seq<FlatEntry>, x: u64, kf: Seq<u64>, m: Map<u64, NodeView>) -> (NodeView, bool) {
    let e = rec_of(es, x);
    let af = arrange(kf, m, kf.len() as int);
    let cs = af.map_values(|c: u64| m[c]);
    if e.is_dir {
        (
            NodeView {
                name: e.name@,
                size: sum_field(cs, Field::Size) as u64,
                allocated_size: sum_field(cs, Field::Allocated) as u64,
                size_self: files_size(es, af, Field::Size) as u64,
                allocated_self: files_size(es, af, Field::Allocated) as u64,
                file_count: sum_field(cs, Field::Files) as u32,
                folder_count: (sum_field(cs, Field::Folders) + dirs_among(es, af)) as u32,
                last_modified: 0,
                children: sort_desc(cs),
                truncated: false,
            },
            sum_field(cs, Field::Size) <= u64::MAX && sum_field(cs, Field::Allocated) <= u64::MAX
                && sum_field(cs, Field::Files) <= u32::MAX && sum_field(cs, Field::Folders) + dirs_among(es, af) <= u32::MAX
                && files_size(es, af, Field::Size) <= u64::MAX && files_size(es, af, Field::Allocated) <= u64::MAX,
        )
    } else {
        (
            NodeView {
                name: e.name@,
                size: e.size,
                allocated_size: e.allocated_size,
                size_self: e.size,
                allocated_self: e.allocated_size,
                file_count: 1,
                folder_count: 0,
                last_modified: 0,
                children: sort_desc(cs),
                truncated: false,
            },
            true,
        )
    }
}

/// The walk from the root `i` (see `root_index`).
pub open spec fn tree_walk(es: Seq<FlatEntry>, i: int) -> (NodeView, Set<u64>, bool) {
    visit(es, es[i].frn, set![es[i].frn])
}

/// Every sum of the tree fits its integer type (trivially so without a
/// root).
pub open spec fn tree_fits(es: Seq<FlatEntry>) -> bool {
    match root_index(es) {
        Some(i) => tree_walk(es, i).2,
        None => true,
    }
}

proof fn lemma_last_upto(es: Seq<FlatEntry>, f: u64, n: int)
    requires
        0 <= n <= es.len(),
    ensures
        -1 <= last_upto(es, f, n) < n,
        last_upto(es, f, n) >= 0 ==> es[last_upto(es, f, n)].frn == f,
        last_upto(es, f, n) >= 0 <==> exists|j: int| 0 <= j < n && #[trigger] es[j].frn == f,
    decreases n,
{
    if n > 0 {
        lemma_last_upto(es, f, n - 1);
        if es[n - 1].frn == f {
            assert(es[n - 1].frn == f);
        }
    }
}

/// A number that some record carries stands for the last such record.
proof fn lemma_last_idx(es: Seq<FlatEntry>, f: u64)
    ensures
        -1 <= last_idx(es, f) < es.len(),
        last_idx(es, f) >= 0 <==> has_frn(es, f),
        last_idx(es, f) >= 0 ==> rec_of(es, f).frn == f,
{
    lemma_last_upto(es, f, es.len() as int);
}

/// Every number listed as a child is carried by a record.
proof fn lemma_kid_frns_carried(es: Seq<FlatEntry>, f: u64, k: int)
    requires
        k <= es.len(),
    ensures
        forall|t: int| 0 <= t < kid_frns_upto(es, f, k).len() ==> has_frn(es, #[trigger] kid_frns_upto(es, f, k)[t]),
    decreases k,
{
    if k > 0 {
        lemma_kid_frns_carried(es, f, k - 1);
        let s = kid_frns_upto(es, f, k - 1);
        assert forall|t: int| 0 <= t < kid_frns_upto(es, f, k).len() implies has_frn(es, #[trigger] kid_frns_upto(es, f, k)[t]) by {
            if t < s.len() {
                assert(kid_frns_upto(es, f, k)[t] == s[t]);
            } else {
                assert(es[k - 1].frn == kid_frns_upto(es, f, k)[t]);
            }
        }
    }
}

/// The children lists of all reference numbers, from one pass over the
/// records.
fn kids_map(es: &Vec<FlatEntry>) -> (m: HashMap<u64, Vec<u64>>)
    ensures
        forall|f: u64| #[trigger] kid_frns(es@, f) == (if m@.contains_key(f) { m@[f]@ } else { Seq::empty() }),
{
    let mut m: HashMap<u64, Vec<u64>> = HashMap::new();
    let mut j: usize = 0;
    while j < es.len()
        invariant
            j <= es@.len(),
            forall|f: u64| #[trigger] kid_frns_upto(es@, f, j as int) == (if m@.contains_key(f) { m@[f]@ } else { Seq::empty() }),
        decreases es@.len() - j,
    {
        let p = es[j].parent_frn;
        let ghost before = m@;
        let mut v: Vec<u64> = match m.remove(&p) {
            Some(v) => v,
            None => Vec::new(),
        };
        assert(v@ == kid_frns_upto(es@, p, j as int));
        v.push(es[j].frn);
        m.insert(p, v);
        assert forall|f: u64| #[trigger] kid_frns_upto(es@, f, j + 1) == (if m@.contains_key(f) { m@[f]@ } else { Seq::empty() }) by {
            assert(kid_frns_upto(es@, f, j + 1) == (if es@[j as int].parent_frn == f {
                kid_frns_upto(es@, f, j as int).push(es@[j as int].frn)
            } else {
                kid_frns_upto(es@, f, j as int)
            }));
            if f != p {
                assert(m@.contains_key(f) == before.contains_key(f));
            }
        }
        j = j + 1;
    }
    m
}

/// For every number a record carries, the index of the last such record.
fn last_map(es: &Vec<FlatEntry>) -> (m: HashMap<u64, usize>)
    ensures
        forall|f: u64| #[trigger] m@.contains_key(f) <==> has_frn(es@, f),
        forall|f: u64| #[trigger] m@.contains_key(f) ==> m@[f] == last_idx(es@, f),
{
    let mut m: HashMap<u64, usize> = HashMap::new();
    let mut j: usize = 0;
    while j < es.len()
        invariant
            j <= es@.len(),
            forall|f: u64| #[trigger] m@.contains_key(f) <==> last_upto(es@, f, j as int) >= 0,
            forall|f: u64| #[trigger] m@.contains_key(f) ==> m@[f] == last_upto(es@, f, j as int),
        decreases es@.len() - j,
    {
        m.insert(es[j].frn, j);
        j = j + 1;
    }
    assert forall|f: u64| #[trigger] m@.contains_key(f) <==> has_frn(es@, f) by {
        lemma_last_idx(es@, f);
    }
    m
}

/// The first root candidate of a pass (see `root_index`).
fn first_root_candidate(es: &Vec<FlatEntry>, lp: &HashMap<u64, usize>, second: bool) -> (r: Option<usize>)
    requires
        forall|f: u64| #[trigger] lp@.contains_key(f) <==> has_frn(es@, f),
        forall|f: u64| #[trigger] lp@.contains_key(f) ==> lp@[f] == last_idx(es@, f),
    ensures
        match first_candidate(es@, second, 0) {
            Some(i) => r == Some(i as usize),
            None => r is None,
        },
{
    let mut k: usize = 0;
    while k < es.len()
        invariant
            k <= es@.len(),
            forall|f: u64| #[trigger] lp@.contains_key(f) <==> has_frn(es@, f),
            forall|f: u64| #[trigger] lp@.contains_key(f) ==> lp@[f] == last_idx(es@, f),
            first_candidate(es@, second, 0) == first_candidate(es@, second, k as int),
        decreases es@.len() - k,
    {
        let e = &es[k];
        let stands = match lp.get(&e.frn) {
            Some(li) => *li == k,
            None => false,
        };
        proof {
            assert(es@[k as int].frn == e.frn);
            lemma_last_idx(es@, e.frn);
        }
        let hit = stands && if !second {
            e.parent_frn == 0 || e.parent_frn == e.frn
        } else {
            e.parent_frn != e.frn && !lp.contains_key(&e.parent_frn)
        };
        if hit {
            return Some(k);
        }
        k = k + 1;
    }
    None
}

proof fn lemma_first_candidate_range(es: Seq<FlatEntry>, second: bool, k: int)
    ensures
        first_candidate(es, second, k) matches Some(i) ==> k <= i < es.len() && root_candidate(es, i, second),
    decreases es.len() - k,
{
    if 0 <= k < es.len() && !root_candidate(es, k, second) {
        lemma_first_candidate_range(es, second, k + 1);
    }
}

/// The index of the volume root (see `root_index`).
fn find_root(es: &Vec<FlatEntry>, lp: &HashMap<u64, usize>) -> (r: Option<usize>)
    requires
        forall|f: u64| #[trigger] lp@.contains_key(f) <==> has_frn(es@, f),
        forall|f: u64| #[trigger] lp@.contains_key(f) ==> lp@[f] == last_idx(es@, f),
    ensures
        match root_index(es@) {
            Some(i) => r == Some(i as usize) && 0 <= i < es@.len() && last_idx(es@, es@[i].frn) == i,
            None => r is None,
        },
{
    proof {
        lemma_first_candidate_range(es@, false, 0);
        lemma_first_candidate_range(es@, true, 0);
    }
    match first_root_candidate(es, lp, false) {
        Some(i) => Some(i),
        None => first_root_candidate(es, lp, true),
    }
}

proof fn lemma_dirs_bound(es: Seq<FlatEntry>, af: Seq<u64>)
    ensures
        0 <= dirs_among(es, af) <= af.len(),
    decreases af.len(),
{
    if af.len() > 0 {
        lemma_dirs_bound(es, af.drop_last());
    }
}

proof fn lemma_files_nonneg(es: Seq<FlatEntry>, af: Seq<u64>, f: Field)
    ensures
        files_size(es, af, f) >= 0,
    decreases af.len(),
{
    if af.len() > 0 {
        lemma_files_nonneg(es, af.drop_last(), f);
    }
}

/// The direct files of a prefix weigh no more than those of the whole.
proof fn lemma_files_prefix(es: Seq<FlatEntry>, af: Seq<u64>, k: int, f: Field)
    requires
        0 <= k <= af.len(),
    ensures
        0 <= files_size(es, af.take(k), f) <= files_size(es, af, f),
    decreases af.len(),
{
    lemma_files_nonneg(es, af.take(k), f);
    if k == af.len() {
        assert(af.take(k) =~= af);
    } else {
        assert(af.drop_last().take(k) =~= af.take(k));
        lemma_files_prefix(es, af.drop_last(), k, f);
    }
}

/// The numbers among the first `t` of `kf`.
spec fn placed(kf: Seq<u64>, t: int) -> Set<u64> {
    Set::new(|k: u64| kf.take(t).contains(k))
}

/// One number of the walk in progress: the number `x` and the index `rec`
/// of the record that stands for it, the count `m` of its listed children
/// still to handle (they are handled from the last), the nodes of the
/// children it took up, the numbers taken up when it was entered (`s`) and
/// when it last stepped (`cur`).
struct Frame {
    x: u64,
    rec: usize,
    m: usize,
    acc: HashMap<u64, TreeNode>,
    s: Ghost<Set<u64>>,
    cur: Ghost<Set<u64>>,
}

/// The views of the nodes a frame holds.
spec fn accv(f: Frame) -> Map<u64, NodeView> {
    f.acc@.map_values(|t: TreeNode| t@)
}

/// The frame's walk so far, joined to the walk over its first `pend`
/// children from `cur` on, gives the walk over all of its children (see
/// `visit_list`).
spec fn frame_ok(es: Seq<FlatEntry>, f: Frame, pend: int) -> bool {
    let kf = kid_frns(es, f.x);
    let whole = visit_list(es, kf, kf.len() as int, f.s@);
    let r = visit_list(es, kf, pend, f.cur@);
    &&& f.rec < es.len()
    &&& last_idx(es, f.x) == f.rec
    &&& es[f.rec as int].frn == f.x
    &&& 0 <= pend <= kf.len()
    &&& f.s@.contains(f.x)
    &&& f.s@.subset_of(f.cur@)
    &&& accv(f).dom().subset_of(f.cur@)
    &&& whole.0 == r.0.union_prefer_right(accv(f))
    &&& whole.1 == r.1
    &&& whole.2 == r.2
}

/// The node of a frame whose children are all handled (see `visit`), or
/// `None` when one of its sums does not fit.
fn finish_frame(es: &Vec<FlatEntry>, km: &HashMap<u64, Vec<u64>>, lp: &HashMap<u64, usize>, f: Frame) -> (r: Option<TreeNode>)
    requires
        frame_ok(es@, f, 0),
        forall|g: u64| #[trigger] kid_frns(es@, g) == (if km@.contains_key(g) { km@[g]@ } else { Seq::empty() }),
        forall|g: u64| #[trigger] lp@.contains_key(g) <==> has_frn(es@, g),
        forall|g: u64| #[trigger] lp@.contains_key(g) ==> lp@[g] == last_idx(es@, g),
    ensures
        match r {
            Some(t) => visit(es@, f.x, f.s@).2 && t@ == visit(es@, f.x, f.s@).0,
            None => !visit(es@, f.x, f.s@).2,
        },
{
    let ghost kfv = kid_frns(es@, f.x);
    let ghost m0 = accv(f);
    let ghost whole = visit_list(es@, kfv, kfv.len() as int, f.s@);
    assert(whole.0 =~= m0);
    assert(whole.2);
    let empty: Vec<u64> = Vec::new();
    let kf: &Vec<u64> = match km.get(&f.x) {
        Some(v) => v,
        None => &empty,
    };
    assert(kf@ == kfv);
    proof {
        lemma_kid_frns_carried(es@, f.x, es@.len() as int);
        assert(placed(kfv, 0) =~= Set::<u64>::empty());
        assert(m0.remove_keys(placed(kfv, 0)) =~= m0);
    }
    let mut acc = f.acc;
    let mut arr: Vec<TreeNode> = Vec::new();
    let mut arr_frns: Vec<u64> = Vec::new();
    let mut arr_recs: Vec<usize> = Vec::new();
    let mut t: usize = 0;
    while t < kf.len()
        invariant
            t <= kfv.len(),
            kf@ == kfv,
            forall|u: int| 0 <= u < kfv.len() ==> has_frn(es@, #[trigger] kfv[u]),
            forall|g: u64| #[trigger] lp@.contains_key(g) <==> has_frn(es@, g),
            forall|g: u64| #[trigger] lp@.contains_key(g) ==> lp@[g] == last_idx(es@, g),
            acc@.map_values(|n: TreeNode| n@) == m0.remove_keys(placed(kfv, t as int)),
            arr_frns@ == arrange(kfv, m0, t as int),
            views(arr@) == arr_frns@.map_values(|c: u64| m0[c]),
            arr_recs@.len() == arr_frns@.len(),
            forall|u: int| 0 <= u < arr_recs@.len() ==> #[trigger] arr_recs@[u] == last_idx(es@, arr_frns@[u]) && arr_recs@[u] < es@.len(),
        decreases kfv.len() - t,
    {
        let c = kf[t];
        let ghost before = acc@;
        let ghost av = arr@;
        let ghost afv = arr_frns@;
        proof {
            assert forall|k: u64| #[trigger] placed(kfv, t + 1).contains(k) == placed(kfv, t as int).insert(c).contains(k) by {
                assert(kfv.take(t + 1) =~= kfv.take(t as int).push(c));
                if kfv.take(t as int).contains(k) {
                    let u = choose|u: int| 0 <= u < t && #[trigger] kfv.take(t as int)[u] == k;
                    assert(kfv.take(t + 1)[u] == k);
                }
                if kfv.take(t + 1).contains(k) && k != c {
                    let u = choose|u: int| 0 <= u < t + 1 && #[trigger] kfv.take(t + 1)[u] == k;
                    assert(kfv.take(t as int)[u] == k);
                }
                if k == c {
                    assert(kfv.take(t + 1)[t as int] == k);
                }
            }
            assert(placed(kfv, t + 1) =~= placed(kfv, t as int).insert(c));
            assert(before.map_values(|n: TreeNode| n@).contains_key(c) == before.contains_key(c));
            assert(placed(kfv, t as int).contains(c) == kfv.take(t as int).contains(c));
            assert(kfv.take(t + 1 - 1) =~= kfv.take(t as int));
            lemma_last_idx(es@, c);
        }
        match acc.remove(&c) {
            Some(node) => {
                let li = match lp.get(&c) {
                    Some(i) => *i,
                    None => 0,
                };
                proof {
                    assert(acc@ == before.remove(c));
                    assert(before.contains_key(c) && node == before[c]);
                    let mv = before.map_values(|n: TreeNode| n@);
                    assert(mv.contains_key(c));
                    assert(mv[c] == node@);
                    assert(m0.remove_keys(placed(kfv, t as int))[c] == m0[c]);
                }
                arr.push(node);
                arr_frns.push(c);
                arr_recs.push(li);
                proof {
                    assert(views(arr@) =~= views(av).push(node@));
                    assert(arr_frns@.map_values(|c: u64| m0[c]) =~= afv.map_values(|c: u64| m0[c]).push(m0[c]));
                }
            },
            None => {
                assert(acc@ == before.remove(c));
                assert(!before.contains_key(c));
                assert(acc@ =~= before);
            },
        }
        proof {
            let bv = before.map_values(|n: TreeNode| n@);
            let nv = acc@.map_values(|n: TreeNode| n@);
            let target = m0.remove_keys(placed(kfv, t + 1));
            assert(acc@ == before.remove(c));
            assert forall|k: u64| nv.contains_key(k) <==> target.contains_key(k) by {
                assert(bv.contains_key(k) <==> before.contains_key(k));
            }
            assert forall|k: u64| nv.contains_key(k) implies nv[k] == target[k] by {
                assert(bv.contains_key(k));
                assert(bv[k] == before[k]@);
            }
            assert(nv =~= target);
        }
        t = t + 1;
    }
    let ghost af = arr_frns@;
    let ghost cs = views(arr@);
    assert(af == arrange(kfv, m0, kfv.len() as int));
    let ghost nd_spec = node_of(es@, f.x, kfv, m0);
    assert(visit(es@, f.x, f.s@).0 == nd_spec.0 && visit(es@, f.x, f.s@).2 == nd_spec.1);
    let e = &es[f.rec];
    assert(rec_of(es@, f.x) == *e);
    let mut size: u64 = 0;
    let mut alloc: u64 = 0;
    let mut files: u32 = 0;
    let mut folders: u32 = 0;
    let mut dirs: usize = 0;
    let mut self_size: u64 = 0;
    let mut self_alloc: u64 = 0;
    if e.is_dir {
        let mut i: usize = 0;
        assert(cs.take(0) =~= Seq::<NodeView>::empty());
        assert(af.take(0) =~= Seq::<u64>::empty());
        while i < arr.len()
            invariant
                i <= arr@.len(),
                arr@.len() == af.len(),
                arr_recs@.len() == af.len(),
                arr_frns@ == af,
                cs == views(arr@),
                cs == af.map_values(|c: u64| m0[c]),
                nd_spec == node_of(es@, f.x, kfv, m0),
                e.is_dir,
                rec_of(es@, f.x) == *e,
                visit(es@, f.x, f.s@).2 == nd_spec.1,
                af == arrange(kfv, m0, kfv.len() as int),
                forall|u: int| 0 <= u < arr_recs@.len() ==> #[trigger] arr_recs@[u] == last_idx(es@, arr_frns@[u]) && arr_recs@[u] < es@.len(),
                size == sum_field(cs.take(i as int), Field::Size),
                alloc == sum_field(cs.take(i as int), Field::Allocated),
                files == sum_field(cs.take(i as int), Field::Files),
                folders == sum_field(cs.take(i as int), Field::Folders),
                dirs <= i,
                dirs == dirs_among(es@, af.take(i as int)),
                self_size == files_size(es@, af.take(i as int), Field::Size),
                self_alloc == files_size(es@, af.take(i as int), Field::Allocated),
            decreases arr@.len() - i,
        {
            let nd = &arr[i];
            proof {
                assert(cs[i as int] == node_view(*nd));
                lemma_sum_take_step(cs, i as int, Field::Size);
                lemma_sum_take_step(cs, i as int, Field::Allocated);
                lemma_sum_take_step(cs, i as int, Field::Files);
                lemma_sum_take_step(cs, i as int, Field::Folders);
                lemma_sum_split(cs, i + 1, Field::Size);
                lemma_sum_split(cs, i + 1, Field::Allocated);
                lemma_sum_split(cs, i + 1, Field::Files);
                lemma_sum_split(cs, i + 1, Field::Folders);
                lemma_sum_nonneg(cs, Field::Folders);
                lemma_files_prefix(es@, af, i + 1, Field::Size);
                lemma_files_prefix(es@, af, i + 1, Field::Allocated);
                assert(af.take(i + 1).drop_last() =~= af.take(i as int));
                assert(af.take(i + 1).last() == af[i as int]);
            }
            if nd.size > u64::MAX - size || nd.allocated_size > u64::MAX - alloc || nd.file_count > u32::MAX - files
                || nd.folder_count > u32::MAX - folders {
                proof {
                    lemma_dirs_bound(es@, af);
                }
                assert(!nd_spec.1);
                return None;
            }
            size = size + nd.size;
            alloc = alloc + nd.allocated_size;
            files = files + nd.file_count;
            folders = folders + nd.folder_count;
            let ce = &es[arr_recs[i]];
            assert(rec_of(es@, af[i as int]) == *ce);
            if ce.is_dir {
                dirs = dirs + 1;
            } else {
                if ce.size > u64::MAX - self_size || ce.allocated_size > u64::MAX - self_alloc {
                    assert(files_size(es@, af.take(i + 1), Field::Size) == self_size + ce.size);
                    assert(!nd_spec.1);
                    return None;
                }
                self_size = self_size + ce.size;
                self_alloc = self_alloc + ce.allocated_size;
            }
            i = i + 1;
        }
        assert(cs.take(cs.len() as int) =~= cs);
        assert(af.take(af.len() as int) =~= af);
        if dirs > (u32::MAX - folders) as usize {
            return None;
        }
    }
    let ghost joined = arr@;
    let children = sort_vec(arr);
    proof {
        let g = |t: TreeNode| node_view(t);
        lemma_sort_map(joined, g);
        assert(joined.map_values(g) =~= views(joined));
        assert(children@.map_values(g) =~= views(children@));
        assert(cs =~= af.map_values(|c: u64| m0[c]));
    }
    if e.is_dir {
        let t = TreeNode {
            name: e.name.clone(),
            size,
            allocated_size: alloc,
            size_self: self_size,
            allocated_self: self_alloc,
            file_count: files,
            folder_count: folders + dirs as u32,
            last_modified: 0,
            children,
            truncated: false,
        };
        proof {
            lemma_children_views(t);
        }
        assert(t@ =~= visit(es@, f.x, f.s@).0);
        Some(t)
    } else {
        let t = TreeNode {
            name: e.name.clone(),
            size: e.size,
            allocated_size: e.allocated_size,
            size_self: e.size,
            allocated_self: e.allocated_size,
            file_count: 1,
            folder_count: 0,
            last_modified: 0,
            children,
            truncated: false,
        };
        proof {
            lemma_children_views(t);
        }
        assert(t@ =~= visit(es@, f.x, f.s@).0);
        Some(t)
    }
}

/// Frame `b` walks the child that frame `a` took up last.
spec fn linked(es: Seq<FlatEntry>, a: Frame, b: Frame) -> bool {
    let kf = kid_frns(es, a.x);
    &&& a.m < kf.len()
    &&& b.x == kf[a.m as int]
    &&& !a.cur@.contains(b.x)
    &&& b.s@ == a.cur@.insert(b.x)
}

/// The stack of the walk from the root number `rf`: each frame walks the
/// child that the one below it took up last, and all but the top wait for
/// that child's node.
spec fn stack_ok(es: Seq<FlatEntry>, st: Seq<Frame>, rf: u64) -> bool {
    &&& st.len() >= 1
    &&& st[0].x == rf
    &&& st[0].s@ == set![rf]
    &&& forall|t: int| 0 <= t < st.len() ==> frame_ok(es, #[trigger] st[t], if t == st.len() - 1 { st[t].m as int } else { st[t].m + 1 })
    &&& forall|t: int| 0 <= t < st.len() - 1 ==> linked(es, #[trigger] st[t], st[t + 1])
}

/// The children left to handle on the whole stack, one more per frame.
spec fn stack_measure(st: Seq<Frame>) -> nat
    decreases st.len(),
{
    if st.len() == 0 {
        0
    } else {
        stack_measure(st.drop_last()) + st.last().m as nat + 1
    }
}

/// Passing over a child already taken up keeps the frame whole.
proof fn lemma_frame_pass(es: Seq<FlatEntry>, f: Frame, t1: Frame)
    requires
        frame_ok(es, f, f.m as int),
        f.m > 0,
        f.cur@.contains(kid_frns(es, f.x)[f.m - 1]),
        t1.x == f.x && t1.rec == f.rec && t1.acc == f.acc && t1.s == f.s && t1.cur == f.cur,
        t1.m == f.m - 1,
    ensures
        frame_ok(es, t1, t1.m as int),
{
    let kf = kid_frns(es, f.x);
    assert(visit_list(es, kf, f.m as int, f.cur@) == visit_list(es, kf, f.m - 1, f.cur@));
}

/// A frame whose node cannot be built makes the root's fail too.
proof fn lemma_fail_down(es: Seq<FlatEntry>, st: Seq<Frame>, rf: u64, t: int)
    requires
        stack_ok(es, st, rf),
        0 <= t < st.len(),
        !visit(es, st[t].x, st[t].s@).2,
    ensures
        !visit(es, rf, set![rf]).2,
    decreases t,
{
    if t > 0 {
        let a = st[t - 1];
        let b = st[t];
        assert(linked(es, a, b));
        assert(frame_ok(es, a, a.m + 1));
        lemma_kid_frns_carried(es, a.x, es.len() as int);
        let kf = kid_frns(es, a.x);
        assert(has_frn(es, kf[a.m as int]));
        assert(!visit_list(es, kf, a.m + 1, a.cur@).2);
        lemma_fail_down(es, st, rf, t - 1);
    }
}

/// The finished child's node handed to the frame below: that frame is then
/// whole again, from the numbers taken up by the child on.
proof fn lemma_parent_takes(es: Seq<FlatEntry>, p: Frame, top: Frame, tn: TreeNode, p2: Frame)
    requires
        frame_ok(es, p, p.m + 1),
        linked(es, p, top),
        frame_ok(es, top, 0),
        visit(es, top.x, top.s@).2,
        tn@ == visit(es, top.x, top.s@).0,
        p2.x == p.x && p2.rec == p.rec && p2.m == p.m && p2.s == p.s,
        p2.cur@ == top.cur@,
        p2.acc@ == p.acc@.insert(top.x, tn),
    ensures
        frame_ok(es, p2, p2.m as int),
{
    let kf = kid_frns(es, p.x);
    let c = top.x;
    lemma_kid_frns_carried(es, p.x, es.len() as int);
    assert(has_frn(es, kf[p.m as int]));
    let ch = visit(es, c, p.cur@.insert(c));
    let tkf = kid_frns(es, c);
    assert(visit_list(es, tkf, 0, top.cur@).1 == top.cur@);
    assert(ch.1 == top.cur@);
    let s1 = p.cur@.union(ch.1);
    assert(s1 =~= top.cur@);
    let rest = visit_list(es, kf, p.m as int, s1);
    assert(visit_list(es, kf, p.m + 1, p.cur@) == (rest.0.insert(c, ch.0), rest.1, ch.2 && rest.2));
    assert(accv(p2) =~= accv(p).insert(c, tn@));
    assert(!accv(p).dom().contains(c));
    assert(rest.0.insert(c, ch.0).union_prefer_right(accv(p)) =~= rest.0.union_prefer_right(accv(p2)));
}

/// The top frame replaced by one for the same number.
proof fn lemma_replace_top(es: Seq<FlatEntry>, s0: Seq<Frame>, rf: u64, t1: Frame)
    requires
        stack_ok(es, s0, rf),
        frame_ok(es, t1, t1.m as int),
        t1.x == s0.last().x,
        t1.s == s0.last().s,
    ensures
        stack_ok(es, s0.drop_last().push(t1), rf),
        stack_measure(s0.drop_last().push(t1)) == stack_measure(s0.drop_last()) + t1.m + 1,
{
    let n = s0.len() as int;
    let s = s0.drop_last().push(t1);
    assert(s.drop_last() =~= s0.drop_last());
    assert forall|t: int| 0 <= t < s.len() implies frame_ok(es, #[trigger] s[t], if t == s.len() - 1 { s[t].m as int } else { s[t].m + 1 }) by {
        if t < n - 1 {
            assert(s[t] == s0[t]);
        }
    }
    assert forall|t: int| 0 <= t < s.len() - 1 implies linked(es, #[trigger] s[t], s[t + 1]) by {
        assert(s[t] == s0[t]);
        assert(linked(es, s0[t], s0[t + 1]));
    }
}

/// The top frame updated, with a fresh frame for the child it took up
/// above it.
proof fn lemma_push_child(es: Seq<FlatEntry>, s0: Seq<Frame>, rf: u64, t1: Frame, nf: Frame)
    requires
        stack_ok(es, s0, rf),
        frame_ok(es, t1, t1.m + 1),
        t1.x == s0.last().x,
        t1.s == s0.last().s,
        linked(es, t1, nf),
        frame_ok(es, nf, nf.m as int),
    ensures
        stack_ok(es, s0.drop_last().push(t1).push(nf), rf),
{
    let n = s0.len() as int;
    let s = s0.drop_last().push(t1).push(nf);
    assert forall|t: int| 0 <= t < s.len() implies frame_ok(es, #[trigger] s[t], if t == s.len() - 1 { s[t].m as int } else { s[t].m + 1 }) by {
        if t < n - 1 {
            assert(s[t] == s0[t]);
        }
    }
    assert forall|t: int| 0 <= t < s.len() - 1 implies linked(es, #[trigger] s[t], s[t + 1]) by {
        if t < n - 1 {
            assert(s[t] == s0[t]);
            assert(linked(es, s0[t], s0[t + 1]));
        }
    }
}

/// The finished top frame taken off, and the frame below replaced by one
/// for the same number and position.
proof fn lemma_pop_into_parent(es: Seq<FlatEntry>, s0: Seq<Frame>, rf: u64, g: Frame)
    requires
        stack_ok(es, s0, rf),
        s0.len() >= 2,
        frame_ok(es, g, g.m as int),
        g.x == s0[s0.len() - 2].x,
        g.s == s0[s0.len() - 2].s,
        g.m == s0[s0.len() - 2].m,
    ensures
        stack_ok(es, s0.drop_last().drop_last().push(g), rf),
        stack_measure(s0.drop_last().drop_last().push(g)) < stack_measure(s0),
{
    let n = s0.len() as int;
    let s1 = s0.drop_last();
    let s2 = s1.drop_last();
    let s = s2.push(g);
    assert(s.drop_last() =~= s2);
    assert(s1.last() == s0[n - 2]);
    assert(stack_measure(s1) == stack_measure(s2) + s0[n - 2].m + 1);
    assert forall|t: int| 0 <= t < s.len() implies frame_ok(es, #[trigger] s[t], if t == s.len() - 1 { s[t].m as int } else { s[t].m + 1 }) by {
        if t < n - 2 {
            assert(s[t] == s0[t]);
        }
    }
    assert forall|t: int| 0 <= t < s.len() - 1 implies linked(es, #[trigger] s[t], s[t + 1]) by {
        assert(s[t] == s0[t]);
        assert(linked(es, s0[t], s0[t + 1]));
    }
}

/// Walks the tree from the record `root` (see `visit`), or `None` when a
/// sum does not fit. The walk is depth first on a stack of frames of its
/// own: each step either handles the next child of the top frame (from the
/// last listed; a number already taken up is passed over, any other is
/// taken up and gets a frame), or finishes the top frame and hands its node
/// to the frame below.
#[verifier::rlimit(50)]
fn build_from(es: &Vec<FlatEntry>, km: &HashMap<u64, Vec<u64>>, lp: &HashMap<u64, usize>, root: usize) -> (r: Option<TreeNode>)
    requires
        root < es@.len(),
        last_idx(es@, es@[root as int].frn) == root,
        forall|g: u64| #[trigger] kid_frns(es@, g) == (if km@.contains_key(g) { km@[g]@ } else { Seq::empty() }),
        forall|g: u64| #[trigger] lp@.contains_key(g) <==> has_frn(es@, g),
        forall|g: u64| #[trigger] lp@.contains_key(g) ==> lp@[g] == last_idx(es@, g),
    ensures
        ({
            let v = visit(es@, es@[root as int].frn, set![es@[root as int].frn]);
            match r {
                Some(t) => v.2 && t@ == v.0,
                None => !v.2,
            }
        }),
{
    let rf = es[root].frn;
    let mut seen: HashSet<u64> = HashSet::new();
    seen.insert(rf);
    let ghost s_root = set![rf];
    assert(seen@ =~= s_root);
    let nk = match km.get(&rf) {
        Some(v) => v.len(),
        None => 0,
    };
    let first = Frame { x: rf, rec: root, m: nk, acc: HashMap::new(), s: Ghost(s_root), cur: Ghost(s_root) };
    proof {
        assert(accv(first) =~= Map::<u64, NodeView>::empty());
        let kf = kid_frns(es@, rf);
        let w = visit_list(es@, kf, kf.len() as int, s_root);
        assert(w.0.union_prefer_right(accv(first)) =~= w.0);
        assert(frame_ok(es@, first, first.m as int));
    }
    let mut stack: Vec<Frame> = Vec::new();
    stack.push(first);
    assert(stack@[0] == first);
    loop
        invariant
            root < es@.len(),
            rf == es@[root as int].frn,
            forall|g: u64| #[trigger] kid_frns(es@, g) == (if km@.contains_key(g) { km@[g]@ } else { Seq::empty() }),
            forall|g: u64| #[trigger] lp@.contains_key(g) <==> has_frn(es@, g),
            forall|g: u64| #[trigger] lp@.contains_key(g) ==> lp@[g] == last_idx(es@, g),
            stack_ok(es@, stack@, rf),
            seen@ == stack@.last().cur@,
        decreases unseen(es@, seen@), stack_measure(stack@),
    {
        let ghost s0 = stack@;
        let ghost n = s0.len() as int;
        let ghost s1 = s0.drop_last();
        proof {
            assert(frame_ok(es@, s0[n - 1], s0[n - 1].m as int));
            assert(s0.drop_last() == s1);
        }
        let mut top = match stack.pop() {
            Some(f) => f,
            None => {
                return None;
            },
        };
        assert(top == s0[n - 1]);
        if top.m > 0 {
            let empty: Vec<u64> = Vec::new();
            let kf: &Vec<u64> = match km.get(&top.x) {
                Some(v) => v,
                None => &empty,
            };
            let c = kf[top.m - 1];
            proof {
                lemma_kid_frns_carried(es@, top.x, es@.len() as int);
            }
            top.m = top.m - 1;
            if seen.contains(&c) {
                let ghost t1 = top;
                proof {
                    lemma_frame_pass(es@, s0[n - 1], t1);
                    lemma_replace_top(es@, s0, rf, t1);
                }
                stack.push(top);
            } else {
                let ghost t1 = top;
                let ghost cur = top.cur@;
                proof {
                    assert(frame_ok(es@, t1, t1.m + 1));
                    assert(has_frn(es@, c));
                    let j = choose|j: int| 0 <= j < es@.len() && #[trigger] es@[j].frn == c;
                    lemma_unseen_insert(es@, cur, j, es@.len() as int);
                    lemma_last_idx(es@, c);
                }
                seen.insert(c);
                let crec = match lp.get(&c) {
                    Some(i) => *i,
                    None => 0,
                };
                let ck = match km.get(&c) {
                    Some(v) => v.len(),
                    None => 0,
                };
                let ghost cset = cur.insert(c);
                let nf = Frame { x: c, rec: crec, m: ck, acc: HashMap::new(), s: Ghost(cset), cur: Ghost(cset) };
                proof {
                    assert(accv(nf) =~= Map::<u64, NodeView>::empty());
                    let ckf = kid_frns(es@, c);
                    let w = visit_list(es@, ckf, ckf.len() as int, cset);
                    assert(w.0.union_prefer_right(accv(nf)) =~= w.0);
                    assert(frame_ok(es@, nf, nf.m as int));
                    assert(linked(es@, t1, nf));
                    lemma_push_child(es@, s0, rf, t1, nf);
                    assert(seen@ =~= cset);
                }
                stack.push(top);
                stack.push(nf);
            }
        } else {
            let tx = top.x;
            let ghost tcur = top.cur@;
            let ghost tfin = top;
            let res = finish_frame(es, km, lp, top);
            match res {
                None => {
                    proof {
                        lemma_fail_down(es@, s0, rf, n - 1);
                    }
                    return None;
                },
                Some(t) => {
                    if stack.len() == 0 {
                        return Some(t);
                    }
                    let mut parent = match stack.pop() {
                        Some(f) => f,
                        None => {
                            return None;
                        },
                    };
                    let ghost p0 = parent;
                    let ghost tn = t;
                    proof {
                        assert(parent == s0[n - 2]);
                        assert(linked(es@, s0[n - 2], s0[n - 1]));
                        assert(frame_ok(es@, s0[n - 2], s0[n - 2].m + 1));
                    }
                    parent.acc.insert(tx, t);
                    parent.cur = Ghost(tcur);
                    proof {
                        lemma_parent_takes(es@, p0, tfin, tn, parent);
                        lemma_pop_into_parent(es@, s0, rf, parent);
                    }
                    stack.push(parent);
                    assert(stack@ =~= s0.drop_last().drop_last().push(parent));
                },
            }
        }
    }
}

/// Builds the aggregated tree below the volume root (see `root_index` and
/// `visit`); `None` when no record qualifies as the root or when a total of
/// the tree does not fit its integer type. It returns on every list of
/// records: the walk takes up every reference number at most once.
pub fn build_tree_checked(entries: Vec<FlatEntry>) -> (r: Option<TreeNode>)
    ensures
        match root_index(entries@) {
            Some(i) => if tree_walk(entries@, i).2 {
                r matches Some(t) && t@ == tree_walk(entries@, i).0
            } else {
                r is None
            },
            None => r is None,
        },
{
    let km = kids_map(&entries);
    let lp = last_map(&entries);
    match find_root(&entries, &lp) {
        None => None,
        Some(root) => build_from(&entries, &km, &lp, root),
    }
}

/// Builds the aggregated tree below the volume root from the flat records:
/// `None` exactly when no record qualifies as the root (see `root_index`),
/// otherwise the tree of `visit` from the root. One node stands for each
/// reference number taken up, built from the last record carrying it, and
/// the walk keeps its own stack of frames, so deep trees do not exhaust the
/// call stack.
pub fn build_tree(entries: Vec<FlatEntry>) -> (r: Option<TreeNode>)
    requires
        tree_fits(entries@),
    ensures
        match root_index(entries@) {
            Some(i) => r matches Some(t) && t@ == tree_walk(entries@, i).0,
            None => r is None,
        },
{
    build_tree_checked(entries)
}

/// A built directory accounts for what lies below it: its size, allocated
/// size and file count are the sums over its children, and its folder count
/// is theirs plus one per directory among its children (so it counts the
/// folders strictly below it); a built file keeps its record's sizes and
/// counts one file.
pub proof fn lemma_visit_totals(es: Seq<FlatEntry>, x: u64, seen: Set<u64>)
    requires
        visit(es, x, seen).2,
    ensures
        ({
            let v = visit(es, x, seen).0;
            let e = rec_of(es, x);
            let kf = kid_frns(es, x);
            let af = arrange(kf, visit_list(es, kf, kf.len() as int, seen).0, kf.len() as int);
            &&& e.is_dir ==> {
                &&& v.size == sum_field(v.children, Field::Size)
                &&& v.allocated_size == sum_field(v.children, Field::Allocated)
                &&& v.file_count == sum_field(v.children, Field::Files)
                &&& v.folder_count == sum_field(v.children, Field::Folders) + dirs_among(es, af)
                &&& v.children.len() == af.len()
            }
            &&& !e.is_dir ==> v.size == e.size && v.allocated_size == e.allocated_size && v.file_count == 1
                && v.folder_count == 0
        }),
{
    let kf = kid_frns(es, x);
    let m = visit_list(es, kf, kf.len() as int, seen).0;
    let af = arrange(kf, m, kf.len() as int);
    let cs = af.map_values(|c: u64| m[c]);
    lemma_sum_sort(cs, Field::Size);
    lemma_sum_sort(cs, Field::Allocated);
    lemma_sum_sort(cs, Field::Files);
    lemma_sum_sort(cs, Field::Folders);
    lemma_sum_nonneg(cs, Field::Size);
    lemma_sum_nonneg(cs, Field::Allocated);
    lemma_sum_nonneg(cs, Field::Files);
    lemma_sum_nonneg(cs, Field::Folders);
    lemma_dirs_bound(es, af);
    lemma_sort_len(cs);
}

/// A walk keeps every number taken up before it (so no number is walked a
/// second time).
pub proof fn lemma_walk_keeps_taken(es: Seq<FlatEntry>, x: u64, seen: Set<u64>)
    ensures
        seen.subset_of(visit(es, x, seen).1),
    decreases unseen(es, seen), 1int, 0int,
{
    let kf = kid_frns(es, x);
    lemma_walk_list_once(es, kf, kf.len() as int, seen);
}

/// Each number is walked at most once: a walk over a list of children
/// takes up only numbers not taken up before it, keeps those that were, and
/// ends with every number it took up among the taken ones.
pub proof fn lemma_walk_list_once(es: Seq<FlatEntry>, kf: Seq<u64>, m: int, seen: Set<u64>)
    ensures
        ({
            let r = visit_list(es, kf, m, seen);
            &&& seen.subset_of(r.1)
            &&& r.0.dom().subset_of(r.1)
            &&& r.0.dom().disjoint(seen)
        }),
    decreases unseen(es, seen), 0int, m,
{
    if m > 0 {
        let c = kf[m - 1];
        if seen.contains(c) || !has_frn(es, c) {
            lemma_walk_list_once(es, kf, m - 1, seen);
        } else {
            let j = choose|j: int| 0 <= j < es.len() && #[trigger] es[j].frn == c;
            lemma_unseen_insert(es, seen, j, es.len() as int);
            lemma_walk_keeps_taken(es, c, seen.insert(c));
            let ch = visit(es, c, seen.insert(c));
            let s1 = seen.union(ch.1);
            lemma_unseen_mono(es, seen, s1, es.len() as int);
            lemma_walk_list_once(es, kf, m - 1, s1);
            let rest = visit_list(es, kf, m - 1, s1);
            assert(visit_list(es, kf, m, seen) == (rest.0.insert(c, ch.0), rest.1, ch.2 && rest.2));
            assert(s1.contains(c));
        }
    }
}

} // verus!
