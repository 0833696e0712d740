//! Sums of node fields over sequences of nodes, and how they behave under
//! concatenation, splitting and sorting.

use vstd::prelude::*;
use crate::models::{TreeNode, NodeView, views, lemma_children_views};
use crate::order::{merge_desc, sort_desc};

verus! {

/// The summed fields of a node.
pub enum Field {
    Size,
    Allocated,
    Files,
    Folders,
}

pub open spec fn field(n: NodeView, f: Field) -> int {
    match f {
        Field::Size => n.size as int,
        Field::Allocated => n.allocated_size as int,
        Field::Files => n.file_count as int,
        Field::Folders => n.folder_count as int,
    }
}

/// Sum of one field over a sequence of nodes.
pub open spec fn sum_field(s: Seq<NodeView>, f: Field) -> int
    decreases s.len(),
{
    if s.len() == 0 {
        0
    } else {
        field(s[0], f) + sum_field(s.drop_first(), f)
    }
}

/// The four sums of a sequence fit the integer types of a node.
pub open spec fn sums_fit_seq(s: Seq<NodeView>) -> bool {
    &&& sum_field(s, Field::Size) <= u64::MAX
    &&& sum_field(s, Field::Allocated) <= u64::MAX
    &&& sum_field(s, Field::Files) <= u32::MAX
    &&& sum_field(s, Field::Folders) <= u32::MAX
}

/// At every node less than `d` levels below `n` (`n` included) the
/// children's sums fit the integer types; deeper nodes are not looked at.
pub open spec fn sums_fit_within(n: NodeView, d: nat) -> bool
    decreases n,
{
    d == 0 || {
        &&& sums_fit_seq(n.children)
        &&& forall|i: int| 0 <= i < n.children.len() ==> sums_fit_within(#[trigger] n.children[i], (d - 1) as nat)
    }
}

pub proof fn lemma_sum_nonneg(s: Seq<NodeView>, f: Field)
    ensures
        sum_field(s, f) >= 0,
    decreases s.len(),
{
    if s.len() > 0 {
        lemma_sum_nonneg(s.drop_first(), f);
    }
}

pub proof fn lemma_sum_concat(a: Seq<NodeView>, b: Seq<NodeView>, f: Field)
    ensures
        sum_field(a + b, f) == sum_field(a, f) + sum_field(b, f),
    decreases a.len(),
{
    if a.len() == 0 {
        assert(a + b =~= b);
    } else {
        lemma_sum_concat(a.drop_first(), b, f);
        assert((a + b).drop_first() =~= a.drop_first() + b);
    }
}

pub proof fn lemma_sum_single(x: NodeView, f: Field)
    ensures
        sum_field(seq![x], f) == field(x, f),
{
    assert(seq![x].drop_first() =~= Seq::<NodeView>::empty());
    assert(seq![x][0] == x);
    assert(sum_field(Seq::<NodeView>::empty(), f) == 0);
}

/// A sequence sums to its prefix plus its suffix.
pub proof fn lemma_sum_split(s: Seq<NodeView>, k: int, f: Field)
    requires
        0 <= k <= s.len(),
    ensures
        sum_field(s, f) == sum_field(s.take(k), f) + sum_field(s.skip(k), f),
        0 <= sum_field(s.take(k), f) <= sum_field(s, f),
        0 <= sum_field(s.skip(k), f) <= sum_field(s, f),
{
    assert(s =~= s.take(k) + s.skip(k));
    lemma_sum_concat(s.take(k), s.skip(k), f);
    lemma_sum_nonneg(s.take(k), f);
    lemma_sum_nonneg(s.skip(k), f);
}

/// Extending a prefix by one element adds that element's field.
pub proof fn lemma_sum_take_step(s: Seq<NodeView>, k: int, f: Field)
    requires
        0 <= k < s.len(),
    ensures
        sum_field(s.take(k + 1), f) == sum_field(s.take(k), f) + field(s[k], f),
{
    assert(s.take(k + 1) =~= s.take(k) + seq![s[k]]);
    lemma_sum_concat(s.take(k), seq![s[k]], f);
    lemma_sum_single(s[k], f);
}

pub proof fn lemma_sum_merge(a: Seq<NodeView>, b: Seq<NodeView>, f: Field)
    ensures
        sum_field(merge_desc(a, b), f) == sum_field(a, f) + sum_field(b, f),
    decreases a.len() + b.len(),
{
    if a.len() == 0 || b.len() == 0 {
    } else if a[0].size >= b[0].size {
        lemma_sum_merge(a.drop_first(), b, f);
        lemma_sum_concat(seq![a[0]], merge_desc(a.drop_first(), b), f);
        lemma_sum_single(a[0], f);
    } else {
        lemma_sum_merge(a, b.drop_first(), f);
        lemma_sum_concat(seq![b[0]], merge_desc(a, b.drop_first()), f);
        lemma_sum_single(b[0], f);
    }
}

/// Sorting does not change a sum.
pub proof fn lemma_sum_sort(s: Seq<NodeView>, f: Field)
    ensures
        sum_field(sort_desc(s), f) == sum_field(s, f),
    decreases s.len(),
{
    if s.len() > 1 {
        let m = s.len() / 2;
        let l = s.subrange(0, m as int);
        let r = s.subrange(m as int, s.len() as int);
        lemma_sum_sort(l, f);
        lemma_sum_sort(r, f);
        lemma_sum_merge(sort_desc(l), sort_desc(r), f);
        assert(s =~= l + r);
        lemma_sum_concat(l, r, f);
    }
}

/// The four sums over `nodes`, or `None` when one of them does not fit its
/// integer type (see `sums_fit_seq`).
pub fn checked_sums(nodes: &Vec<TreeNode>) -> (r: Option<(u64, u64, u32, u32)>)
    ensures
        match r {
            Some((size, alloc, files, folders)) => {
                &&& sums_fit_seq(views(nodes@))
                &&& size == sum_field(views(nodes@), Field::Size)
                &&& alloc == sum_field(views(nodes@), Field::Allocated)
                &&& files == sum_field(views(nodes@), Field::Files)
                &&& folders == sum_field(views(nodes@), Field::Folders)
            },
            None => !sums_fit_seq(views(nodes@)),
        },
{
    let ghost s = views(nodes@);
    let mut size: u64 = 0;
    let mut alloc: u64 = 0;
    let mut files: u32 = 0;
    let mut folders: u32 = 0;
    let mut i: usize = 0;
    assert(s.take(0) =~= Seq::<NodeView>::empty());
    while i < nodes.len()
        invariant
            s == views(nodes@),
            i <= nodes@.len(),
            size == sum_field(s.take(i as int), Field::Size),
            alloc == sum_field(s.take(i as int), Field::Allocated),
            files == sum_field(s.take(i as int), Field::Files),
            folders == sum_field(s.take(i as int), Field::Folders),
        decreases nodes@.len() - i,
    {
        proof {
            lemma_sum_take_step(s, i as int, Field::Size);
            lemma_sum_take_step(s, i as int, Field::Allocated);
            lemma_sum_take_step(s, i as int, Field::Files);
            lemma_sum_take_step(s, i as int, Field::Folders);
            lemma_sum_split(s, i + 1, Field::Size);
            lemma_sum_split(s, i + 1, Field::Allocated);
            lemma_sum_split(s, i + 1, Field::Files);
            lemma_sum_split(s, i + 1, Field::Folders);
        }
        let n = &nodes[i];
        if n.size > u64::MAX - size || n.allocated_size > u64::MAX - alloc || n.file_count > u32::MAX - files
            || n.folder_count > u32::MAX - folders {
            return None;
        }
        size = size + n.size;
        alloc = alloc + n.allocated_size;
        files = files + n.file_count;
        folders = folders + n.folder_count;
        i = i + 1;
    }
    assert(s.take(nodes@.len() as int) =~= s);
    Some((size, alloc, files, folders))
}

/// Whether the sums fit within `d` levels below `n` (see `sums_fit_within`).
pub fn tree_sums_fit_within(n: &TreeNode, d: u32) -> (r: bool)
    ensures
        r == sums_fit_within(n@, d as nat),
    decreases n,
{
    proof {
        lemma_children_views(*n);
    }
    if d == 0 {
        return true;
    }
    if checked_sums(&n.children).is_none() {
        return false;
    }
    let mut i: usize = 0;
    while i < n.children.len()
        invariant
            i <= n.children@.len(),
            n@.children == views(n.children@),
            d > 0,
            forall|j: int| 0 <= j < i ==> sums_fit_within(#[trigger] n@.children[j], (d - 1) as nat),
        decreases n.children@.len() - i,
    {
        if !tree_sums_fit_within(&n.children[i], d - 1) {
            assert(!sums_fit_within(n@.children[i as int], (d - 1) as nat));
            return false;
        }
        i = i + 1;
    }
    true
}

/// The size and allocated-size sums over `nodes`, or `None` when one of them
/// does not fit in 64 bits.
pub fn checked_size_sums(nodes: &Vec<TreeNode>) -> (r: Option<(u64, u64)>)
    ensures
        match r {
            Some((size, alloc)) => {
                &&& size == sum_field(views(nodes@), Field::Size)
                &&& alloc == sum_field(views(nodes@), Field::Allocated)
            },
            None => sum_field(views(nodes@), Field::Size) > u64::MAX || sum_field(views(nodes@), Field::Allocated) > u64::MAX,
        },
{
    let ghost s = views(nodes@);
    let mut size: u64 = 0;
    let mut alloc: u64 = 0;
    let mut i: usize = 0;
    assert(s.take(0) =~= Seq::<NodeView>::empty());
    while i < nodes.len()
        invariant
            s == views(nodes@),
            i <= nodes@.len(),
            size == sum_field(s.take(i as int), Field::Size),
            alloc == sum_field(s.take(i as int), Field::Allocated),
        decreases nodes@.len() - i,
    {
        proof {
            lemma_sum_take_step(s, i as int, Field::Size);
            lemma_sum_take_step(s, i as int, Field::Allocated);
            lemma_sum_split(s, i + 1, Field::Size);
            lemma_sum_split(s, i + 1, Field::Allocated);
        }
        let n = &nodes[i];
        if n.size > u64::MAX - size || n.allocated_size > u64::MAX - alloc {
            return None;
        }
        size = size + n.size;
        alloc = alloc + n.allocated_size;
        i = i + 1;
    }
    assert(s.take(nodes@.len() as int) =~= s);
    Some((size, alloc))
}

/// A sum does not depend on the order of the nodes.
pub proof fn lemma_sum_perm(a: Seq<NodeView>, b: Seq<NodeView>, f: Field)
    requires
        a.to_multiset() == b.to_multiset(),
    ensures
        sum_field(a, f) == sum_field(b, f),
    decreases a.len(),
{
    broadcast use vstd::multiset::group_multiset_axioms, vstd::seq_lib::group_to_multiset_ensures;
    assert(a.len() == a.to_multiset().len());
    assert(b.len() == b.to_multiset().len());
    if a.len() > 0 {
        let x = a[0];
        assert(a.contains(x));
        assert(b.to_multiset().count(x) > 0);
        assert(b.contains(x));
        let i = choose|i: int| 0 <= i < b.len() && b[i] == x;
        let b1 = b.remove(i);
        assert(a.drop_first() == a.remove(0));
        assert(a.drop_first().to_multiset() == b1.to_multiset());
        lemma_sum_perm(a.drop_first(), b1, f);
        let front = b.take(i);
        let back = b.skip(i + 1);
        assert(b =~= (front + seq![x]) + back);
        assert(b1 =~= front + back);
        lemma_sum_concat(front + seq![x], back, f);
        lemma_sum_concat(front, seq![x], f);
        lemma_sum_concat(front, back, f);
        lemma_sum_single(x, f);
    }
}

} // verus!
