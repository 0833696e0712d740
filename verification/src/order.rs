//! Stable ordering of nodes by size, largest first.
//!
//! `sort_desc` is a stable merge sort: among equal keys the original order is
//! kept. `sort_vec` computes it on vectors in O(n log n).

use vstd::prelude::*;
use crate::models::{TreeNode, NodeView};

verus! {

/// A value with an integer ordering key (the node size).
pub trait SortKey: Sized {
    spec fn sort_key(&self) -> int;
}

/// A value whose key can also be read at run time.
pub trait ExecKey: SortKey {
    fn key(&self) -> (r: u64)
        ensures
            r as int == self.sort_key(),
    ;
}

impl SortKey for NodeView {
    open spec fn sort_key(&self) -> int {
        self.size as int
    }
}

impl SortKey for TreeNode {
    open spec fn sort_key(&self) -> int {
        self.size as int
    }
}

impl ExecKey for TreeNode {
    fn key(&self) -> (r: u64) {
        self.size
    }
}

impl<'a> SortKey for &'a TreeNode {
    open spec fn sort_key(&self) -> int {
        (**self).size as int
    }
}

impl<'a> ExecKey for &'a TreeNode {
    fn key(&self) -> (r: u64) {
        (**self).size
    }
}

/// Stable merge of two sequences, larger keys first; on equal keys the
/// element of `a` comes first.
pub open spec fn merge_desc<A: SortKey>(a: Seq<A>, b: Seq<A>) -> Seq<A>
    decreases a.len() + b.len(),
{
    if a.len() == 0 {
        b
    } else if b.len() == 0 {
        a
    } else if a[0].sort_key() >= b[0].sort_key() {
        seq![a[0]] + merge_desc(a.drop_first(), b)
    } else {
        seq![b[0]] + merge_desc(a, b.drop_first())
    }
}

/// Stable sort by key, largest first.
pub open spec fn sort_desc<A: SortKey>(s: Seq<A>) -> Seq<A>
    decreases s.len(),
{
    if s.len() <= 1 {
        s
    } else {
        let m = s.len() / 2;
        merge_desc(sort_desc(s.subrange(0, m as int)), sort_desc(s.subrange(m as int, s.len() as int)))
    }
}

/// Keys never increase along the sequence.
pub open spec fn sorted_desc<A: SortKey>(s: Seq<A>) -> bool {
    forall|i: int, j: int| 0 <= i < j < s.len() ==> s[i].sort_key() >= s[j].sort_key()
}

pub proof fn lemma_merge_len<A: SortKey>(a: Seq<A>, b: Seq<A>)
    ensures
        merge_desc(a, b).len() == a.len() + b.len(),
    decreases a.len() + b.len(),
{
    if a.len() == 0 || b.len() == 0 {
    } else if a[0].sort_key() >= b[0].sort_key() {
        lemma_merge_len(a.drop_first(), b);
    } else {
        lemma_merge_len(a, b.drop_first());
    }
}

pub proof fn lemma_sort_len<A: SortKey>(s: Seq<A>)
    ensures
        sort_desc(s).len() == s.len(),
    decreases s.len(),
{
    if s.len() > 1 {
        let m = s.len() / 2;
        lemma_sort_len(s.subrange(0, m as int));
        lemma_sort_len(s.subrange(m as int, s.len() as int));
        lemma_merge_len(sort_desc(s.subrange(0, m as int)), sort_desc(s.subrange(m as int, s.len() as int)));
    }
}

/// Every element of a merge comes from one of its inputs.
pub proof fn lemma_merge_from<A: SortKey>(a: Seq<A>, b: Seq<A>, k: int)
    requires
        0 <= k < merge_desc(a, b).len(),
    ensures
        a.contains(merge_desc(a, b)[k]) || b.contains(merge_desc(a, b)[k]),
    decreases a.len() + b.len(),
{
    lemma_merge_len(a, b);
    if a.len() == 0 || b.len() == 0 {
        assert(merge_desc(a, b)[k] == a[k] || merge_desc(a, b)[k] == b[k]);
    } else if a[0].sort_key() >= b[0].sort_key() {
        if k > 0 {
            lemma_merge_from(a.drop_first(), b, k - 1);
            let x = merge_desc(a, b)[k];
            if a.drop_first().contains(x) {
                let i = choose|i: int| 0 <= i < a.drop_first().len() && a.drop_first()[i] == x;
                assert(a[i + 1] == x);
            }
        } else {
            assert(merge_desc(a, b)[0] == a[0]);
        }
    } else {
        if k > 0 {
            lemma_merge_from(a, b.drop_first(), k - 1);
            let x = merge_desc(a, b)[k];
            if b.drop_first().contains(x) {
                let i = choose|i: int| 0 <= i < b.drop_first().len() && b.drop_first()[i] == x;
                assert(b[i + 1] == x);
            }
        } else {
            assert(merge_desc(a, b)[0] == b[0]);
        }
    }
}

/// Every element of a sorted sequence comes from the input.
pub proof fn lemma_sort_from<A: SortKey>(s: Seq<A>, k: int)
    requires
        0 <= k < sort_desc(s).len(),
    ensures
        s.contains(sort_desc(s)[k]),
    decreases s.len(),
{
    if s.len() <= 1 {
        assert(s[k] == sort_desc(s)[k]);
    } else {
        let m = s.len() / 2;
        let l = s.subrange(0, m as int);
        let r = s.subrange(m as int, s.len() as int);
        lemma_merge_from(sort_desc(l), sort_desc(r), k);
        let x = sort_desc(s)[k];
        if sort_desc(l).contains(x) {
            let i = choose|i: int| 0 <= i < sort_desc(l).len() && sort_desc(l)[i] == x;
            lemma_sort_from(l, i);
            let j = choose|j: int| 0 <= j < l.len() && l[j] == x;
            assert(s[j] == x);
        } else {
            let i = choose|i: int| 0 <= i < sort_desc(r).len() && sort_desc(r)[i] == x;
            lemma_sort_from(r, i);
            let j = choose|j: int| 0 <= j < r.len() && r[j] == x;
            assert(s[j + m] == x);
        }
    }
}

pub proof fn lemma_merge_sorted<A: SortKey>(a: Seq<A>, b: Seq<A>)
    requires
        sorted_desc(a),
        sorted_desc(b),
    ensures
        sorted_desc(merge_desc(a, b)),
    decreases a.len() + b.len(),
{
    let m = merge_desc(a, b);
    lemma_merge_len(a, b);
    if a.len() == 0 || b.len() == 0 {
    } else if a[0].sort_key() >= b[0].sort_key() {
        let a1 = a.drop_first();
        lemma_merge_sorted(a1, b);
        let rest = merge_desc(a1, b);
        assert forall|j: int| 0 <= j < rest.len() implies a[0].sort_key() >= #[trigger] rest[j].sort_key() by {
            lemma_merge_from(a1, b, j);
            if a1.contains(rest[j]) {
                let i = choose|i: int| 0 <= i < a1.len() && a1[i] == rest[j];
                assert(a[i + 1] == rest[j]);
            } else {
                let i = choose|i: int| 0 <= i < b.len() && b[i] == rest[j];
                assert(b[i] == rest[j]);
            }
        }
        assert forall|i: int, j: int| 0 <= i < j < m.len() implies m[i].sort_key() >= m[j].sort_key() by {
            assert(m[j] == rest[j - 1]);
            if i > 0 {
                assert(m[i] == rest[i - 1]);
            }
        }
    } else {
        let b1 = b.drop_first();
        lemma_merge_sorted(a, b1);
        let rest = merge_desc(a, b1);
        assert forall|j: int| 0 <= j < rest.len() implies b[0].sort_key() >= #[trigger] rest[j].sort_key() by {
            lemma_merge_from(a, b1, j);
            if a.contains(rest[j]) {
                let i = choose|i: int| 0 <= i < a.len() && a[i] == rest[j];
                assert(a[i] == rest[j]);
            } else {
                let i = choose|i: int| 0 <= i < b1.len() && b1[i] == rest[j];
                assert(b[i + 1] == rest[j]);
            }
        }
        assert forall|i: int, j: int| 0 <= i < j < m.len() implies m[i].sort_key() >= m[j].sort_key() by {
            assert(m[j] == rest[j - 1]);
            if i > 0 {
                assert(m[i] == rest[i - 1]);
            }
        }
    }
}

/// The sort puts larger keys first.
pub proof fn lemma_sort_sorted<A: SortKey>(s: Seq<A>)
    ensures
        sorted_desc(sort_desc(s)),
    decreases s.len(),
{
    if s.len() > 1 {
        let m = s.len() / 2;
        lemma_sort_sorted(s.subrange(0, m as int));
        lemma_sort_sorted(s.subrange(m as int, s.len() as int));
        lemma_merge_sorted(sort_desc(s.subrange(0, m as int)), sort_desc(s.subrange(m as int, s.len() as int)));
    }
}

/// Merging commutes with a map that keeps keys.
pub proof fn lemma_merge_map<A: SortKey, B: SortKey>(a: Seq<A>, b: Seq<A>, f: spec_fn(A) -> B)
    requires
        forall|x: A| #[trigger] f(x).sort_key() == x.sort_key(),
    ensures
        merge_desc(a, b).map_values(f) == merge_desc(a.map_values(f), b.map_values(f)),
    decreases a.len() + b.len(),
{
    let fa = a.map_values(f);
    let fb = b.map_values(f);
    if a.len() == 0 {
        assert(fa.len() == 0);
    } else if b.len() == 0 {
        assert(fb.len() == 0);
    } else {
        assert(fa[0] == f(a[0]));
        assert(fb[0] == f(b[0]));
        if a[0].sort_key() >= b[0].sort_key() {
            lemma_merge_map(a.drop_first(), b, f);
            assert(a.drop_first().map_values(f) =~= fa.drop_first());
            assert(merge_desc(a, b).map_values(f) =~= seq![fa[0]] + merge_desc(a.drop_first(), b).map_values(f));
        } else {
            lemma_merge_map(a, b.drop_first(), f);
            assert(b.drop_first().map_values(f) =~= fb.drop_first());
            assert(merge_desc(a, b).map_values(f) =~= seq![fb[0]] + merge_desc(a, b.drop_first()).map_values(f));
        }
    }
}

/// Sorting commutes with a map that keeps keys.
pub proof fn lemma_sort_map<A: SortKey, B: SortKey>(s: Seq<A>, f: spec_fn(A) -> B)
    requires
        forall|x: A| #[trigger] f(x).sort_key() == x.sort_key(),
    ensures
        sort_desc(s).map_values(f) == sort_desc(s.map_values(f)),
    decreases s.len(),
{
    let fs = s.map_values(f);
    if s.len() > 1 {
        let m = s.len() / 2;
        let l = s.subrange(0, m as int);
        let r = s.subrange(m as int, s.len() as int);
        lemma_sort_map(l, f);
        lemma_sort_map(r, f);
        assert(l.map_values(f) =~= fs.subrange(0, m as int));
        assert(r.map_values(f) =~= fs.subrange(m as int, fs.len() as int));
        lemma_merge_map(sort_desc(l), sort_desc(r), f);
    } else {
        assert(sort_desc(s).map_values(f) =~= fs);
    }
}

/// The reverse of a vector.
fn reversed<T>(v: Vec<T>) -> (r: Vec<T>)
    ensures
        r@.len() == v@.len(),
        forall|k: int| 0 <= k < v@.len() ==> r@[k] == v@[v@.len() - 1 - k],
{
    let ghost g = v@;
    let mut v = v;
    let mut r: Vec<T> = Vec::new();
    while v.len() > 0
        invariant
            v@.len() + r@.len() == g.len(),
            v@ == g.subrange(0, v@.len() as int),
            forall|k: int| 0 <= k < r@.len() ==> r@[k] == g[g.len() - 1 - k],
        decreases v@.len(),
    {
        let x = v.pop().unwrap();
        r.push(x);
    }
    r
}

/// Stable merge of two sorted runs (see `merge_desc`).
fn merge_vec<T: ExecKey>(a: Vec<T>, b: Vec<T>) -> (r: Vec<T>)
    ensures
        r@ == merge_desc(a@, b@),
{
    let ghost ga = a@;
    let ghost gb = b@;
    let mut ra = reversed(a);
    let mut rb = reversed(b);
    let mut out: Vec<T> = Vec::new();
    assert(ga.skip(0) =~= ga);
    assert(gb.skip(0) =~= gb);
    assert(out@ + merge_desc(ga, gb) =~= merge_desc(ga, gb));
    while ra.len() > 0 || rb.len() > 0
        invariant
            ra@.len() <= ga.len(),
            rb@.len() <= gb.len(),
            forall|k: int| 0 <= k < ra@.len() ==> ra@[k] == ga[ga.len() - 1 - k],
            forall|k: int| 0 <= k < rb@.len() ==> rb@[k] == gb[gb.len() - 1 - k],
            out@ + merge_desc(ga.skip(ga.len() - ra@.len()), gb.skip(gb.len() - rb@.len()))
                == merge_desc(ga, gb),
        decreases ra@.len() + rb@.len(),
    {
        let ghost sa = ga.skip(ga.len() - ra@.len());
        let ghost sb = gb.skip(gb.len() - rb@.len());
        let take_a = if ra.len() == 0 {
            false
        } else if rb.len() == 0 {
            true
        } else {
            ra[ra.len() - 1].key() >= rb[rb.len() - 1].key()
        };
        if take_a {
            assert(sa[0] == ra@[ra@.len() - 1]);
            let x = ra.pop().unwrap();
            assert(sa.drop_first() =~= ga.skip(ga.len() - ra@.len()));
            assert(merge_desc(sa, sb) == seq![sa[0]] + merge_desc(sa.drop_first(), sb));
            out.push(x);
            assert(out@ + merge_desc(sa.drop_first(), sb) =~= (out@.drop_last()) + merge_desc(sa, sb));
        } else {
            assert(sb[0] == rb@[rb@.len() - 1]);
            let x = rb.pop().unwrap();
            assert(sb.drop_first() =~= gb.skip(gb.len() - rb@.len()));
            proof {
                if sa.len() == 0 {
                    assert(merge_desc(sa, sb) == sb);
                    assert(merge_desc(sa, sb.drop_first()) == sb.drop_first());
                    assert(sb =~= seq![sb[0]] + sb.drop_first());
                } else {
                    assert(merge_desc(sa, sb) == seq![sb[0]] + merge_desc(sa, sb.drop_first()));
                }
            }
            out.push(x);
            assert(out@ + merge_desc(sa, sb.drop_first()) =~= (out@.drop_last()) + merge_desc(sa, sb));
        }
    }
    assert(ga.skip(ga.len() as int) =~= Seq::<T>::empty());
    assert(gb.skip(gb.len() as int) =~= Seq::<T>::empty());
    assert(out@ =~= out@ + Seq::<T>::empty());
    out
}

/// Stable sort of a vector, largest key first (see `sort_desc`).
pub fn sort_vec<T: ExecKey>(v: Vec<T>) -> (r: Vec<T>)
    ensures
        r@ == sort_desc(v@),
    decreases v@.len(),
{
    if v.len() <= 1 {
        return v;
    }
    let ghost g = v@;
    let mut left = v;
    let mid = left.len() / 2;
    let right = left.split_off(mid);
    let sl = sort_vec(left);
    let sr = sort_vec(right);
    merge_vec(sl, sr)
}

/// No two positions of `s` hold the same key.
pub open spec fn distinct_keys<A: SortKey>(s: Seq<A>) -> bool {
    forall|i: int, j: int| 0 <= i < s.len() && 0 <= j < s.len() && i != j ==> #[trigger] s[i].sort_key() != #[trigger] s[j].sort_key()
}

/// A merge holds exactly the elements of its two inputs.
pub proof fn lemma_merge_multiset<A: SortKey>(a: Seq<A>, b: Seq<A>)
    ensures
        merge_desc(a, b).to_multiset() == a.to_multiset().add(b.to_multiset()),
    decreases a.len() + b.len(),
{
    broadcast use vstd::multiset::group_multiset_axioms, vstd::seq_lib::lemma_multiset_commutative,
        vstd::seq_lib::to_multiset_len, vstd::multiset::lemma_multiset_empty_len;
    if a.len() == 0 {
        assert(a.to_multiset().len() == 0);
        assert(a.to_multiset() =~= vstd::multiset::Multiset::<A>::empty());
        assert(merge_desc(a, b).to_multiset() =~= a.to_multiset().add(b.to_multiset()));
    } else if b.len() == 0 {
        assert(b.to_multiset().len() == 0);
        assert(b.to_multiset() =~= vstd::multiset::Multiset::<A>::empty());
        assert(merge_desc(a, b).to_multiset() =~= a.to_multiset().add(b.to_multiset()));
    } else if a[0].sort_key() >= b[0].sort_key() {
        lemma_merge_multiset(a.drop_first(), b);
        assert(a =~= seq![a[0]] + a.drop_first());
        assert(merge_desc(a, b).to_multiset() =~= a.to_multiset().add(b.to_multiset()));
    } else {
        lemma_merge_multiset(a, b.drop_first());
        assert(b =~= seq![b[0]] + b.drop_first());
        assert(merge_desc(a, b).to_multiset() =~= a.to_multiset().add(b.to_multiset()));
    }
}

/// Sorting only reorders: the sorted sequence holds exactly the input's
/// elements.
pub proof fn lemma_sort_multiset<A: SortKey>(s: Seq<A>)
    ensures
        sort_desc(s).to_multiset() == s.to_multiset(),
    decreases s.len(),
{
    broadcast use vstd::multiset::group_multiset_axioms, vstd::seq_lib::lemma_multiset_commutative;
    if s.len() > 1 {
        let m = s.len() / 2;
        let l = s.subrange(0, m as int);
        let r = s.subrange(m as int, s.len() as int);
        lemma_sort_multiset(l);
        lemma_sort_multiset(r);
        lemma_merge_multiset(sort_desc(l), sort_desc(r));
        assert(s =~= l + r);
    }
}

/// A reordering of a sequence with distinct keys has distinct keys.
pub proof fn lemma_distinct_keys_perm<A: SortKey>(s: Seq<A>, t: Seq<A>)
    requires
        s.to_multiset() == t.to_multiset(),
        distinct_keys(s),
    ensures
        distinct_keys(t),
{
    broadcast use vstd::multiset::group_multiset_axioms, vstd::seq_lib::group_to_multiset_ensures;
    assert forall|i: int, j: int| 0 <= i < t.len() && 0 <= j < t.len() && i != j implies #[trigger] t[i].sort_key()
        != #[trigger] t[j].sort_key() by {
        if t[i].sort_key() == t[j].sort_key() {
            let x = t[i];
            let y = t[j];
            assert(t.contains(x));
            assert(t.contains(y));
            assert(s.to_multiset().count(x) > 0);
            assert(s.to_multiset().count(y) > 0);
            let p = choose|p: int| 0 <= p < s.len() && s[p] == x;
            let q = choose|q: int| 0 <= q < s.len() && s[q] == y;
            if p == q {
                // x occurs twice in t, so twice in s
                let ti = t.remove(i);
                let jj = if j < i { j } else { j - 1 };
                assert(ti[jj] == x);
                assert(ti.contains(x));
                assert(ti.to_multiset().count(x) > 0);
                assert(t.to_multiset().count(x) == ti.to_multiset().count(x) + 1);
                let sp = s.remove(p);
                assert(sp.to_multiset().count(x) == s.to_multiset().count(x) - 1);
                assert(sp.to_multiset().count(x) > 0);
                assert(sp.contains(x));
                let w = choose|w: int| 0 <= w < sp.len() && sp[w] == x;
                let w2 = if w < p { w } else { w + 1 };
                assert(s[w2] == x);
                assert(w2 != p);
                assert(s[w2].sort_key() == s[p].sort_key());
            } else {
                assert(s[p].sort_key() == s[q].sort_key());
            }
        }
    }
}

/// Two sorted sequences holding the same elements, with distinct keys, are
/// equal: the order is fixed by the keys alone.
pub proof fn lemma_sorted_same_elements<A: SortKey>(a: Seq<A>, b: Seq<A>)
    requires
        sorted_desc(a),
        sorted_desc(b),
        a.to_multiset() == b.to_multiset(),
        distinct_keys(a),
    ensures
        a == b,
    decreases a.len(),
{
    broadcast use vstd::multiset::group_multiset_axioms, vstd::seq_lib::group_to_multiset_ensures;
    assert(a.len() == a.to_multiset().len());
    assert(b.len() == b.to_multiset().len());
    if a.len() > 0 {
        let x = a[0];
        let y = b[0];
        assert(b.contains(y));
        assert(a.to_multiset().count(y) > 0);
        assert(a.contains(y));
        assert(a.contains(x));
        assert(b.to_multiset().count(x) > 0);
        assert(b.contains(x));
        let j = choose|j: int| 0 <= j < a.len() && a[j] == y;
        let k = choose|k: int| 0 <= k < b.len() && b[k] == x;
        assert(x.sort_key() >= a[j].sort_key());
        assert(y.sort_key() >= b[k].sort_key());
        assert(j == 0);
        assert(x == y);
        assert(a.drop_first() == a.remove(0));
        assert(b.drop_first() == b.remove(0));
        assert(distinct_keys(a.drop_first())) by {
            assert forall|p: int, q: int| 0 <= p < a.drop_first().len() && 0 <= q < a.drop_first().len() && p != q
                implies #[trigger] a.drop_first()[p].sort_key() != #[trigger] a.drop_first()[q].sort_key() by {
                assert(a.drop_first()[p] == a[p + 1]);
                assert(a.drop_first()[q] == a[q + 1]);
            }
        }
        assert(sorted_desc(a.drop_first())) by {
            assert forall|p: int, q: int| 0 <= p < q < a.drop_first().len() implies a.drop_first()[p].sort_key()
                >= a.drop_first()[q].sort_key() by {
                assert(a.drop_first()[p] == a[p + 1]);
                assert(a.drop_first()[q] == a[q + 1]);
            }
        }
        assert(sorted_desc(b.drop_first())) by {
            assert forall|p: int, q: int| 0 <= p < q < b.drop_first().len() implies b.drop_first()[p].sort_key()
                >= b.drop_first()[q].sort_key() by {
                assert(b.drop_first()[p] == b[p + 1]);
                assert(b.drop_first()[q] == b[q + 1]);
            }
        }
        lemma_sorted_same_elements(a.drop_first(), b.drop_first());
        assert(a =~= seq![x] + a.drop_first());
        assert(b =~= seq![y] + b.drop_first());
    } else {
        assert(a =~= b);
    }
}

} // verus!
