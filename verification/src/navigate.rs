//! Looking up nodes of a scanned tree by name and by path.

use vstd::prelude::*;
use vstd::utf8::encode_utf8;
use crate::models::{TreeNode, NodeView, views, lemma_children_views};
use crate::prune::{TopNMode, prune, prune_view};
use crate::totals::{sums_fit_within, tree_sums_fit_within};
use crate::text::{eq_ignore_ascii_case, bytes_eq_ignore_case, str_equal, string_views};

verus! {

/// Whether node `c` answers to `name`: exactly, or up to ASCII case.
pub open spec fn name_matches(c: NodeView, name: Seq<char>, exact: bool) -> bool {
    if exact {
        c.name == name
    } else {
        eq_ignore_ascii_case(encode_utf8(c.name), encode_utf8(name))
    }
}

/// Index of the first element of `s` matching `name`, or -1.
pub open spec fn first_match(s: Seq<NodeView>, name: Seq<char>, exact: bool) -> int
    decreases s.len(),
{
    if s.len() == 0 {
        -1
    } else if name_matches(s[0], name, exact) {
        0
    } else {
        let r = first_match(s.drop_first(), name, exact);
        if r < 0 { -1 } else { r + 1 }
    }
}

/// The child chosen for `name`: the first exact match, else the first match
/// up to ASCII case, else -1.
pub open spec fn child_index(children: Seq<NodeView>, name: Seq<char>) -> int {
    let e = first_match(children, name, true);
    if e >= 0 { e } else { first_match(children, name, false) }
}

pub proof fn lemma_first_match(s: Seq<NodeView>, name: Seq<char>, exact: bool)
    ensures
        -1 <= first_match(s, name, exact) < s.len(),
        first_match(s, name, exact) >= 0 ==> name_matches(s[first_match(s, name, exact)], name, exact),
        forall|j: int| 0 <= j < s.len() && (first_match(s, name, exact) < 0 || j < first_match(s, name, exact))
            ==> !name_matches(#[trigger] s[j], name, exact),
    decreases s.len(),
{
    if s.len() > 0 {
        lemma_first_match(s.drop_first(), name, exact);
        assert forall|j: int| 0 <= j < s.len() && (first_match(s, name, exact) < 0 || j < first_match(s, name, exact))
            implies !name_matches(#[trigger] s[j], name, exact) by {
            if j > 0 {
                assert(s[j] == s.drop_first()[j - 1]);
            }
        }
    }
}

/// Index of the first child of `children` answering to `name` in the given way.
fn scan_children(children: &[TreeNode], name: &str, exact: bool) -> (r: Option<usize>)
    ensures
        match r {
            Some(i) => i as int == first_match(views(children@), name@, exact),
            None => first_match(views(children@), name@, exact) < 0,
        },
{
    let ghost s = views(children@);
    proof {
        lemma_first_match(s, name@, exact);
    }
    let mut i: usize = 0;
    while i < children.len()
        invariant
            s == views(children@),
            i <= children@.len(),
            forall|j: int| 0 <= j < i ==> !name_matches(#[trigger] s[j], name@, exact),
            -1 <= first_match(s, name@, exact) < s.len(),
            first_match(s, name@, exact) >= 0 ==> name_matches(s[first_match(s, name@, exact)], name@, exact),
            forall|j: int| 0 <= j < s.len() && (first_match(s, name@, exact) < 0 || j < first_match(s, name@, exact))
                ==> !name_matches(#[trigger] s[j], name@, exact),
        decreases children@.len() - i,
    {
        let c = &children[i];
        assert(s[i as int].name == c.name@);
        let hit = if exact {
            str_equal(c.name.as_str(), name)
        } else {
            bytes_eq_ignore_case(c.name.as_str().as_bytes(), name.as_bytes())
        };
        if hit {
            assert(name_matches(s[i as int], name@, exact));
            return Some(i);
        }
        i = i + 1;
    }
    None
}

/// Finds a direct child by name: an exact match wins, otherwise the first
/// child whose name matches up to ASCII case (file names on Windows are
/// case-insensitive). `None` when no child matches.
pub fn find_child<'a>(children: &'a [TreeNode], name: &str) -> (r: Option<&'a TreeNode>)
    ensures
        match r {
            Some(c) => {
                let i = child_index(views(children@), name@);
                0 <= i < children@.len() && *c == children@[i]
            },
            None => child_index(views(children@), name@) < 0,
        },
{
    proof {
        lemma_first_match(views(children@), name@, true);
        lemma_first_match(views(children@), name@, false);
    }
    match scan_children(children, name, true) {
        Some(i) => Some(&children[i]),
        None => match scan_children(children, name, false) {
            Some(i) => Some(&children[i]),
            None => None,
        },
    }
}

/// The non-empty segments of a path, in order.
pub open spec fn nonempty_segments(path: Seq<Seq<char>>) -> Seq<Seq<char>>
    decreases path.len(),
{
    if path.len() == 0 {
        path
    } else if path[0].len() > 0 {
        seq![path[0]] + nonempty_segments(path.drop_first())
    } else {
        nonempty_segments(path.drop_first())
    }
}

/// The names to walk from the root: empty segments dropped, and a leading
/// segment equal to the root's own name ignored.
pub open spec fn walk_names(root_name: Seq<char>, path: Seq<Seq<char>>) -> Seq<Seq<char>> {
    let c = nonempty_segments(path);
    if c.len() > 0 && c[0] == root_name { c.drop_first() } else { c }
}

/// Outcome of walking names down from a node.
pub enum Descent {
    /// The node reached.
    Found(NodeView),
    /// The walk stopped at segment `index`, below `parent`.
    Missing(nat, NodeView),
}

/// Walks `names` down from `n`, choosing children with `child_index`.
pub open spec fn descend(n: NodeView, names: Seq<Seq<char>>) -> Descent
    decreases names.len(),
{
    if names.len() == 0 {
        Descent::Found(n)
    } else {
        let i = child_index(n.children, names[0]);
        if i < 0 || i >= n.children.len() {
            Descent::Missing(0, n)
        } else {
            match descend(n.children[i], names.drop_first()) {
                Descent::Found(v) => Descent::Found(v),
                Descent::Missing(k, p) => Descent::Missing(k + 1, p),
            }
        }
    }
}

/// Details of a path segment that matched no child.
pub struct NodeNotFound {
    /// The segment that was not found.
    pub name: String,
    /// 1-based depth of the segment in the walked path.
    pub depth: usize,
    /// Name of the node whose children were searched.
    pub parent: String,
    /// Names of up to eight of that node's children.
    pub sample: Vec<String>,
}

/// The names of the first (up to) eight children of `n`.
pub open spec fn sample_names(n: NodeView) -> Seq<Seq<char>> {
    let k = if n.children.len() < 8 { n.children.len() } else { 8 };
    Seq::new(k, |i: int| n.children[i].name)
}

/// The segments of `path` that are walked below `root` (see `walk_names`).
fn walk_segments(root: &TreeNode, path: &Vec<String>) -> (r: Vec<String>)
    ensures
        string_views(r@) == walk_names(root.name@, string_views(path@)),
{
    let ghost p = string_views(path@);
    let mut cleaned: Vec<String> = Vec::new();
    let mut i: usize = 0;
    proof {
        assert(p.take(0) =~= Seq::<Seq<char>>::empty());
        assert(string_views(cleaned@) =~= Seq::<Seq<char>>::empty());
    }
    while i < path.len()
        invariant
            p == string_views(path@),
            i <= path@.len(),
            string_views(cleaned@) == nonempty_segments(p.take(i as int)),
        decreases path@.len() - i,
    {
        proof {
            lemma_segments_step(p, i as int);
        }
        if !path[i].as_str().is_empty() {
            cleaned.push(path[i].clone());
        }
        assert(string_views(cleaned@) =~= nonempty_segments(p.take(i + 1)));
        i = i + 1;
    }
    assert(p.take(path@.len() as int) =~= p);
    if cleaned.len() > 0 && cleaned[0] == root.name {
        let mut rest: Vec<String> = Vec::new();
        let mut j: usize = 1;
        while j < cleaned.len()
            invariant
                1 <= j <= cleaned@.len(),
                string_views(rest@) == string_views(cleaned@).subrange(1, j as int),
            decreases cleaned@.len() - j,
        {
            let ghost before = rest@;
            let item = cleaned[j].clone();
            assert(item@ == cleaned@[j as int]@);
            rest.push(item);
            assert(string_views(before).len() == before.len());
            assert(string_views(before) == string_views(cleaned@).subrange(1, j as int));
            assert(before.len() == j - 1);
            assert forall|w: int| 0 <= w < rest@.len() implies #[trigger] string_views(rest@)[w] == string_views(cleaned@).subrange(1, j + 1)[w] by {
                if w < before.len() {
                    assert(rest@[w] == before[w]);
                    assert(string_views(before)[w] == string_views(cleaned@).subrange(1, j as int)[w]);
                }
            }
            assert(string_views(rest@) =~= string_views(cleaned@).subrange(1, j + 1));
            j = j + 1;
        }
        assert(string_views(cleaned@).subrange(1, cleaned@.len() as int) =~= string_views(cleaned@).drop_first());
        rest
    } else {
        cleaned
    }
}

proof fn lemma_segments_step(p: Seq<Seq<char>>, i: int)
    requires
        0 <= i < p.len(),
    ensures
        nonempty_segments(p.take(i + 1)) == nonempty_segments(p.take(i)) + (if p[i].len() > 0 {
            seq![p[i]]
        } else {
            Seq::<Seq<char>>::empty()
        }),
{
    lemma_segments_concat(p.take(i), seq![p[i]]);
    assert(p.take(i + 1) =~= p.take(i) + seq![p[i]]);
    assert(seq![p[i]].drop_first() =~= Seq::<Seq<char>>::empty());
    assert(nonempty_segments(Seq::<Seq<char>>::empty()) == Seq::<Seq<char>>::empty());
    if p[i].len() > 0 {
        assert(seq![p[i]] + Seq::<Seq<char>>::empty() =~= seq![p[i]]);
    }
}

proof fn lemma_segments_concat(a: Seq<Seq<char>>, b: Seq<Seq<char>>)
    ensures
        nonempty_segments(a + b) == nonempty_segments(a) + nonempty_segments(b),
    decreases a.len(),
{
    if a.len() == 0 {
        assert(a + b =~= b);
        assert(nonempty_segments(a) + nonempty_segments(b) =~= nonempty_segments(b));
    } else {
        lemma_segments_concat(a.drop_first(), b);
        assert((a + b).drop_first() =~= a.drop_first() + b);
        assert((a + b)[0] == a[0]);
        if a[0].len() > 0 {
            assert(seq![a[0]] + (nonempty_segments(a.drop_first()) + nonempty_segments(b))
                =~= (seq![a[0]] + nonempty_segments(a.drop_first())) + nonempty_segments(b));
        }
    }
}

/// Walks `names` down from `root` (see `descend`).
fn walk<'a>(root: &'a TreeNode, names: &Vec<String>) -> (r: Result<&'a TreeNode, NodeNotFound>)
    ensures
        match r {
            Ok(t) => descend(root@, string_views(names@)) == Descent::Found(t@),
            Err(e) => match descend(root@, string_views(names@)) {
                Descent::Missing(k, p) => {
                    &&& k < names@.len()
                    &&& e.name@ == names@[k as int]@
                    &&& e.depth == k + 1
                    &&& e.parent@ == p.name
                    &&& string_views(e.sample@) == sample_names(p)
                },
                Descent::Found(_) => false,
            },
        },
{
    let ghost ns = string_views(names@);
    let mut current: &TreeNode = root;
    let mut i: usize = 0;
    proof {
        assert(ns.skip(0) =~= ns);
        match descend(root@, ns) {
            Descent::Found(v) => {},
            Descent::Missing(k, p) => {},
        }
    }
    while i < names.len()
        invariant
            ns == string_views(names@),
            i <= names@.len(),
            descend(root@, ns) == (match descend(current@, ns.skip(i as int)) {
                Descent::Found(v) => Descent::Found(v),
                Descent::Missing(k, p) => Descent::Missing((k + i) as nat, p),
            }),
        decreases names@.len() - i,
    {
        proof {
            lemma_children_views(*current);
        }
        let ghost rest = ns.skip(i as int);
        assert(rest[0] == names@[i as int]@);
        assert(rest.drop_first() =~= ns.skip(i + 1));
        match find_child(current.children.as_slice(), names[i].as_str()) {
            Some(next) => {
                current = next;
            },
            None => {
                let mut sample: Vec<String> = Vec::new();
                let limit = if current.children.len() < 8 { current.children.len() } else { 8 };
                let mut q: usize = 0;
                while q < limit
                    invariant
                        q <= limit,
                        limit <= current.children@.len(),
                        limit == (if current.children@.len() < 8 { current.children@.len() } else { 8 }),
                        current@.children == views(current.children@),
                        string_views(sample@) == Seq::new(q as nat, |w: int| current@.children[w].name),
                    decreases limit - q,
                {
                    let ghost before = sample@;
                    let item = current.children[q].name.clone();
                    assert(item@ == current@.children[q as int].name);
                    sample.push(item);
                    assert(string_views(before).len() == before.len());
                    assert(string_views(before) == Seq::new(q as nat, |w: int| current@.children[w].name));
                    assert(before.len() == q);
                    assert forall|w: int| 0 <= w < sample@.len() implies #[trigger] string_views(sample@)[w] == Seq::new((q + 1) as nat, |w: int| current@.children[w].name)[w] by {
                        if w < before.len() {
                            assert(sample@[w] == before[w]);
                            assert(string_views(before)[w] == Seq::new(q as nat, |w: int| current@.children[w].name)[w]);
                        }
                    }
                    assert(string_views(sample@) =~= Seq::new((q + 1) as nat, |w: int| current@.children[w].name));
                    q = q + 1;
                }
                assert(string_views(sample@) =~= sample_names(current@));
                return Err(NodeNotFound {
                    name: names[i].clone(),
                    depth: i + 1,
                    parent: current.name.clone(),
                    sample,
                });
            },
        }
        i = i + 1;
    }
    assert(ns.skip(names@.len() as int).len() == 0);
    Ok(current)
}

/// Lazily expands one node of a full scan tree.
///
/// `path` holds child names from the root down; empty segments are ignored,
/// and a first segment equal to the root's name is skipped. The node reached
/// is pruned like `prune` does. When a segment matches no child, the error
/// names it with its depth, the node searched and a sample of its children.
pub fn get_node(
    root: &TreeNode,
    path: &Vec<String>,
    max_depth: u32,
    top_n: usize,
    mode: TopNMode,
    merge_files: bool,
) -> (r: Result<TreeNode, NodeNotFound>)
    requires
        descend(root@, walk_names(root.name@, string_views(path@))) matches Descent::Found(v)
            ==> sums_fit_within(v, max_depth as nat),
    ensures
        match r {
            Ok(t) => match descend(root@, walk_names(root.name@, string_views(path@))) {
                Descent::Found(v) => t@ == prune_view(v, max_depth as nat, top_n as nat, mode, merge_files),
                Descent::Missing(_, _) => false,
            },
            Err(e) => match descend(root@, walk_names(root.name@, string_views(path@))) {
                Descent::Missing(k, p) => {
                    &&& e.name@ == walk_names(root.name@, string_views(path@))[k as int]
                    &&& e.depth == k + 1
                    &&& e.parent@ == p.name
                    &&& string_views(e.sample@) == sample_names(p)
                },
                Descent::Found(_) => false,
            },
        },
{
    let names = walk_segments(root, path);
    match walk(root, &names) {
        Ok(t) => Ok(prune(t, max_depth, top_n, mode, merge_files)),
        Err(e) => Err(e),
    }
}

/// Whether `get_node` may expand the node `path` leads to with depth budget
/// `max_depth`: true when the path leads nowhere, otherwise whether the sums
/// below the node fit within the budget (the condition of `get_node`).
pub fn get_node_fits(root: &TreeNode, path: &Vec<String>, max_depth: u32) -> (r: bool)
    ensures
        r == (descend(root@, walk_names(root.name@, string_views(path@))) matches Descent::Found(v)
            ==> sums_fit_within(v, max_depth as nat)),
{
    let names = walk_segments(root, path);
    match walk(root, &names) {
        Ok(t) => tree_sums_fit_within(t, max_depth),
        Err(_) => true,
    }
}

/// A lookup by name finds a child exactly when some child's name matches up
/// to ASCII case, and an exact match is preferred: when one exists, the
/// first exact match is chosen.
pub proof fn lemma_child_index_found(children: Seq<NodeView>, name: Seq<char>)
    ensures
        child_index(children, name) >= 0 <==> exists|j: int| 0 <= j < children.len() && name_matches(#[trigger] children[j], name, false),
        (exists|j: int| 0 <= j < children.len() && name_matches(#[trigger] children[j], name, true))
            ==> child_index(children, name) == first_match(children, name, true),
        child_index(children, name) >= 0 ==> name_matches(children[child_index(children, name)], name, false),
{
    lemma_first_match(children, name, true);
    lemma_first_match(children, name, false);
    let e = first_match(children, name, true);
    if e >= 0 {
        assert(name_matches(children[e], name, false));
    }
    if exists|j: int| 0 <= j < children.len() && name_matches(#[trigger] children[j], name, false) {
        let j = choose|j: int| 0 <= j < children.len() && name_matches(#[trigger] children[j], name, false);
        assert(first_match(children, name, false) >= 0);
    }
}

/// The empty path, and a path made only of the root's own name and empty
/// segments, lead to the root itself.
pub proof fn lemma_root_path(root: NodeView)
    ensures
        descend(root, walk_names(root.name, Seq::empty())) == Descent::Found(root),
        descend(root, walk_names(root.name, seq![root.name])) == Descent::Found(root),
{
    let one = seq![root.name];
    if root.name.len() > 0 {
        assert(one.drop_first() =~= Seq::<Seq<char>>::empty());
        assert(nonempty_segments(one) == seq![root.name] + nonempty_segments(one.drop_first()));
        assert(nonempty_segments(one) =~= one);
        assert(walk_names(root.name, one) =~= Seq::<Seq<char>>::empty());
    } else {
        assert(one.drop_first() =~= Seq::<Seq<char>>::empty());
        assert(nonempty_segments(one) =~= Seq::<Seq<char>>::empty());
    }
}

/// Naming the root first changes nothing: for any path that does not
/// itself begin (after its empty segments) with the root's name, the same
/// path with the root's name put in front of it leads to the same place.
pub proof fn lemma_root_name_prefix_ignored(root: NodeView, p: Seq<Seq<char>>)
    requires
        !(nonempty_segments(p).len() > 0 && nonempty_segments(p)[0] == root.name),
    ensures
        walk_names(root.name, seq![root.name] + p) == walk_names(root.name, p),
        descend(root, walk_names(root.name, seq![root.name] + p)) == descend(root, walk_names(root.name, p)),
{
    let q = seq![root.name] + p;
    assert(q.drop_first() =~= p);
    assert(q[0] == root.name);
    if root.name.len() > 0 {
        assert(nonempty_segments(q) == seq![root.name] + nonempty_segments(p));
        assert((seq![root.name] + nonempty_segments(p)).drop_first() =~= nonempty_segments(p));
    } else {
        assert(nonempty_segments(q) == nonempty_segments(p));
    }
}

} // verus!
