//! The node table: one entry per file or directory of an audited tree.

use vstd::prelude::*;

verus! {

/// A file or directory of an audited tree.
///
/// A tree is a table of nodes; `parent` and `children` are positions in it.
#[derive(Debug)]
pub struct Node {
    pub id: usize,
    pub name: String,
    /// The path as text.
    pub path: String,
    pub hash_hex: String,
    pub children: Vec<usize>,
    pub parent: Option<usize>,
    pub modified_timestamp: u64,
    pub size_bytes: u64,
    pub is_dir: bool,
    /// The number of the scanned entry that the node was made from.
    pub source: usize,
}

/// The contents of a `Node`.
#[verifier::ext_equal]
pub struct NodeView {
    pub id: usize,
    pub name: Seq<char>,
    pub path: Seq<char>,
    pub hash_hex: Seq<char>,
    pub children: Seq<usize>,
    pub parent: Option<usize>,
    pub modified_timestamp: u64,
    pub size_bytes: u64,
    pub is_dir: bool,
    pub source: usize,
}

impl View for Node {
    type V = NodeView;

    open spec fn view(&self) -> NodeView {
        NodeView {
            id: self.id,
            name: self.name@,
            path: self.path@,
            hash_hex: self.hash_hex@,
            children: self.children@,
            parent: self.parent,
            modified_timestamp: self.modified_timestamp,
            size_bytes: self.size_bytes,
            is_dir: self.is_dir,
            source: self.source,
        }
    }
}

impl Clone for Node {
    fn clone(&self) -> (copy: Self)
        ensures
            copy@ == self@,
    {
        let copy = Node {
            id: self.id,
            name: self.name.clone(),
            path: self.path.clone(),
            hash_hex: self.hash_hex.clone(),
            children: self.children.clone(),
            parent: self.parent,
            modified_timestamp: self.modified_timestamp,
            size_bytes: self.size_bytes,
            is_dir: self.is_dir,
            source: self.source,
        };
        assert(copy.children@ =~= self.children@);
        copy
    }
}

/// The contents of a node table.
pub open spec fn table(nodes: Seq<Node>) -> Seq<NodeView> {
    nodes.map_values(|node: Node| node@)
}

impl NodeView {
    /// The node with another hash.
    pub open spec fn with_hash(self, hash: Seq<char>) -> NodeView {
        NodeView { hash_hex: hash, ..self }
    }
}

/// Every node stands at the position of its id, parents stand before their
/// children, a node lists exactly the nodes that name it as their parent, and
/// only directories list any.
pub open spec fn consistent(t: Seq<NodeView>) -> bool {
    &&& forall|i: int| 0 <= i < t.len() ==> (#[trigger] t[i]).id == i
    &&& forall|i: int|
        0 <= i < t.len() ==> match (#[trigger] t[i]).parent {
            Some(p) => p < i && t[p as int].children.contains(i as usize),
            None => true,
        }
    &&& forall|i: int, k: int|
        0 <= i < t.len() && 0 <= k < t[i].children.len() ==> {
            let c = #[trigger] t[i].children[k];
            c < t.len() && t[c as int].parent == Some(i as usize)
        }
    &&& forall|i: int| 0 <= i < t.len() && !(#[trigger] t[i]).is_dir ==> t[i].children.len() == 0
}

/// No node lists a child twice.
pub open spec fn children_once(t: Seq<NodeView>) -> bool {
    forall|i: int, k: int, m: int|
        0 <= i < t.len() && 0 <= k < m < t[i].children.len() ==> #[trigger] t[i].children[k]
            != #[trigger] t[i].children[m]
}

/// A consistent table whose nodes list every child once.
pub open spec fn linked(t: Seq<NodeView>) -> bool {
    &&& consistent(t)
    &&& children_once(t)
}

/// The position after the last node of the subtree at `i`, in a table whose
/// subtrees are contiguous.
pub open spec fn span_end(t: Seq<NodeView>, i: int) -> int
    decreases t.len() - i,
{
    if 0 <= i < t.len() && t[i].children.len() > 0 && i < t[i].children.last() < t.len() {
        span_end(t, t[i].children.last() as int)
    } else {
        i + 1
    }
}

/// The table lists every node before its children, and each child's whole
/// subtree before the next child.
pub open spec fn preorder(t: Seq<NodeView>) -> bool {
    forall|i: int, k: int|
        0 <= i < t.len() && 0 <= k < t[i].children.len() ==> #[trigger] t[i].children[k] == (if k
            == 0 {
            i + 1
        } else {
            span_end(t, t[i].children[k - 1] as int)
        })
}

/// A table that holds one tree, rooted at its first node.
pub open spec fn tree_wf(t: Seq<NodeView>) -> bool {
    &&& linked(t)
    &&& preorder(t)
    &&& t.len() > 0 ==> t[0].parent is None && span_end(t, 0) == t.len()
    &&& forall|i: int| 0 < i < t.len() ==> (#[trigger] t[i]).parent is Some
}

/// Two tables that differ in hashes at most.
pub open spec fn same_but_hashes(a: Seq<NodeView>, b: Seq<NodeView>) -> bool {
    &&& a.len() == b.len()
    &&& forall|i: int| 0 <= i < a.len() ==> (#[trigger] b[i]) == a[i].with_hash(b[i].hash_hex)
}

proof fn lemma_span_end_same(a: Seq<NodeView>, b: Seq<NodeView>, i: int)
    requires
        same_but_hashes(a, b),
    ensures
        span_end(a, i) == span_end(b, i),
    decreases a.len() - i,
{
    if 0 <= i < a.len() {
        assert(b[i] == a[i].with_hash(b[i].hash_hex));
        if a[i].children.len() > 0 && i < a[i].children.last() < a.len() {
            lemma_span_end_same(a, b, a[i].children.last() as int);
        }
    }
}

/// A tree stays a tree whatever its hashes are.
pub proof fn lemma_tree_wf_same(a: Seq<NodeView>, b: Seq<NodeView>)
    requires
        tree_wf(a),
        same_but_hashes(a, b),
    ensures
        tree_wf(b),
{
    lemma_consistent_same(a, b);
    assert forall|i: int, k: int, m: int|
        0 <= i < b.len() && 0 <= k < m < b[i].children.len() implies #[trigger] b[i].children[k]
        != #[trigger] b[i].children[m] by {
        assert(b[i] == a[i].with_hash(b[i].hash_hex));
        assert(a[i].children[k] != a[i].children[m]);
    }
    assert forall|i: int, k: int|
        0 <= i < b.len() && 0 <= k < b[i].children.len() implies #[trigger] b[i].children[k] == (
    if k == 0 {
        i + 1
    } else {
        span_end(b, b[i].children[k - 1] as int)
    }) by {
        assert(b[i] == a[i].with_hash(b[i].hash_hex));
        assert(a[i].children[k] == b[i].children[k]);
        if k > 0 {
            lemma_span_end_same(a, b, a[i].children[k - 1] as int);
        }
    }
    assert forall|i: int| 0 < i < b.len() implies (#[trigger] b[i]).parent is Some by {
        assert(b[i] == a[i].with_hash(b[i].hash_hex));
        assert(a[i].parent is Some);
    }
    if b.len() > 0 {
        assert(b[0] == a[0].with_hash(b[0].hash_hex));
        lemma_span_end_same(a, b, 0);
    }
}

/// Whether the node at `j` is the node at `root` or one of its descendants.
pub open spec fn in_subtree(t: Seq<NodeView>, root: int, j: int) -> bool
    decreases j,
{
    ||| j == root
    ||| 0 <= j < t.len() && match t[j].parent {
        Some(p) => p < j && in_subtree(t, root, p as int),
        None => false,
    }
}

/// Every node of a tree is the first one or a descendant of it.
pub proof fn lemma_all_in_tree(t: Seq<NodeView>, j: int)
    requires
        tree_wf(t),
        0 <= j < t.len(),
    ensures
        in_subtree(t, 0, j),
    decreases j,
{
    if j > 0 {
        assert(t[j].parent is Some);
        lemma_all_in_tree(t, t[j].parent->0 as int);
    }
}

/// A table whose links are those of a consistent table is consistent.
pub proof fn lemma_consistent_same(a: Seq<NodeView>, b: Seq<NodeView>)
    requires
        consistent(a),
        same_but_hashes(a, b),
    ensures
        consistent(b),
{
    assert forall|i: int| 0 <= i < b.len() implies (#[trigger] b[i]).id == i && (!b[i].is_dir
        ==> b[i].children.len() == 0) by {
        assert(b[i] == a[i].with_hash(b[i].hash_hex));
        assert(a[i].id == i);
    }
    assert forall|i: int| 0 <= i < b.len() implies match (#[trigger] b[i]).parent {
        Some(p) => p < i && b[p as int].children.contains(i as usize),
        None => true,
    } by {
        assert(b[i] == a[i].with_hash(b[i].hash_hex));
        if let Some(p) = a[i].parent {
            assert(b[p as int] == a[p as int].with_hash(b[p as int].hash_hex));
        }
    }
    assert forall|i: int, k: int| 0 <= i < b.len() && 0 <= k < b[i].children.len() implies {
        let c = #[trigger] b[i].children[k];
        c < b.len() && b[c as int].parent == Some(i as usize)
    } by {
        assert(b[i] == a[i].with_hash(b[i].hash_hex));
        let c = a[i].children[k];
        assert(b[c as int] == a[c as int].with_hash(b[c as int].hash_hex));
    }
}

/// A node stands before its descendants.
pub proof fn lemma_subtree_after_root(t: Seq<NodeView>, root: int, j: int)
    requires
        in_subtree(t, root, j),
    ensures
        root <= j,
    decreases j,
{
    if j != root {
        lemma_subtree_after_root(t, root, t[j].parent->0 as int);
    }
}

/// A descendant of a node's child is a descendant of the node.
pub proof fn lemma_subtree_of_child(t: Seq<NodeView>, id: int, child: int, j: int)
    requires
        0 <= id < child < t.len(),
        t[child].parent == Some(id as usize),
        id <= usize::MAX,
        in_subtree(t, child, j),
    ensures
        in_subtree(t, id, j),
    decreases j,
{
    if j == child {
        assert(in_subtree(t, id, id));
    } else {
        lemma_subtree_of_child(t, id, child, t[j].parent->0 as int);
    }
}

/// The subtrees of two children of a node share no node.
pub proof fn lemma_subtrees_disjoint(t: Seq<NodeView>, id: int, a: int, b: int, j: int)
    requires
        0 <= id <= usize::MAX,
        id < a < t.len(),
        id < b < t.len(),
        a != b,
        t[a].parent == Some(id as usize),
        t[b].parent == Some(id as usize),
        in_subtree(t, a, j),
    ensures
        !in_subtree(t, b, j),
    decreases j,
{
    lemma_subtree_after_root(t, a, j);
    if j == a {
        if in_subtree(t, b, a) {
            lemma_subtree_after_root(t, b, id);
        }
    } else {
        let p = t[j].parent->0 as int;
        lemma_subtrees_disjoint(t, id, a, b, p);
        if j == b {
            lemma_subtree_after_root(t, a, p);
        }
    }
}

proof fn lemma_span_end_after(t: Seq<NodeView>, i: int)
    ensures
        i < span_end(t, i),
    decreases t.len() - i,
{
    if 0 <= i < t.len() && t[i].children.len() > 0 && i < t[i].children.last() < t.len() {
        lemma_span_end_after(t, t[i].children.last() as int);
    }
}

/// What grows from each step to the next grows all along.
proof fn lemma_steps_ascend(s: Seq<usize>, k: int, m: int)
    requires
        forall|x: int| 0 < x < s.len() ==> step_up(s, x),
        0 <= k < m < s.len(),
    ensures
        s[k] < s[m],
    decreases m - k,
{
    assert(step_up(s, m));
    if k + 1 < m {
        lemma_steps_ascend(s, k, m - 1);
    }
}

spec fn step_up(s: Seq<usize>, x: int) -> bool {
    s[x - 1] < s[x]
}

proof fn lemma_preorder_step(t: Seq<NodeView>, i: int, x: int)
    requires
        preorder(t),
        0 <= i < t.len(),
        0 < x < t[i].children.len(),
    ensures
        step_up(t[i].children, x),
{
    let before = t[i].children[x - 1] as int;
    lemma_span_end_after(t, before);
    assert(t[i].children[x] == span_end(t, before));
}

/// In a table whose subtrees are contiguous every child is listed once.
pub proof fn lemma_preorder_once(t: Seq<NodeView>)
    requires
        preorder(t),
    ensures
        children_once(t),
{
    assert forall|i: int, k: int, m: int|
        0 <= i < t.len() && 0 <= k < m < t[i].children.len() implies #[trigger] t[i].children[k]
        != #[trigger] t[i].children[m] by {
        assert forall|x: int| 0 < x < t[i].children.len() implies step_up(t[i].children, x) by {
            lemma_preorder_step(t, i, x);
        }
        lemma_steps_ascend(t[i].children, k, m);
    }
}

/// A node lies in the subtree of another exactly where it is the other or its
/// parent lies there.
pub proof fn law_subtree(t: Seq<NodeView>, root: int, j: int)
    requires
        consistent(t),
        0 <= j < t.len(),
    ensures
        in_subtree(t, root, j) <==> j == root || (t[j].parent is Some && in_subtree(
            t,
            root,
            t[j].parent->0 as int,
        )),
{
}

} // verus!
