//! The node table of a scanned directory tree.

use vstd::prelude::*;
use crate::hashing::HashAlgorithm;
use crate::merkle::{law_hashes_follow_from_files, merkle_hashed, same_shape};
use crate::node::{
    consistent, lemma_consistent_same, lemma_preorder_once, preorder, same_but_hashes, span_end,
    table, tree_wf, Node, NodeView,
};
use crate::paths::{file_name, path_file_name};
use crate::sort::{
    before, is_order, key_views, law_lex_first_difference, lemma_lex_irreflexive,
    lemma_order_exists, lemma_order_unique, lex_less, order_of, sorted_order,
};

verus! {

/// What the file system says of a file or directory.
#[derive(Debug)]
pub struct EntryMetadata {
    /// Seconds since the epoch, where the time is known and not before it.
    pub modified: Option<u64>,
    pub is_file: bool,
    pub len: u64,
}

/// A file or directory found by a scan.
#[derive(Debug)]
pub struct ScannedEntry {
    /// The path as text.
    pub path: String,
    /// The bytes of the last path component, by which the entries of a
    /// directory are ordered.
    pub sort_key: Vec<u8>,
    pub is_dir: bool,
    pub metadata: Option<EntryMetadata>,
    /// The number of the entry in the scan.
    pub source: usize,
    /// What the directory holds, in any order.
    pub children: Vec<ScannedEntry>,
}

/// Bytes as a sort key.
pub open spec fn byte_key(bytes: Seq<u8>) -> Seq<u32> {
    bytes.map_values(|b: u8| b as u32)
}

/// The sort keys of what a directory holds.
pub open spec fn child_keys(entry: ScannedEntry) -> Seq<Seq<u32>> {
    entry.children@.map_values(|child: ScannedEntry| byte_key(child.sort_key@))
}

/// The node of an entry.
pub open spec fn entry_node(
    entry: ScannedEntry,
    parent: Option<usize>,
    id: int,
    children: Seq<usize>,
) -> NodeView {
    NodeView {
        id: id as usize,
        name: match path_file_name(entry.path@) {
            Some(name) => name,
            None => Seq::empty(),
        },
        path: entry.path@,
        hash_hex: Seq::empty(),
        children,
        parent,
        modified_timestamp: match entry.metadata {
            Some(m) => match m.modified {
                Some(seconds) => seconds,
                None => 0,
            },
            None => 0,
        },
        size_bytes: match entry.metadata {
            Some(m) => if m.is_file {
                m.len
            } else {
                0
            },
            None => 0,
        },
        is_dir: entry.is_dir,
        source: entry.source,
    }
}

/// How many children an entry has in the table. Only directories have any.
pub open spec fn child_count(entry: ScannedEntry) -> nat {
    if entry.is_dir {
        entry.children@.len()
    } else {
        0
    }
}

/// The nodes of an entry and everything below it, for a table that already
/// holds `id` nodes: the entry first, then its children in order, each
/// followed by everything below it.
pub open spec fn subtree_nodes(entry: ScannedEntry, parent: Option<usize>, id: int) -> Seq<NodeView>
    decreases entry, 1nat, 0nat,
{
    seq![entry_node(entry, parent, id, child_ids(entry, id, child_count(entry)))]
        + nodes_below(entry, id, child_count(entry))
}

/// The nodes of the first `k` children of the entry with an id, in order, and
/// of everything below them.
pub open spec fn nodes_below(entry: ScannedEntry, id: int, k: nat) -> Seq<NodeView>
    decreases entry, 0nat, k,
{
    if k == 0 {
        Seq::empty()
    } else {
        let done = nodes_below(entry, id, (k - 1) as nat);
        let at = order_of(child_keys(entry))[k - 1] as int;
        if at < entry.children@.len() {
            done + subtree_nodes(entry.children@[at], Some(id as usize), id + 1 + done.len())
        } else {
            done
        }
    }
}

/// The ids of the first `k` children of the entry with an id.
pub open spec fn child_ids(entry: ScannedEntry, id: int, k: nat) -> Seq<usize>
    decreases entry, 0nat, k,
{
    if k == 0 {
        Seq::empty()
    } else {
        child_ids(entry, id, (k - 1) as nat).push(
            (id + 1 + nodes_below(entry, id, (k - 1) as nat).len()) as usize,
        )
    }
}

/// Bytes as a sort key.
fn key_of(bytes: &Vec<u8>) -> (key: Vec<u32>)
    ensures
        key@ == byte_key(bytes@),
{
    let mut key: Vec<u32> = Vec::new();
    let mut i: usize = 0;
    while i < bytes.len()
        invariant
            i <= bytes.len(),
            key@ == byte_key(bytes@).take(i as int),
        decreases bytes.len() - i,
    {
        key.push(bytes[i] as u32);
        i = i + 1;
        assert(byte_key(bytes@).take(i as int) =~= byte_key(bytes@).take(i - 1).push(
            byte_key(bytes@)[i - 1],
        ));
    }
    assert(byte_key(bytes@).take(i as int) =~= byte_key(bytes@));
    key
}

/// The positions of a directory's entries in the order of their sort keys.
fn child_order(entry: &ScannedEntry) -> (order: Vec<usize>)
    ensures
        order@ == order_of(child_keys(*entry)),
        is_order(child_keys(*entry), order@),
{
    let mut keys: Vec<Vec<u32>> = Vec::new();
    let mut i: usize = 0;
    while i < entry.children.len()
        invariant
            i <= entry.children.len(),
            key_views(keys@) == child_keys(*entry).take(i as int),
        decreases entry.children.len() - i,
    {
        let ghost before_push = keys@;
        let key = key_of(&entry.children[i].sort_key);
        keys.push(key);
        i = i + 1;
        assert(key_views(keys@) =~= key_views(before_push).push(key@));
        assert(child_keys(*entry).take(i as int) =~= child_keys(*entry).take(i - 1).push(
            child_keys(*entry)[i - 1],
        ));
    }
    assert(child_keys(*entry).take(i as int) =~= child_keys(*entry));
    sorted_order(&keys)
}

/// The node of an entry, before its children are known.
fn node_for(entry: &ScannedEntry, parent: Option<usize>, id: usize) -> (node: Node)
    ensures
        node@ == entry_node(*entry, parent, id as int, Seq::empty()),
{
    let name = match file_name(entry.path.as_str()) {
        Some(name) => name,
        None => String::new(),
    };
    let mut modified_timestamp: u64 = 0;
    let mut size_bytes: u64 = 0;
    if let Some(metadata) = &entry.metadata {
        if let Some(seconds) = metadata.modified {
            modified_timestamp = seconds;
        }
        if metadata.is_file {
            size_bytes = metadata.len;
        }
    }
    let children: Vec<usize> = Vec::new();
    Node {
        id,
        name,
        path: entry.path.clone(),
        hash_hex: String::new(),
        children,
        parent,
        modified_timestamp,
        size_bytes,
        is_dir: entry.is_dir,
        source: entry.source,
    }
}

/// Appends the nodes of an entry and everything below it to a table.
fn build_node_recursive(
    entry: &ScannedEntry,
    parent: Option<usize>,
    nodes: &mut Vec<Node>,
) -> (id: usize)
    ensures
        id == old(nodes).len(),
        table(final(nodes)@) == table(old(nodes)@) + subtree_nodes(
            *entry,
            parent,
            old(nodes).len() as int,
        ),
    decreases *entry,
{
    let ghost start = table(nodes@);
    let id: usize = nodes.len();
    let node = node_for(entry, parent, id);
    let ghost first = entry_node(*entry, parent, id as int, Seq::empty());
    nodes.push(node);
    let mut ids: Vec<usize> = Vec::new();
    assert(table(nodes@) =~= start.push(first) + nodes_below(*entry, id as int, 0));
    if entry.is_dir {
        let order = child_order(entry);
        let mut k: usize = 0;
        while k < order.len()
            invariant
                k <= order.len(),
                order@ == order_of(child_keys(*entry)),
                is_order(child_keys(*entry), order@),
                id == start.len(),
                ids@ == child_ids(*entry, id as int, k as nat),
                table(nodes@) == start.push(first) + nodes_below(*entry, id as int, k as nat),
            decreases order.len() - k,
        {
            assert(0 <= order@[k as int] < child_keys(*entry).len());
            let ghost below = nodes_below(*entry, id as int, k as nat);
            let child = &entry.children[order[k]];
            let child_id = build_node_recursive(child, Some(id), nodes);
            assert(child_id == id + 1 + below.len());
            ids.push(child_id);
            k = k + 1;
            assert(table(nodes@) =~= start.push(first) + nodes_below(*entry, id as int, k as nat));
        }
    }
    let ghost count = child_count(*entry);
    assert(ids@ == child_ids(*entry, id as int, count));
    let ghost whole = table(nodes@);
    let ghost listed = ids@;
    nodes[id].children = ids;
    proof {
        let root = entry_node(*entry, parent, id as int, listed);
        assert(whole[id as int] == first);
        assert(nodes@[id as int]@ == root);
        assert(table(nodes@) =~= whole.update(id as int, root));
        assert(subtree_nodes(*entry, parent, id as int) == seq![root] + nodes_below(
            *entry,
            id as int,
            count,
        ));
        assert(table(nodes@) =~= start + subtree_nodes(*entry, parent, id as int));
    }
    id
}

/// The node table of a scanned tree: the root first, every directory before
/// what it holds, and the entries of a directory in the order of their sort keys.
pub fn build_tree_structure(root: &ScannedEntry, nodes: &mut Vec<Node>) -> (root_id: usize)
    ensures
        root_id == old(nodes).len(),
        table(final(nodes)@) == table(old(nodes)@) + subtree_nodes(
            *root,
            None,
            old(nodes).len() as int,
        ),
        old(nodes).len() == 0 ==> tree_wf(table(final(nodes)@)),
{
    let root_id = build_node_recursive(root, None, nodes);
    let length = nodes.len();
    proof {
        if old(nodes).len() == 0 {
            assert(table(old(nodes)@) + subtree_nodes(*root, None, 0) =~= subtree_nodes(
                *root,
                None,
                0,
            ));
            law_scanned_tree_is_wf(*root);
        }
    }
    root_id
}

/// What holds of a node of a tree with regard to its children.
spec fn node_ok(t: Seq<NodeView>, i: int) -> bool {
    &&& t[i].id == i
    &&& !t[i].is_dir ==> t[i].children.len() == 0
    &&& forall|k: int|
        0 <= k < t[i].children.len() ==> {
            let c = #[trigger] t[i].children[k];
            &&& i < c < t.len()
            &&& t[c as int].parent == Some(i as usize)
            &&& c == (if k == 0 {
                i + 1
            } else {
                span_end(t, t[i].children[k - 1] as int)
            })
        }
}

/// What holds of a node of a tree with regard to its parent.
spec fn parent_ok(t: Seq<NodeView>, i: int) -> bool {
    match t[i].parent {
        Some(p) => p < i && t[p as int].children.contains(i as usize),
        None => false,
    }
}

/// The nodes from `from` up to `to` are those of the subtree of the first of them.
spec fn block_ok(t: Seq<NodeView>, from: int, to: int) -> bool {
    &&& forall|i: int| from <= i < to ==> #[trigger] node_ok(t, i)
    &&& forall|i: int| from < i < to ==> #[trigger] parent_ok(t, i)
    &&& span_end(t, from) == to
}

proof fn lemma_child_ids(entry: ScannedEntry, id: int, k: nat, j: int)
    requires
        0 <= j < k,
    ensures
        child_ids(entry, id, k).len() == k,
        child_ids(entry, id, k)[j] == (id + 1 + nodes_below(entry, id, j as nat).len()) as usize,
    decreases k,
{
    reveal_with_fuel(child_ids, 2);
    if j < k - 1 {
        lemma_child_ids(entry, id, (k - 1) as nat, j);
    } else if k > 1 {
        lemma_child_ids(entry, id, (k - 1) as nat, 0);
    }
}

proof fn lemma_nodes_below_prefix(entry: ScannedEntry, id: int, j: nat, k: nat)
    requires
        j <= k,
    ensures
        nodes_below(entry, id, j).len() <= nodes_below(entry, id, k).len(),
        nodes_below(entry, id, k).take(nodes_below(entry, id, j).len() as int) == nodes_below(
            entry,
            id,
            j,
        ),
    decreases k,
{
    if j < k {
        lemma_nodes_below_prefix(entry, id, j, (k - 1) as nat);
        let done = nodes_below(entry, id, (k - 1) as nat);
        let n = nodes_below(entry, id, j).len() as int;
        assert(nodes_below(entry, id, k).take(n) =~= done.take(n));
    } else {
        assert(nodes_below(entry, id, k).take(nodes_below(entry, id, j).len() as int)
            =~= nodes_below(entry, id, j));
    }
}

/// The nodes of an entry's child make up a subtree.
proof fn lemma_child_block(
    t: Seq<NodeView>,
    entry: ScannedEntry,
    parent: Option<usize>,
    id: int,
    k: int,
)
    requires
        0 <= id,
        t.len() <= usize::MAX,
        id + subtree_nodes(entry, parent, id).len() <= t.len(),
        t.subrange(id, id + subtree_nodes(entry, parent, id).len()) == subtree_nodes(
            entry,
            parent,
            id,
        ),
        0 <= k < child_count(entry),
    ensures
        child_block_ok(t, entry, parent, id, k),
    decreases entry, 0nat,
{
    let all = subtree_nodes(entry, parent, id);
    let count = child_count(entry);
    let keys = child_keys(entry);
    let below = nodes_below(entry, id, count);
    assert(entry.children.len() == entry.children@.len());
    lemma_order_exists(keys);
    let order = order_of(keys);
    let done = nodes_below(entry, id, k as nat);
    let from = id + 1 + done.len();
    let at = order[k] as int;
    assert(0 <= order[k] < keys.len());
    let child = entry.children@[at];
    let part = subtree_nodes(child, Some(id as usize), from);
    let next = nodes_below(entry, id, (k + 1) as nat);
    assert(next == done + part);
    lemma_nodes_below_prefix(entry, id, (k + 1) as nat, count);
    let to = from + part.len();
    assert(next.len() <= below.len());
    assert(t.subrange(from, to) =~= part) by {
        assert forall|x: int| 0 <= x < part.len() implies t.subrange(from, to)[x] == part[x] by {
            assert(next[done.len() + x] == part[x]);
            assert(below.take(next.len() as int)[done.len() + x] == part[x]);
            assert(all[1 + done.len() + x] == part[x]);
            assert(t.subrange(id, id + all.len())[1 + done.len() + x] == part[x]);
        }
    }
    lemma_subtree_block(t, child, Some(id as usize), from);
    lemma_child_ids(entry, id, count, k);
}

/// The nodes of the child `k` of an entry make up a subtree.
spec fn child_block_ok(
    t: Seq<NodeView>,
    entry: ScannedEntry,
    parent: Option<usize>,
    id: int,
    k: int,
) -> bool {
    let from = id + 1 + nodes_below(entry, id, k as nat).len();
    let to = id + 1 + nodes_below(entry, id, (k + 1) as nat).len();
    &&& id < from < to <= id + subtree_nodes(entry, parent, id).len()
    &&& child_ids(entry, id, child_count(entry))[k] == from
    &&& block_ok(t, from, to)
    &&& t[from].parent == Some(id as usize)
}

/// The nodes of an entry make up a subtree wherever they stand in a table.
proof fn lemma_subtree_block(t: Seq<NodeView>, entry: ScannedEntry, parent: Option<usize>, id: int)
    requires
        0 <= id,
        t.len() <= usize::MAX,
        id + subtree_nodes(entry, parent, id).len() <= t.len(),
        t.subrange(id, id + subtree_nodes(entry, parent, id).len()) == subtree_nodes(
            entry,
            parent,
            id,
        ),
    ensures
        block_ok(t, id, id + subtree_nodes(entry, parent, id).len()),
        t[id].parent == parent,
        subtree_nodes(entry, parent, id).len() > 0,
    decreases entry, 1nat,
{
    let all = subtree_nodes(entry, parent, id);
    let count = child_count(entry);
    let ids = child_ids(entry, id, count);
    assert(t[id] == t.subrange(id, id + all.len())[0]);
    assert(t[id] == entry_node(entry, parent, id, ids));
    assert forall|k: int| 0 <= k < count implies #[trigger] child_block_ok(
        t,
        entry,
        parent,
        id,
        k,
    ) by {
        lemma_child_block(t, entry, parent, id, k);
    }
    assert(ids.len() == count) by {
        if count > 0 {
            lemma_child_ids(entry, id, count, 0);
        }
    }
    assert(node_ok(t, id)) by {
        assert forall|k: int| 0 <= k < t[id].children.len() implies {
            let c = #[trigger] t[id].children[k];
            &&& id < c < t.len()
            &&& t[c as int].parent == Some(id as usize)
            &&& c == (if k == 0 {
                id + 1
            } else {
                span_end(t, t[id].children[k - 1] as int)
            })
        } by {
            assert(child_block_ok(t, entry, parent, id, k));
            if k > 0 {
                assert(child_block_ok(t, entry, parent, id, k - 1));
            }
        }
    }
    assert(span_end(t, id) == id + all.len()) by {
        if count > 0 {
            assert(child_block_ok(t, entry, parent, id, count - 1));
            assert(t[id].children.last() == ids[count - 1]);
        }
    }
    assert forall|i: int| id < i < id + all.len() implies #[trigger] node_ok(t, i) && parent_ok(
        t,
        i,
    ) by {
        let k = lemma_child_of_position(entry, id, count, i - id - 1);
        let from = id + 1 + nodes_below(entry, id, k as nat).len();
        assert(child_block_ok(t, entry, parent, id, k));
        if i == from {
            assert(t[id].children[k] == i);
        }
        assert(parent_ok(t, i));
    }
    assert forall|i: int| id < i < id + all.len() implies #[trigger] parent_ok(t, i) by {
        assert(node_ok(t, i));
    }
}

/// The child whose nodes hold a position below an entry.
proof fn lemma_child_of_position(entry: ScannedEntry, id: int, count: nat, x: int) -> (k: int)
    requires
        0 <= x < nodes_below(entry, id, count).len(),
    ensures
        0 <= k < count,
        nodes_below(entry, id, k as nat).len() <= x < nodes_below(entry, id, (k + 1) as nat).len(),
    decreases count,
{
    if x >= nodes_below(entry, id, (count - 1) as nat).len() {
        count - 1
    } else {
        lemma_child_of_position(entry, id, (count - 1) as nat, x)
    }
}

/// The nodes of a scanned tree form one tree, with the root first.
pub proof fn law_scanned_tree_is_wf(root: ScannedEntry)
    requires
        subtree_nodes(root, None, 0).len() <= usize::MAX,
    ensures
        tree_wf(subtree_nodes(root, None, 0)),
{
    let t = subtree_nodes(root, None, 0);
    assert(t.subrange(0, t.len() as int) =~= t);
    lemma_subtree_block(t, root, None, 0);
    assert forall|i: int| 0 <= i < t.len() implies node_ok(t, i) by {}
    assert forall|i: int| 0 < i < t.len() implies parent_ok(t, i) by {}
    assert forall|i: int| 0 <= i < t.len() implies match (#[trigger] t[i]).parent {
        Some(p) => p < i && t[p as int].children.contains(i as usize),
        None => true,
    } by {
        if i > 0 {
            assert(parent_ok(t, i));
        }
    }
    assert forall|i: int, k: int| 0 <= i < t.len() && 0 <= k < t[i].children.len() implies {
        let c = #[trigger] t[i].children[k];
        &&& c < t.len() && t[c as int].parent == Some(i as usize)
        &&& c == (if k == 0 {
            i + 1
        } else {
            span_end(t, t[i].children[k - 1] as int)
        })
    } by {
        assert(node_ok(t, i));
    }
    assert forall|i: int| 0 <= i < t.len() implies (#[trigger] t[i]).id == i && (!t[i].is_dir
        ==> t[i].children.len() == 0) by {
        assert(node_ok(t, i));
    }
    assert(consistent(t));
    assert(preorder(t));
    lemma_preorder_once(t);
    assert forall|i: int| 0 < i < t.len() implies (#[trigger] t[i]).parent is Some by {
        assert(parent_ok(t, i));
    }
}

/// The block of nodes of the child at place `k` of the ordered children.
proof fn lemma_ordered_block(entry: ScannedEntry, id: int, k: nat, count: nat)
    requires
        k < count <= entry.children@.len(),
        0 <= id,
        id + 1 + nodes_below(entry, id, count).len() <= usize::MAX,
    ensures
        ({
            let at = order_of(child_keys(entry))[k as int] as int;
            let first = nodes_below(entry, id, k).len() as int;
            let block = subtree_nodes(
                entry.children@[at],
                Some(id as usize),
                id + 1 + first,
            );
            &&& child_ids(entry, id, count).len() == count
            &&& child_ids(entry, id, count)[k as int] == id + 1 + first
            &&& first + block.len() <= nodes_below(entry, id, count).len()
            &&& nodes_below(entry, id, count).subrange(first, first + block.len()) == block
        }),
    decreases count,
{
    let keys = child_keys(entry);
    assert(entry.children.len() == entry.children@.len());
    lemma_order_exists(keys);
    let less = (count - 1) as nat;
    let at = order_of(keys)[count - 1] as int;
    assert(0 <= order_of(keys)[count - 1] < keys.len());
    let done = nodes_below(entry, id, less);
    let last = subtree_nodes(entry.children@[at], Some(id as usize), id + 1 + done.len());
    assert(nodes_below(entry, id, count) == done + last);
    lemma_child_ids_len(entry, id, less);
    if k == less {
        let first = done.len() as int;
        assert((done + last).subrange(first, first + last.len()) =~= last);
    } else {
        lemma_ordered_block(entry, id, k, less);
        let first = nodes_below(entry, id, k).len() as int;
        let place = order_of(keys)[k as int] as int;
        let block = subtree_nodes(entry.children@[place], Some(id as usize), id + 1 + first);
        assert((done + last).subrange(first, first + block.len()) =~= done.subrange(
            first,
            first + block.len(),
        ));
    }
}

proof fn lemma_child_ids_len(entry: ScannedEntry, id: int, count: nat)
    ensures
        child_ids(entry, id, count).len() == count,
    decreases count,
{
    if count > 0 {
        lemma_child_ids_len(entry, id, (count - 1) as nat);
    }
}

/// The node of an entry holds what the scan found: its path, the last part of
/// the path as its name, its kind, the size of a file, the time of its last
/// change, and nothing where the scan found nothing.
pub proof fn law_node_of_entry(entry: ScannedEntry, parent: Option<usize>, id: int)
    requires
        0 <= id <= usize::MAX,
    ensures
        subtree_nodes(entry, parent, id).len() > 0,
        ({
            let node = subtree_nodes(entry, parent, id)[0];
            &&& node.id == id
            &&& node.parent == parent
            &&& node.path == entry.path@
            &&& path_file_name(entry.path@) matches Some(name) ==> node.name == name
            &&& path_file_name(entry.path@) is None ==> node.name.len() == 0
            &&& node.is_dir == entry.is_dir
            &&& node.source == entry.source
            &&& node.hash_hex.len() == 0
            &&& entry.metadata is None ==> node.size_bytes == 0 && node.modified_timestamp == 0
            &&& entry.metadata matches Some(m) ==> m.is_file ==> node.size_bytes == m.len
            &&& entry.metadata matches Some(m) ==> !m.is_file ==> node.size_bytes == 0
            &&& entry.metadata matches Some(m) ==> m.modified matches Some(seconds)
                ==> node.modified_timestamp == seconds
            &&& entry.metadata matches Some(m) ==> m.modified is None ==> node.modified_timestamp
                == 0
            &&& !entry.is_dir ==> node.children.len() == 0 && subtree_nodes(
                entry,
                parent,
                id,
            ).len() == 1
            &&& entry.is_dir ==> node.children.len() == entry.children@.len()
        }),
{
    lemma_child_ids_len(entry, id, child_count(entry));
}

/// The children of a directory in the built table are its entries, each once,
/// in the lexicographic order of all the bytes of their sort keys: of any two
/// children, the key of the first is a prefix of the key of the second or has
/// the smaller byte where they first differ. Each child's number is the
/// position in the table where the child's own nodes begin.
pub proof fn law_children_in_key_order(entry: ScannedEntry, parent: Option<usize>, id: int)
    requires
        entry.is_dir,
        0 <= id,
        id + subtree_nodes(entry, parent, id).len() <= usize::MAX,
    ensures
        ({
            let t = subtree_nodes(entry, parent, id);
            let listed = t[0].children;
            let order = order_of(child_keys(entry));
            &&& listed.len() == entry.children@.len()
            &&& order.len() == entry.children@.len()
            &&& order.no_duplicates()
            &&& forall|k: int|
                0 <= k < order.len() ==> {
                    let child = entry.children@[#[trigger] order[k] as int];
                    let start = listed[k] - id;
                    let block = subtree_nodes(child, Some(id as usize), listed[k] as int);
                    &&& 0 <= order[k] < entry.children@.len()
                    &&& 0 < start
                    &&& start + block.len() <= t.len()
                    &&& t.subrange(start, start + block.len()) == block
                }
            &&& forall|k: int, m: int|
                #![trigger order[k], order[m]]
                0 <= k < m < order.len() ==> exists|d: int|
                    #![trigger entry.children@[order[k] as int].sort_key@.take(d)]
                    0 <= d <= entry.children@[order[k] as int].sort_key@.len() && d
                        <= entry.children@[order[m] as int].sort_key@.len()
                        && entry.children@[order[k] as int].sort_key@.take(d)
                        == entry.children@[order[m] as int].sort_key@.take(d) && (d
                        == entry.children@[order[k] as int].sort_key@.len() || (d
                        < entry.children@[order[m] as int].sort_key@.len()
                        && entry.children@[order[k] as int].sort_key@[d]
                        < entry.children@[order[m] as int].sort_key@[d]))
        }),
{
    let t = subtree_nodes(entry, parent, id);
    let count = child_count(entry);
    let below = nodes_below(entry, id, count);
    let listed = t[0].children;
    let keys = child_keys(entry);
    let order = order_of(keys);
    assert(entry.children.len() == entry.children@.len());
    lemma_order_exists(keys);
    lemma_child_ids_len(entry, id, count);
    assert forall|k: int, m: int| 0 <= k < m < order.len() implies order[k] != order[m] by {
        lemma_lex_irreflexive(keys[order[k] as int]);
        assert(before(keys, order[k], order[m]));
    }
    assert forall|k: int| 0 <= k < order.len() implies {
        let child = entry.children@[#[trigger] order[k] as int];
        let start = listed[k] - id;
        let block = subtree_nodes(child, Some(id as usize), listed[k] as int);
        &&& 0 <= order[k] < entry.children@.len()
        &&& 0 < start
        &&& start + block.len() <= t.len()
        &&& t.subrange(start, start + block.len()) == block
    } by {
        lemma_ordered_block(entry, id, k as nat, count);
        let first = nodes_below(entry, id, k as nat).len() as int;
        let block = subtree_nodes(
            entry.children@[order[k] as int],
            Some(id as usize),
            id + 1 + first,
        );
        assert(t.subrange(1 + first, 1 + first + block.len()) =~= below.subrange(
            first,
            first + block.len(),
        ));
    }
    assert forall|k: int, m: int|
        #![trigger order[k], order[m]]
        0 <= k < m < order.len() implies exists|d: int|
        #![trigger entry.children@[order[k] as int].sort_key@.take(d)]
        0 <= d <= entry.children@[order[k] as int].sort_key@.len() && d
            <= entry.children@[order[m] as int].sort_key@.len()
            && entry.children@[order[k] as int].sort_key@.take(d)
            == entry.children@[order[m] as int].sort_key@.take(d) && (d
            == entry.children@[order[k] as int].sort_key@.len() || (d
            < entry.children@[order[m] as int].sort_key@.len()
            && entry.children@[order[k] as int].sort_key@[d]
            < entry.children@[order[m] as int].sort_key@[d])) by {
        assert(before(keys, order[k], order[m]));
        let a = entry.children@[order[k] as int].sort_key@;
        let b = entry.children@[order[m] as int].sort_key@;
        assert(keys[order[k] as int] == byte_key(a));
        assert(keys[order[m] as int] == byte_key(b));
        if lex_less(byte_key(a), byte_key(b)) {
            lemma_byte_order(a, b);
        } else {
            lemma_byte_key_injective(a, b);
            assert(a.take(a.len() as int) == b.take(a.len() as int));
        }
    }
}

proof fn lemma_byte_key_injective(a: Seq<u8>, b: Seq<u8>)
    requires
        byte_key(a) == byte_key(b),
    ensures
        a == b,
{
    assert(a.len() == byte_key(a).len());
    assert(b.len() == byte_key(b).len());
    assert forall|i: int| 0 <= i < a.len() implies a[i] == b[i] by {
        assert(byte_key(a)[i] == a[i] as u32);
        assert(byte_key(b)[i] == b[i] as u32);
    }
    assert(a =~= b);
}

/// The order of keys is that of their bytes at the first difference.
proof fn lemma_byte_order(a: Seq<u8>, b: Seq<u8>)
    requires
        lex_less(byte_key(a), byte_key(b)),
    ensures
        exists|d: int|
            0 <= d <= a.len() && d < b.len() && #[trigger] a.take(d) == b.take(d) && (d == a.len()
                || a[d] < b[d]),
{
    let x = byte_key(a);
    let y = byte_key(b);
    law_lex_first_difference(x, y);
    let d = choose|d: int|
        0 <= d <= x.len() && d < y.len() && #[trigger] x.take(d) == y.take(d) && (d == x.len()
            || x[d] < y[d]);
    assert(x.take(d) =~= byte_key(a.take(d)));
    assert(y.take(d) =~= byte_key(b.take(d)));
    lemma_byte_key_injective(a.take(d), b.take(d));
    assert(d < a.len() ==> x[d] == a[d] as u32 && y[d] == b[d] as u32);
}

/// Two scans of the same tree that may list the entries of each directory in
/// different orders, and number them differently. No directory lists two
/// entries with the same sort key.
#[verifier::opaque]
pub open spec fn same_scan(a: ScannedEntry, b: ScannedEntry) -> bool
    decreases a,
{
    &&& a.path@ == b.path@
    &&& a.sort_key@ == b.sort_key@
    &&& a.is_dir == b.is_dir
    &&& a.metadata == b.metadata
    &&& a.children@.len() == b.children@.len()
    &&& forall|i: int, j: int|
        0 <= i < j < a.children@.len() ==> (#[trigger] a.children@[i]).sort_key@ != (
        #[trigger] a.children@[j]).sort_key@
    &&& forall|i: int, j: int|
        0 <= i < j < b.children@.len() ==> (#[trigger] b.children@[i]).sort_key@ != (
        #[trigger] b.children@[j]).sort_key@
    &&& forall|i: int|
        0 <= i < a.children@.len() ==> exists|j: int|
            0 <= j < b.children@.len() && same_scan(
                #[trigger] a.children@[i],
                #[trigger] b.children@[j],
            )
    &&& forall|j: int|
        0 <= j < b.children@.len() ==> exists|i: int|
            0 <= i < a.children@.len() && same_scan(
                #[trigger] a.children@[i],
                #[trigger] b.children@[j],
            )
}

/// Two tables that differ in the numbers of the scanned entries at most.
pub open spec fn same_but_sources(a: Seq<NodeView>, b: Seq<NodeView>) -> bool {
    &&& a.len() == b.len()
    &&& forall|i: int|
        0 <= i < a.len() ==> {
            let x = #[trigger] a[i];
            let y = b[i];
            &&& x.id == y.id
            &&& x.name == y.name
            &&& x.path == y.path
            &&& x.hash_hex == y.hash_hex
            &&& x.children == y.children
            &&& x.parent == y.parent
            &&& x.modified_timestamp == y.modified_timestamp
            &&& x.size_bytes == y.size_bytes
            &&& x.is_dir == y.is_dir
        }
}

/// What two scans of the same tree agree on at their roots.
proof fn lemma_scan_root(a: ScannedEntry, b: ScannedEntry)
    requires
        same_scan(a, b),
    ensures
        a.path@ == b.path@,
        a.sort_key@ == b.sort_key@,
        a.is_dir == b.is_dir,
        a.metadata == b.metadata,
        a.children@.len() == b.children@.len(),
        forall|i: int, j: int|
            0 <= i < j < a.children@.len() ==> (#[trigger] a.children@[i]).sort_key@ != (
            #[trigger] a.children@[j]).sort_key@,
        forall|i: int, j: int|
            0 <= i < j < b.children@.len() ==> (#[trigger] b.children@[i]).sort_key@ != (
            #[trigger] b.children@[j]).sort_key@,
{
    reveal(same_scan);
}

/// The entry of the second scan that is the same as the first scan's at `i`.
proof fn lemma_found_in_second(a: ScannedEntry, b: ScannedEntry, i: int) -> (j: int)
    requires
        same_scan(a, b),
        0 <= i < a.children@.len(),
    ensures
        0 <= j < b.children@.len(),
        same_scan(a.children@[i], b.children@[j]),
{
    reveal(same_scan);
    choose|j: int|
        0 <= j < b.children@.len() && same_scan(a.children@[i], #[trigger] b.children@[j])
}

/// The entry of the first scan that is the same as the second scan's at `j`.
proof fn lemma_found_in_first(a: ScannedEntry, b: ScannedEntry, j: int) -> (i: int)
    requires
        same_scan(a, b),
        0 <= j < b.children@.len(),
    ensures
        0 <= i < a.children@.len(),
        same_scan(a.children@[i], b.children@[j]),
{
    reveal(same_scan);
    choose|i: int|
        0 <= i < a.children@.len() && same_scan(#[trigger] a.children@[i], b.children@[j])
}

/// In two scans of the same tree, the entries at the same place of the order
/// of a directory are the same entry.
proof fn lemma_same_order(a: ScannedEntry, b: ScannedEntry)
    requires
        same_scan(a, b),
    ensures
        order_of(child_keys(a)).len() == a.children@.len(),
        order_of(child_keys(b)).len() == b.children@.len(),
        forall|k: int|
            0 <= k < a.children@.len() ==> {
                let i = #[trigger] order_of(child_keys(a))[k] as int;
                let j = order_of(child_keys(b))[k] as int;
                0 <= i < a.children@.len() && 0 <= j < b.children@.len() && same_scan(
                    a.children@[i],
                    b.children@[j],
                )
            },
{
    let x = child_keys(a);
    let y = child_keys(b);
    let count = a.children@.len();
    lemma_scan_root(a, b);
    assert(a.children.len() == a.children@.len());
    assert(b.children.len() == b.children@.len());
    lemma_order_exists(x);
    lemma_order_exists(y);
    let other = order_of(y);
    let twins = Seq::new(count, |k: int| twin_of(a, b.children@[other[k] as int]) as usize);
    assert forall|k: int| 0 <= k < count implies {
        let j = other[k] as int;
        &&& 0 <= j < count
        &&& 0 <= #[trigger] twins[k] < count
        &&& same_scan(a.children@[twins[k] as int], b.children@[j])
    } by {
        let j = other[k] as int;
        assert(0 <= other[k] < count);
        let i = lemma_found_in_first(a, b, j);
        assert(is_twin(a, b.children@[j], i));
        let t = twin_of(a, b.children@[j]);
        assert(is_twin(a, b.children@[j], t));
    }
    assert forall|v: usize| 0 <= v < count implies twins.contains(v) by {
        let j = lemma_found_in_second(a, b, v as int);
        assert(other.contains(j as usize));
        let k = other.index_of(j as usize);
        assert(0 <= twins[k] < count);
        lemma_scan_root(a.children@[twins[k] as int], b.children@[j]);
        lemma_scan_root(a.children@[v as int], b.children@[j]);
        assert(a.children@[twins[k] as int].sort_key@ == b.children@[j].sort_key@);
        assert(a.children@[v as int].sort_key@ == b.children@[j].sort_key@);
        assert(twins[k] == v);
    }
    assert forall|k: int, m: int| 0 <= k < m < twins.len() implies before(
        x,
        #[trigger] twins[k],
        #[trigger] twins[m],
    ) by {
        assert(before(y, other[k], other[m]));
        assert(0 <= twins[k] < count && 0 <= twins[m] < count);
        lemma_scan_root(a.children@[twins[k] as int], b.children@[other[k] as int]);
        lemma_scan_root(a.children@[twins[m] as int], b.children@[other[m] as int]);
        assert(x[twins[k] as int] == y[other[k] as int]);
        assert(x[twins[m] as int] == y[other[m] as int]);
        if !lex_less(y[other[k] as int], y[other[m] as int]) {
            lemma_byte_key_injective(
                b.children@[other[k] as int].sort_key@,
                b.children@[other[m] as int].sort_key@,
            );
            assert(other[k] < other[m]);
        }
    }
    assert(is_order(x, twins));
    lemma_order_unique(x, twins);
    assert forall|k: int| 0 <= k < count implies {
        let i = #[trigger] order_of(x)[k] as int;
        let j = order_of(y)[k] as int;
        0 <= i < count && 0 <= j < count && same_scan(a.children@[i], b.children@[j])
    } by {
        assert(order_of(x)[k] == twins[k]);
    }
}

/// The entry at `i` of a directory is the same as another scan's entry.
spec fn is_twin(a: ScannedEntry, entry: ScannedEntry, i: int) -> bool {
    0 <= i < a.children@.len() && same_scan(a.children@[i], entry)
}

/// The place in a directory of the entry that is the same as another scan's.
spec fn twin_of(a: ScannedEntry, entry: ScannedEntry) -> int {
    choose|i: int| is_twin(a, entry, i)
}

/// The order in which a scan lists the entries of directories does not matter:
/// two scans of the same tree give tables that agree in everything but the
/// numbers of the scanned entries.
pub proof fn law_listing_order_does_not_matter(
    a: ScannedEntry,
    b: ScannedEntry,
    parent: Option<usize>,
    id: int,
)
    requires
        same_scan(a, b),
    ensures
        same_but_sources(subtree_nodes(a, parent, id), subtree_nodes(b, parent, id)),
    decreases a, 1nat, 0nat,
{
    let count = child_count(a);
    lemma_scan_root(a, b);
    lemma_same_below(a, b, id, count);
    let x = subtree_nodes(a, parent, id);
    let y = subtree_nodes(b, parent, id);
    assert(x =~= seq![x[0]] + nodes_below(a, id, count));
    assert(y =~= seq![y[0]] + nodes_below(b, id, count));
    assert forall|i: int| 1 <= i < x.len() implies #[trigger] x[i] == nodes_below(a, id, count)[i
        - 1] && y[i] == nodes_below(b, id, count)[i - 1] by {}
}

proof fn lemma_same_below(a: ScannedEntry, b: ScannedEntry, id: int, k: nat)
    requires
        same_scan(a, b),
        k <= child_count(a),
    ensures
        child_ids(a, id, k) == child_ids(b, id, k),
        same_but_sources(nodes_below(a, id, k), nodes_below(b, id, k)),
    decreases a, 0nat, k,
{
    if k > 0 {
        let less = (k - 1) as nat;
        lemma_same_below(a, b, id, less);
        lemma_scan_root(a, b);
        lemma_same_order(a, b);
        let i = order_of(child_keys(a))[k - 1] as int;
        let j = order_of(child_keys(b))[k - 1] as int;
        let x = nodes_below(a, id, less);
        let y = nodes_below(b, id, less);
        assert(same_scan(a.children@[i], b.children@[j]));
        law_listing_order_does_not_matter(
            a.children@[i],
            b.children@[j],
            Some(id as usize),
            id + 1 + x.len(),
        );
        let u = subtree_nodes(a.children@[i], Some(id as usize), id + 1 + x.len());
        let v = subtree_nodes(b.children@[j], Some(id as usize), id + 1 + x.len());
        assert(nodes_below(a, id, k) == x + u);
        assert(nodes_below(b, id, k) == y + v);
        assert forall|n: int| 0 <= n < (x + u).len() implies #[trigger] (x + u)[n] == (if n
            < x.len() {
            x[n]
        } else {
            u[n - x.len()]
        }) && (y + v)[n] == (if n < x.len() {
            y[n]
        } else {
            v[n - x.len()]
        }) by {}
    }
}

/// Every hash of an audit, the root hash too, is the same whatever order a scan
/// lists the entries of directories in, as long as the files have the same
/// hashes.
pub proof fn law_hashes_ignore_listing_order(
    a: ScannedEntry,
    b: ScannedEntry,
    x: Seq<NodeView>,
    y: Seq<NodeView>,
    algorithm: HashAlgorithm,
    j: int,
)
    requires
        same_scan(a, b),
        subtree_nodes(a, None, 0).len() <= usize::MAX,
        same_but_hashes(subtree_nodes(a, None, 0), x),
        same_but_hashes(subtree_nodes(b, None, 0), y),
        merkle_hashed(x, algorithm),
        merkle_hashed(y, algorithm),
        forall|i: int|
            0 <= i < x.len() && !(#[trigger] x[i]).is_dir ==> x[i].hash_hex == y[i].hash_hex,
        0 <= j < x.len(),
    ensures
        x.len() == y.len(),
        x[j].hash_hex == y[j].hash_hex,
{
    let s = subtree_nodes(a, None, 0);
    let t = subtree_nodes(b, None, 0);
    law_listing_order_does_not_matter(a, b, None, 0);
    law_scanned_tree_is_wf(a);
    law_scanned_tree_is_wf(b);
    lemma_consistent_same(s, x);
    lemma_consistent_same(t, y);
    assert(same_shape(x, y)) by {
        assert forall|i: int| 0 <= i < x.len() implies (#[trigger] x[i]).is_dir == y[i].is_dir
            && x[i].children == y[i].children by {
            assert(x[i] == s[i].with_hash(x[i].hash_hex));
            assert(y[i] == t[i].with_hash(y[i].hash_hex));
            assert(s[i].is_dir == t[i].is_dir);
        }
    }
    law_hashes_follow_from_files(x, y, algorithm, j);
}

} // verus!
