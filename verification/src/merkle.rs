//! The Merkle hashes of a node table.

use vstd::prelude::*;
use vstd::string::*;
use vstd::utf8::*;
use crate::hashing::{
    blake3_hex, hash_string_bytes, is_digest_text, is_hash_text, is_hex_digit,
    law_text_digest_is_of_utf8, sha256_hex, text_digest, unreadable_mark, HashAlgorithm,
};
use crate::node::{
    in_subtree, lemma_all_in_tree, lemma_consistent_same, lemma_tree_wf_same, consistent, same_but_hashes,
    table, tree_wf, Node, NodeView,
};

verus! {

/// The texts of a list, one after the other.
pub open spec fn joined(list: Seq<Seq<char>>) -> Seq<char>
    decreases list.len(),
{
    if list.len() == 0 {
        Seq::empty()
    } else {
        joined(list.drop_last()) + list.last()
    }
}

/// The hashes of the children of the node at `i`, in the order of the children.
pub open spec fn child_hashes(t: Seq<NodeView>, i: int) -> Seq<Seq<char>> {
    t[i].children.map_values(|c: usize| t[c as int].hash_hex)
}

/// The hash of the directory at `i` is the digest of its children's hashes.
pub open spec fn hashed_at(t: Seq<NodeView>, algorithm: HashAlgorithm, i: int) -> bool {
    t[i].hash_hex == text_digest(algorithm, joined(child_hashes(t, i)))
}

/// Every directory's hash is the digest of its children's hashes.
pub open spec fn merkle_hashed(t: Seq<NodeView>, algorithm: HashAlgorithm) -> bool {
    forall|i: int| 0 <= i < t.len() && (#[trigger] t[i]).is_dir ==> hashed_at(t, algorithm, i)
}

/// Two tables that differ in the hashes of directories at most.
pub open spec fn same_but_directory_hashes(a: Seq<NodeView>, b: Seq<NodeView>) -> bool {
    &&& a.len() == b.len()
    &&& forall|i: int|
        0 <= i < a.len() ==> (#[trigger] b[i]) == a[i].with_hash(b[i].hash_hex) && (!a[i].is_dir
            ==> b[i].hash_hex == a[i].hash_hex)
}

/// How many ancestors the node at `i` has.
pub open spec fn depth(t: Seq<NodeView>, i: int) -> nat
    decreases i,
{
    if 0 <= i < t.len() {
        match t[i].parent {
            Some(p) => if p < i {
                1 + depth(t, p as int)
            } else {
                0
            },
            None => 0,
        }
    } else {
        0
    }
}

proof fn lemma_depth_bound(t: Seq<NodeView>, i: int)
    requires
        0 <= i,
    ensures
        depth(t, i) <= i,
    decreases i,
{
    if i < t.len() {
        if let Some(p) = t[i].parent {
            if p < i {
                lemma_depth_bound(t, p as int);
            }
        }
    }
}

proof fn lemma_depth_same(a: Seq<NodeView>, b: Seq<NodeView>, i: int)
    requires
        same_but_directory_hashes(a, b),
    ensures
        depth(a, i) == depth(b, i),
    decreases i,
{
    if 0 <= i < a.len() {
        assert(b[i] == a[i].with_hash(b[i].hash_hex));
        if let Some(p) = a[i].parent {
            if p < i {
                lemma_depth_same(a, b, p as int);
            }
        }
    }
}

/// How many ancestors a node has.
fn depth_of(nodes: &Vec<Node>, i: usize) -> (d: usize)
    requires
        consistent(table(nodes@)),
        i < nodes.len(),
    ensures
        d == depth(table(nodes@), i as int),
{
    let ghost t = table(nodes@);
    let mut d: usize = 0;
    let mut at: usize = i;
    proof {
        lemma_depth_bound(t, i as int);
    }
    loop
        invariant
            t == table(nodes@),
            consistent(t),
            at < nodes.len(),
            d + at <= i < nodes.len(),
            d + depth(t, at as int) == depth(t, i as int),
        ensures
            d == depth(t, i as int),
        decreases at,
    {
        assert(t[at as int].parent == nodes[at as int].parent);
        match nodes[at].parent {
            Some(p) => {
                d = d + 1;
                at = p;
            },
            None => {
                break;
            },
        }
    }
    d
}

/// The hashes of a directory's children, one after the other.
fn join_child_hashes(nodes: &Vec<Node>, i: usize) -> (text: String)
    requires
        consistent(table(nodes@)),
        i < nodes.len(),
    ensures
        text@ == joined(child_hashes(table(nodes@), i as int)),
{
    let ghost t = table(nodes@);
    let ghost hashes = child_hashes(t, i as int);
    let mut text = String::new();
    let mut k: usize = 0;
    assert(hashes.take(0) =~= Seq::empty());
    while k < nodes[i].children.len()
        invariant
            t == table(nodes@),
            consistent(t),
            i < nodes.len(),
            t[i as int].children == nodes[i as int].children@,
            hashes == child_hashes(t, i as int),
            k <= nodes[i as int].children.len(),
            text@ == joined(hashes.take(k as int)),
        decreases nodes[i as int].children.len() - k,
    {
        let child = nodes[i].children[k];
        assert(t[i as int].children[k as int] == child);
        assert(t[child as int].hash_hex == nodes[child as int].hash_hex@);
        text.append(nodes[child].hash_hex.as_str());
        k = k + 1;
        assert(hashes.take(k as int).drop_last() =~= hashes.take(k - 1));
        assert(hashes.take(k as int).last() == hashes[k - 1]);
    }
    assert(hashes.take(k as int) =~= hashes);
    text
}

/// The ids of the files of a table, in order.
pub open spec fn file_ids(t: Seq<NodeView>) -> Seq<usize>
    decreases t.len(),
{
    if t.len() == 0 {
        Seq::empty()
    } else if t.last().is_dir {
        file_ids(t.drop_last())
    } else {
        file_ids(t.drop_last()).push(t.last().id)
    }
}

/// The ids of the files of a table, in order: the nodes whose contents are hashed.
pub fn file_indices(nodes: &Vec<Node>) -> (ids: Vec<usize>)
    ensures
        ids@ == file_ids(table(nodes@)),
{
    let ghost t = table(nodes@);
    let mut ids: Vec<usize> = Vec::new();
    let mut i: usize = 0;
    while i < nodes.len()
        invariant
            t == table(nodes@),
            i <= nodes.len(),
            ids@ == file_ids(t.take(i as int)),
        decreases nodes.len() - i,
    {
        assert(t.take(i + 1).drop_last() =~= t.take(i as int));
        if !nodes[i].is_dir {
            ids.push(nodes[i].id);
        }
        i = i + 1;
    }
    assert(t.take(i as int) =~= t);
    ids
}

proof fn lemma_file_ids(t: Seq<NodeView>)
    requires
        forall|i: int| 0 <= i < t.len() ==> (#[trigger] t[i]).id == i,
    ensures
        forall|a: int, b: int|
            0 <= a < b < file_ids(t).len() ==> #[trigger] file_ids(t)[a]
                < #[trigger] file_ids(t)[b],
        forall|a: int| 0 <= a < file_ids(t).len() ==> #[trigger] file_ids(t)[a] < t.len(),
        forall|i: int|
            0 <= i < t.len() ==> (file_ids(t).contains(i as usize) <==> !(#[trigger] t[i]).is_dir),
    decreases t.len(),
{
    if t.len() > 0 {
        let rest = t.drop_last();
        let ids = file_ids(t);
        let before = file_ids(rest);
        let last = t.len() - 1;
        assert forall|i: int| 0 <= i < rest.len() implies (#[trigger] rest[i]).id == i by {
            assert(t[i].id == i);
        }
        lemma_file_ids(rest);
        assert(t[last].id == last);
        assert forall|i: int| 0 <= i < t.len() implies (ids.contains(i as usize) <==> !(
        #[trigger] t[i]).is_dir) by {
            assert(t[i].id == i);
            if i < last {
                assert(rest[i] == t[i]);
                if before.contains(i as usize) {
                    let a = before.index_of(i as usize);
                    assert(ids[a] == i);
                }
            }
            if !t[last].is_dir {
                assert(ids[before.len() as int] == last);
            }
            if ids.contains(i as usize) {
                let a = ids.index_of(i as usize);
                if a < before.len() {
                    assert(before[a] == i);
                }
            }
        }
    }
}

/// Every file of a table is hashed, once and in order: the ids of the files
/// ascend, are those of nodes of the table, and name exactly the nodes that
/// are no directories.
pub proof fn law_every_file_is_hashed(t: Seq<NodeView>)
    requires
        consistent(t),
    ensures
        forall|a: int, b: int|
            0 <= a < b < file_ids(t).len() ==> #[trigger] file_ids(t)[a]
                < #[trigger] file_ids(t)[b],
        forall|a: int| 0 <= a < file_ids(t).len() ==> #[trigger] file_ids(t)[a] < t.len(),
        forall|i: int|
            0 <= i < t.len() ==> (file_ids(t).contains(i as usize) <==> !(#[trigger] t[i]).is_dir),
{
    lemma_file_ids(t);
}

/// A hash for each of the ids of the files of a table, in order.
pub open spec fn hashes_of_files(t: Seq<NodeView>, hashes: Seq<(usize, Seq<char>)>) -> bool {
    &&& hashes.len() == file_ids(t).len()
    &&& forall|k: int| 0 <= k < hashes.len() ==> (#[trigger] hashes[k]).0 == file_ids(t)[k]
    &&& forall|k: int| 0 <= k < hashes.len() ==> is_hash_text((#[trigger] hashes[k]).1)
}

/// Hashes that are made over the ids of the files of a table are those of
/// nodes of the table, and leave no file out.
pub proof fn law_hashes_of_files_cover(t: Seq<NodeView>, hashes: Seq<(usize, Seq<char>)>)
    requires
        consistent(t),
        hashes_of_files(t, hashes),
    ensures
        forall|k: int| 0 <= k < hashes.len() ==> (#[trigger] hashes[k]).0 < t.len(),
        covers_files(t, hashes),
{
    lemma_file_ids(t);
    let ids = file_ids(t);
    assert forall|k: int| 0 <= k < hashes.len() implies (#[trigger] hashes[k]).0 < t.len() by {
        assert(ids[k] < t.len());
    }
    assert forall|i: int| 0 <= i < t.len() && !(#[trigger] t[i]).is_dir implies names_node(
        hashes,
        i,
    ) by {
        assert(t[i].id == i);
        assert(ids.contains(i as usize));
        let k = ids.index_of(i as usize);
        assert(hashes[k].0 == i);
    }
}

/// A table after the hashes of some nodes have been replaced, in order.
pub open spec fn with_hashes(t: Seq<NodeView>, hashes: Seq<(usize, Seq<char>)>) -> Seq<NodeView>
    decreases hashes.len(),
{
    if hashes.len() == 0 {
        t
    } else {
        let before = with_hashes(t, hashes.drop_last());
        let (i, hash) = hashes.last();
        before.update(i as int, before[i as int].with_hash(hash))
    }
}

/// The contents of a list of hashes.
pub open spec fn hash_pairs(hashes: Seq<(usize, String)>) -> Seq<(usize, Seq<char>)> {
    hashes.map_values(|pair: (usize, String)| (pair.0, pair.1@))
}

/// Stores a hash in a node.
fn set_hash(nodes: &mut Vec<Node>, i: usize, hash: String)
    requires
        i < old(nodes).len(),
    ensures
        table(final(nodes)@) == table(old(nodes)@).update(
            i as int,
            table(old(nodes)@)[i as int].with_hash(hash@),
        ),
{
    nodes[i].hash_hex = hash;
    assert(table(nodes@) =~= table(old(nodes)@).update(
        i as int,
        table(old(nodes)@)[i as int].with_hash(hash@),
    ));
}

/// Stores the hashes of files in their nodes.
fn store_hashes(nodes: &mut Vec<Node>, hashes: Vec<(usize, String)>)
    requires
        forall|k: int| 0 <= k < hashes.len() ==> (#[trigger] hashes@[k]).0 < old(nodes).len(),
    ensures
        table(final(nodes)@) == with_hashes(table(old(nodes)@), hash_pairs(hashes@)),
{
    let ghost pairs = hash_pairs(hashes@);
    let ghost start = table(nodes@);
    let mut k: usize = 0;
    assert(pairs.take(0) =~= Seq::empty());
    while k < hashes.len()
        invariant
            k <= hashes.len(),
            pairs == hash_pairs(hashes@),
            start.len() == nodes.len(),
            forall|j: int| 0 <= j < hashes.len() ==> (#[trigger] hashes@[j]).0 < start.len(),
            table(nodes@) == with_hashes(start, pairs.take(k as int)),
        decreases hashes.len() - k,
    {
        let ghost before = table(nodes@);
        assert(hashes@[k as int].0 < start.len());
        set_hash(nodes, hashes[k].0, hashes[k].1.clone());
        assert(table(nodes@).len() == before.len());
        k = k + 1;
        assert(pairs.take(k as int).drop_last() =~= pairs.take(k - 1));
        assert(pairs.take(k as int).last() == pairs[k - 1]);
    }
    assert(pairs.take(k as int) =~= pairs);
}

/// The directories of at least a given depth are hashed.
spec fn hashed_from(t: Seq<NodeView>, algorithm: HashAlgorithm, d: int) -> bool {
    forall|i: int|
        0 <= i < t.len() && (#[trigger] t[i]).is_dir && depth(t, i) >= d ==> hashed_at(
            t,
            algorithm,
            i,
        )
}

/// Hashing a directory leaves the directories hashed that do not list it.
proof fn lemma_rehash_keeps(
    t: Seq<NodeView>,
    u: Seq<NodeView>,
    algorithm: HashAlgorithm,
    i: int,
    j: int,
)
    requires
        consistent(t),
        0 <= i < t.len(),
        0 <= j < t.len(),
        i != j,
        u == t.update(i, t[i].with_hash(u[i].hash_hex)),
        t[i].parent != Some(j as usize),
        hashed_at(t, algorithm, j),
    ensures
        hashed_at(u, algorithm, j),
{
    assert(child_hashes(u, j) =~= child_hashes(t, j)) by {
        assert forall|k: int| 0 <= k < t[j].children.len() implies child_hashes(u, j)[k]
            == child_hashes(t, j)[k] by {
            let c = t[j].children[k];
            assert(t[c as int].parent == Some(j as usize));
        }
    }
}

/// Hashes every directory from the deepest upwards, so that each one's
/// children are hashed before it.
#[verifier::rlimit(60)]
fn hash_directories(nodes: &mut Vec<Node>, algorithm: HashAlgorithm)
    requires
        consistent(table(old(nodes)@)),
    ensures
        same_but_directory_hashes(table(old(nodes)@), table(final(nodes)@)),
        merkle_hashed(table(final(nodes)@), algorithm),
        forall|i: int|
            0 <= i < final(nodes).len() && (#[trigger] table(final(nodes)@)[i]).is_dir
                ==> is_digest_text(table(final(nodes)@)[i].hash_hex),
{
    let ghost start = table(nodes@);
    let mut depths: Vec<usize> = Vec::new();
    let mut max_depth: usize = 0;
    let mut i: usize = 0;
    while i < nodes.len()
        invariant
            start == table(nodes@),
            consistent(start),
            i <= nodes.len(),
            depths.len() == i,
            forall|j: int| 0 <= j < i ==> #[trigger] depths@[j] == depth(start, j),
            forall|j: int| 0 <= j < i ==> #[trigger] depths@[j] <= max_depth,
            max_depth <= i,
        decreases nodes.len() - i,
    {
        let d = depth_of(nodes, i);
        proof {
            lemma_depth_bound(start, i as int);
        }
        depths.push(d);
        if d > max_depth {
            max_depth = d;
        }
        i = i + 1;
    }
    assert forall|j: int| 0 <= j < start.len() implies #[trigger] depth(start, j) <= max_depth by {
        assert(depths@[j] <= max_depth);
    }
    let mut level: usize = max_depth;
    loop
        invariant
            start.len() == nodes.len(),
            depths.len() == nodes.len(),
            consistent(start),
            same_but_directory_hashes(start, table(nodes@)),
            level <= max_depth,
            forall|j: int| 0 <= j < start.len() ==> #[trigger] depths@[j] == depth(start, j),
            forall|j: int| 0 <= j < start.len() ==> #[trigger] depths@[j] <= max_depth,
            hashed_from(table(nodes@), algorithm, level + 1),
            forall|j: int|
                0 <= j < start.len() && depth(start, j) > level && (#[trigger] table(
                    nodes@,
                )[j]).is_dir ==> is_digest_text(table(nodes@)[j].hash_hex),
        ensures
            start.len() == nodes.len(),
            same_but_directory_hashes(start, table(nodes@)),
            hashed_from(table(nodes@), algorithm, 0),
            forall|j: int|
                0 <= j < start.len() && (#[trigger] table(nodes@)[j]).is_dir ==> is_digest_text(
                    table(nodes@)[j].hash_hex,
                ),
        decreases level,
    {
        let mut i: usize = 0;
        while i < nodes.len()
            invariant
                i <= nodes.len(),
                start.len() == nodes.len(),
                depths.len() == nodes.len(),
                consistent(start),
                same_but_directory_hashes(start, table(nodes@)),
                forall|j: int| 0 <= j < start.len() ==> #[trigger] depths@[j] == depth(start, j),
                hashed_from(table(nodes@), algorithm, level + 1),
                forall|j: int|
                    0 <= j < i && (#[trigger] table(nodes@)[j]).is_dir && depth(start, j) == level
                        ==> hashed_at(table(nodes@), algorithm, j),
                forall|j: int|
                    0 <= j < start.len() && (depth(start, j) > level || (depth(start, j) == level
                        && j < i)) && (#[trigger] table(nodes@)[j]).is_dir ==> is_digest_text(
                        table(nodes@)[j].hash_hex,
                    ),
            decreases nodes.len() - i,
        {
            let ghost t = table(nodes@);
            proof {
                lemma_consistent_same(start, t);
                assert(t[i as int].is_dir == nodes[i as int].is_dir);
            }
            if depths[i] == level && nodes[i].is_dir {
                let text = join_child_hashes(nodes, i);
                let hash = hash_string_bytes(text.as_str().as_bytes(), algorithm);
                set_hash(nodes, i, hash);
                let ghost u = table(nodes@);
                proof {
                    assert(u == t.update(i as int, t[i as int].with_hash(u[i as int].hash_hex)));
                    assert(same_but_directory_hashes(start, u)) by {
                        assert forall|j: int| 0 <= j < start.len() implies (#[trigger] u[j])
                            == start[j].with_hash(u[j].hash_hex) && (!start[j].is_dir
                            ==> u[j].hash_hex == start[j].hash_hex) by {
                            assert(t[j] == start[j].with_hash(t[j].hash_hex));
                        }
                    }
                    assert(child_hashes(u, i as int) =~= child_hashes(t, i as int)) by {
                        assert forall|k: int| 0 <= k < t[i as int].children.len() implies (
                        #[trigger] child_hashes(u, i as int)[k]) == child_hashes(t, i as int)[k] by {
                            let c = t[i as int].children[k];
                            assert(t[c as int].parent == Some(i));
                            assert(c > i);
                        }
                    }
                    assert(hashed_at(u, algorithm, i as int));
                    assert forall|j: int|
                        0 <= j < u.len() && j != i && u[j].is_dir && depth(start, j) >= level
                            && hashed_at(t, algorithm, j) implies hashed_at(u, algorithm, j) by {
                        assert(t[i as int].parent != Some(j as usize)) by {
                            assert(start[i as int].parent == t[i as int].parent);
                        }
                        lemma_rehash_keeps(t, u, algorithm, i as int, j);
                    }
                    assert forall|j: int|
                        0 <= j < u.len() && (#[trigger] u[j]).is_dir && depth(u, j) >= level
                            + 1 implies hashed_at(u, algorithm, j) by {
                        lemma_depth_same(start, u, j);
                        lemma_depth_same(start, t, j);
                        assert(t[j].is_dir);
                        assert(hashed_at(t, algorithm, j));
                    }
                    assert forall|j: int|
                        0 <= j < i + 1 && (#[trigger] u[j]).is_dir && depth(start, j)
                            == level implies hashed_at(u, algorithm, j) by {
                        if j != i {
                            assert(t[j].is_dir);
                        }
                    }
                    assert forall|j: int|
                        0 <= j < start.len() && (depth(start, j) > level || (depth(start, j)
                            == level && j < i + 1)) && (
                        #[trigger] u[j]).is_dir implies is_digest_text(u[j].hash_hex) by {
                        if j != i {
                            assert(t[j].is_dir);
                        }
                    }
                }
            }
            i = i + 1;
        }
        proof {
            let t = table(nodes@);
            assert forall|j: int|
                0 <= j < t.len() && (#[trigger] t[j]).is_dir && depth(t, j) >= level implies hashed_at(
                t,
                algorithm,
                j,
            ) by {
                lemma_depth_same(start, t, j);
            }
        }
        if level == 0 {
            break;
        }
        level = level - 1;
    }
}

/// Stores the hashes of the files in a table, then hashes every directory
/// over the hashes of its children.
pub fn compute_hashes(
    nodes: &mut Vec<Node>,
    algorithm: HashAlgorithm,
    file_hashes: Vec<(usize, String)>,
)
    requires
        consistent(table(old(nodes)@)),
        forall|k: int|
            0 <= k < file_hashes.len() ==> (#[trigger] file_hashes@[k]).0 < old(nodes).len(),
    ensures
        same_but_directory_hashes(
            with_hashes(table(old(nodes)@), hash_pairs(file_hashes@)),
            table(final(nodes)@),
        ),
        merkle_hashed(table(final(nodes)@), algorithm),
        forall|i: int|
            0 <= i < final(nodes).len() && (#[trigger] table(final(nodes)@)[i]).is_dir
                ==> is_digest_text(table(final(nodes)@)[i].hash_hex),
        same_but_hashes(table(old(nodes)@), table(final(nodes)@)),
        tree_wf(table(old(nodes)@)) ==> tree_wf(table(final(nodes)@)),
        covers_files(table(old(nodes)@), hash_pairs(file_hashes@)) ==> hash_texts(
            table(final(nodes)@),
        ),
        final(nodes).len() == old(nodes).len(),
        forall|i: int|
            0 <= i < old(nodes).len() ==> {
                let before = #[trigger] old(nodes)@[i];
                let after = final(nodes)@[i];
                &&& after.id == before.id
                &&& after.name@ == before.name@
                &&& after.path@ == before.path@
                &&& after.children@ == before.children@
                &&& after.parent == before.parent
                &&& after.modified_timestamp == before.modified_timestamp
                &&& after.size_bytes == before.size_bytes
                &&& after.is_dir == before.is_dir
                &&& after.source == before.source
            },
        algorithm == HashAlgorithm::Sha256 ==> forall|i: int|
            0 <= i < final(nodes).len() && (#[trigger] final(nodes)@[i]).is_dir
                ==> final(nodes)@[i].hash_hex@ == sha256_hex(
                encode_utf8(
                    Seq::new(
                        final(nodes)@[i].children@.len(),
                        |k: int| final(nodes)@[final(nodes)@[i].children@[k] as int].hash_hex@,
                    ).flatten(),
                ),
            ),
        algorithm == HashAlgorithm::Blake3 ==> forall|i: int|
            0 <= i < final(nodes).len() && (#[trigger] final(nodes)@[i]).is_dir
                ==> final(nodes)@[i].hash_hex@ == blake3_hex(
                encode_utf8(
                    Seq::new(
                        final(nodes)@[i].children@.len(),
                        |k: int| final(nodes)@[final(nodes)@[i].children@[k] as int].hash_hex@,
                    ).flatten(),
                ),
            ),
        forall|i: int, k: int|
            0 <= i < old(nodes).len() && !old(nodes)@[i].is_dir && 0 <= k < file_hashes.len()
                && file_hashes@[k].0 == i && (forall|m: int|
                k < m < file_hashes.len() ==> (#[trigger] file_hashes@[m]).0 != i)
                ==> #[trigger] final(nodes)@[i].hash_hex@ == (#[trigger] file_hashes@[k]).1@,
        forall|i: int|
            0 <= i < old(nodes).len() && !old(nodes)@[i].is_dir && (forall|m: int|
                0 <= m < file_hashes.len() ==> (#[trigger] file_hashes@[m]).0 != i)
                ==> #[trigger] final(nodes)@[i].hash_hex@ == old(nodes)@[i].hash_hex@,
{
    let ghost start = table(nodes@);
    proof {
        let t = table(nodes@);
        let pairs = hash_pairs(file_hashes@);
        assert forall|k: int| 0 <= k < pairs.len() implies (#[trigger] pairs[k]).0 < t.len() by {
            assert(file_hashes@[k].0 < nodes.len());
        }
        lemma_with_hashes(t, pairs);
        lemma_consistent_same(t, with_hashes(t, pairs));
    }
    let ghost pairs = hash_pairs(file_hashes@);
    let ghost given = file_hashes@;
    let ghost first = nodes@;
    store_hashes(nodes, file_hashes);
    hash_directories(nodes, algorithm);
    proof {
        let middle = with_hashes(start, pairs);
        let end = table(nodes@);
        assert forall|i: int| 0 <= i < start.len() implies (#[trigger] end[i])
            == start[i].with_hash(end[i].hash_hex) by {
            assert(middle[i] == start[i].with_hash(middle[i].hash_hex));
            assert(end[i] == middle[i].with_hash(end[i].hash_hex));
        }
        if tree_wf(start) {
            lemma_tree_wf_same(start, end);
        }
        if covers_files(start, pairs) {
            assert forall|i: int| 0 <= i < end.len() implies is_hash_text(
                (#[trigger] end[i]).hash_hex,
            ) by {
                assert(end[i] == middle[i].with_hash(end[i].hash_hex));
                assert(middle[i] == start[i].with_hash(middle[i].hash_hex));
                if !end[i].is_dir {
                    assert(names_node(pairs, i));
                    lemma_stored_hash(start, pairs, i);
                }
            }
        }
        assert forall|i: int| 0 <= i < first.len() implies {
            let before = #[trigger] first[i];
            let after = nodes@[i];
            &&& after.id == before.id
            &&& after.name@ == before.name@
            &&& after.path@ == before.path@
            &&& after.children@ == before.children@
            &&& after.parent == before.parent
            &&& after.modified_timestamp == before.modified_timestamp
            &&& after.size_bytes == before.size_bytes
            &&& after.is_dir == before.is_dir
            &&& after.source == before.source
        } by {
            assert(start[i] == first[i]@);
            assert(end[i] == nodes@[i]@);
            assert(end[i] == start[i].with_hash(end[i].hash_hex));
        }
        lemma_consistent_same(start, end);
        assert forall|i: int| 0 <= i < nodes.len() && (#[trigger] nodes@[i]).is_dir implies {
            let text = encode_utf8(
                Seq::new(
                    nodes@[i].children@.len(),
                    |k: int| nodes@[nodes@[i].children@[k] as int].hash_hex@,
                ).flatten(),
            );
            &&& algorithm == HashAlgorithm::Sha256 ==> nodes@[i].hash_hex@ == sha256_hex(text)
            &&& algorithm == HashAlgorithm::Blake3 ==> nodes@[i].hash_hex@ == blake3_hex(text)
        } by {
            assert(end[i] == nodes@[i]@);
            law_directory_hash(end, algorithm, i);
            let listed = Seq::new(
                nodes@[i].children@.len(),
                |k: int| nodes@[nodes@[i].children@[k] as int].hash_hex@,
            );
            let seen = Seq::new(
                end[i].children.len(),
                |k: int| end[end[i].children[k] as int].hash_hex,
            );
            assert forall|k: int| 0 <= k < listed.len() implies #[trigger] listed[k] == seen[k] by {
                let c = end[i].children[k];
                assert(c < end.len());
                assert(end[c as int] == nodes@[c as int]@);
            }
            assert(listed =~= seen);
        }
        assert forall|i: int, k: int|
            0 <= i < first.len() && !first[i].is_dir && 0 <= k < given.len() && given[k].0 == i && (
            forall|m: int|
                k < m < given.len() ==> (#[trigger] given[m]).0
                    != i) implies #[trigger] nodes@[i].hash_hex@ == (#[trigger] given[k]).1@ by {
            assert(start[i] == first[i]@);
            assert(end[i] == nodes@[i]@);
            assert(pairs[k] == (given[k].0, given[k].1@));
            assert forall|m: int| k < m < pairs.len() implies (#[trigger] pairs[m]).0 != i by {
                assert(given[m].0 != i);
            }
            law_last_hash_is_stored(start, pairs, i, k);
            assert(middle[i] == start[i].with_hash(middle[i].hash_hex));
            assert(end[i] == middle[i].with_hash(end[i].hash_hex));
        }
        assert forall|i: int|
            0 <= i < first.len() && !first[i].is_dir && (forall|m: int|
                0 <= m < given.len() ==> (#[trigger] given[m]).0
                    != i) implies #[trigger] nodes@[i].hash_hex@ == first[i].hash_hex@ by {
            assert(start[i] == first[i]@);
            assert(end[i] == nodes@[i]@);
            assert forall|m: int| 0 <= m < pairs.len() implies (#[trigger] pairs[m]).0 != i by {
                assert(given[m].0 != i);
            }
            law_other_hashes_are_kept(start, pairs, i);
            assert(middle[i] == start[i].with_hash(middle[i].hash_hex));
            assert(end[i] == middle[i].with_hash(end[i].hash_hex));
        }
    }
}

/// Texts one after the other, from the first.
proof fn lemma_joined_flat(list: Seq<Seq<char>>)
    ensures
        joined(list) == list.flatten(),
    decreases list.len(),
{
    if list.len() > 0 {
        lemma_joined_flat(list.drop_last());
        list.drop_last().lemma_flatten_push(list.last());
        assert(list =~= list.drop_last().push(list.last()));
    }
}

/// In a hashed table the hash of a directory is the digest of the UTF-8 bytes
/// of the hashes of its children, joined in the order of the children and with
/// nothing between them, under the algorithm of the audit.
pub proof fn law_directory_hash(t: Seq<NodeView>, algorithm: HashAlgorithm, i: int)
    requires
        merkle_hashed(t, algorithm),
        0 <= i < t.len(),
        t[i].is_dir,
    ensures
        algorithm == HashAlgorithm::Sha256 ==> t[i].hash_hex == sha256_hex(
            encode_utf8(
                Seq::new(
                    t[i].children.len(),
                    |k: int| t[t[i].children[k] as int].hash_hex,
                ).flatten(),
            ),
        ),
        algorithm == HashAlgorithm::Blake3 ==> t[i].hash_hex == blake3_hex(
            encode_utf8(
                Seq::new(
                    t[i].children.len(),
                    |k: int| t[t[i].children[k] as int].hash_hex,
                ).flatten(),
            ),
        ),
{
    let listed = Seq::new(t[i].children.len(), |k: int| t[t[i].children[k] as int].hash_hex);
    assert(hashed_at(t, algorithm, i));
    assert(child_hashes(t, i) =~= listed);
    lemma_joined_flat(listed);
    law_text_digest_is_of_utf8(algorithm, joined(listed));
}

/// A node that hashes are given for gets the last of them.
pub proof fn law_last_hash_is_stored(
    t: Seq<NodeView>,
    hashes: Seq<(usize, Seq<char>)>,
    i: int,
    k: int,
)
    requires
        forall|m: int| 0 <= m < hashes.len() ==> (#[trigger] hashes[m]).0 < t.len(),
        0 <= i < t.len(),
        0 <= k < hashes.len(),
        hashes[k].0 == i,
        forall|m: int| k < m < hashes.len() ==> (#[trigger] hashes[m]).0 != i,
    ensures
        with_hashes(t, hashes).len() == t.len(),
        with_hashes(t, hashes)[i].hash_hex == hashes[k].1,
    decreases hashes.len(),
{
    let rest = hashes.drop_last();
    assert forall|m: int| 0 <= m < rest.len() implies (#[trigger] rest[m]).0 < t.len() by {
        assert(hashes[m].0 < t.len());
    }
    lemma_with_hashes(t, rest);
    assert(hashes[hashes.len() - 1].0 < t.len());
    if k < hashes.len() - 1 {
        assert forall|m: int| k < m < rest.len() implies (#[trigger] rest[m]).0 != i by {
            assert(hashes[m].0 != i);
        }
        law_last_hash_is_stored(t, rest, i, k);
        assert(hashes[hashes.len() - 1].0 != i);
    }
}

/// A node that no hash is given for keeps its own.
pub proof fn law_other_hashes_are_kept(
    t: Seq<NodeView>,
    hashes: Seq<(usize, Seq<char>)>,
    i: int,
)
    requires
        forall|m: int| 0 <= m < hashes.len() ==> (#[trigger] hashes[m]).0 < t.len(),
        0 <= i < t.len(),
        forall|m: int| 0 <= m < hashes.len() ==> (#[trigger] hashes[m]).0 != i,
    ensures
        with_hashes(t, hashes)[i] == t[i],
    decreases hashes.len(),
{
    if hashes.len() > 0 {
        let rest = hashes.drop_last();
        assert forall|m: int| 0 <= m < rest.len() implies (#[trigger] rest[m]).0 < t.len()
            && rest[m].0 != i by {
            assert(hashes[m].0 < t.len() && hashes[m].0 != i);
        }
        lemma_with_hashes(t, rest);
        assert(hashes[hashes.len() - 1].0 < t.len() && hashes[hashes.len() - 1].0 != i);
        law_other_hashes_are_kept(t, rest, i);
    }
}

/// One of the hashes is that of the node at `i`.
pub open spec fn names_node(hashes: Seq<(usize, Seq<char>)>, i: int) -> bool {
    exists|k: int| 0 <= k < hashes.len() && (#[trigger] hashes[k]).0 == i
}

/// The hashes are well formed, and there is one for every file of a table.
pub open spec fn covers_files(t: Seq<NodeView>, hashes: Seq<(usize, Seq<char>)>) -> bool {
    &&& forall|k: int| 0 <= k < hashes.len() ==> is_hash_text((#[trigger] hashes[k]).1)
    &&& forall|i: int| 0 <= i < t.len() && !(#[trigger] t[i]).is_dir ==> names_node(hashes, i)
}

/// A node that a hash is stored for has one of the stored hashes.
proof fn lemma_stored_hash(t: Seq<NodeView>, hashes: Seq<(usize, Seq<char>)>, i: int)
    requires
        0 <= i < t.len(),
        forall|k: int| 0 <= k < hashes.len() ==> (#[trigger] hashes[k]).0 < t.len(),
        forall|k: int| 0 <= k < hashes.len() ==> is_hash_text((#[trigger] hashes[k]).1),
        names_node(hashes, i),
    ensures
        is_hash_text(with_hashes(t, hashes)[i].hash_hex),
    decreases hashes.len(),
{
    let rest = hashes.drop_last();
    assert forall|k: int| 0 <= k < rest.len() implies (#[trigger] rest[k]).0 < t.len()
        && is_hash_text(rest[k].1) by {
        assert(hashes[k].0 < t.len());
        assert(is_hash_text(hashes[k].1));
    }
    lemma_with_hashes(t, rest);
    assert(hashes[hashes.len() - 1].0 < t.len());
    assert(is_hash_text(hashes[hashes.len() - 1].1));
    if hashes.last().0 != i {
        let k = choose|k: int| 0 <= k < hashes.len() && (#[trigger] hashes[k]).0 == i;
        assert(rest[k].0 == i);
        lemma_stored_hash(t, rest, i);
    }
}

/// Replacing hashes leaves everything else in a table as it is.
pub proof fn lemma_with_hashes(t: Seq<NodeView>, hashes: Seq<(usize, Seq<char>)>)
    requires
        forall|k: int| 0 <= k < hashes.len() ==> (#[trigger] hashes[k]).0 < t.len(),
    ensures
        same_but_hashes(t, with_hashes(t, hashes)),
    decreases hashes.len(),
{
    if hashes.len() > 0 {
        let before = with_hashes(t, hashes.drop_last());
        assert forall|k: int| 0 <= k < hashes.drop_last().len() implies (
        #[trigger] hashes.drop_last()[k]).0 < t.len() by {
            assert(hashes[k].0 < t.len());
        }
        lemma_with_hashes(t, hashes.drop_last());
        assert(hashes[hashes.len() - 1].0 < t.len());
        assert forall|i: int| 0 <= i < t.len() implies (#[trigger] with_hashes(t, hashes)[i])
            == t[i].with_hash(with_hashes(t, hashes)[i].hash_hex) by {
            assert(before[i] == t[i].with_hash(before[i].hash_hex));
        }
    } else {
        assert forall|i: int| 0 <= i < t.len() implies (#[trigger] with_hashes(t, hashes)[i])
            == t[i].with_hash(with_hashes(t, hashes)[i].hash_hex) by {}
    }
}

/// Two tables of the same shape: the same nodes are directories, with the
/// same children in the same order.
pub open spec fn same_shape(a: Seq<NodeView>, b: Seq<NodeView>) -> bool {
    &&& a.len() == b.len()
    &&& forall|i: int|
        0 <= i < a.len() ==> (#[trigger] a[i]).is_dir == b[i].is_dir && a[i].children
            == b[i].children
}

/// The children's hashes of a directory are different texts in two tables,
/// but have the same digest.
pub open spec fn collides_at(
    a: Seq<NodeView>,
    b: Seq<NodeView>,
    algorithm: HashAlgorithm,
    i: int,
) -> bool {
    let x = joined(child_hashes(a, i));
    let y = joined(child_hashes(b, i));
    a[i].is_dir && x != y && text_digest(algorithm, x) == text_digest(algorithm, y)
}

/// Two tables hold two different texts with the same digest.
pub open spec fn collision(a: Seq<NodeView>, b: Seq<NodeView>, algorithm: HashAlgorithm) -> bool {
    exists|i: int| 0 <= i < a.len() && #[trigger] collides_at(a, b, algorithm, i)
}

/// Every hash of a table is a digest or the mark of an unreadable file.
pub open spec fn hash_texts(t: Seq<NodeView>) -> bool {
    forall|i: int| 0 <= i < t.len() ==> is_hash_text((#[trigger] t[i]).hash_hex)
}

/// The hashes that a text joins can be told apart again.
proof fn lemma_joined_injective(a: Seq<Seq<char>>, b: Seq<Seq<char>>)
    requires
        a.len() == b.len(),
        forall|i: int| 0 <= i < a.len() ==> is_hash_text(#[trigger] a[i]),
        forall|i: int| 0 <= i < b.len() ==> is_hash_text(#[trigger] b[i]),
        joined(a) == joined(b),
    ensures
        a == b,
    decreases a.len(),
{
    if a.len() > 0 {
        reveal_strlit("EMPTY_OR_UNREADABLE");
        let x = a.last();
        let y = b.last();
        let p = joined(a.drop_last());
        let q = joined(b.drop_last());
        let all = p + x;
        assert(all == q + y);
        assert(is_hash_text(a[a.len() - 1]) && is_hash_text(b[b.len() - 1]));
        assert(x.len() > 0 && y.len() > 0);
        assert(all.last() == x.last() && all.last() == y.last());
        assert(is_digest_text(x) ==> is_hex_digit(x.last()));
        assert(is_digest_text(y) ==> is_hex_digit(y.last()));
        assert(unreadable_mark().last() == 'E');
        assert(x.len() == y.len());
        assert(p.len() == q.len());
        assert(x =~= all.skip(p.len() as int));
        assert(y =~= all.skip(q.len() as int));
        assert(p =~= all.take(p.len() as int));
        assert(q =~= all.take(q.len() as int));
        assert forall|i: int| 0 <= i < a.drop_last().len() implies is_hash_text(
            #[trigger] a.drop_last()[i],
        ) && is_hash_text(b.drop_last()[i]) by {
            assert(is_hash_text(a[i]) && is_hash_text(b[i]));
        }
        lemma_joined_injective(a.drop_last(), b.drop_last());
        assert(a =~= a.drop_last().push(x));
        assert(b =~= b.drop_last().push(y));
    } else {
        assert(a =~= b);
    }
}

/// Equal hashes at a node mean equal hashes in the whole subtree below it,
/// unless the two tables hold two different texts with the same digest.
pub proof fn law_equal_hash_equal_subtree(
    a: Seq<NodeView>,
    b: Seq<NodeView>,
    algorithm: HashAlgorithm,
    root: int,
    j: int,
)
    requires
        consistent(a),
        consistent(b),
        same_shape(a, b),
        merkle_hashed(a, algorithm),
        merkle_hashed(b, algorithm),
        hash_texts(a),
        hash_texts(b),
        0 <= root < a.len(),
        0 <= j < a.len(),
        a[root].hash_hex == b[root].hash_hex,
        in_subtree(a, root, j),
    ensures
        a[j].hash_hex == b[j].hash_hex || collision(a, b, algorithm),
    decreases j,
{
    if j != root {
        let p = a[j].parent->0 as int;
        law_equal_hash_equal_subtree(a, b, algorithm, root, p);
        if a[p].hash_hex == b[p].hash_hex && !collision(a, b, algorithm) {
            let x = child_hashes(a, p);
            let y = child_hashes(b, p);
            assert(a[j].parent == Some(p as usize));
            let k = a[p].children.index_of(j as usize);
            assert(a[p].children.contains(j as usize));
            assert(a[p].children[k] == j);
            assert(a[p].is_dir);
            assert(b[p].is_dir);
            assert(hashed_at(a, algorithm, p));
            assert(hashed_at(b, algorithm, p));
            assert(!collides_at(a, b, algorithm, p));
            assert(joined(x) == joined(y));
            assert forall|i: int| 0 <= i < x.len() implies is_hash_text(#[trigger] x[i])
                && is_hash_text(y[i]) by {
                let c = a[p].children[i];
                assert(c < a.len());
                assert(is_hash_text(a[c as int].hash_hex));
                assert(is_hash_text(b[c as int].hash_hex));
            }
            lemma_joined_injective(x, y);
            assert(x[k] == y[k]);
        }
    }
}

/// Two audits of trees of the same shape that end in the same root hash
/// agree on every hash, unless they hold two different texts with the same
/// digest: no change below the root goes unseen.
pub proof fn law_root_hash_detects_changes(
    a: Seq<NodeView>,
    b: Seq<NodeView>,
    algorithm: HashAlgorithm,
)
    requires
        tree_wf(a),
        tree_wf(b),
        a.len() > 0,
        same_shape(a, b),
        merkle_hashed(a, algorithm),
        merkle_hashed(b, algorithm),
        hash_texts(a),
        hash_texts(b),
        a[0].hash_hex == b[0].hash_hex,
    ensures
        collision(a, b, algorithm) || forall|j: int|
            0 <= j < a.len() ==> (#[trigger] a[j]).hash_hex == b[j].hash_hex,
{
    assert forall|j: int| 0 <= j < a.len() implies (#[trigger] a[j]).hash_hex == b[j].hash_hex
        || collision(a, b, algorithm) by {
        lemma_all_in_tree(a, j);
        law_equal_hash_equal_subtree(a, b, algorithm, 0, j);
    }
}

/// The hashes of a table follow from its shape and the hashes of its files:
/// names, paths, sizes and times play no part.
pub proof fn law_hashes_follow_from_files(
    a: Seq<NodeView>,
    b: Seq<NodeView>,
    algorithm: HashAlgorithm,
    j: int,
)
    requires
        consistent(a),
        consistent(b),
        same_shape(a, b),
        merkle_hashed(a, algorithm),
        merkle_hashed(b, algorithm),
        forall|i: int|
            0 <= i < a.len() && !(#[trigger] a[i]).is_dir ==> a[i].hash_hex == b[i].hash_hex,
        0 <= j < a.len(),
    ensures
        a[j].hash_hex == b[j].hash_hex,
    decreases a.len() - j,
{
    if a[j].is_dir {
        assert(b[j].is_dir);
        assert forall|k: int| 0 <= k < a[j].children.len() implies child_hashes(a, j)[k]
            == child_hashes(b, j)[k] by {
            let c = a[j].children[k];
            assert(a[c as int].parent == Some(j as usize));
            law_hashes_follow_from_files(a, b, algorithm, c as int);
        }
        assert(child_hashes(a, j) =~= child_hashes(b, j));
        assert(hashed_at(a, algorithm, j));
        assert(hashed_at(b, algorithm, j));
    }
}

} // verus!
