//! Which nodes of a tree are shown, and how they relate.

use std::collections::HashSet;
use vstd::prelude::*;
use vstd::std_specs::hash::*;
use crate::node::{
    consistent, in_subtree, lemma_subtree_after_root, lemma_subtree_of_child,
    lemma_subtrees_disjoint, linked, table, Node, NodeView,
};

verus! {

broadcast use vstd::std_specs::hash::group_hash_axioms;

/// The node reached from a node by going up `steps` times.
pub open spec fn nth_ancestor(t: Seq<NodeView>, id: usize, steps: nat) -> Option<usize>
    decreases steps,
{
    if steps == 0 {
        Some(id)
    } else {
        match nth_ancestor(t, id, (steps - 1) as nat) {
            Some(below) => if below < t.len() {
                t[below as int].parent
            } else {
                None
            },
            None => None,
        }
    }
}

/// Whether one node lies above another.
pub open spec fn is_above(t: Seq<NodeView>, candidate: usize, target: usize) -> bool {
    exists|steps: nat| steps > 0 && #[trigger] nth_ancestor(t, target, steps) == Some(candidate)
}

/// The way up from a node comes to an end, or meets another node.
pub open spec fn way_up_ends(t: Seq<NodeView>, candidate: usize, target: usize) -> bool {
    exists|steps: nat|
        steps > 0 && {
            let above = #[trigger] nth_ancestor(t, target, steps);
            above is None || above == Some(candidate)
        }
}

proof fn lemma_nth_ancestor_none(t: Seq<NodeView>, id: usize, a: nat, b: nat)
    requires
        nth_ancestor(t, id, a) is None,
        a <= b,
    ensures
        nth_ancestor(t, id, b) is None,
    decreases b,
{
    if a < b {
        lemma_nth_ancestor_none(t, id, a, (b - 1) as nat);
    }
}

/// The way up comes to an end in every consistent table.
pub proof fn lemma_way_up_ends(t: Seq<NodeView>, candidate: usize, target: usize)
    requires
        consistent(t),
    ensures
        way_up_ends(t, candidate, target),
{
    lemma_way_up_bound(t, target, target as nat + 1);
    let above = nth_ancestor(t, target, target as nat + 1);
    if above is Some {
        assert(above->0 + (target as nat + 1) <= target);
    }
}

proof fn lemma_way_up_bound(t: Seq<NodeView>, id: usize, steps: nat)
    requires
        consistent(t),
    ensures
        nth_ancestor(t, id, steps) matches Some(above) ==> above + steps <= id,
    decreases steps,
{
    if steps > 0 {
        lemma_way_up_bound(t, id, (steps - 1) as nat);
    }
}

/// Whether one node lies above another.
pub fn is_ancestor(nodes: &Vec<Node>, candidate: usize, target: usize) -> (above: bool)
    requires
        way_up_ends(table(nodes@), candidate, target),
    ensures
        above == is_above(table(nodes@), candidate, target),
{
    let ghost t = table(nodes@);
    let ghost last = choose|steps: nat|
        steps > 0 && {
            let above = #[trigger] nth_ancestor(t, target, steps);
            above is None || above == Some(candidate)
        };
    let mut at: usize = target;
    let ghost mut steps: nat = 0;
    loop
        invariant
            t == table(nodes@),
            last > 0,
            nth_ancestor(t, target, last) is None || nth_ancestor(t, target, last) == Some(
                candidate,
            ),
            steps < last,
            nth_ancestor(t, target, steps) == Some(at),
            forall|n: nat|
                0 < n <= steps ==> #[trigger] nth_ancestor(t, target, n) != Some(candidate),
        decreases last - steps,
    {
        let parent: Option<usize> = if at < nodes.len() {
            nodes[at].parent
        } else {
            None
        };
        assert(nth_ancestor(t, target, steps + 1) == parent);
        match parent {
            Some(above) => {
                if above == candidate {
                    return true;
                }
                proof {
                    steps = steps + 1;
                    if steps == last {
                        assert(false);
                    }
                }
                at = above;
            },
            None => {
                assert forall|n: nat| n > 0 implies #[trigger] nth_ancestor(t, target, n) != Some(
                    candidate,
                ) by {
                    if n > steps {
                        lemma_nth_ancestor_none(t, target, steps + 1, n);
                    }
                }
                return false;
            },
        }
    }
}

/// Whether a node is shown without its children: it has many, it is not the
/// root of what is shown, and the view is not zoomed in.
pub open spec fn collapsed(t: Seq<NodeView>, root: usize, zoomed_in: bool, id: usize) -> bool {
    id < t.len() && t[id as int].children.len() > 4 && id != root && !zoomed_in
}

/// What is shown of the subtree of a node: the node, then what is shown of
/// its children, the last child first.
pub open spec fn visible_from(
    t: Seq<NodeView>,
    root: usize,
    zoomed_in: bool,
    id: usize,
) -> Seq<usize>
    decreases t.len() - id, 1nat, 0nat,
{
    if id < t.len() && !collapsed(t, root, zoomed_in, id) {
        seq![id] + visible_below(t, root, zoomed_in, id, t[id as int].children.len())
    } else {
        seq![id]
    }
}

/// What is shown of the first `k` children of a node, the last one first.
pub open spec fn visible_below(
    t: Seq<NodeView>,
    root: usize,
    zoomed_in: bool,
    id: usize,
    k: nat,
) -> Seq<usize>
    decreases t.len() - id, 0nat, k,
{
    if k == 0 || id >= t.len() {
        Seq::empty()
    } else {
        let child = t[id as int].children[k - 1];
        let rest = visible_below(t, root, zoomed_in, id, (k - 1) as nat);
        if id < child < t.len() {
            visible_from(t, root, zoomed_in, child) + rest
        } else {
            rest
        }
    }
}

/// What is shown of a stack of nodes, the last one first.
spec fn visible_pending(
    t: Seq<NodeView>,
    root: usize,
    zoomed_in: bool,
    stack: Seq<usize>,
) -> Seq<usize>
    decreases stack.len(),
{
    if stack.len() == 0 {
        Seq::empty()
    } else {
        visible_from(t, root, zoomed_in, stack.last()) + visible_pending(
            t,
            root,
            zoomed_in,
            stack.drop_last(),
        )
    }
}

/// The nodes that are shown, from a root downwards: a folder with many
/// children is collapsed unless it is the root or the view is zoomed in.
pub fn visible_nodes(nodes: &Vec<Node>, root_id: usize, zoomed_in: bool) -> (ids: Vec<usize>)
    requires
        consistent(table(nodes@)),
    ensures
        ids@ == visible_from(table(nodes@), root_id, zoomed_in, root_id),
{
    let ghost t = table(nodes@);
    let ghost all = visible_from(t, root_id, zoomed_in, root_id);
    let mut ids: Vec<usize> = Vec::new();
    let mut stack: Vec<usize> = Vec::new();
    stack.push(root_id);
    proof {
        assert(stack@.drop_last() =~= Seq::empty());
        assert(visible_pending(t, root_id, zoomed_in, stack@.drop_last()) =~= Seq::empty());
        assert(ids@ + visible_pending(t, root_id, zoomed_in, stack@) =~= all);
    }
    loop
        invariant
            t == table(nodes@),
            consistent(t),
            ids@ + visible_pending(t, root_id, zoomed_in, stack@) == all,
        ensures
            ids@ == all,
        decreases visible_pending(t, root_id, zoomed_in, stack@).len(),
    {
        let ghost before = stack@;
        let ghost out = ids@;
        match stack.pop() {
            None => {
                assert(ids@ + visible_pending(t, root_id, zoomed_in, before) =~= ids@);
                break;
            },
            Some(id) => {
                let ghost rest = stack@;
                assert(rest =~= before.drop_last());
                ids.push(id);
                if id < nodes.len() {
                    assert(nodes@[id as int]@ == t[id as int]);
                    let children = &nodes[id].children;
                    if !(children.len() > 4 && id != root_id && !zoomed_in) {
                        let mut k: usize = 0;
                        assert(visible_below(t, root_id, zoomed_in, id, 0) + visible_pending(
                            t,
                            root_id,
                            zoomed_in,
                            rest,
                        ) =~= visible_pending(t, root_id, zoomed_in, rest));
                        while k < children.len()
                            invariant
                                t == table(nodes@),
                                consistent(t),
                                id < nodes.len(),
                                children@ == t[id as int].children,
                                k <= children.len(),
                                visible_pending(t, root_id, zoomed_in, stack@) == visible_below(
                                    t,
                                    root_id,
                                    zoomed_in,
                                    id,
                                    k as nat,
                                ) + visible_pending(t, root_id, zoomed_in, rest),
                            decreases children.len() - k,
                        {
                            let ghost stacked = stack@;
                            let child = children[k];
                            assert(t[id as int].children[k as int] == child);
                            assert(t[child as int].parent == Some(id));
                            stack.push(child);
                            k = k + 1;
                            assert(stack@.drop_last() =~= stacked);
                            assert(visible_pending(t, root_id, zoomed_in, stack@) =~= visible_below(
                                t,
                                root_id,
                                zoomed_in,
                                id,
                                k as nat,
                            ) + visible_pending(t, root_id, zoomed_in, rest));
                        }
                    }
                }
                assert(out + visible_pending(t, root_id, zoomed_in, before) =~= ids@
                    + visible_pending(t, root_id, zoomed_in, stack@));
            },
        }
    }
    ids
}

/// The set of the ids of a list.
pub fn id_set(ids: &Vec<usize>) -> (set: HashSet<usize>)
    ensures
        set@ == ids@.to_set(),
{
    let mut set: HashSet<usize> = HashSet::new();
    let mut i: usize = 0;
    assert(ids@.take(0).to_set() =~= Set::<usize>::empty());
    while i < ids.len()
        invariant
            i <= ids.len(),
            set@ == ids@.take(i as int).to_set(),
        decreases ids.len() - i,
    {
        let ghost part = ids@.take(i as int);
        set.insert(ids[i]);
        i = i + 1;
        assert(ids@.take(i as int) =~= part.push(ids@[i - 1]));
        proof {
            part.lemma_push_to_set_commute(ids@[i - 1]);
        }
    }
    assert(ids@.take(i as int) =~= ids@);
    set
}

/// Whether a node is shown below another: every node on the way down to it,
/// but for itself, is shown with its children.
pub open spec fn shown_below(
    t: Seq<NodeView>,
    root: usize,
    zoomed_in: bool,
    from: usize,
    j: usize,
) -> bool
    decreases j,
{
    ||| j == from
    ||| j < t.len() && match t[j as int].parent {
        Some(p) => p < j && !collapsed(t, root, zoomed_in, p) && shown_below(
            t,
            root,
            zoomed_in,
            from,
            p,
        ),
        None => false,
    }
}

proof fn lemma_shown_transitive(
    t: Seq<NodeView>,
    root: usize,
    zoomed_in: bool,
    a: usize,
    b: usize,
    j: usize,
)
    requires
        shown_below(t, root, zoomed_in, a, b),
        shown_below(t, root, zoomed_in, b, j),
    ensures
        shown_below(t, root, zoomed_in, a, j),
    decreases j,
{
    if j != b {
        lemma_shown_transitive(t, root, zoomed_in, a, b, t[j as int].parent->0);
    }
}

/// What is shown of a node's children is what is shown of one of them.
proof fn lemma_visible_below(
    t: Seq<NodeView>,
    root: usize,
    zoomed_in: bool,
    id: usize,
    k: nat,
    j: usize,
)
    requires
        consistent(t),
        id < t.len(),
        k <= t[id as int].children.len(),
    ensures
        visible_below(t, root, zoomed_in, id, k).contains(j) <==> exists|i: int|
            0 <= i < k && visible_from(
                t,
                root,
                zoomed_in,
                #[trigger] t[id as int].children[i],
            ).contains(j),
    decreases k,
{
    if k > 0 {
        lemma_visible_below(t, root, zoomed_in, id, (k - 1) as nat, j);
        let child = t[id as int].children[k - 1];
        assert(t[child as int].parent == Some(id));
        let head = visible_from(t, root, zoomed_in, child);
        let rest = visible_below(t, root, zoomed_in, id, (k - 1) as nat);
        let all = visible_below(t, root, zoomed_in, id, k);
        assert(all == head + rest);
        if all.contains(j) {
            let x = all.index_of(j);
            if x < head.len() {
                assert(head[x] == j);
            } else {
                assert(rest[x - head.len()] == j);
            }
        }
        if head.contains(j) {
            let x = head.index_of(j);
            assert(all[x] == j);
        }
        if rest.contains(j) {
            let x = rest.index_of(j);
            assert(all[head.len() + x] == j);
        }
    }
}

proof fn lemma_visible_is_shown(
    t: Seq<NodeView>,
    root: usize,
    zoomed_in: bool,
    id: usize,
    j: usize,
)
    requires
        consistent(t),
        id < t.len(),
        visible_from(t, root, zoomed_in, id).contains(j),
    ensures
        shown_below(t, root, zoomed_in, id, j),
    decreases t.len() - id,
{
    if j != id {
        let n = t[id as int].children.len();
        let below = visible_below(t, root, zoomed_in, id, n);
        let all = visible_from(t, root, zoomed_in, id);
        let x = all.index_of(j);
        assert(!collapsed(t, root, zoomed_in, id));
        assert(below[x - 1] == j);
        lemma_visible_below(t, root, zoomed_in, id, n, j);
        let i = choose|i: int|
            0 <= i < n && visible_from(
                t,
                root,
                zoomed_in,
                #[trigger] t[id as int].children[i],
            ).contains(j);
        let child = t[id as int].children[i];
        assert(t[child as int].parent == Some(id));
        lemma_visible_is_shown(t, root, zoomed_in, child, j);
        assert(shown_below(t, root, zoomed_in, id, id));
        assert(shown_below(t, root, zoomed_in, id, child));
        lemma_shown_transitive(t, root, zoomed_in, id, child, j);
    }
}

/// The children of a visible node that is not collapsed are visible.
proof fn lemma_child_visible(
    t: Seq<NodeView>,
    root: usize,
    zoomed_in: bool,
    id: usize,
    p: usize,
    j: usize,
)
    requires
        consistent(t),
        id < t.len(),
        p < t.len(),
        visible_from(t, root, zoomed_in, id).contains(p),
        !collapsed(t, root, zoomed_in, p),
        t[p as int].children.contains(j),
    ensures
        visible_from(t, root, zoomed_in, id).contains(j),
    decreases t.len() - id,
{
    let n = t[id as int].children.len();
    let below = visible_below(t, root, zoomed_in, id, n);
    let all = visible_from(t, root, zoomed_in, id);
    if p == id {
        let i = t[id as int].children.index_of(j);
        assert(t[id as int].children[i] == j);
        assert(visible_from(t, root, zoomed_in, j)[0] == j);
        assert(visible_from(t, root, zoomed_in, j).contains(j));
        lemma_visible_below(t, root, zoomed_in, id, n, j);
    } else {
        let x = all.index_of(p);
        assert(below[x - 1] == p);
        lemma_visible_below(t, root, zoomed_in, id, n, p);
        let i = choose|i: int|
            0 <= i < n && visible_from(
                t,
                root,
                zoomed_in,
                #[trigger] t[id as int].children[i],
            ).contains(p);
        let child = t[id as int].children[i];
        assert(t[child as int].parent == Some(id));
        lemma_child_visible(t, root, zoomed_in, child, p, j);
        lemma_visible_below(t, root, zoomed_in, id, n, j);
    }
    assert(below.contains(j));
    let y = below.index_of(j);
    assert(all[y + 1] == j);
}

proof fn lemma_shown_is_visible(
    t: Seq<NodeView>,
    root: usize,
    zoomed_in: bool,
    id: usize,
    j: usize,
)
    requires
        consistent(t),
        id < t.len(),
        j < t.len(),
        shown_below(t, root, zoomed_in, id, j),
    ensures
        visible_from(t, root, zoomed_in, id).contains(j),
    decreases j,
{
    if j == id {
        assert(visible_from(t, root, zoomed_in, id)[0] == j);
    } else {
        let p = t[j as int].parent->0;
        assert(t[j as int].parent == Some(p));
        lemma_shown_is_visible(t, root, zoomed_in, id, p);
        lemma_child_visible(t, root, zoomed_in, id, p, j);
    }
}

/// A node is shown if and only if it is the root or its parent is shown and
/// not collapsed.
pub proof fn law_visible_nodes(
    t: Seq<NodeView>,
    root: usize,
    zoomed_in: bool,
    j: usize,
)
    requires
        consistent(t),
        root < t.len(),
        j < t.len(),
    ensures
        visible_from(t, root, zoomed_in, root).contains(j) <==> (j == root || match t[j as int].parent {
            Some(p) => !collapsed(t, root, zoomed_in, p) && visible_from(
                t,
                root,
                zoomed_in,
                root,
            ).contains(p),
            None => false,
        }),
{
    if visible_from(t, root, zoomed_in, root).contains(j) {
        lemma_visible_is_shown(t, root, zoomed_in, root, j);
        if j != root {
            lemma_shown_is_visible(t, root, zoomed_in, root, t[j as int].parent->0);
        }
    }
    if j == root {
        lemma_shown_is_visible(t, root, zoomed_in, root, j);
    } else if let Some(p) = t[j as int].parent {
        assert(p < j);
        if !collapsed(t, root, zoomed_in, p) && visible_from(t, root, zoomed_in, root).contains(p) {
            lemma_visible_is_shown(t, root, zoomed_in, root, p);
            lemma_shown_is_visible(t, root, zoomed_in, root, j);
        }
    }
}

/// A zoomed-in view shows the root and all its descendants.
pub proof fn law_zoomed_in_shows_all(t: Seq<NodeView>, root: usize, j: usize)
    requires
        consistent(t),
        root < t.len(),
        j < t.len(),
    ensures
        visible_from(t, root, true, root).contains(j) <==> in_subtree(t, root as int, j as int),
    decreases j,
{
    law_visible_nodes(t, root, true, j);
    if j != root {
        if let Some(p) = t[j as int].parent {
            assert(p < j);
            law_zoomed_in_shows_all(t, root, p);
        }
    }
}

/// What is shown of the first children of a node lies in their subtrees, and
/// is shown once.
proof fn lemma_visible_once_below(
    t: Seq<NodeView>,
    root: usize,
    zoomed_in: bool,
    id: usize,
    k: nat,
)
    requires
        linked(t),
        id < t.len(),
        k <= t[id as int].children.len(),
    ensures
        visible_below(t, root, zoomed_in, id, k).no_duplicates(),
        forall|x: int|
            0 <= x < visible_below(t, root, zoomed_in, id, k).len() ==> below_one_of(
                t,
                id,
                k,
                #[trigger] visible_below(t, root, zoomed_in, id, k)[x],
            ),
    decreases t.len() - id, 0nat, k,
{
    if k > 0 {
        lemma_visible_once_below(t, root, zoomed_in, id, (k - 1) as nat);
        let child = t[id as int].children[k - 1];
        assert(t[child as int].parent == Some(id));
        lemma_visible_once_from(t, root, zoomed_in, child);
        let head = visible_from(t, root, zoomed_in, child);
        let rest = visible_below(t, root, zoomed_in, id, (k - 1) as nat);
        let all = visible_below(t, root, zoomed_in, id, k);
        assert(all == head + rest);
        assert forall|x: int| 0 <= x < all.len() implies below_one_of(
            t,
            id,
            k,
            #[trigger] all[x],
        ) by {
            if x < head.len() {
                assert(all[x] == head[x]);
                assert(in_subtree(t, t[id as int].children[k - 1] as int, all[x] as int));
            } else {
                assert(all[x] == rest[x - head.len()]);
                assert(below_one_of(t, id, (k - 1) as nat, all[x]));
            }
        }
        assert forall|x: int, y: int| 0 <= x < y < all.len() implies all[x] != all[y] by {
            if x < head.len() && y >= head.len() {
                assert(in_subtree(t, child as int, head[x] as int));
                let other = rest[y - head.len()];
                assert(below_one_of(t, id, (k - 1) as nat, other));
                let i = choose|i: int|
                    0 <= i < k - 1 && in_subtree(
                        t,
                        #[trigger] t[id as int].children[i] as int,
                        other as int,
                    );
                let c = t[id as int].children[i];
                assert(t[c as int].parent == Some(id));
                assert(c != child);
                lemma_subtrees_disjoint(t, id as int, c as int, child as int, other as int);
            } else if x >= head.len() {
                assert(rest[x - head.len()] != rest[y - head.len()]);
            } else {
                assert(head[x] != head[y]);
            }
        }
    }
}

/// Whether a node lies in the subtree of one of the first `k` children of a node.
spec fn below_one_of(t: Seq<NodeView>, id: usize, k: nat, j: usize) -> bool {
    exists|i: int|
        0 <= i < k && in_subtree(t, #[trigger] t[id as int].children[i] as int, j as int)
}

/// What is shown of the subtree of a node lies in it, and is shown once.
proof fn lemma_visible_once_from(t: Seq<NodeView>, root: usize, zoomed_in: bool, id: usize)
    requires
        linked(t),
        id < t.len(),
    ensures
        visible_from(t, root, zoomed_in, id).no_duplicates(),
        forall|x: int|
            0 <= x < visible_from(t, root, zoomed_in, id).len() ==> in_subtree(
                t,
                id as int,
                #[trigger] visible_from(t, root, zoomed_in, id)[x] as int,
            ),
    decreases t.len() - id, 1nat, 0nat,
{
    let n = t[id as int].children.len();
    let all = visible_from(t, root, zoomed_in, id);
    if !collapsed(t, root, zoomed_in, id) {
        lemma_visible_once_below(t, root, zoomed_in, id, n);
        let below = visible_below(t, root, zoomed_in, id, n);
        assert forall|x: int| 0 < x < all.len() implies in_subtree(t, id as int, all[x] as int)
            && id != #[trigger] all[x] by {
            assert(all[x] == below[x - 1]);
            assert(below_one_of(t, id, n, all[x]));
            let i = choose|i: int|
                0 <= i < n && in_subtree(
                    t,
                    #[trigger] t[id as int].children[i] as int,
                    all[x] as int,
                );
            let c = t[id as int].children[i];
            assert(t[c as int].parent == Some(id));
            lemma_subtree_of_child(t, id as int, c as int, all[x] as int);
            lemma_subtree_after_root(t, c as int, all[x] as int);
        }
        assert forall|x: int, y: int| 0 <= x < y < all.len() implies all[x] != all[y] by {
            assert(all[y] == below[y - 1]);
            if x > 0 {
                assert(all[x] == below[x - 1]);
            }
        }
    }
}

/// No node is shown twice.
pub proof fn law_visible_once(t: Seq<NodeView>, root: usize, zoomed_in: bool)
    requires
        linked(t),
        root < t.len(),
    ensures
        visible_from(t, root, zoomed_in, root).no_duplicates(),
{
    lemma_visible_once_from(t, root, zoomed_in, root);
}

/// One node lies above another exactly where it is the other's parent or lies
/// above that parent.
pub proof fn law_above_parent(t: Seq<NodeView>, candidate: usize, target: usize)
    ensures
        target >= t.len() ==> !is_above(t, candidate, target),
        target < t.len() && t[target as int].parent is None ==> !is_above(t, candidate, target),
        target < t.len() ==> (t[target as int].parent matches Some(p) ==> (is_above(
            t,
            candidate,
            target,
        ) <==> (p == candidate || is_above(t, candidate, p)))),
{
    reveal_with_fuel(nth_ancestor, 2);
    assert forall|steps: nat| steps > 0 implies #[trigger] nth_ancestor(t, target, steps) == (
    if target < t.len() && t[target as int].parent is Some {
        nth_ancestor(t, t[target as int].parent->0, (steps - 1) as nat)
    } else {
        None
    }) by {
        lemma_ancestor_of_parent(t, target, (steps - 1) as nat);
    }
    if target < t.len() && t[target as int].parent is Some {
        let p = t[target as int].parent->0;
        if is_above(t, candidate, p) {
            let steps = choose|steps: nat|
                steps > 0 && #[trigger] nth_ancestor(t, p, steps) == Some(candidate);
            assert(nth_ancestor(t, target, steps + 1) == Some(candidate));
        }
        if p == candidate {
            assert(nth_ancestor(t, target, 1) == Some(candidate));
        }
        if is_above(t, candidate, target) {
            let steps = choose|steps: nat|
                steps > 0 && #[trigger] nth_ancestor(t, target, steps) == Some(candidate);
            assert(nth_ancestor(t, p, (steps - 1) as nat) == Some(candidate));
        }
    }
}

proof fn lemma_ancestor_of_parent(t: Seq<NodeView>, target: usize, steps: nat)
    ensures
        nth_ancestor(t, target, steps + 1) == (if target < t.len()
            && t[target as int].parent is Some {
            nth_ancestor(t, t[target as int].parent->0, steps)
        } else {
            None
        }),
    decreases steps,
{
    reveal_with_fuel(nth_ancestor, 3);
    if steps > 0 {
        lemma_ancestor_of_parent(t, target, (steps - 1) as nat);
    }
}

/// What is shown from a node downwards: the node alone where it is a folder of
/// more than four children that is neither the root nor zoomed into, or is not
/// in the table, and otherwise the node and after it what is shown of each of its children, from
/// the last to the first.
pub proof fn law_shown_from_node(t: Seq<NodeView>, root: usize, zoomed_in: bool, id: usize)
    requires
        consistent(t),
    ensures
        id >= t.len() ==> visible_from(t, root, zoomed_in, id) == seq![id],
        id < t.len() && t[id as int].children.len() > 4 && id != root && !zoomed_in
            ==> visible_from(t, root, zoomed_in, id) == seq![id],
        id < t.len() && (t[id as int].children.len() <= 4 || id == root || zoomed_in)
            ==> visible_from(
            t,
            root,
            zoomed_in,
            id,
        ) == seq![id] + Seq::new(
            t[id as int].children.len(),
            |k: int|
                visible_from(
                    t,
                    root,
                    zoomed_in,
                    t[id as int].children[t[id as int].children.len() - 1 - k],
                ),
        ).flatten(),
{
    if id < t.len() {
        lemma_below_flat(t, root, zoomed_in, id, t[id as int].children.len());
    }
}

proof fn lemma_below_flat(t: Seq<NodeView>, root: usize, zoomed_in: bool, id: usize, k: nat)
    requires
        consistent(t),
        id < t.len(),
        k <= t[id as int].children.len(),
    ensures
        visible_below(t, root, zoomed_in, id, k) == Seq::new(
            k,
            |i: int| visible_from(t, root, zoomed_in, t[id as int].children[k - 1 - i]),
        ).flatten(),
    decreases k,
{
    let blocks = Seq::new(
        k,
        |i: int| visible_from(t, root, zoomed_in, t[id as int].children[k - 1 - i]),
    );
    if k > 0 {
        let less = (k - 1) as nat;
        lemma_below_flat(t, root, zoomed_in, id, less);
        let child = t[id as int].children[k - 1];
        assert(child < t.len() && t[child as int].parent == Some(id));
        assert(id < child);
        assert(blocks.drop_first() =~= Seq::new(
            less,
            |i: int| visible_from(t, root, zoomed_in, t[id as int].children[less - 1 - i]),
        ));
    }
}

/// A node below the root is shown exactly where its parent is shown and has no
/// more than four children, is the root, or is zoomed into.
pub proof fn law_shown_with_parent(t: Seq<NodeView>, root: usize, zoomed_in: bool, j: usize)
    requires
        consistent(t),
        root < t.len(),
        j < t.len(),
        j != root,
    ensures
        t[j as int].parent is None ==> !visible_from(t, root, zoomed_in, root).contains(j),
        t[j as int].parent matches Some(p) ==> (visible_from(t, root, zoomed_in, root).contains(j)
            <==> visible_from(t, root, zoomed_in, root).contains(p) && (
        t[p as int].children.len() <= 4 || p == root || zoomed_in)),
        visible_from(t, root, zoomed_in, root).contains(root),
{
    law_visible_nodes(t, root, zoomed_in, j);
    law_visible_nodes(t, root, zoomed_in, root);
}

} // verus!
