//! The layout of a tree on the canvas: subtrees side by side, each parent
//! centred above its children, and crowded folders as a grid of five columns.
//!
//! Lengths are counted in half pixels, in which all of them are whole numbers.

use std::collections::{HashMap, HashSet};
use vstd::prelude::*;
use vstd::set_lib::*;
use vstd::std_specs::hash::*;
use crate::node::{
    consistent, in_subtree, lemma_subtree_after_root, lemma_subtree_of_child,
    lemma_subtrees_disjoint, linked, table, Node, NodeView,
};

verus! {

broadcast use vstd::std_specs::hash::group_hash_axioms;

/// The width that a node without visible children takes.
pub const SLOT_WIDTH: i128 = 420;

/// The distance between neighbouring columns of a grid.
pub const GRID_SPACING_X: i128 = 390;

/// The distance between neighbouring rows of a grid.
pub const GRID_SPACING_Y: i128 = 130;

/// How many columns a grid has.
pub const GRID_COLUMNS: i128 = 5;

/// The width of a grid.
pub const GRID_WIDTH: i128 = 1950;

/// How many visible children a folder has at most without being laid out as a grid.
pub const ROW_LIMIT: i128 = 8;

/// The distance between a node and its children.
pub const LEVEL_HEIGHT: i128 = 220;

/// How far from the origin a layout may be asked for, whatever its size.
pub const COORDINATE_LIMIT: i128 = 1_267_650_600_228_229_401_496_703_205_376;

/// The centre of a card on the canvas.
#[derive(Clone, Copy, Debug, PartialEq, Eq, Structural)]
pub struct LayoutPoint {
    pub x: i128,
    pub y: i128,
}

/// How many of the first `k` children of a node are visible.
pub open spec fn shown_count(t: Seq<NodeView>, visible: Set<usize>, id: int, k: nat) -> nat
    decreases k,
{
    if k == 0 {
        0
    } else {
        shown_count(t, visible, id, (k - 1) as nat) + if visible.contains(t[id].children[k - 1]) {
            1nat
        } else {
            0nat
        }
    }
}

/// How many visible children a node has.
pub open spec fn all_shown(t: Seq<NodeView>, visible: Set<usize>, id: int) -> nat {
    shown_count(t, visible, id, t[id].children.len())
}

/// The width of the subtree of a node.
pub open spec fn subtree_width(t: Seq<NodeView>, visible: Set<usize>, id: int) -> int
    decreases t.len() - id, 1nat, 0nat,
{
    if !(0 <= id < t.len()) || all_shown(t, visible, id) == 0 {
        SLOT_WIDTH as int
    } else if all_shown(t, visible, id) > ROW_LIMIT {
        GRID_WIDTH as int
    } else {
        let width = row_width(t, visible, id, t[id].children.len());
        if width < SLOT_WIDTH {
            SLOT_WIDTH as int
        } else {
            width
        }
    }
}

/// The widths of the visible ones of the first `k` children of a node, added up.
pub open spec fn row_width(t: Seq<NodeView>, visible: Set<usize>, id: int, k: nat) -> int
    decreases t.len() - id, 0nat, k,
{
    if k == 0 || !(0 <= id < t.len()) {
        0
    } else {
        let child = t[id].children[k - 1];
        let rest = row_width(t, visible, id, (k - 1) as nat);
        if visible.contains(child) && id < child < t.len() {
            rest + subtree_width(t, visible, child as int)
        } else {
            rest
        }
    }
}

/// The positions after the subtree of a node is placed, with its left edge at
/// `left` and its root at a depth below `top`.
pub open spec fn placed(
    t: Seq<NodeView>,
    visible: Set<usize>,
    id: int,
    left: int,
    depth: int,
    top: int,
    positions: Map<usize, LayoutPoint>,
) -> Map<usize, LayoutPoint>
    decreases t.len() - id, 1nat, 0nat,
{
    let y = top + depth * LEVEL_HEIGHT;
    if !(0 <= id < t.len()) {
        positions
    } else if all_shown(t, visible, id) == 0 {
        positions.insert(id as usize, point(left + SLOT_WIDTH / 2, y))
    } else if all_shown(t, visible, id) > ROW_LIMIT {
        let centre = left + GRID_WIDTH / 2;
        grid_placed(
            t,
            visible,
            id,
            left + GRID_SPACING_X / 2,
            y + LEVEL_HEIGHT,
            t[id].children.len(),
            positions.insert(id as usize, point(centre, y)),
        )
    } else {
        let n = t[id].children.len();
        row_placed(t, visible, id, left, depth + 1, top, n, positions).insert(
            id as usize,
            point(left + row_width(t, visible, id, n) / 2, y),
        )
    }
}

/// The positions after the first `k` children of a node are placed side by side.
pub open spec fn row_placed(
    t: Seq<NodeView>,
    visible: Set<usize>,
    id: int,
    left: int,
    depth: int,
    top: int,
    k: nat,
    positions: Map<usize, LayoutPoint>,
) -> Map<usize, LayoutPoint>
    decreases t.len() - id, 0nat, k,
{
    if k == 0 || !(0 <= id < t.len()) {
        positions
    } else {
        let child = t[id].children[k - 1];
        let before = row_placed(t, visible, id, left, depth, top, (k - 1) as nat, positions);
        if visible.contains(child) && id < child < t.len() {
            placed(
                t,
                visible,
                child as int,
                left + row_width(t, visible, id, (k - 1) as nat),
                depth,
                top,
                before,
            )
        } else {
            before
        }
    }
}

/// The positions after the first `k` children of a node are placed in a grid.
pub open spec fn grid_placed(
    t: Seq<NodeView>,
    visible: Set<usize>,
    id: int,
    first_x: int,
    first_y: int,
    k: nat,
    positions: Map<usize, LayoutPoint>,
) -> Map<usize, LayoutPoint>
    decreases k,
{
    if k == 0 {
        positions
    } else {
        let child = t[id].children[k - 1];
        let before = grid_placed(t, visible, id, first_x, first_y, (k - 1) as nat, positions);
        if visible.contains(child) {
            before.insert(
                child,
                grid_point(first_x, first_y, shown_count(t, visible, id, (k - 1) as nat) as int),
            )
        } else {
            before
        }
    }
}

/// A point with integer coordinates.
pub open spec fn point(x: int, y: int) -> LayoutPoint {
    LayoutPoint { x: x as i128, y: y as i128 }
}

/// The place of the `rank`th item of a grid.
pub open spec fn grid_point(first_x: int, first_y: int, rank: int) -> LayoutPoint {
    point(
        first_x + (rank % (GRID_COLUMNS as int)) * GRID_SPACING_X,
        first_y + (rank / (GRID_COLUMNS as int)) * GRID_SPACING_Y,
    )
}

/// Where the subtree of a node ends on the right, with its left edge at
/// `left`: after its last child where the children stand in a row, and after
/// a slot at least.
pub open spec fn subtree_end(t: Seq<NodeView>, visible: Set<usize>, id: int, left: int) -> int
    decreases t.len() - id, 1nat, 0nat,
{
    if !(0 <= id < t.len()) || all_shown(t, visible, id) == 0 {
        left + SLOT_WIDTH
    } else if all_shown(t, visible, id) > ROW_LIMIT {
        left + GRID_WIDTH
    } else {
        let end = row_end(t, visible, id, left, t[id].children.len());
        if end < left + SLOT_WIDTH {
            left + SLOT_WIDTH
        } else {
            end
        }
    }
}

/// Where the first `k` children of a node end on the right: each visible one
/// begins where the one before it ends.
pub open spec fn row_end(t: Seq<NodeView>, visible: Set<usize>, id: int, left: int, k: nat) -> int
    decreases t.len() - id, 0nat, k,
{
    if k == 0 || !(0 <= id < t.len()) {
        left
    } else {
        let child = t[id].children[k - 1];
        let before = row_end(t, visible, id, left, (k - 1) as nat);
        if visible.contains(child) && id < child < t.len() {
            subtree_end(t, visible, child as int, before)
        } else {
            before
        }
    }
}

/// The left edge of a tree that is centred on a line.
pub open spec fn centred_left(t: Seq<NodeView>, visible: Set<usize>, root: int, center: int) -> int {
    center - subtree_width(t, visible, root) / 2
}

/// The layout of the tree at a root: the root at the top, centred on a line.
pub open spec fn layout_at(
    t: Seq<NodeView>,
    visible: Set<usize>,
    root: int,
    center: int,
    top: int,
) -> Map<usize, LayoutPoint> {
    placed(t, visible, root, centred_left(t, visible, root, center), 0, top, Map::empty())
}

/// The layout of the tree at a root, centred on the origin.
pub open spec fn layout_of(t: Seq<NodeView>, visible: Set<usize>, root: int) -> Map<
    usize,
    LayoutPoint,
> {
    layout_at(t, visible, root, 0, 0)
}

/// No more children are visible than there are.
proof fn lemma_shown_count(t: Seq<NodeView>, visible: Set<usize>, id: int, k: nat)
    ensures
        shown_count(t, visible, id, k) <= k,
    decreases k,
{
    if k > 0 {
        lemma_shown_count(t, visible, id, (k - 1) as nat);
    }
}

/// A linked table.
#[verifier::opaque]
spec fn is_linked(t: Seq<NodeView>) -> bool {
    linked(t)
}

/// A child stands after its parent.
proof fn lemma_child(t: Seq<NodeView>, id: int, k: int)
    requires
        is_linked(t),
        0 <= id < t.len(),
        0 <= k < t[id].children.len(),
    ensures
        id < t[id].children[k] < t.len(),
        t[t[id].children[k] as int].parent == Some(id as usize),
{
    reveal(is_linked);
    let c = t[id].children[k];
    assert(t[c as int].parent == Some(id as usize));
}

/// The children of a node are different nodes.
proof fn lemma_children_differ(t: Seq<NodeView>, id: int, i: int, k: int)
    requires
        is_linked(t),
        0 <= id < t.len(),
        0 <= i < k < t[id].children.len(),
    ensures
        t[id].children[i] != t[id].children[k],
{
    reveal(is_linked);
}

/// The nodes of the subtree of a node.
spec fn descendants(t: Seq<NodeView>, id: int) -> Set<int> {
    Set::new(|j: int| 0 <= j < t.len() && in_subtree(t, id, j))
}

/// The nodes of the subtrees of the first `k` children of a node.
spec fn descendants_below(t: Seq<NodeView>, id: int, k: nat) -> Set<int>
    decreases k,
{
    if k == 0 {
        Set::empty()
    } else {
        descendants_below(t, id, (k - 1) as nat) + descendants(t, t[id].children[k - 1] as int)
    }
}

proof fn lemma_descendants_finite(t: Seq<NodeView>, id: int)
    ensures
        descendants(t, id).finite(),
        descendants(t, id).len() <= t.len(),
{
    lemma_int_range(0, t.len() as int);
    assert(descendants(t, id).subset_of(set_int_range(0, t.len() as int)));
    lemma_len_subset(descendants(t, id), set_int_range(0, t.len() as int));
}

proof fn lemma_below_members(t: Seq<NodeView>, id: int, k: nat, j: int)
    ensures
        descendants_below(t, id, k).contains(j) <==> exists|i: int|
            0 <= i < k && descendants(t, #[trigger] t[id].children[i] as int).contains(j),
    decreases k,
{
    if k > 0 {
        lemma_below_members(t, id, (k - 1) as nat, j);
    }
}

/// The subtrees of children hold different nodes, one for each child at least.
proof fn lemma_below_count(t: Seq<NodeView>, id: int, k: nat)
    requires
        is_linked(t),
        0 <= id < t.len(),
        k <= t[id].children.len(),
    ensures
        descendants_below(t, id, k).finite(),
        k <= descendants_below(t, id, k).len() < t.len(),
        k > 0 ==> descendants_below(t, id, k).len() == descendants_below(
            t,
            id,
            (k - 1) as nat,
        ).len() + descendants(t, t[id].children[k - 1] as int).len(),
        descendants_below(t, id, k).len() < descendants(t, id).len(),
    decreases k,
{
    let below = descendants_below(t, id, k);
    let all = descendants(t, id);
    lemma_descendants_finite(t, id);
    assert(all.contains(id));
    assert forall|j: int| below.contains(j) implies all.remove(id).contains(j) by {
        lemma_below_members(t, id, k, j);
        let i = choose|i: int|
            0 <= i < k && descendants(t, #[trigger] t[id].children[i] as int).contains(j);
        lemma_child(t, id, i);
        lemma_subtree_of_child(t, id, t[id].children[i] as int, j);
        lemma_subtree_after_root(t, t[id].children[i] as int, j);
    }
    lemma_len_subset(below, all.remove(id));
    if k > 0 {
        lemma_below_count(t, id, (k - 1) as nat);
        let rest = descendants_below(t, id, (k - 1) as nat);
        let child = t[id].children[k - 1] as int;
        let last = descendants(t, child);
        lemma_child(t, id, k - 1);
        lemma_descendants_finite(t, child);
        assert(rest.disjoint(last)) by {
            assert forall|j: int| rest.contains(j) implies !last.contains(j) by {
                lemma_below_members(t, id, (k - 1) as nat, j);
                let i = choose|i: int|
                    0 <= i < k - 1 && descendants(
                        t,
                        #[trigger] t[id].children[i] as int,
                    ).contains(j);
                lemma_child(t, id, i);
                lemma_children_differ(t, id, i, k - 1);
                lemma_subtrees_disjoint(t, id, t[id].children[i] as int, child, j);
            }
        }
        lemma_set_disjoint_lens(rest, last);
        assert(last.contains(child));
        assert(last.len() > 0) by {
            lemma_set_empty_equivalency_len(last);
        }
    }
}

/// The width of a subtree is bounded by the number of its nodes.
proof fn lemma_width_bound(t: Seq<NodeView>, visible: Set<usize>, id: int)
    requires
        is_linked(t),
        0 <= id < t.len(),
    ensures
        SLOT_WIDTH <= subtree_width(t, visible, id) <= GRID_WIDTH * descendants(t, id).len(),
        subtree_width(t, visible, id) <= GRID_WIDTH * t.len(),
    decreases t.len() - id, 1nat, 0nat,
{
    let n = t[id].children.len();
    lemma_descendants_finite(t, id);
    lemma_below_count(t, id, n);
    lemma_row_bound(t, visible, id, n);
}

proof fn lemma_row_bound(t: Seq<NodeView>, visible: Set<usize>, id: int, k: nat)
    requires
        is_linked(t),
        0 <= id < t.len(),
        k <= t[id].children.len(),
    ensures
        0 <= row_width(t, visible, id, k) <= GRID_WIDTH * descendants_below(t, id, k).len(),
        shown_count(t, visible, id, k) > 0 ==> row_width(t, visible, id, k) >= SLOT_WIDTH,
    decreases t.len() - id, 0nat, k,
{
    if k > 0 {
        lemma_row_bound(t, visible, id, (k - 1) as nat);
        lemma_child(t, id, k - 1);
        lemma_width_bound(t, visible, t[id].children[k - 1] as int);
        lemma_below_count(t, id, k);
    }
}

/// How wide all the children of a node are.
proof fn lemma_row_end(t: Seq<NodeView>, visible: Set<usize>, id: int)
    requires
        is_linked(t),
        0 <= id < t.len(),
    ensures
        0 <= row_width(t, visible, id, t[id].children.len()) <= GRID_WIDTH * t.len(),
        all_shown(t, visible, id) > 0 ==> row_width(t, visible, id, t[id].children.len())
            >= SLOT_WIDTH,
{
    lemma_row_bound(t, visible, id, t[id].children.len());
    lemma_below_count(t, id, t[id].children.len());
}

/// The first children of a node are no wider than all of them.
proof fn lemma_row_grows(t: Seq<NodeView>, visible: Set<usize>, id: int, k: nat, n: nat)
    requires
        k <= n,
    ensures
        row_width(t, visible, id, k) <= row_width(t, visible, id, n),
    decreases n,
{
    if k < n {
        lemma_row_grows(t, visible, id, k, (n - 1) as nat);
        if 0 <= id < t.len() {
            assert(subtree_width(t, visible, t[id].children[n - 1] as int) >= SLOT_WIDTH);
        }
    }
}

/// Where the next child of a node stands, and how wide it is.
proof fn lemma_row_step(t: Seq<NodeView>, visible: Set<usize>, id: int, k: int)
    requires
        is_linked(t),
        0 <= id < t.len(),
        0 <= k < t[id].children.len(),
    ensures
        id < t[id].children[k] < t.len(),
        0 <= row_width(t, visible, id, k as nat) <= row_width(t, visible, id, (k + 1) as nat),
        row_width(t, visible, id, (k + 1) as nat) <= row_width(
            t,
            visible,
            id,
            t[id].children.len(),
        ) <= GRID_WIDTH * t.len(),
        visible.contains(t[id].children[k]) ==> row_width(t, visible, id, (k + 1) as nat)
            == row_width(t, visible, id, k as nat) + subtree_width(
            t,
            visible,
            t[id].children[k] as int,
        ),
{
    lemma_child(t, id, k);
    lemma_row_bound(t, visible, id, k as nat);
    lemma_row_grows(t, visible, id, k as nat, (k + 1) as nat);
    lemma_row_grows(t, visible, id, (k + 1) as nat, t[id].children.len());
    lemma_row_end(t, visible, id);
}

/// How many visible children a node has.
fn count_shown(nodes: &[Node], id: usize, visible: &HashSet<usize>) -> (count: usize)
    requires
        id < nodes.len(),
    ensures
        count == all_shown(table(nodes@), visible@, id as int),
{
    let ghost t = table(nodes@);
    let children = &nodes[id].children;
    assert(children@ == t[id as int].children);
    let mut count: usize = 0;
    let mut k: usize = 0;
    while k < children.len()
        invariant
            id < nodes.len(),
            t == table(nodes@),
            children@ == t[id as int].children,
            k <= children.len(),
            count <= k,
            count == shown_count(t, visible@, id as int, k as nat),
        decreases children.len() - k,
    {
        if visible.contains(&children[k]) {
            count = count + 1;
        }
        k = k + 1;
    }
    count
}

/// The width that the subtree of a node takes.
pub fn compute_subtree_bounds(nodes: &[Node], node_id: usize, visible: &HashSet<usize>) -> (width:
    i128)
    requires
        linked(table(nodes@)),
    ensures
        width == subtree_width(table(nodes@), visible@, node_id as int),
{
    assert(is_linked(table(nodes@))) by {
        reveal(is_linked);
    }
    width_of(nodes, node_id, visible)
}

fn width_of(nodes: &[Node], node_id: usize, visible: &HashSet<usize>) -> (width: i128)
    requires
        is_linked(table(nodes@)),
    ensures
        width == subtree_width(table(nodes@), visible@, node_id as int),
    decreases nodes.len() - node_id,
{
    let ghost t = table(nodes@);
    if node_id >= nodes.len() {
        return SLOT_WIDTH;
    }
    let shown = count_shown(nodes, node_id, visible);
    if shown == 0 {
        return SLOT_WIDTH;
    }
    if shown > 8 {
        return GRID_WIDTH;
    }
    let children = &nodes[node_id].children;
    assert(children@ == t[node_id as int].children);
    let mut width: i128 = 0;
    let mut k: usize = 0;
    while k < children.len()
        invariant
            node_id < nodes.len(),
            t == table(nodes@),
            is_linked(t),
            children@ == t[node_id as int].children,
            k <= children.len(),
            width == row_width(t, visible@, node_id as int, k as nat),
        decreases children.len() - k,
    {
        let child = children[k];
        proof {
            lemma_row_step(t, visible@, node_id as int, k as int);
        }
        if visible.contains(&child) {
            width = width + width_of(nodes, child, visible);
        }
        k = k + 1;
    }
    if width < SLOT_WIDTH {
        SLOT_WIDTH
    } else {
        width
    }
}

/// Places the visible children of a node in a grid.
fn place_grid(
    nodes: &[Node],
    node_id: usize,
    visible: &HashSet<usize>,
    first_x: i128,
    first_y: i128,
    positions: &mut HashMap<usize, LayoutPoint>,
)
    requires
        node_id < nodes.len(),
        first_x + GRID_WIDTH - GRID_SPACING_X <= i128::MAX,
        first_y + GRID_SPACING_Y * nodes@[node_id as int].children.len() <= i128::MAX,
    ensures
        final(positions)@ == grid_placed(
            table(nodes@),
            visible@,
            node_id as int,
            first_x as int,
            first_y as int,
            nodes@[node_id as int].children@.len(),
            old(positions)@,
        ),
{
    let ghost t = table(nodes@);
    let ghost start = positions@;
    let children = &nodes[node_id].children;
    assert(children@ == t[node_id as int].children);
    let mut rank: usize = 0;
    let mut k: usize = 0;
    while k < children.len()
        invariant
            node_id < nodes.len(),
            t == table(nodes@),
            children@ == t[node_id as int].children,
            first_x + GRID_WIDTH - GRID_SPACING_X <= i128::MAX,
            first_y + GRID_SPACING_Y * children.len() <= i128::MAX,
            k <= children.len(),
            rank <= k,
            rank == shown_count(t, visible@, node_id as int, k as nat),
            positions@ == grid_placed(
                t,
                visible@,
                node_id as int,
                first_x as int,
                first_y as int,
                k as nat,
                start,
            ),
        decreases children.len() - k,
    {
        let child = children[k];
        if visible.contains(&child) {
            let column: i128 = (rank % 5) as i128;
            let row: i128 = (rank / 5) as i128;
            let x: i128 = first_x + column * GRID_SPACING_X;
            let y: i128 = first_y + row * GRID_SPACING_Y;
            assert(LayoutPoint { x, y } == grid_point(first_x as int, first_y as int, rank as int));
            positions.insert(child, LayoutPoint { x, y });
            rank = rank + 1;
        }
        k = k + 1;
    }
}

/// The coordinates of a subtree are numbers of 128 bits: its edges, and the
/// lowest line that as many levels and grid rows as there are nodes can reach.
pub open spec fn in_canvas(
    t: Seq<NodeView>,
    visible: Set<usize>,
    id: int,
    left: int,
    depth: int,
    top: int,
) -> bool {
    &&& i128::MIN <= left
    &&& left + subtree_width(t, visible, id) <= i128::MAX
    &&& i128::MIN <= top
    &&& top + LEVEL_HEIGHT * (depth + t.len() - id) + GRID_SPACING_Y * t.len() <= i128::MAX
}

/// Where a subtree can be placed: anywhere near the origin, and farther out as
/// long as its coordinates are numbers of 128 bits. The levels are counted by
/// a `usize`.
pub open spec fn can_be_placed(
    t: Seq<NodeView>,
    visible: Set<usize>,
    id: int,
    left: int,
    depth: int,
    top: int,
) -> bool {
    &&& 0 <= depth
    &&& id < t.len() ==> depth + t.len() - id <= usize::MAX
    &&& {
        ||| -COORDINATE_LIMIT <= left <= COORDINATE_LIMIT && -COORDINATE_LIMIT <= top
            <= COORDINATE_LIMIT
        ||| in_canvas(t, visible, id, left, depth, top)
    }
}

/// Where a layout can be centred: on any point near the origin, and farther
/// out as long as its coordinates are numbers of 128 bits.
pub open spec fn can_be_laid_out(
    t: Seq<NodeView>,
    visible: Set<usize>,
    root: int,
    center: int,
    top: int,
) -> bool {
    ||| -COORDINATE_LIMIT <= center <= COORDINATE_LIMIT && -COORDINATE_LIMIT <= top
        <= COORDINATE_LIMIT
    ||| in_canvas(t, visible, root, centred_left(t, visible, root, center), 0, top)
}

/// What can be placed has coordinates of 128 bits.
proof fn lemma_can_be_placed(
    t: Seq<NodeView>,
    visible: Set<usize>,
    id: int,
    left: int,
    depth: int,
    top: int,
)
    requires
        is_linked(t),
        0 <= id < t.len() <= usize::MAX,
        can_be_placed(t, visible, id, left, depth, top),
    ensures
        in_canvas(t, visible, id, left, depth, top),
{
    lemma_width_bound(t, visible, id);
}

/// Places the subtree of a node with its left edge at `left`, at a depth below
/// `top`, and returns where it ends on the right. A node that is not in the
/// table takes a slot and is not placed.
pub fn place_subtrees_non_overlapping(
    nodes: &[Node],
    node_id: usize,
    visible: &HashSet<usize>,
    left: i128,
    depth: usize,
    top: i128,
    positions: &mut HashMap<usize, LayoutPoint>,
) -> (right: i128)
    requires
        linked(table(nodes@)),
        can_be_placed(
            table(nodes@),
            visible@,
            node_id as int,
            left as int,
            depth as int,
            top as int,
        ),
    ensures
        right == left + subtree_width(table(nodes@), visible@, node_id as int),
        right == subtree_end(table(nodes@), visible@, node_id as int, left as int),
        final(positions)@ == placed(
            table(nodes@),
            visible@,
            node_id as int,
            left as int,
            depth as int,
            top as int,
            old(positions)@,
        ),
{
    let ghost t = table(nodes@);
    assert(is_linked(t)) by {
        reveal(is_linked);
    }
    proof {
        law_subtree_ends_after_its_width(t, visible@, node_id as int, left as int);
    }
    if node_id >= nodes.len() {
        return left + SLOT_WIDTH;
    }
    proof {
        lemma_can_be_placed(
            t,
            visible@,
            node_id as int,
            left as int,
            depth as int,
            top as int,
        );
    }
    place_subtree(nodes, node_id, visible, left, depth, top, positions)
}

fn place_subtree(
    nodes: &[Node],
    node_id: usize,
    visible: &HashSet<usize>,
    left: i128,
    depth: usize,
    top: i128,
    positions: &mut HashMap<usize, LayoutPoint>,
) -> (right: i128)
    requires
        is_linked(table(nodes@)),
        node_id < nodes.len(),
        depth + nodes.len() - node_id <= usize::MAX,
        in_canvas(
            table(nodes@),
            visible@,
            node_id as int,
            left as int,
            depth as int,
            top as int,
        ),
    ensures
        right == left + subtree_width(table(nodes@), visible@, node_id as int),
        final(positions)@ == placed(
            table(nodes@),
            visible@,
            node_id as int,
            left as int,
            depth as int,
            top as int,
            old(positions)@,
        ),
    decreases nodes.len() - node_id,
{
    let ghost t = table(nodes@);
    let ghost start = positions@;
    proof {
        lemma_width_bound(t, visible@, node_id as int);
    }
    let shown = count_shown(nodes, node_id, visible);
    let y: i128 = top + depth as i128 * LEVEL_HEIGHT;
    if shown == 0 {
        positions.insert(node_id, LayoutPoint { x: left + SLOT_WIDTH / 2, y });
        return left + SLOT_WIDTH;
    }
    if shown > 8 {
        proof {
            lemma_below_count(t, node_id as int, t[node_id as int].children.len());
        }
        positions.insert(node_id, LayoutPoint { x: left + GRID_WIDTH / 2, y });
        place_grid(
            nodes,
            node_id,
            visible,
            left + GRID_SPACING_X / 2,
            y + LEVEL_HEIGHT,
            positions,
        );
        return left + GRID_WIDTH;
    }
    let children = &nodes[node_id].children;
    assert(children@ == t[node_id as int].children);
    proof {
        lemma_row_end(t, visible@, node_id as int);
    }
    let mut current: i128 = left;
    let mut k: usize = 0;
    while k < children.len()
        invariant
            node_id < nodes.len(),
            t == table(nodes@),
            is_linked(t),
            children@ == t[node_id as int].children,
            k <= children.len(),
            left + row_width(t, visible@, node_id as int, children.len() as nat) <= i128::MAX,
            top + LEVEL_HEIGHT * (depth + nodes.len() - node_id) + GRID_SPACING_Y * nodes.len()
                <= i128::MAX,
            depth + nodes.len() - node_id <= usize::MAX,
            current == left + row_width(t, visible@, node_id as int, k as nat),
            positions@ == row_placed(
                t,
                visible@,
                node_id as int,
                left as int,
                depth + 1,
                top as int,
                k as nat,
                start,
            ),
        decreases children.len() - k,
    {
        let child = children[k];
        proof {
            lemma_row_step(t, visible@, node_id as int, k as int);
        }
        if visible.contains(&child) {
            current = place_subtree(nodes, child, visible, current, depth + 1, top, positions);
        }
        k = k + 1;
    }
    let width: i128 = current - left;
    positions.insert(node_id, LayoutPoint { x: left + width / 2, y });
    current
}

/// The places of the visible nodes of a tree on the canvas: the root at the
/// top, centred on a line, and the levels below it.
pub fn compute_hierarchical_positions(
    nodes: &[Node],
    root_id: usize,
    visible: &HashSet<usize>,
    canvas_center_x: i128,
    top_y: i128,
) -> (positions: HashMap<usize, LayoutPoint>)
    requires
        linked(table(nodes@)),
        can_be_laid_out(
            table(nodes@),
            visible@,
            root_id as int,
            canvas_center_x as int,
            top_y as int,
        ),
    ensures
        positions@ == layout_at(
            table(nodes@),
            visible@,
            root_id as int,
            canvas_center_x as int,
            top_y as int,
        ),
{
    let mut positions: HashMap<usize, LayoutPoint> = HashMap::new();
    if root_id < nodes.len() {
        let width = compute_subtree_bounds(nodes, root_id, visible);
        proof {
            assert(is_linked(table(nodes@))) by {
                reveal(is_linked);
            }
            lemma_width_bound(table(nodes@), visible@, root_id as int);
        }
        place_subtree(
            nodes,
            root_id,
            visible,
            canvas_center_x - width / 2,
            0,
            top_y,
            &mut positions,
        );
    }
    positions
}

/// Two cards that do not overlap: they are apart by a column of the grid
/// horizontally or by a row of it vertically.
pub open spec fn apart(a: LayoutPoint, b: LayoutPoint) -> bool {
    ||| a.x + GRID_SPACING_X <= b.x
    ||| b.x + GRID_SPACING_X <= a.x
    ||| a.y + GRID_SPACING_Y <= b.y
    ||| b.y + GRID_SPACING_Y <= a.y
}

/// The centres of the cards keep half a column's distance from the edges of a
/// strip of the canvas, lie on or below a line, and the cards do not overlap.
spec fn boxed(m: Map<usize, LayoutPoint>, left: int, right: int, top: int) -> bool {
    &&& forall|j: usize| #[trigger]
        m.contains_key(j) ==> {
            &&& left + GRID_SPACING_X / 2 <= m[j].x <= right - GRID_SPACING_X / 2
            &&& top <= m[j].y
        }
    &&& forall|i: usize, j: usize| #[trigger]
        m.contains_key(i) && #[trigger] m.contains_key(j) && i != j ==> apart(m[i], m[j])
}

/// The places of a subtree are added to those there are.
proof fn lemma_placed_adds(
    t: Seq<NodeView>,
    visible: Set<usize>,
    id: int,
    left: int,
    depth: int,
    top: int,
    m: Map<usize, LayoutPoint>,
)
    ensures
        placed(t, visible, id, left, depth, top, m) == m.union_prefer_right(
            placed(t, visible, id, left, depth, top, Map::empty()),
        ),
    decreases t.len() - id, 1nat, 0nat,
{
    let none = Map::<usize, LayoutPoint>::empty();
    if 0 <= id < t.len() {
        let n = t[id].children.len();
        if all_shown(t, visible, id) == 0 {
        } else if all_shown(t, visible, id) > ROW_LIMIT {
            let y = top + depth * LEVEL_HEIGHT;
            let own = point(left + GRID_WIDTH / 2, y);
            let x0 = left + GRID_SPACING_X / 2;
            let y0 = y + LEVEL_HEIGHT;
            let a = m.insert(id as usize, own);
            let b = none.insert(id as usize, own);
            lemma_grid_adds(t, visible, id, x0, y0, n, a);
            lemma_grid_adds(t, visible, id, x0, y0, n, b);
            assert(a.union_prefer_right(grid_placed(t, visible, id, x0, y0, n, none))
                =~= m.union_prefer_right(
                b.union_prefer_right(grid_placed(t, visible, id, x0, y0, n, none)),
            ));
        } else {
            lemma_row_adds(t, visible, id, left, depth + 1, top, n, m);
            lemma_row_adds(t, visible, id, left, depth + 1, top, n, none);
        }
        assert(placed(t, visible, id, left, depth, top, m) =~= m.union_prefer_right(
            placed(t, visible, id, left, depth, top, none),
        ));
    } else {
        assert(m.union_prefer_right(none) =~= m);
    }
}

proof fn lemma_row_adds(
    t: Seq<NodeView>,
    visible: Set<usize>,
    id: int,
    left: int,
    depth: int,
    top: int,
    k: nat,
    m: Map<usize, LayoutPoint>,
)
    ensures
        row_placed(t, visible, id, left, depth, top, k, m) == m.union_prefer_right(
            row_placed(t, visible, id, left, depth, top, k, Map::empty()),
        ),
    decreases t.len() - id, 0nat, k,
{
    let none = Map::<usize, LayoutPoint>::empty();
    if k == 0 || !(0 <= id < t.len()) {
        assert(m.union_prefer_right(none) =~= m);
    } else {
        let child = t[id].children[k - 1];
        let before = row_placed(t, visible, id, left, depth, top, (k - 1) as nat, m);
        let alone = row_placed(t, visible, id, left, depth, top, (k - 1) as nat, none);
        lemma_row_adds(t, visible, id, left, depth, top, (k - 1) as nat, m);
        if visible.contains(child) && id < child < t.len() {
            let at = left + row_width(t, visible, id, (k - 1) as nat);
            lemma_placed_adds(t, visible, child as int, at, depth, top, before);
            lemma_placed_adds(t, visible, child as int, at, depth, top, alone);
            let own = placed(t, visible, child as int, at, depth, top, none);
            assert(m.union_prefer_right(alone).union_prefer_right(own) =~= m.union_prefer_right(
                alone.union_prefer_right(own),
            ));
        }
    }
}

proof fn lemma_grid_adds(
    t: Seq<NodeView>,
    visible: Set<usize>,
    id: int,
    first_x: int,
    first_y: int,
    k: nat,
    m: Map<usize, LayoutPoint>,
)
    ensures
        grid_placed(t, visible, id, first_x, first_y, k, m) == m.union_prefer_right(
            grid_placed(t, visible, id, first_x, first_y, k, Map::empty()),
        ),
    decreases k,
{
    let none = Map::<usize, LayoutPoint>::empty();
    if k == 0 {
        assert(m.union_prefer_right(none) =~= m);
    } else {
        lemma_grid_adds(t, visible, id, first_x, first_y, (k - 1) as nat, m);
        assert(grid_placed(t, visible, id, first_x, first_y, k, m) =~= m.union_prefer_right(
            grid_placed(t, visible, id, first_x, first_y, k, none),
        ));
    }
}

/// The cards of a subtree lie within its width, on or below its root.
proof fn lemma_placed_boxed(
    t: Seq<NodeView>,
    visible: Set<usize>,
    id: int,
    left: int,
    depth: int,
    top: int,
)
    requires
        is_linked(t),
        0 <= id < t.len() <= usize::MAX,
        0 <= depth,
        in_canvas(t, visible, id, left, depth, top),
    ensures
        boxed(
            placed(t, visible, id, left, depth, top, Map::empty()),
            left,
            left + subtree_width(t, visible, id),
            top + depth * LEVEL_HEIGHT,
        ),
    decreases t.len() - id, 1nat, 0nat,
{
    let none = Map::<usize, LayoutPoint>::empty();
    let m = placed(t, visible, id, left, depth, top, none);
    let n = t[id].children.len();
    let y = top + depth * LEVEL_HEIGHT;
    let right = left + subtree_width(t, visible, id);
    lemma_width_bound(t, visible, id);
    if all_shown(t, visible, id) == 0 {
    } else if all_shown(t, visible, id) > ROW_LIMIT {
        let x0 = left + GRID_SPACING_X / 2;
        let y0 = y + LEVEL_HEIGHT;
        let grid = grid_placed(t, visible, id, x0, y0, n, none);
        let own = point(left + GRID_WIDTH / 2, y);
        lemma_grid_boxed(t, visible, id, x0, y0, n);
        lemma_grid_adds(t, visible, id, x0, y0, n, none.insert(id as usize, own));
        lemma_grid_without_parent(t, visible, id, x0, y0, n);
        lemma_boxed_insert(grid, id as usize, left, right, y, own);
        assert(m =~= grid.insert(id as usize, own));
    } else {
        lemma_row_end(t, visible, id);
        let row = row_placed(t, visible, id, left, depth + 1, top, n, none);
        let own = point(left + row_width(t, visible, id, n) / 2, y);
        lemma_row_boxed(t, visible, id, left, depth + 1, top, n);
        lemma_boxed_insert(row, id as usize, left, right, y, own);
    }
}

/// A node does not stand in the grid of its children.
proof fn lemma_grid_without_parent(
    t: Seq<NodeView>,
    visible: Set<usize>,
    id: int,
    first_x: int,
    first_y: int,
    k: nat,
)
    requires
        is_linked(t),
        0 <= id < t.len() <= usize::MAX,
        k <= t[id].children.len(),
    ensures
        !grid_placed(t, visible, id, first_x, first_y, k, Map::empty()).contains_key(id as usize),
{
    if grid_placed(t, visible, id, first_x, first_y, k, Map::empty()).contains_key(id as usize) {
        let i = lemma_grid_ranks(t, visible, id, first_x, first_y, k, id as usize);
        lemma_child(t, id, i);
    }
}

/// A card above all the others keeps the cards apart.
proof fn lemma_boxed_insert(
    below: Map<usize, LayoutPoint>,
    id: usize,
    left: int,
    right: int,
    y: int,
    own: LayoutPoint,
)
    requires
        boxed(below, left, right, y + LEVEL_HEIGHT),
        left + GRID_SPACING_X / 2 <= own.x <= right - GRID_SPACING_X / 2,
        own.y == y,
    ensures
        boxed(below.insert(id, own), left, right, y),
{
    let m = below.insert(id, own);
    assert forall|i: usize, j: usize| #[trigger]
        m.contains_key(i) && #[trigger] m.contains_key(j) && i != j implies apart(m[i], m[j]) by {
        assert(i == id || below.contains_key(i));
        assert(j == id || below.contains_key(j));
    }
    assert forall|j: usize| #[trigger] m.contains_key(j) implies {
        &&& left + GRID_SPACING_X / 2 <= m[j].x <= right - GRID_SPACING_X / 2
        &&& y <= m[j].y
    } by {
        if j != id {
            assert(below.contains_key(j));
        }
    }
}

/// Two groups of cards in neighbouring strips keep apart.
proof fn lemma_boxed_union(
    a: Map<usize, LayoutPoint>,
    b: Map<usize, LayoutPoint>,
    left: int,
    middle: int,
    right: int,
    top: int,
)
    requires
        boxed(a, left, middle, top),
        boxed(b, middle, right, top),
        left <= middle <= right,
    ensures
        boxed(a.union_prefer_right(b), left, right, top),
{
    let m = a.union_prefer_right(b);
    assert forall|j: usize| #[trigger] m.contains_key(j) implies {
        &&& left + GRID_SPACING_X / 2 <= m[j].x <= right - GRID_SPACING_X / 2
        &&& top <= m[j].y
    } by {
        assert(b.contains_key(j) || a.contains_key(j));
    }
    assert forall|i: usize, j: usize| #[trigger]
        m.contains_key(i) && #[trigger] m.contains_key(j) && i != j implies apart(m[i], m[j]) by {
        assert(b.contains_key(i) || a.contains_key(i));
        assert(b.contains_key(j) || a.contains_key(j));
    }
}

/// The cards of the first children of a node lie side by side.
proof fn lemma_row_boxed(
    t: Seq<NodeView>,
    visible: Set<usize>,
    id: int,
    left: int,
    depth: int,
    top: int,
    k: nat,
)
    requires
        is_linked(t),
        0 <= id < t.len() <= usize::MAX,
        k <= t[id].children.len(),
        i128::MIN <= left,
        left + row_width(t, visible, id, t[id].children.len()) <= i128::MAX,
        i128::MIN <= top,
        top + LEVEL_HEIGHT * (depth - 1 + t.len() - id) + GRID_SPACING_Y * t.len() <= i128::MAX,
        0 < depth,
    ensures
        boxed(
            row_placed(t, visible, id, left, depth, top, k, Map::empty()),
            left,
            left + row_width(t, visible, id, k),
            top + depth * LEVEL_HEIGHT,
        ),
    decreases t.len() - id, 0nat, k,
{
    let none = Map::<usize, LayoutPoint>::empty();
    if k > 0 {
        lemma_row_boxed(t, visible, id, left, depth, top, (k - 1) as nat);
        let before = row_placed(t, visible, id, left, depth, top, (k - 1) as nat, none);
        let child = t[id].children[k - 1];
        let at = left + row_width(t, visible, id, (k - 1) as nat);
        lemma_row_step(t, visible, id, k - 1);
        if visible.contains(child) {
            let y = top + depth * LEVEL_HEIGHT;
            lemma_placed_boxed(t, visible, child as int, at, depth, top);
            lemma_placed_adds(t, visible, child as int, at, depth, top, before);
            let own = placed(t, visible, child as int, at, depth, top, none);
            let right = at + subtree_width(t, visible, child as int);
            lemma_boxed_union(before, own, left, at, right, y);
        }
    } else {
        assert(row_placed(t, visible, id, left, depth, top, k, none) =~= none);
    }
}

/// The children of a node in a grid, by their ranks.
proof fn lemma_grid_ranks(
    t: Seq<NodeView>,
    visible: Set<usize>,
    id: int,
    first_x: int,
    first_y: int,
    k: nat,
    j: usize,
) -> (i: int)
    requires
        0 <= id < t.len(),
        k <= t[id].children.len(),
        grid_placed(t, visible, id, first_x, first_y, k, Map::empty()).contains_key(j),
    ensures
        0 <= i < k,
        t[id].children[i] == j,
        visible.contains(j),
        grid_placed(t, visible, id, first_x, first_y, k, Map::empty())[j] == grid_point(
            first_x,
            first_y,
            shown_count(t, visible, id, i as nat) as int,
        ),
    decreases k,
{
    let none = Map::<usize, LayoutPoint>::empty();
    assert(k > 0);
    let child = t[id].children[k - 1];
    if visible.contains(child) && child == j {
        k - 1
    } else {
        lemma_grid_ranks(t, visible, id, first_x, first_y, (k - 1) as nat, j)
    }
}

proof fn lemma_shown_count_grows(t: Seq<NodeView>, visible: Set<usize>, id: int, i: nat, k: nat)
    requires
        i < k,
        visible.contains(t[id].children[i as int]),
    ensures
        shown_count(t, visible, id, i) < shown_count(t, visible, id, k),
    decreases k,
{
    if i + 1 < k {
        lemma_shown_count_grows(t, visible, id, i, (k - 1) as nat);
    }
}

/// The cards of a grid lie in its columns and rows.
proof fn lemma_grid_boxed(
    t: Seq<NodeView>,
    visible: Set<usize>,
    id: int,
    first_x: int,
    first_y: int,
    k: nat,
)
    requires
        is_linked(t),
        0 <= id < t.len() <= usize::MAX,
        k <= t[id].children.len(),
        i128::MIN <= first_x,
        first_x + GRID_WIDTH - GRID_SPACING_X <= i128::MAX,
        i128::MIN <= first_y,
        first_y + GRID_SPACING_Y * t.len() <= i128::MAX,
    ensures
        boxed(
            grid_placed(t, visible, id, first_x, first_y, k, Map::empty()),
            first_x - GRID_SPACING_X / 2,
            first_x - GRID_SPACING_X / 2 + GRID_WIDTH,
            first_y,
        ),
{
    let m = grid_placed(t, visible, id, first_x, first_y, k, Map::empty());
    lemma_below_count(t, id, t[id].children.len());
    assert forall|j: usize| #[trigger] m.contains_key(j) implies {
        &&& first_x <= m[j].x <= first_x + GRID_WIDTH - GRID_SPACING_X
        &&& first_y <= m[j].y
    } by {
        let i = lemma_grid_ranks(t, visible, id, first_x, first_y, k, j);
        lemma_shown_count(t, visible, id, i as nat);
    }
    assert forall|a: usize, b: usize| #[trigger]
        m.contains_key(a) && #[trigger] m.contains_key(b) && a != b implies apart(m[a], m[b]) by {
        let i = lemma_grid_ranks(t, visible, id, first_x, first_y, k, a);
        let j = lemma_grid_ranks(t, visible, id, first_x, first_y, k, b);
        lemma_shown_count(t, visible, id, i as nat);
        lemma_shown_count(t, visible, id, j as nat);
        if i < j {
            lemma_shown_count_grows(t, visible, id, i as nat, j as nat);
        } else {
            lemma_shown_count_grows(t, visible, id, j as nat, i as nat);
        }
    }
}

proof fn lemma_layout_boxed(
    t: Seq<NodeView>,
    visible: Set<usize>,
    id: int,
    center: int,
    top: int,
)
    requires
        linked(t),
        0 <= id < t.len() <= usize::MAX,
        can_be_laid_out(t, visible, id, center, top),
    ensures
        boxed(
            layout_at(t, visible, id, center, top),
            centred_left(t, visible, id, center),
            centred_left(t, visible, id, center) + subtree_width(t, visible, id),
            top,
        ),
{
    assert(is_linked(t)) by {
        reveal(is_linked);
    }
    lemma_width_bound(t, visible, id);
    lemma_placed_boxed(t, visible, id, centred_left(t, visible, id, center), 0, top);
}

/// The root stands at the top, in the middle of the canvas.
pub proof fn law_root_is_centred(
    t: Seq<NodeView>,
    visible: Set<usize>,
    root: usize,
    center: int,
    top: int,
)
    requires
        linked(t),
        root < t.len() <= usize::MAX,
        can_be_laid_out(t, visible, root as int, center, top),
    ensures
        layout_at(t, visible, root as int, center, top).contains_key(root),
        layout_at(t, visible, root as int, center, top)[root] == point(center, top),
{
    assert(is_linked(t)) by {
        reveal(is_linked);
    }
    lemma_root_centred(t, visible, root, center, top);
}

proof fn lemma_root_centred(
    t: Seq<NodeView>,
    visible: Set<usize>,
    root: usize,
    center: int,
    top: int,
)
    requires
        is_linked(t),
        root < t.len() <= usize::MAX,
    ensures
        layout_at(t, visible, root as int, center, top).contains_key(root),
        layout_at(t, visible, root as int, center, top)[root] == point(center, top),
{
    let id = root as int;
    lemma_row_end(t, visible, id);
    let left = centred_left(t, visible, id, center);
    if all_shown(t, visible, id) > ROW_LIMIT {
        let none = Map::<usize, LayoutPoint>::empty();
        let own = point(left + GRID_WIDTH / 2, top);
        let x0 = left + GRID_SPACING_X / 2;
        let y0 = top + LEVEL_HEIGHT;
        let n = t[id].children.len();
        lemma_grid_adds(t, visible, id, x0, y0, n, none.insert(root, own));
        lemma_grid_without_parent(t, visible, id, x0, y0, n);
        assert(layout_at(t, visible, id, center, top)[root] == own);
    }
}

/// No two cards of a layout overlap: any two are apart by at least a grid
/// column's distance horizontally or a grid row's distance vertically.
pub proof fn law_cards_do_not_overlap(
    t: Seq<NodeView>,
    visible: Set<usize>,
    root: usize,
    center: int,
    top: int,
    i: usize,
    j: usize,
)
    requires
        linked(t),
        root < t.len() <= usize::MAX,
        can_be_laid_out(t, visible, root as int, center, top),
        layout_at(t, visible, root as int, center, top).contains_key(i),
        layout_at(t, visible, root as int, center, top).contains_key(j),
        i != j,
    ensures
        apart(
            layout_at(t, visible, root as int, center, top)[i],
            layout_at(t, visible, root as int, center, top)[j],
        ),
{
    lemma_layout_boxed(t, visible, root as int, center, top);
}

/// Every card of a layout lies within the width of the root's subtree, and on
/// or below the root: its centre keeps half a column's distance from either edge.
pub proof fn law_cards_lie_within_the_width(
    t: Seq<NodeView>,
    visible: Set<usize>,
    root: usize,
    center: int,
    top: int,
    j: usize,
)
    requires
        linked(t),
        root < t.len() <= usize::MAX,
        can_be_laid_out(t, visible, root as int, center, top),
        layout_at(t, visible, root as int, center, top).contains_key(j),
    ensures
        ({
            let card = layout_at(t, visible, root as int, center, top)[j];
            let left = centred_left(t, visible, root as int, center);
            let right = left + subtree_width(t, visible, root as int);
            &&& left + GRID_SPACING_X / 2 <= card.x <= right - GRID_SPACING_X / 2
            &&& top <= card.y
        }),
{
    lemma_layout_boxed(t, visible, root as int, center, top);
}

/// A subtree ends its own width after its left edge, wherever that is and
/// whatever the table, and a node that is not in the table takes a slot.
pub proof fn law_subtree_ends_after_its_width(
    t: Seq<NodeView>,
    visible: Set<usize>,
    id: int,
    left: int,
)
    ensures
        subtree_end(t, visible, id, left) == left + subtree_width(t, visible, id),
        id >= t.len() ==> subtree_end(t, visible, id, left) == left + SLOT_WIDTH,
    decreases t.len() - id, 1nat, 0nat,
{
    if 0 <= id < t.len() {
        lemma_row_ends_after_its_width(t, visible, id, left, t[id].children.len());
    }
}

proof fn lemma_row_ends_after_its_width(
    t: Seq<NodeView>,
    visible: Set<usize>,
    id: int,
    left: int,
    k: nat,
)
    ensures
        row_end(t, visible, id, left, k) == left + row_width(t, visible, id, k),
    decreases t.len() - id, 0nat, k,
{
    if k > 0 && 0 <= id < t.len() {
        lemma_row_ends_after_its_width(t, visible, id, left, (k - 1) as nat);
        let child = t[id].children[k - 1];
        if visible.contains(child) && id < child < t.len() {
            let before = row_end(t, visible, id, left, (k - 1) as nat);
            law_subtree_ends_after_its_width(t, visible, child as int, before);
        }
    }
}

/// Wherever a subtree is placed, its cards lie within its width and on or
/// below its root: their centres keep half a column's distance from either edge.
pub proof fn law_placed_within_the_width(
    t: Seq<NodeView>,
    visible: Set<usize>,
    id: int,
    left: int,
    depth: int,
    top: int,
    j: usize,
)
    requires
        linked(t),
        0 <= id < t.len() <= usize::MAX,
        can_be_placed(t, visible, id, left, depth, top),
        placed(t, visible, id, left, depth, top, Map::empty()).contains_key(j),
    ensures
        ({
            let card = placed(t, visible, id, left, depth, top, Map::empty())[j];
            let right = left + subtree_width(t, visible, id);
            &&& left + GRID_SPACING_X / 2 <= card.x <= right - GRID_SPACING_X / 2
            &&& top + depth * LEVEL_HEIGHT <= card.y
        }),
{
    assert(is_linked(t)) by {
        reveal(is_linked);
    }
    lemma_can_be_placed(t, visible, id, left, depth, top);
    lemma_placed_boxed(t, visible, id, left, depth, top);
}

/// Wherever a subtree is placed, no two of its cards overlap.
pub proof fn law_placed_cards_do_not_overlap(
    t: Seq<NodeView>,
    visible: Set<usize>,
    id: int,
    left: int,
    depth: int,
    top: int,
    i: usize,
    j: usize,
)
    requires
        linked(t),
        0 <= id < t.len() <= usize::MAX,
        can_be_placed(t, visible, id, left, depth, top),
        placed(t, visible, id, left, depth, top, Map::empty()).contains_key(i),
        placed(t, visible, id, left, depth, top, Map::empty()).contains_key(j),
        i != j,
    ensures
        apart(
            placed(t, visible, id, left, depth, top, Map::empty())[i],
            placed(t, visible, id, left, depth, top, Map::empty())[j],
        ),
{
    assert(is_linked(t)) by {
        reveal(is_linked);
    }
    lemma_can_be_placed(t, visible, id, left, depth, top);
    lemma_placed_boxed(t, visible, id, left, depth, top);
}

/// What is placed already stays, but for the nodes of the subtree.
pub proof fn law_placing_adds(
    t: Seq<NodeView>,
    visible: Set<usize>,
    id: int,
    left: int,
    depth: int,
    top: int,
    positions: Map<usize, LayoutPoint>,
)
    ensures
        placed(t, visible, id, left, depth, top, positions) == positions.union_prefer_right(
            placed(t, visible, id, left, depth, top, Map::empty()),
        ),
{
    lemma_placed_adds(t, visible, id, left, depth, top, positions);
}

/// A node that is not in the table takes a slot and is not placed.
pub proof fn law_unknown_node_takes_a_slot(
    t: Seq<NodeView>,
    visible: Set<usize>,
    id: int,
    left: int,
    depth: int,
    top: int,
    positions: Map<usize, LayoutPoint>,
)
    requires
        id >= t.len(),
    ensures
        subtree_width(t, visible, id) == SLOT_WIDTH,
        placed(t, visible, id, left, depth, top, positions) == positions,
{
}

/// Whether a node has a place in the layout of the tree at a root: it is the
/// root, or it is visible, its parent has a place and does not stand in a grid.
pub open spec fn has_place(t: Seq<NodeView>, visible: Set<usize>, root: int, j: int) -> bool
    decreases j,
{
    ||| j == root
    ||| {
        &&& 0 <= j < t.len()
        &&& visible.contains(j as usize)
        &&& t[j].parent matches Some(p) && p < j && has_place(t, visible, root, p as int) && (p
            == root || !in_grid(t, visible, p as int))
    }
}

/// Whether a node is one of the many visible children of its parent.
pub open spec fn in_grid(t: Seq<NodeView>, visible: Set<usize>, j: int) -> bool {
    t[j].parent matches Some(p) && all_shown(t, visible, p as int) > ROW_LIMIT
}

/// What has a place below a node has one below a visible child of it.
proof fn lemma_place_below_child(
    t: Seq<NodeView>,
    visible: Set<usize>,
    id: int,
    j: int,
) -> (i: int)
    requires
        consistent(t),
        0 <= id < t.len(),
        all_shown(t, visible, id) <= ROW_LIMIT,
        j != id,
        has_place(t, visible, id, j),
    ensures
        0 <= i < t[id].children.len(),
        visible.contains(t[id].children[i]),
        has_place(t, visible, t[id].children[i] as int, j),
    decreases j,
{
    let p = t[j].parent->0 as int;
    assert(t[p].children.contains(j as usize));
    if p == id {
        let i = t[id].children.index_of(j as usize);
        i
    } else {
        let i = lemma_place_below_child(t, visible, id, p);
        i
    }
}

/// What has a place below a visible child of a node has one below the node.
proof fn lemma_child_place(t: Seq<NodeView>, visible: Set<usize>, id: int, i: int, j: int)
    requires
        consistent(t),
        0 <= id < t.len(),
        all_shown(t, visible, id) <= ROW_LIMIT,
        0 <= i < t[id].children.len(),
        visible.contains(t[id].children[i]),
        has_place(t, visible, t[id].children[i] as int, j),
    ensures
        has_place(t, visible, id, j),
        id < j,
    decreases j,
{
    let c = t[id].children[i] as int;
    assert(t[c].parent == Some(id as usize));
    if j == c {
        assert(has_place(t, visible, id, id));
    } else {
        lemma_child_place(t, visible, id, i, t[j].parent->0 as int);
    }
}

/// The nodes that are placed with the subtree of a node.
proof fn lemma_placed_domain(
    t: Seq<NodeView>,
    visible: Set<usize>,
    id: int,
    left: int,
    depth: int,
    top: int,
    j: usize,
)
    requires
        consistent(t),
        0 <= id < t.len() <= usize::MAX,
    ensures
        placed(t, visible, id, left, depth, top, Map::empty()).contains_key(j) <==> has_place(
            t,
            visible,
            id,
            j as int,
        ),
    decreases t.len() - id, 1nat, 0nat,
{
    let none = Map::<usize, LayoutPoint>::empty();
    let n = t[id].children.len();
    if j == id {
        if all_shown(t, visible, id) > ROW_LIMIT {
            let x0 = left + GRID_SPACING_X / 2;
            let y0 = top + depth * LEVEL_HEIGHT + LEVEL_HEIGHT;
            let own = none.insert(id as usize, point(left + GRID_WIDTH / 2, top + depth * LEVEL_HEIGHT));
            lemma_grid_adds(t, visible, id, x0, y0, n, own);
        }
    } else if all_shown(t, visible, id) > ROW_LIMIT {
        let x0 = left + GRID_SPACING_X / 2;
        let y0 = top + depth * LEVEL_HEIGHT + LEVEL_HEIGHT;
        let own = none.insert(id as usize, point(left + GRID_WIDTH / 2, top + depth * LEVEL_HEIGHT));
        lemma_grid_adds(t, visible, id, x0, y0, n, own);
        lemma_grid_domain(t, visible, id, x0, y0, n, j);
        if has_place(t, visible, id, j as int) {
            lemma_grid_place(t, visible, id, j as int);
            let i = t[id].children.index_of(j);
            assert(t[id].children[i] == j);
        }
        if grid_placed(t, visible, id, x0, y0, n, none).contains_key(j) {
            let i = choose|i: int|
                0 <= i < n && #[trigger] t[id].children[i] == j && visible.contains(j);
            assert(t[j as int].parent == Some(id as usize));
            assert(has_place(t, visible, id, id));
        }
    } else {
        lemma_row_domain(t, visible, id, left, depth + 1, top, n, j);
        let row = row_placed(t, visible, id, left, depth + 1, top, n, none);
        if has_place(t, visible, id, j as int) {
            let i = lemma_place_below_child(t, visible, id, j as int);
            if all_shown(t, visible, id) == 0 {
                lemma_shown_count_grows(t, visible, id, i as nat, n);
            }
        } else if row.contains_key(j) {
            let i = choose|i: int|
                0 <= i < n && visible.contains(#[trigger] t[id].children[i]) && has_place(
                    t,
                    visible,
                    t[id].children[i] as int,
                    j as int,
                );
            lemma_child_place(t, visible, id, i, j as int);
        }
    }
}

/// Below a node whose children stand in a grid nothing but these has a place.
proof fn lemma_grid_place(t: Seq<NodeView>, visible: Set<usize>, id: int, j: int)
    requires
        consistent(t),
        0 <= id < t.len(),
        all_shown(t, visible, id) > ROW_LIMIT,
        j != id,
        has_place(t, visible, id, j),
    ensures
        0 <= j < t.len(),
        t[j].parent == Some(id as usize),
        t[id].children.contains(j as usize),
        visible.contains(j as usize),
    decreases j,
{
    let p = t[j].parent->0 as int;
    if p != id {
        lemma_grid_place(t, visible, id, p);
    }
}

/// The nodes of a grid are the visible children.
proof fn lemma_grid_domain(
    t: Seq<NodeView>,
    visible: Set<usize>,
    id: int,
    first_x: int,
    first_y: int,
    k: nat,
    j: usize,
)
    requires
        0 <= id < t.len(),
        k <= t[id].children.len(),
    ensures
        grid_placed(t, visible, id, first_x, first_y, k, Map::empty()).contains_key(j)
            <==> exists|i: int|
            0 <= i < k && #[trigger] t[id].children[i] == j && visible.contains(j),
    decreases k,
{
    if k > 0 {
        lemma_grid_domain(t, visible, id, first_x, first_y, (k - 1) as nat, j);
        assert(t[id].children[k - 1] == t[id].children[k - 1]);
    }
}

/// The nodes of a row are those placed with the visible children.
proof fn lemma_row_domain(
    t: Seq<NodeView>,
    visible: Set<usize>,
    id: int,
    left: int,
    depth: int,
    top: int,
    k: nat,
    j: usize,
)
    requires
        consistent(t),
        0 <= id < t.len() <= usize::MAX,
        k <= t[id].children.len(),
    ensures
        row_placed(t, visible, id, left, depth, top, k, Map::empty()).contains_key(j)
            <==> exists|i: int|
            0 <= i < k && visible.contains(#[trigger] t[id].children[i]) && has_place(
                t,
                visible,
                t[id].children[i] as int,
                j as int,
            ),
    decreases t.len() - id, 0nat, k,
{
    let none = Map::<usize, LayoutPoint>::empty();
    if k > 0 {
        lemma_row_domain(t, visible, id, left, depth, top, (k - 1) as nat, j);
        let child = t[id].children[k - 1];
        assert(t[child as int].parent == Some(id as usize));
        let before = row_placed(t, visible, id, left, depth, top, (k - 1) as nat, none);
        if visible.contains(child) {
            let at = left + row_width(t, visible, id, (k - 1) as nat);
            lemma_placed_adds(t, visible, child as int, at, depth, top, before);
            lemma_placed_domain(t, visible, child as int, at, depth, top, j);
        }
    }
}

/// The layout places the root, and every visible node whose parent has a place
/// and does not itself stand in a grid, and nothing else.
pub proof fn law_layout_covers(
    t: Seq<NodeView>,
    visible: Set<usize>,
    root: usize,
    center: int,
    top: int,
    j: usize,
)
    requires
        consistent(t),
        root < t.len() <= usize::MAX,
    ensures
        layout_at(t, visible, root as int, center, top).contains_key(j) <==> has_place(
            t,
            visible,
            root as int,
            j as int,
        ),
{
    let left = centred_left(t, visible, root as int, center);
    lemma_placed_domain(t, visible, root as int, left, 0, top, j);
}

/// The visible ones of the first children of a node, counted and measured.
proof fn lemma_shown_first(t: Seq<NodeView>, visible: Set<usize>, id: int, k: nat)
    requires
        is_linked(t),
        0 <= id < t.len(),
        k <= t[id].children.len(),
    ensures
        shown_count(t, visible, id, k) == t[id].children.take(
            k as int,
        ).filter(|child: usize| visible.contains(child)).len(),
        row_width(t, visible, id, k) == t[id].children.take(
            k as int,
        ).filter(|child: usize| visible.contains(child)).map_values(
            |child: usize| subtree_width(t, visible, child as int),
        ).fold_left(0, |sum: int, width: int| sum + width),
    decreases k,
{
    reveal(Seq::filter);
    let keep = |child: usize| visible.contains(child);
    let measure = |child: usize| subtree_width(t, visible, child as int);
    let first = t[id].children.take(k as int);
    if k > 0 {
        lemma_shown_first(t, visible, id, (k - 1) as nat);
        lemma_child(t, id, k - 1);
        assert(first.drop_last() =~= t[id].children.take(k - 1));
        let before = first.drop_last().filter(keep);
        if visible.contains(first.last()) {
            let shown = first.filter(keep);
            assert(shown =~= before.push(first.last()));
            assert(shown.map_values(measure).drop_last() =~= before.map_values(measure));
        }
    }
}

/// The width of a subtree: 420 where the node has no visible children, 1950
/// where it has more than eight of them, and otherwise the widths of the
/// subtrees of its visible children added up.
pub proof fn law_widths(t: Seq<NodeView>, visible: Set<usize>, id: int)
    requires
        linked(t),
        0 <= id < t.len(),
    ensures
        ({
            let shown = t[id].children.filter(|child: usize| visible.contains(child));
            let width = subtree_width(t, visible, id);
            &&& shown.len() == 0 ==> width == 420
            &&& shown.len() > 8 ==> width == 1950
            &&& 0 < shown.len() <= 8 ==> width == shown.map_values(
                |child: usize| subtree_width(t, visible, child as int),
            ).fold_left(0, |sum: int, width: int| sum + width)
        }),
{
    assert(is_linked(t)) by {
        reveal(is_linked);
    }
    let n = t[id].children.len();
    lemma_shown_first(t, visible, id, n);
    lemma_row_end(t, visible, id);
    assert(t[id].children.take(n as int) =~= t[id].children);
}

/// Wherever a subtree is placed, its root stands over the middle of its width,
/// 220 below the line of its parent's level.
pub proof fn law_root_stands_over_the_middle(
    t: Seq<NodeView>,
    visible: Set<usize>,
    id: int,
    left: int,
    depth: int,
    top: int,
)
    requires
        linked(t),
        0 <= id < t.len() <= usize::MAX,
    ensures
        placed(t, visible, id, left, depth, top, Map::empty()).contains_key(id as usize),
        placed(t, visible, id, left, depth, top, Map::empty())[id as usize] == (LayoutPoint {
            x: (left + subtree_width(t, visible, id) / 2) as i128,
            y: (top + depth * 220) as i128,
        }),
{
    assert(is_linked(t)) by {
        reveal(is_linked);
    }
    lemma_row_end(t, visible, id);
    if all_shown(t, visible, id) > ROW_LIMIT {
        let n = t[id].children.len();
        let y = top + depth * LEVEL_HEIGHT;
        let root: Map<usize, LayoutPoint> = Map::empty().insert(
            id as usize,
            point(left + GRID_WIDTH / 2, y),
        );
        let first_x = left + GRID_SPACING_X / 2;
        let first_y = y + LEVEL_HEIGHT;
        lemma_grid_adds(t, visible, id, first_x, first_y, n, root);
        lemma_grid_domain(t, visible, id, first_x, first_y, n, id as usize);
        assert forall|i: int| 0 <= i < n implies #[trigger] t[id].children[i] != id by {
            lemma_child(t, id, i);
        }
    }
}

/// The nodes that the layout of a subtree places lie in the subtree.
proof fn lemma_place_in_subtree(t: Seq<NodeView>, visible: Set<usize>, root: int, j: int)
    requires
        consistent(t),
        0 <= root < t.len(),
        has_place(t, visible, root, j),
    ensures
        in_subtree(t, root, j),
    decreases j,
{
    if j != root {
        let p = t[j].parent->0 as int;
        lemma_place_in_subtree(t, visible, root, p);
    }
}

/// What the subtree of a child of a row places stays where it is.
proof fn lemma_row_keeps(
    t: Seq<NodeView>,
    visible: Set<usize>,
    id: int,
    left: int,
    depth: int,
    top: int,
    k: nat,
    n: nat,
    j: usize,
)
    requires
        linked(t),
        0 <= id < t.len() <= usize::MAX,
        k < n <= t[id].children.len(),
        visible.contains(t[id].children[k as int]),
        placed(
            t,
            visible,
            t[id].children[k as int] as int,
            left + row_width(t, visible, id, k),
            depth,
            top,
            Map::empty(),
        ).contains_key(j),
    ensures
        row_placed(t, visible, id, left, depth, top, n, Map::empty()).contains_key(j),
        row_placed(t, visible, id, left, depth, top, n, Map::empty())[j] == placed(
            t,
            visible,
            t[id].children[k as int] as int,
            left + row_width(t, visible, id, k),
            depth,
            top,
            Map::empty(),
        )[j],
    decreases n,
{
    assert(is_linked(t)) by {
        reveal(is_linked);
    }
    let less = (n - 1) as nat;
    let last = t[id].children[n - 1] as int;
    let before = row_placed(t, visible, id, left, depth, top, less, Map::empty());
    let at = left + row_width(t, visible, id, less);
    lemma_child(t, id, n - 1);
    lemma_placed_adds(t, visible, last, at, depth, top, before);
    if k < less {
        lemma_row_keeps(t, visible, id, left, depth, top, k, less, j);
        if visible.contains(last as usize) {
            let child = t[id].children[k as int] as int;
            lemma_child(t, id, k as int);
            lemma_children_differ(t, id, k as int, n - 1);
            lemma_placed_domain(
                t,
                visible,
                child,
                left + row_width(t, visible, id, k),
                depth,
                top,
                j,
            );
            lemma_placed_domain(t, visible, last, at, depth, top, j);
            lemma_place_in_subtree(t, visible, child, j as int);
            if has_place(t, visible, last, j as int) {
                lemma_place_in_subtree(t, visible, last, j as int);
                lemma_subtrees_disjoint(t, id, child, last, j as int);
            }
        }
    }
}

/// The subtrees of up to eight visible children stand side by side: each is
/// placed one level down, with its left edge where the subtrees of the visible
/// children before it end.
pub proof fn law_children_side_by_side(
    t: Seq<NodeView>,
    visible: Set<usize>,
    id: int,
    left: int,
    depth: int,
    top: int,
    k: int,
    j: usize,
)
    requires
        linked(t),
        0 <= id < t.len() <= usize::MAX,
        0 <= k < t[id].children.len(),
        visible.contains(t[id].children[k]),
        t[id].children.filter(|child: usize| visible.contains(child)).len() <= 8,
        placed(
            t,
            visible,
            t[id].children[k] as int,
            left + t[id].children.take(k).filter(
                |child: usize| visible.contains(child),
            ).map_values(|child: usize| subtree_width(t, visible, child as int)).fold_left(
                0,
                |sum: int, width: int| sum + width,
            ),
            depth + 1,
            top,
            Map::empty(),
        ).contains_key(j),
    ensures
        placed(t, visible, id, left, depth, top, Map::empty()).contains_key(j),
        placed(t, visible, id, left, depth, top, Map::empty())[j] == placed(
            t,
            visible,
            t[id].children[k] as int,
            left + t[id].children.take(k).filter(
                |child: usize| visible.contains(child),
            ).map_values(|child: usize| subtree_width(t, visible, child as int)).fold_left(
                0,
                |sum: int, width: int| sum + width,
            ),
            depth + 1,
            top,
            Map::empty(),
        )[j],
{
    assert(is_linked(t)) by {
        reveal(is_linked);
    }
    let n = t[id].children.len();
    let child = t[id].children[k] as int;
    lemma_shown_first(t, visible, id, k as nat);
    lemma_shown_first(t, visible, id, n);
    assert(t[id].children.take(n as int) =~= t[id].children);
    lemma_shown_count_grows(t, visible, id, k as nat, n);
    lemma_row_keeps(t, visible, id, left, depth + 1, top, k as nat, n, j);
    lemma_child(t, id, k);
    let at = left + row_width(t, visible, id, k as nat);
    lemma_placed_domain(t, visible, child, at, depth + 1, top, j);
    lemma_place_in_subtree(t, visible, child, j as int);
    lemma_subtree_after_root(t, child, j as int);
}

/// More than eight visible children stand in a grid of five columns: 390 apart
/// from left to right, 130 from row to row, in the order of the children.
pub proof fn law_grid_of_five_columns(
    t: Seq<NodeView>,
    visible: Set<usize>,
    id: int,
    left: int,
    depth: int,
    top: int,
    k: int,
)
    requires
        linked(t),
        0 <= id < t.len() <= usize::MAX,
        0 <= k < t[id].children.len(),
        visible.contains(t[id].children[k]),
        t[id].children.filter(|child: usize| visible.contains(child)).len() > 8,
    ensures
        placed(t, visible, id, left, depth, top, Map::empty()).contains_key(t[id].children[k]),
        ({
            let rank = t[id].children.take(k).filter(
                |child: usize| visible.contains(child),
            ).len() as int;
            placed(t, visible, id, left, depth, top, Map::empty())[t[id].children[k]] == (
            LayoutPoint {
                x: (left + 195 + (rank % 5) * 390) as i128,
                y: (top + depth * 220 + 220 + (rank / 5) * 130) as i128,
            })
        }),
{
    assert(is_linked(t)) by {
        reveal(is_linked);
    }
    let n = t[id].children.len();
    let child = t[id].children[k];
    lemma_shown_first(t, visible, id, k as nat);
    lemma_shown_first(t, visible, id, n);
    assert(t[id].children.take(n as int) =~= t[id].children);
    let y = top + depth * LEVEL_HEIGHT;
    let root: Map<usize, LayoutPoint> = Map::empty().insert(
        id as usize,
        point(left + GRID_WIDTH / 2, y),
    );
    let first_x = left + GRID_SPACING_X / 2;
    let first_y = y + LEVEL_HEIGHT;
    lemma_grid_adds(t, visible, id, first_x, first_y, n, root);
    lemma_grid_domain(t, visible, id, first_x, first_y, n, child);
    let i = lemma_grid_ranks(t, visible, id, first_x, first_y, n, child);
    if i < k {
        lemma_children_differ(t, id, i, k);
    }
    if k < i {
        lemma_children_differ(t, id, k, i);
    }
}

/// The root has a place, and a node below it has one exactly where it is
/// visible, its parent has a place, and the parent, unless it is the root, is
/// not one of more than eight visible children.
pub proof fn law_who_has_a_place(t: Seq<NodeView>, visible: Set<usize>, root: int, j: int)
    requires
        linked(t),
        0 <= root < t.len(),
        0 <= j < t.len() <= usize::MAX,
    ensures
        has_place(t, visible, root, root),
        j != root && t[j].parent is None ==> !has_place(t, visible, root, j),
        j != root ==> (t[j].parent matches Some(p) ==> (has_place(t, visible, root, j)
            <==> visible.contains(j as usize) && has_place(t, visible, root, p as int) && (p == root
            || t[p as int].parent is None || t[t[p as int].parent->0 as int].children.filter(
            |child: usize| visible.contains(child),
        ).len() <= 8))),
{
    assert(is_linked(t)) by {
        reveal(is_linked);
    }
    if j != root && t[j].parent is Some {
        let p = t[j].parent->0 as int;
        assert(t[p].children.contains(j as usize));
        if t[p].parent is Some {
            let q = t[p].parent->0 as int;
            assert(t[q].children.contains(p as usize));
            let n = t[q].children.len();
            lemma_shown_first(t, visible, q, n);
            assert(t[q].children.take(n as int) =~= t[q].children);
        }
    }
}

/// The layout of a tree is that of its subtree, moved so that half of its width
/// lies on either side of the line: its root stands on the line, at the top.
pub proof fn law_layout_is_centred(
    t: Seq<NodeView>,
    visible: Set<usize>,
    root: usize,
    center: int,
    top: int,
)
    requires
        linked(t),
        root < t.len() <= usize::MAX,
    ensures
        layout_at(t, visible, root as int, center, top) == placed(
            t,
            visible,
            root as int,
            center - subtree_width(t, visible, root as int) / 2,
            0,
            top,
            Map::empty(),
        ),
        layout_at(t, visible, root as int, center, top)[root] == (LayoutPoint {
            x: center as i128,
            y: top as i128,
        }),
{
    law_root_stands_over_the_middle(
        t,
        visible,
        root as int,
        center - subtree_width(t, visible, root as int) / 2,
        0,
        top,
    );
}

/// A tree can be laid out around any point whose coordinates are not more than
/// the hundredth power of two, whatever its size, and a subtree placed with its
/// left edge and its top there.
pub proof fn law_layouts_near_the_origin(
    t: Seq<NodeView>,
    visible: Set<usize>,
    id: int,
    x: int,
    y: int,
    depth: int,
)
    requires
        -1_267_650_600_228_229_401_496_703_205_376 <= x
            <= 1_267_650_600_228_229_401_496_703_205_376,
        -1_267_650_600_228_229_401_496_703_205_376 <= y
            <= 1_267_650_600_228_229_401_496_703_205_376,
    ensures
        can_be_laid_out(t, visible, id, x, y),
        depth >= 0 && depth + t.len() - id <= usize::MAX ==> can_be_placed(
            t,
            visible,
            id,
            x,
            depth,
            y,
        ),
{
}

} // verus!
