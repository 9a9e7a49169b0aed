use merkle_audit::history::PinnedPoint;
use merkle_audit::layout::{
    compute_hierarchical_positions, compute_subtree_bounds, place_subtrees_non_overlapping,
    LayoutPoint,
};
use merkle_audit::navigation::{
    drop_request, find_folder_hit, get_final_pos, is_active_edge, pin_request, visible_edges, CardPlace,
};
use merkle_audit::node::Node;
use merkle_audit::session::MerkleApp;
use merkle_audit::visible::{id_set, is_ancestor, visible_nodes};
use std::collections::HashMap;

/// A tree from the parents of its nodes, which are listed depth first. Nodes
/// with children are folders.
fn tree(parents: &[Option<usize>]) -> Vec<Node> {
    let mut nodes: Vec<Node> = Vec::new();
    for (id, parent) in parents.iter().enumerate() {
        nodes.push(Node {
            id,
            name: format!("n{}", id),
            path: format!("/n{}", id),
            hash_hex: String::new(),
            children: vec![],
            parent: *parent,
            modified_timestamp: 0,
            size_bytes: 0,
            is_dir: false,
            source: id,
        });
        if let Some(p) = parent {
            nodes[*p].children.push(id);
            nodes[*p].is_dir = true;
        }
    }
    nodes
}

/// A root with a folder of five files and a folder of two.
fn two_folders() -> Vec<Node> {
    tree(&[
        None,
        Some(0),
        Some(1),
        Some(1),
        Some(1),
        Some(1),
        Some(1),
        Some(0),
        Some(7),
        Some(7),
    ])
}

fn at(x: i128, y: i128) -> LayoutPoint {
    LayoutPoint { x, y }
}

#[test]
fn crowded_folder_is_collapsed_unless_zoomed_in() {
    let nodes = two_folders();
    assert_eq!(visible_nodes(&nodes, 0, false), vec![0, 7, 9, 8, 1]);
    assert_eq!(visible_nodes(&nodes, 0, true), vec![0, 7, 9, 8, 1, 6, 5, 4, 3, 2]);
}

#[test]
fn focused_folder_is_never_collapsed() {
    assert_eq!(visible_nodes(&two_folders(), 1, false), vec![1, 6, 5, 4, 3, 2]);
}

#[test]
fn root_that_is_gone_is_shown_alone() {
    assert_eq!(visible_nodes(&two_folders(), 50, false), vec![50]);
    let visible = id_set(&vec![50]);
    assert!(compute_hierarchical_positions(&two_folders(), 50, &visible, 0, 0).is_empty());
}

#[test]
fn ancestors_are_found_at_any_distance() {
    let nodes = two_folders();
    assert!(is_ancestor(&nodes, 0, 3));
    assert!(is_ancestor(&nodes, 1, 3));
    assert!(!is_ancestor(&nodes, 7, 3));
    assert!(!is_ancestor(&nodes, 3, 3));
    assert!(!is_ancestor(&nodes, 3, 0));
    assert!(!is_ancestor(&nodes, 0, 99));
}

#[test]
fn lone_node_takes_one_slot() {
    let nodes = tree(&[None]);
    let visible = id_set(&vec![0]);
    assert_eq!(compute_subtree_bounds(&nodes, 0, &visible), 420);
    let positions = compute_hierarchical_positions(&nodes, 0, &visible, 0, 0);
    assert_eq!(positions.len(), 1);
    assert_eq!(positions[&0], at(0, 0));
}

#[test]
fn row_is_centred_below_its_parent() {
    let nodes = tree(&[None, Some(0), Some(0), Some(0)]);
    let visible = id_set(&visible_nodes(&nodes, 0, false));
    assert_eq!(compute_subtree_bounds(&nodes, 0, &visible), 1260);
    let positions = compute_hierarchical_positions(&nodes, 0, &visible, 0, 0);
    assert_eq!(positions[&0], at(0, 0));
    assert_eq!(positions[&1], at(-420, 220));
    assert_eq!(positions[&2], at(0, 220));
    assert_eq!(positions[&3], at(420, 220));
}

#[test]
fn nested_rows_stand_side_by_side() {
    let nodes = two_folders();
    let visible = id_set(&visible_nodes(&nodes, 0, false));
    let positions = compute_hierarchical_positions(&nodes, 0, &visible, 0, 0);
    assert_eq!(positions.len(), 5);
    assert_eq!(positions[&0], at(0, 0));
    assert_eq!(positions[&1], at(-420, 220));
    assert_eq!(positions[&7], at(210, 220));
    assert_eq!(positions[&8], at(0, 440));
    assert_eq!(positions[&9], at(420, 440));
}

#[test]
fn crowded_folder_is_a_grid_of_five_columns() {
    let mut parents = vec![None];
    for _ in 0..9 {
        parents.push(Some(0));
    }
    let nodes = tree(&parents);
    let visible = id_set(&visible_nodes(&nodes, 0, false));
    assert_eq!(compute_subtree_bounds(&nodes, 0, &visible), 1950);
    let positions = compute_hierarchical_positions(&nodes, 0, &visible, 0, 0);
    assert_eq!(positions[&0], at(0, 0));
    assert_eq!(positions[&1], at(-780, 220));
    assert_eq!(positions[&5], at(780, 220));
    assert_eq!(positions[&6], at(-780, 350));
    assert_eq!(positions[&9], at(390, 350));
}

#[test]
fn eight_children_still_stand_in_a_row() {
    let mut parents = vec![None];
    for _ in 0..8 {
        parents.push(Some(0));
    }
    let nodes = tree(&parents);
    let visible = id_set(&visible_nodes(&nodes, 0, false));
    assert_eq!(compute_subtree_bounds(&nodes, 0, &visible), 8 * 420);
    let positions = compute_hierarchical_positions(&nodes, 0, &visible, 0, 0);
    assert_eq!(positions[&1], at(-1470, 220));
    assert_eq!(positions[&8], at(1470, 220));
}

#[test]
fn what_lies_below_a_grid_has_no_place() {
    let mut parents = vec![None];
    for _ in 0..9 {
        parents.push(Some(0));
    }
    parents.push(Some(9));
    let nodes = tree(&parents);
    let visible = id_set(&visible_nodes(&nodes, 0, true));
    assert!(visible.contains(&10));
    let positions = compute_hierarchical_positions(&nodes, 0, &visible, 0, 0);
    assert_eq!(positions.len(), 10);
    assert!(!positions.contains_key(&10));
}

#[test]
fn cards_do_not_overlap() {
    let mut parents = vec![None, Some(0), Some(1), Some(1), Some(0)];
    for _ in 0..12 {
        parents.push(Some(4));
    }
    parents.push(Some(0));
    parents.push(Some(17));
    let nodes = tree(&parents);
    let visible = id_set(&visible_nodes(&nodes, 0, true));
    let positions = compute_hierarchical_positions(&nodes, 0, &visible, 0, 0);
    assert_eq!(positions.len(), nodes.len());
    for (i, a) in &positions {
        for (j, b) in &positions {
            if i != j {
                assert!((a.x - b.x).abs() >= 390 || (a.y - b.y).abs() >= 130);
            }
        }
    }
}

#[test]
fn width_of_an_unknown_node_is_a_slot() {
    let nodes = tree(&[None]);
    assert_eq!(compute_subtree_bounds(&nodes, 7, &id_set(&vec![])), 420);
}

/// A root with two children, the first of which has two: numbered level by level.
fn by_levels() -> Vec<Node> {
    let nodes = tree(&[None, Some(0), Some(0), Some(1), Some(1)]);
    assert_eq!(nodes[0].children, vec![1, 2]);
    assert_eq!(nodes[1].children, vec![3, 4]);
    nodes
}

#[test]
fn table_numbered_by_levels_is_placed() {
    let nodes = by_levels();
    let visible = id_set(&vec![0, 1, 2, 3, 4]);
    let mut positions = HashMap::new();
    let right = place_subtrees_non_overlapping(&nodes, 0, &visible, 0, 0, 0, &mut positions);
    assert_eq!(right, 1260);
    assert_eq!(right, compute_subtree_bounds(&nodes, 0, &visible));
    assert_eq!(positions.len(), 5);
    assert_eq!(positions[&0], at(630, 0));
    assert_eq!(positions[&1], at(420, 220));
    assert_eq!(positions[&2], at(1050, 220));
    assert_eq!(positions[&3], at(210, 440));
    assert_eq!(positions[&4], at(630, 440));
}

#[test]
fn placing_begins_at_its_left_edge_depth_and_top() {
    let nodes = by_levels();
    let visible = id_set(&vec![0, 1, 2, 3, 4]);
    let mut positions = HashMap::new();
    positions.insert(2, at(7, 7));
    let right = place_subtrees_non_overlapping(&nodes, 1, &visible, -100, 3, 50, &mut positions);
    assert_eq!(right, -100 + compute_subtree_bounds(&nodes, 1, &visible));
    assert_eq!(positions[&1], at(320, 710));
    assert_eq!(positions[&3], at(110, 930));
    assert_eq!(positions[&2], at(7, 7));
    assert_eq!(positions.len(), 4);
}

#[test]
fn unknown_node_takes_a_slot_and_no_place() {
    let mut positions = HashMap::new();
    let right = place_subtrees_non_overlapping(
        &by_levels(),
        9,
        &id_set(&vec![9]),
        11,
        0,
        0,
        &mut positions,
    );
    assert_eq!(right, 431);
    assert!(positions.is_empty());
}

#[test]
fn subtree_is_placed_far_out() {
    let nodes = by_levels();
    let visible = id_set(&vec![0, 1, 2, 3, 4]);
    let mut positions = HashMap::new();
    let left = i128::MAX - 1260;
    let right = place_subtrees_non_overlapping(&nodes, 0, &visible, left, 0, 0, &mut positions);
    assert_eq!(right, i128::MAX);
    assert_eq!(positions[&0], at(left + 630, 0));
    let top = i128::MIN;
    let right =
        place_subtrees_non_overlapping(&nodes, 1, &visible, i128::MIN, 2, top, &mut positions);
    assert_eq!(right, i128::MIN + 840);
    assert_eq!(positions[&4], at(i128::MIN + 630, i128::MIN + 660));
}

#[test]
fn layout_moves_with_its_centre() {
    let nodes = by_levels();
    let visible = id_set(&vec![0, 1, 2, 3, 4]);
    let here = compute_hierarchical_positions(&nodes, 0, &visible, 0, 0);
    let there = compute_hierarchical_positions(&nodes, 0, &visible, 1000, 150);
    assert_eq!(there[&0], at(1000, 150));
    for (id, place) in &here {
        assert_eq!(there[id], at(place.x + 1000, place.y + 150));
    }
}

#[test]
fn cards_lie_within_the_width_of_the_root() {
    let nodes = two_folders();
    let visible = id_set(&visible_nodes(&nodes, 0, true));
    let width = compute_subtree_bounds(&nodes, 0, &visible);
    for place in compute_hierarchical_positions(&nodes, 0, &visible, 0, 0).values() {
        assert!(-width / 2 + 195 <= place.x && place.x <= width / 2 - 195);
        assert!(place.y >= 0);
    }
}

#[test]
fn places_are_listed_in_the_order_shown() {
    let mut app = MerkleApp::new(None);
    app.nodes = two_folders();
    let pin = PinnedPoint { x: 3, y: 4 };
    app.custom_node_positions.insert(9, pin);
    assert_eq!(
        app.card_places(0, false),
        vec![
            (0, CardPlace::Laid(at(0, 0))),
            (7, CardPlace::Laid(at(210, 220))),
            (9, CardPlace::Pinned(pin)),
            (8, CardPlace::Laid(at(0, 440))),
            (1, CardPlace::Laid(at(-420, 220))),
        ]
    );
    assert!(app.card_places(50, false).is_empty());
    app.custom_node_positions.insert(50, pin);
    assert_eq!(app.card_places(50, false), vec![(50, CardPlace::Pinned(pin))]);
}

#[test]
fn cards_below_a_grid_have_no_place() {
    let mut parents = vec![None];
    for _ in 0..9 {
        parents.push(Some(0));
    }
    parents.push(Some(9));
    let mut app = MerkleApp::new(None);
    app.nodes = tree(&parents);
    let ids: Vec<usize> = app.card_places(0, true).iter().map(|card| card.0).collect();
    assert_eq!(ids, vec![0, 9, 8, 7, 6, 5, 4, 3, 2, 1]);
}

#[test]
fn cards_are_pinned_with_shift_only() {
    let pin = PinnedPoint { x: 3, y: 4 };
    assert_eq!(pin_request(5, pin, true), Some((5, pin)));
    assert_eq!(pin_request(5, pin, false), None);
}

#[test]
fn lines_go_up_to_visible_parents() {
    let nodes = two_folders();
    let ids = visible_nodes(&nodes, 0, false);
    let edges = visible_edges(&nodes, &ids, &id_set(&ids));
    assert_eq!(edges, vec![(7, 0), (9, 7), (8, 7), (1, 0)]);
    let focused = visible_nodes(&nodes, 7, false);
    assert_eq!(visible_edges(&nodes, &focused, &id_set(&focused)), vec![(9, 7), (8, 7)]);
    assert!(visible_edges(&nodes, &vec![50], &id_set(&vec![50])).is_empty());
}

#[test]
fn active_lines_lead_to_the_selected_node() {
    let nodes = two_folders();
    assert!(is_active_edge(&nodes, Some(9), (9, 7)));
    assert!(is_active_edge(&nodes, Some(9), (7, 0)));
    assert!(!is_active_edge(&nodes, Some(9), (8, 7)));
    assert!(!is_active_edge(&nodes, Some(9), (1, 0)));
    assert!(!is_active_edge(&nodes, None, (9, 7)));
}

#[test]
fn first_folder_under_the_pointer_is_found() {
    let nodes = two_folders();
    let ids = vec![0, 7, 9, 1, 50];
    assert_eq!(find_folder_hit(&nodes, &ids, &vec![true; 5], None), Some(0));
    assert_eq!(find_folder_hit(&nodes, &ids, &vec![true; 5], Some(0)), Some(7));
    let hits = vec![false, false, true, true, true];
    assert_eq!(find_folder_hit(&nodes, &ids, &hits, Some(0)), Some(1));
    let hits = vec![false, false, true, false, true];
    assert_eq!(find_folder_hit(&nodes, &ids, &hits, None), None);
}

#[test]
fn pinned_cards_stay_where_they_are() {
    let mut pinned = HashMap::new();
    let mut laid = HashMap::new();
    pinned.insert(1, PinnedPoint { x: 5, y: 6 });
    laid.insert(1, at(1, 2));
    laid.insert(2, at(3, 4));
    assert_eq!(
        get_final_pos(1, &pinned, &laid),
        Some(CardPlace::Pinned(PinnedPoint { x: 5, y: 6 }))
    );
    assert_eq!(get_final_pos(2, &pinned, &laid), Some(CardPlace::Laid(at(3, 4))));
    assert_eq!(get_final_pos(3, &pinned, &laid), None);
}

#[test]
fn dropping_on_itself_asks_for_nothing() {
    assert_eq!(drop_request(3, Some(1)), Some((3, 1)));
    assert_eq!(drop_request(3, Some(3)), None);
    assert_eq!(drop_request(3, None), None);
}
