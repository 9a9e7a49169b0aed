//! Moving over the canvas: focus, camera, pinned cards and what lies under
//! the pointer.

use std::collections::{HashMap, HashSet};
use vstd::prelude::*;
use vstd::std_specs::hash::*;
use vstd::string::*;
use crate::history::{
    home_camera, recorded, showing, undone, Camera, HistoryView, PinnedPoint, ViewState,
};
use crate::layout::{compute_hierarchical_positions, layout_at, layout_of, LayoutPoint};
use crate::node::{consistent, linked, table, Node, NodeView};
use crate::session::{only_history_changed, MerkleApp};
use crate::text::text_option;
use crate::visible::{
    id_set, is_above, is_ancestor, lemma_way_up_ends, visible_from, visible_nodes,
};

verus! {

broadcast use vstd::std_specs::hash::group_hash_axioms;

/// A turn of the wheel, as far as the canvas shows it. Zooms and offsets are
/// bit patterns of 32-bit floats.
#[derive(Clone, Copy, Debug)]
pub struct WheelZoom {
    /// The wheel turns towards a larger scale.
    pub zoom_in: bool,
    pub new_zoom: u32,
    /// The new scale is larger than that at which folders are focused.
    pub deep: bool,
    /// The new scale is smaller than that at which the focus is left.
    pub far: bool,
    /// The offset that keeps what is under the pointer in its place, where
    /// there is a pointer.
    pub pan: Option<(u32, u32)>,
    /// The folder under the pointer.
    pub subfolder: Option<usize>,
}

/// The parent of a node.
pub open spec fn parent_of(t: Seq<NodeView>, id: usize) -> Option<usize> {
    if id < t.len() {
        t[id as int].parent
    } else {
        None
    }
}

/// The folder that a turn of the wheel focuses: the one under the pointer,
/// where the wheel zooms deep into it and it is not focused already.
pub open spec fn wheel_focus(shown: ViewState, smart: bool, wheel: WheelZoom) -> Option<usize> {
    match wheel.subfolder {
        Some(id) => if wheel.pan is Some && wheel.deep && wheel.zoom_in && smart && Some(id)
            != shown.focused_root_id {
            Some(id)
        } else {
            None
        },
        None => None,
    }
}

/// Whether a turn of the wheel leaves the focus for the folder above.
pub open spec fn wheel_steps_out(shown: ViewState, smart: bool, wheel: WheelZoom) -> bool {
    wheel.far && !wheel.zoom_in && smart && shown.focused_root_id is Some
}

/// What is shown once what is under the pointer is kept in its place.
pub open spec fn wheel_panned(h: HistoryView, wheel: WheelZoom) -> HistoryView {
    match wheel.pan {
        Some(pan) => showing(
            h,
            ViewState {
                camera: Camera { pan_x: pan.0, pan_y: pan.1, ..h.current.camera },
                ..h.current
            },
        ),
        None => h,
    }
}

/// What a turn of the wheel makes of what is shown.
pub open spec fn wheel_zoomed(
    t: Seq<NodeView>,
    h: HistoryView,
    smart: bool,
    wheel: WheelZoom,
) -> HistoryView {
    let moved = wheel_panned(h, wheel);
    match wheel_focus(h.current, smart, wheel) {
        Some(id) => showing(
            recorded(moved, "Auto-focus subfolder on deep zoom"@),
            ViewState {
                focused_root_id: Some(id),
                camera: Camera { zoom_scale: wheel.new_zoom, ..home_camera() },
                ..h.current
            },
        ),
        None => showing(
            moved,
            ViewState {
                focused_root_id: if wheel_steps_out(h.current, smart, wheel) {
                    parent_of(t, h.current.focused_root_id->0)
                } else {
                    h.current.focused_root_id
                },
                camera: Camera { zoom_scale: wheel.new_zoom, ..moved.current.camera },
                ..h.current
            },
        ),
    }
}

/// What the user did to the cards in a frame.
#[derive(Clone, Copy, Debug)]
pub struct FrameOutcome {
    /// A node was dropped on a folder.
    pub move_request: Option<(usize, usize)>,
    /// A card was dragged to a place.
    pub pinned: Option<(usize, PinnedPoint)>,
    /// A folder is to be shown as the root.
    pub focus: Option<usize>,
}

/// What a frame makes of what is shown: a dragged card is pinned, then a
/// folder is focused.
pub open spec fn frame_finished(h: HistoryView, outcome: FrameOutcome) -> HistoryView {
    let pinned = match outcome.pinned {
        Some(pin) => showing(
            h,
            ViewState { positions: h.current.positions.insert(pin.0, pin.1), ..h.current },
        ),
        None => h,
    };
    match outcome.focus {
        Some(id) => focused(pinned, id, "Double click focus subfolder"@),
        None => pinned,
    }
}

/// A folder is shown as the root, over the middle of the canvas.
pub open spec fn focused(h: HistoryView, id: usize, description: Seq<char>) -> HistoryView {
    showing(
        recorded(h, description),
        ViewState { focused_root_id: Some(id), camera: home_camera(), ..h.current },
    )
}

impl MerkleApp {
    /// The root of what is shown.
    pub fn root_id(&self) -> (root: usize)
        ensures
            root == (match self.focused_root_id {
                Some(id) => id,
                None => 0,
            }),
    {
        match self.focused_root_id {
            Some(id) => id,
            None => 0,
        }
    }

    /// The name of the folder that is shown as the root, where it is not the
    /// first node. A folder that is gone goes by a general name.
    pub fn focused_name(&self) -> (name: Option<String>)
        ensures
            text_option(name) == (match self.focused_root_id {
                Some(id) => Some(
                    if id < self.nodes.len() {
                        self.nodes@[id as int]@.name
                    } else {
                        "Carpeta"@
                    },
                ),
                None => None,
            }),
    {
        match self.focused_root_id {
            Some(id) => {
                if id < self.nodes.len() {
                    Some(self.nodes[id].name.clone())
                } else {
                    Some("Carpeta".to_owned())
                }
            },
            None => None,
        }
    }

    /// Shows a folder as the root, and records what was shown.
    pub fn focus_folder(&mut self, id: usize, description: &str)
        ensures
            final(self).history() == focused(old(self).history(), id, description@),
            final(self).focused_root_id == Some(id),
            final(self).camera == (Camera { zoom_scale: 0x3f80_0000, pan_x: 0, pan_y: 0 }),
            final(self).selected_node_id == old(self).selected_node_id,
            final(self).custom_node_positions@ == old(self).custom_node_positions@,
            final(self).undo_stack@.len() == old(self).undo_stack@.len() + 1,
            final(self).redo_stack@.len() == 0,
            final(self).notification_msg == old(self).notification_msg,
            only_history_changed(*old(self), *final(self)),
    {
        self.push_undo_snapshot(description);
        self.focused_root_id = Some(id);
        self.camera = home_camera();
    }

    /// Shows the whole tree again from where the camera is, and records what
    /// was shown.
    pub fn return_to_root(&mut self)
        ensures
            final(self).history() == showing(
                recorded(old(self).history(), "Volver a raíz principal"@),
                ViewState { focused_root_id: None, ..old(self).shown() },
            ),
            final(self).notification_msg == old(self).notification_msg,
            only_history_changed(*old(self), *final(self)),
    {
        self.push_undo_snapshot("Volver a raíz principal");
        self.focused_root_id = None;
    }

    /// Shows the whole tree again over the middle of the canvas.
    pub fn leave_focus(&mut self)
        ensures
            final(self).history() == showing(
                old(self).history(),
                ViewState { focused_root_id: None, camera: home_camera(), ..old(self).shown() },
            ),
            final(self).notification_msg == old(self).notification_msg,
            only_history_changed(*old(self), *final(self)),
    {
        self.focused_root_id = None;
        self.camera = home_camera();
    }

    /// Puts the camera and the pinned cards back, records what was shown, and
    /// tells so.
    pub fn reset_camera(&mut self, now: u64)
        ensures
            final(self).history() == showing(
                recorded(old(self).history(), "Reset Cámara"@),
                ViewState {
                    camera: home_camera(),
                    positions: Map::empty(),
                    ..old(self).shown()
                },
            ),
            final(self).notified("🎯 Cámara y posiciones reubicadas"@, now),
            only_history_changed(*old(self), *final(self)),
    {
        self.push_undo_snapshot("Reset Cámara");
        self.camera = home_camera();
        self.custom_node_positions.clear();
        self.set_notification("🎯 Cámara y posiciones reubicadas".to_owned(), now);
    }

    /// Takes a turn of the wheel: zooms about the pointer, focuses a folder
    /// that is zoomed deep into, and leaves the focus on zooming far out.
    pub fn wheel_zoom(&mut self, wheel: &WheelZoom, now: u64)
        ensures
            final(self).history() == wheel_zoomed(
                table(old(self).nodes@),
                old(self).history(),
                old(self).navigation.smart_zoom_focus_enabled,
                *wheel,
            ),
            final(self).camera.zoom_scale == wheel.new_zoom,
            final(self).selected_node_id == old(self).selected_node_id,
            final(self).custom_node_positions@ == old(self).custom_node_positions@,
            ({
                let smart = old(self).navigation.smart_zoom_focus_enabled;
                if wheel_focus(old(self).shown(), smart, *wheel) is Some {
                    final(self).notified(
                        "🔍 Enfocado automáticamente en subcarpeta por zoom profundo"@,
                        now,
                    )
                } else if wheel_steps_out(old(self).shown(), smart, *wheel) {
                    final(self).notified(
                        "🏠 Perspectiva Ampliada: Retornando a carpeta superior"@,
                        now,
                    )
                } else {
                    final(self).notification_msg == old(self).notification_msg
                }
            }),
            only_history_changed(*old(self), *final(self)),
    {
        let target = self.wheel_target(wheel);
        let out = wheel.far && !wheel.zoom_in && self.navigation.smart_zoom_focus_enabled;
        self.pan_with_wheel(wheel);
        match target {
            Some(id) => {
                self.focus_folder(id, "Auto-focus subfolder on deep zoom");
                self.set_notification(
                    "🔍 Enfocado automáticamente en subcarpeta por zoom profundo".to_owned(),
                    now,
                );
            },
            None => {
                if out && self.focused_root_id.is_some() {
                    self.step_out(now);
                }
            },
        }
        self.camera = Camera { zoom_scale: wheel.new_zoom, ..self.camera };
    }

    /// Keeps what is under the pointer in its place.
    fn pan_with_wheel(&mut self, wheel: &WheelZoom)
        ensures
            final(self).history() == wheel_panned(old(self).history(), *wheel),
            *final(self) == (MerkleApp { camera: final(self).camera, ..*old(self) }),
    {
        if let Some(pan) = wheel.pan {
            self.camera = Camera { pan_x: pan.0, pan_y: pan.1, ..self.camera };
        }
    }

    /// The folder that a turn of the wheel focuses.
    fn wheel_target(&self, wheel: &WheelZoom) -> (target: Option<usize>)
        ensures
            target == wheel_focus(
                self.shown(),
                self.navigation.smart_zoom_focus_enabled,
                *wheel,
            ),
    {
        match wheel.subfolder {
            Some(id) => {
                if wheel.pan.is_some() && wheel.deep && wheel.zoom_in
                    && self.navigation.smart_zoom_focus_enabled && self.focused_root_id != Some(
                    id,
                ) {
                    Some(id)
                } else {
                    None
                }
            },
            None => None,
        }
    }

    /// Leaves the focus for the folder above, and tells so.
    fn step_out(&mut self, now: u64)
        requires
            old(self).focused_root_id is Some,
        ensures
            final(self).focused_root_id == parent_of(
                table(old(self).nodes@),
                old(self).focused_root_id->0,
            ),
            final(self).notified("🏠 Perspectiva Ampliada: Retornando a carpeta superior"@, now),
            *final(self) == (MerkleApp {
                focused_root_id: final(self).focused_root_id,
                notification_msg: final(self).notification_msg,
                ..*old(self)
            }),
    {
        let parent: Option<usize> = match self.focused_root_id {
            Some(id) => {
                if id < self.nodes.len() {
                    self.nodes[id].parent
                } else {
                    None
                }
            },
            None => None,
        };
        self.focused_root_id = parent;
        self.set_notification(
            "🏠 Perspectiva Ampliada: Retornando a carpeta superior".to_owned(),
            now,
        );
    }

    /// Takes what the user did to the cards in a frame. A node that was
    /// dropped on a folder waits for the user's confirmation.
    pub fn finish_frame(&mut self, outcome: &FrameOutcome)
        ensures
            final(self).history() == frame_finished(old(self).history(), *outcome),
            outcome.focus matches Some(id) ==> final(self).focused_root_id == Some(id),
            outcome.focus is None ==> final(self).focused_root_id == old(self).focused_root_id
                && final(self).camera == old(self).camera,
            outcome.pinned matches Some(pin) ==> final(self).custom_node_positions@ == old(
                self,
            ).custom_node_positions@.insert(pin.0, pin.1),
            outcome.pinned is None ==> final(self).custom_node_positions@ == old(
                self,
            ).custom_node_positions@,
            final(self).selected_node_id == old(self).selected_node_id,
            final(self).pending_move_confirmation == (match outcome.move_request {
                Some(pair) => Some(pair),
                None => old(self).pending_move_confirmation,
            }),
            only_history_changed(
                MerkleApp {
                    pending_move_confirmation: final(self).pending_move_confirmation,
                    ..*old(self)
                },
                *final(self),
            ),
            final(self).notification_msg == old(self).notification_msg,
    {
        if let Some(pair) = outcome.move_request {
            self.pending_move_confirmation = Some(pair);
        }
        if let Some(pin) = outcome.pinned {
            self.custom_node_positions.insert(pin.0, pin.1);
        }
        if let Some(id) = outcome.focus {
            self.focus_folder(id, "Double click focus subfolder");
        }
    }
}

/// What a node that was dropped asks for: nothing where it was dropped on
/// nothing or on itself.
pub fn drop_request(node_id: usize, drop_target: Option<usize>) -> (request: Option<(usize, usize)>)
    ensures
        request == (match drop_target {
            Some(target) => if target != node_id {
                Some((node_id, target))
            } else {
                None
            },
            None => None,
        }),
{
    match drop_target {
        Some(target) => if target != node_id {
            Some((node_id, target))
        } else {
            None
        },
        None => None,
    }
}

/// What a dragged card asks for: it is pinned with Shift held down only.
pub fn pin_request(node_id: usize, place: PinnedPoint, shift: bool) -> (pin: Option<
    (usize, PinnedPoint),
>)
    ensures
        pin == (if shift {
            Some((node_id, place))
        } else {
            None
        }),
{
    if shift {
        Some((node_id, place))
    } else {
        None
    }
}

/// Where a card stands: where it was dragged to, or else where the layout
/// puts it.
#[derive(Clone, Copy, Debug, PartialEq, Eq, Structural)]
pub enum CardPlace {
    Pinned(PinnedPoint),
    Laid(LayoutPoint),
}

/// Where a card stands.
pub open spec fn place_of(
    id: usize,
    pinned: Map<usize, PinnedPoint>,
    laid: Map<usize, LayoutPoint>,
) -> Option<CardPlace> {
    if pinned.contains_key(id) {
        Some(CardPlace::Pinned(pinned[id]))
    } else if laid.contains_key(id) {
        Some(CardPlace::Laid(laid[id]))
    } else {
        None
    }
}

/// Where a card stands, if anywhere.
pub fn get_final_pos(
    id: usize,
    pinned: &HashMap<usize, PinnedPoint>,
    laid: &HashMap<usize, LayoutPoint>,
) -> (place: Option<CardPlace>)
    ensures
        place == place_of(id, pinned@, laid@),
        pinned@.contains_key(id) ==> place == Some(CardPlace::Pinned(pinned@[id])),
        !pinned@.contains_key(id) && laid@.contains_key(id) ==> place == Some(
            CardPlace::Laid(laid@[id]),
        ),
        !pinned@.contains_key(id) && !laid@.contains_key(id) ==> place is None,
{
    if let Some(point) = pinned.get(&id) {
        return Some(CardPlace::Pinned(*point));
    }
    match laid.get(&id) {
        Some(point) => Some(CardPlace::Laid(*point)),
        None => None,
    }
}

/// The listed cards that stand somewhere, with their places, in order.
pub open spec fn places_of(
    ids: Seq<usize>,
    pinned: Map<usize, PinnedPoint>,
    laid: Map<usize, LayoutPoint>,
) -> Seq<(usize, CardPlace)>
    decreases ids.len(),
{
    if ids.len() == 0 {
        Seq::empty()
    } else {
        let rest = places_of(ids.drop_last(), pinned, laid);
        match place_of(ids.last(), pinned, laid) {
            Some(place) => rest.push((ids.last(), place)),
            None => rest,
        }
    }
}

impl MerkleApp {
    /// Where the cards stand that are shown from a root downwards.
    pub open spec fn places_from(&self, root_id: usize, zoomed_in: bool) -> Seq<
        (usize, CardPlace),
    > {
        let t = table(self.nodes@);
        let ids = visible_from(t, root_id, zoomed_in, root_id);
        places_of(ids, self.custom_node_positions@, layout_of(t, ids.to_set(), root_id as int))
    }

    /// The cards that are shown from a root downwards and stand somewhere, in
    /// the order in which they are shown, with their places. The layout is
    /// centred on the origin.
    pub fn card_places(&self, root_id: usize, zoomed_in: bool) -> (places: Vec<(usize, CardPlace)>)
        requires
            linked(table(self.nodes@)),
        ensures
            places@ == self.places_from(root_id, zoomed_in),
            places@ == places_of(
                visible_from(table(self.nodes@), root_id, zoomed_in, root_id),
                self.custom_node_positions@,
                layout_at(
                    table(self.nodes@),
                    visible_from(table(self.nodes@), root_id, zoomed_in, root_id).to_set(),
                    root_id as int,
                    0,
                    0,
                ),
            ),
    {
        let ids = visible_nodes(&self.nodes, root_id, zoomed_in);
        let visible = id_set(&ids);
        let laid = compute_hierarchical_positions(self.nodes.as_slice(), root_id, &visible, 0, 0);
        let mut places: Vec<(usize, CardPlace)> = Vec::new();
        let mut i: usize = 0;
        while i < ids.len()
            invariant
                i <= ids.len(),
                places@ == places_of(
                    ids@.take(i as int),
                    self.custom_node_positions@,
                    laid@,
                ),
            decreases ids.len() - i,
        {
            assert(ids@.take(i + 1).drop_last() =~= ids@.take(i as int));
            if let Some(place) = get_final_pos(ids[i], &self.custom_node_positions, &laid) {
                places.push((ids[i], place));
            }
            i = i + 1;
        }
        assert(ids@.take(i as int) =~= ids@);
        places
    }
}

/// Whether a folder of the table lies under the pointer. `hits` says of each
/// of the listed ids whether its card does.
pub open spec fn folder_hit(
    t: Seq<NodeView>,
    ids: Seq<usize>,
    hits: Seq<bool>,
    skip: Option<usize>,
    i: int,
) -> bool {
    hits[i] && ids[i] < t.len() && t[ids[i] as int].is_dir && Some(ids[i]) != skip
}

/// The first of the listed folders whose card lies under the pointer. `skip`
/// is left out.
pub fn find_folder_hit(
    nodes: &Vec<Node>,
    ids: &Vec<usize>,
    hits: &Vec<bool>,
    skip: Option<usize>,
) -> (found: Option<usize>)
    requires
        ids.len() == hits.len(),
    ensures
        match found {
            Some(id) => exists|i: int|
                {
                    &&& 0 <= i < ids.len()
                    &&& ids@[i] == id
                    &&& #[trigger] folder_hit(table(nodes@), ids@, hits@, skip, i)
                    &&& forall|j: int|
                        0 <= j < i ==> !folder_hit(table(nodes@), ids@, hits@, skip, j)
                },
            None => forall|i: int|
                0 <= i < ids.len() ==> !folder_hit(table(nodes@), ids@, hits@, skip, i),
        },
        found is None <==> forall|i: int|
            0 <= i < ids.len() && #[trigger] hits@[i] && ids@[i] < nodes.len()
                && nodes@[ids@[i] as int].is_dir ==> skip == Some(ids@[i]),
        found matches Some(id) ==> id < nodes.len() && nodes@[id as int].is_dir && skip != Some(id),
{
    let ghost t = table(nodes@);
    let mut i: usize = 0;
    while i < ids.len()
        invariant
            t == table(nodes@),
            i <= ids.len(),
            ids.len() == hits.len(),
            forall|j: int| 0 <= j < i ==> !folder_hit(t, ids@, hits@, skip, j),
            forall|j: int|
                0 <= j < i && #[trigger] hits@[j] && ids@[j] < nodes.len()
                    && nodes@[ids@[j] as int].is_dir ==> skip == Some(ids@[j]),
        decreases ids.len() - i,
    {
        let id = ids[i];
        if hits[i] && id < nodes.len() && nodes[id].is_dir && skip != Some(id) {
            assert(folder_hit(t, ids@, hits@, skip, i as int));
            assert(hits@[i as int]);
            return Some(id);
        }
        i = i + 1;
    }
    None
}

/// The lines from the listed nodes up to their parents, where the parents are
/// shown.
pub open spec fn edges_of(t: Seq<NodeView>, ids: Seq<usize>, visible: Set<usize>) -> Seq<
    (usize, usize),
>
    decreases ids.len(),
{
    if ids.len() == 0 {
        Seq::empty()
    } else {
        let rest = edges_of(t, ids.drop_last(), visible);
        match parent_of(t, ids.last()) {
            Some(parent) => if visible.contains(parent) {
                rest.push((ids.last(), parent))
            } else {
                rest
            },
            None => rest,
        }
    }
}

/// The lines from the listed nodes up to their parents, as pairs of a node
/// and its parent, where the parent is shown.
pub fn visible_edges(nodes: &Vec<Node>, ids: &Vec<usize>, visible: &HashSet<usize>) -> (edges: Vec<
    (usize, usize),
>)
    ensures
        edges@ == edges_of(table(nodes@), ids@, visible@),
{
    let ghost t = table(nodes@);
    let mut edges: Vec<(usize, usize)> = Vec::new();
    let mut i: usize = 0;
    while i < ids.len()
        invariant
            t == table(nodes@),
            i <= ids.len(),
            edges@ == edges_of(t, ids@.take(i as int), visible@),
        decreases ids.len() - i,
    {
        assert(ids@.take(i + 1).drop_last() =~= ids@.take(i as int));
        let id = ids[i];
        if id < nodes.len() {
            if let Some(parent) = nodes[id].parent {
                if visible.contains(&parent) {
                    edges.push((id, parent));
                }
            }
        }
        i = i + 1;
    }
    assert(ids@.take(i as int) =~= ids@);
    edges
}

/// Whether a node is another one or lies above it.
pub open spec fn at_or_above(t: Seq<NodeView>, candidate: usize, target: usize) -> bool {
    candidate == target || is_above(t, candidate, target)
}

/// Whether a line lies on the way from the selected node up to the root.
pub open spec fn on_selected_path(
    t: Seq<NodeView>,
    selected: Option<usize>,
    edge: (usize, usize),
) -> bool {
    selected matches Some(id) && at_or_above(t, edge.0, id) && at_or_above(t, edge.1, id)
}

/// Whether a line lies on the way from the selected node up to the root.
pub fn is_active_edge(nodes: &Vec<Node>, selected: Option<usize>, edge: (usize, usize)) -> (active:
    bool)
    requires
        consistent(table(nodes@)),
    ensures
        active == on_selected_path(table(nodes@), selected, edge),
        active <==> selected is Some && (edge.0 == selected->0 || is_above(
            table(nodes@),
            edge.0,
            selected->0,
        )) && (edge.1 == selected->0 || is_above(table(nodes@), edge.1, selected->0)),
{
    match selected {
        Some(id) => {
            proof {
                lemma_way_up_ends(table(nodes@), edge.0, id);
                lemma_way_up_ends(table(nodes@), edge.1, id);
            }
            (id == edge.0 || is_ancestor(nodes, edge.0, id)) && (id == edge.1 || is_ancestor(
                nodes,
                edge.1,
                id,
            ))
        },
        None => false,
    }
}

/// A turn of the wheel focuses the folder under the pointer exactly where it
/// zooms in deep, the session focuses so, and the folder is not focused yet; the
/// folder is then shown from the middle, and what was shown can be undone to.
pub proof fn law_wheel_enters_folder(
    t: Seq<NodeView>,
    h: HistoryView,
    smart: bool,
    wheel: WheelZoom,
)
    ensures
        wheel_focus(h.current, smart, wheel) is Some <==> wheel.subfolder is Some
            && wheel.pan is Some && wheel.deep && wheel.zoom_in && smart
            && h.current.focused_root_id != wheel.subfolder,
        wheel_focus(h.current, smart, wheel) is Some ==> {
            let after = wheel_zoomed(t, h, smart, wheel);
            &&& after.current.focused_root_id == wheel.subfolder
            &&& after.current.camera == (Camera { zoom_scale: wheel.new_zoom, pan_x: 0, pan_y: 0 })
            &&& after.current.selected_node_id == h.current.selected_node_id
            &&& after.current.positions == h.current.positions
            &&& after.redos.len() == 0
            &&& after.undos.drop_last() == h.undos
            &&& after.undos.len() == h.undos.len() + 1
            &&& after.undos.last().description == "Auto-focus subfolder on deep zoom"@
            &&& after.undos.last().state.focused_root_id == h.current.focused_root_id
            &&& after.undos.last().state.selected_node_id == h.current.selected_node_id
            &&& after.undos.last().state.positions == h.current.positions
            &&& after.undos.last().state.camera.zoom_scale == h.current.camera.zoom_scale
            &&& wheel.pan matches Some(pan) && after.undos.last().state.camera.pan_x == pan.0
                && after.undos.last().state.camera.pan_y == pan.1
        },
{
    assert(wheel_zoomed(t, h, smart, wheel).undos.drop_last() =~= h.undos || wheel_focus(
        h.current,
        smart,
        wheel,
    ) is None);
}

/// A turn of the wheel that focuses no folder takes the new scale, keeps what is
/// under the pointer in its place, and leaves the focus for the folder above
/// exactly where it zooms out far and the session focuses so. Nothing is
/// recorded.
pub proof fn law_wheel_zooms(t: Seq<NodeView>, h: HistoryView, smart: bool, wheel: WheelZoom)
    requires
        wheel_focus(h.current, smart, wheel) is None,
    ensures
        ({
            let after = wheel_zoomed(t, h, smart, wheel);
            let out = wheel.far && !wheel.zoom_in && smart;
            &&& wheel_steps_out(h.current, smart, wheel) <==> out
                && h.current.focused_root_id is Some
            &&& after.undos == h.undos
            &&& after.redos == h.redos
            &&& after.current.selected_node_id == h.current.selected_node_id
            &&& after.current.positions == h.current.positions
            &&& after.current.camera.zoom_scale == wheel.new_zoom
            &&& wheel.pan matches Some(pan) ==> after.current.camera.pan_x == pan.0
                && after.current.camera.pan_y == pan.1
            &&& wheel.pan is None ==> after.current.camera.pan_x == h.current.camera.pan_x
                && after.current.camera.pan_y == h.current.camera.pan_y
            &&& !out ==> after.current.focused_root_id == h.current.focused_root_id
            &&& out ==> (h.current.focused_root_id matches Some(id) ==> id < t.len()
                ==> after.current.focused_root_id == t[id as int].parent)
            &&& out ==> (h.current.focused_root_id matches Some(id) ==> id >= t.len()
                ==> after.current.focused_root_id is None)
            &&& out && h.current.focused_root_id is None ==> after.current.focused_root_id is None
        }),
{
}

/// A folder that is focused is shown from the middle of the canvas, and undo
/// gives back what was shown before.
pub proof fn law_focus_can_be_undone(h: HistoryView, id: usize, description: Seq<char>)
    ensures
        focused(h, id, description).current.focused_root_id == Some(id),
        focused(h, id, description).current.camera == (Camera {
            zoom_scale: 0x3f80_0000,
            pan_x: 0,
            pan_y: 0,
        }),
        focused(h, id, description).current.selected_node_id == h.current.selected_node_id,
        focused(h, id, description).current.positions == h.current.positions,
        focused(h, id, description).redos.len() == 0,
        undone(focused(h, id, description)).current == h.current,
        undone(focused(h, id, description)).undos == h.undos,
{
    assert(undone(focused(h, id, description)).undos =~= h.undos);
}

/// A frame pins the card that was dragged, and no other, and focuses the folder
/// that was asked for; only a focus is recorded.
pub proof fn law_frame_outcome(h: HistoryView, outcome: FrameOutcome)
    ensures
        ({
            let after = frame_finished(h, outcome);
            &&& outcome.pinned matches Some(pin) ==> after.current.positions
                == h.current.positions.insert(pin.0, pin.1)
            &&& outcome.pinned is None ==> after.current.positions == h.current.positions
            &&& after.current.selected_node_id == h.current.selected_node_id
            &&& outcome.focus matches Some(id) ==> after.current.focused_root_id == Some(id)
                && after.current.camera == (Camera {
                zoom_scale: 0x3f80_0000,
                pan_x: 0,
                pan_y: 0,
            }) && after.undos.len() == h.undos.len() + 1 && after.undos.drop_last() == h.undos
                && after.undos.last().description == "Double click focus subfolder"@
                && after.undos.last().state.focused_root_id == h.current.focused_root_id
                && after.redos.len() == 0
            &&& outcome.focus is None ==> after.current.focused_root_id
                == h.current.focused_root_id && after.current.camera == h.current.camera
                && after.undos == h.undos && after.redos == h.redos
        }),
{
    assert(outcome.focus is Some ==> frame_finished(h, outcome).undos.drop_last() =~= h.undos);
}

/// The listed cards that stand somewhere keep their order, and each stands where
/// it was dragged to, or else where the layout puts it.
pub proof fn law_places(
    ids: Seq<usize>,
    pinned: Map<usize, PinnedPoint>,
    laid: Map<usize, LayoutPoint>,
)
    ensures
        places_of(ids, pinned, laid).map_values(|place: (usize, CardPlace)| place.0) == ids.filter(
            |id: usize| pinned.contains_key(id) || laid.contains_key(id),
        ),
        forall|k: int|
            0 <= k < places_of(ids, pinned, laid).len() ==> {
                let place = #[trigger] places_of(ids, pinned, laid)[k];
                &&& pinned.contains_key(place.0) ==> place.1 == CardPlace::Pinned(pinned[place.0])
                &&& !pinned.contains_key(place.0) ==> laid.contains_key(place.0) && place.1
                    == CardPlace::Laid(laid[place.0])
            },
    decreases ids.len(),
{
    reveal(Seq::filter);
    let places = places_of(ids, pinned, laid);
    let kept = ids.filter(|id: usize| pinned.contains_key(id) || laid.contains_key(id));
    if ids.len() > 0 {
        let rest = ids.drop_last();
        law_places(rest, pinned, laid);
        let before = places_of(rest, pinned, laid);
        assert forall|k: int| 0 <= k < places.len() implies {
            let place = #[trigger] places[k];
            &&& pinned.contains_key(place.0) ==> place.1 == CardPlace::Pinned(pinned[place.0])
            &&& !pinned.contains_key(place.0) ==> laid.contains_key(place.0) && place.1
                == CardPlace::Laid(laid[place.0])
        } by {
            if k < before.len() {
                assert(places[k] == before[k]);
            }
        }
        if pinned.contains_key(ids.last()) || laid.contains_key(ids.last()) {
            assert(places.map_values(|place: (usize, CardPlace)| place.0) =~= before.map_values(
                |place: (usize, CardPlace)| place.0,
            ).push(ids.last()));
        }
    }
    assert(places.map_values(|place: (usize, CardPlace)| place.0) =~= kept);
}

/// A line is drawn from each listed node that has a parent which is shown, to
/// that parent, in the order of the list.
pub proof fn law_lines_to_parents(t: Seq<NodeView>, ids: Seq<usize>, visible: Set<usize>)
    ensures
        edges_of(t, ids, visible).map_values(|edge: (usize, usize)| edge.0) == ids.filter(
            |id: usize|
                id < t.len() && t[id as int].parent is Some && visible.contains(
                    t[id as int].parent->0,
                ),
        ),
        forall|k: int|
            0 <= k < edges_of(t, ids, visible).len() ==> {
                let edge = #[trigger] edges_of(t, ids, visible)[k];
                edge.0 < t.len() && t[edge.0 as int].parent == Some(edge.1)
            },
    decreases ids.len(),
{
    reveal(Seq::filter);
    let edges = edges_of(t, ids, visible);
    let drawn = |id: usize|
        id < t.len() && t[id as int].parent is Some && visible.contains(t[id as int].parent->0);
    if ids.len() > 0 {
        let rest = ids.drop_last();
        law_lines_to_parents(t, rest, visible);
        let before = edges_of(t, rest, visible);
        assert forall|k: int| 0 <= k < edges.len() implies {
            let edge = #[trigger] edges[k];
            edge.0 < t.len() && t[edge.0 as int].parent == Some(edge.1)
        } by {
            if k < before.len() {
                assert(edges[k] == before[k]);
            }
        }
        if drawn(ids.last()) {
            assert(edges.map_values(|edge: (usize, usize)| edge.0) =~= before.map_values(
                |edge: (usize, usize)| edge.0,
            ).push(ids.last()));
        }
    }
    assert(edges.map_values(|edge: (usize, usize)| edge.0) =~= ids.filter(drawn));
}

/// A line is marked exactly where a node is selected and both its ends are the
/// selected node or lie above it.
pub proof fn law_marked_lines(t: Seq<NodeView>, selected: Option<usize>, edge: (usize, usize))
    ensures
        on_selected_path(t, selected, edge) <==> selected is Some && (edge.0 == selected->0
            || is_above(t, edge.0, selected->0)) && (edge.1 == selected->0 || is_above(
            t,
            edge.1,
            selected->0,
        )),
{
}

} // verus!
