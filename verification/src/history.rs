//! Undo and redo of what is shown: focus, selection, camera and pinned cards.

use std::collections::HashMap;
use vstd::prelude::*;
use vstd::std_specs::hash::*;

verus! {

broadcast use vstd::std_specs::hash::group_hash_axioms;

/// The bit pattern of the 32-bit float 1.0.
pub const ONE: u32 = 0x3f80_0000;

/// The bit pattern of the 32-bit float 0.0.
pub const ZERO: u32 = 0;

/// The camera over the canvas. Each number is the bit pattern of a 32-bit
/// float: it is kept, reset and handed back here, and never computed with.
#[derive(Clone, Copy, Debug, PartialEq, Eq, Structural)]
pub struct Camera {
    pub zoom_scale: u32,
    pub pan_x: u32,
    pub pan_y: u32,
}

/// The camera at its natural scale, over the middle of the canvas.
#[verifier::allow_in_spec]
pub fn home_camera() -> (camera: Camera)
    returns
        (Camera { zoom_scale: ONE, pan_x: ZERO, pan_y: ZERO }),
{
    Camera { zoom_scale: ONE, pan_x: ZERO, pan_y: ZERO }
}

/// The place that a card was dragged to, as the bit patterns of two 32-bit floats.
#[derive(Clone, Copy, Debug, PartialEq, Eq, Structural)]
pub struct PinnedPoint {
    pub x: u32,
    pub y: u32,
}

/// What is shown, as it was at some time.
#[derive(Clone, Debug)]
pub struct UndoSnapshot {
    pub description: String,
    pub focused_root_id: Option<usize>,
    pub selected_node_id: Option<usize>,
    pub camera: Camera,
    pub custom_positions: HashMap<usize, PinnedPoint>,
}

/// What undo and redo restore.
#[verifier::ext_equal]
pub struct ViewState {
    pub focused_root_id: Option<usize>,
    pub selected_node_id: Option<usize>,
    pub camera: Camera,
    pub positions: Map<usize, PinnedPoint>,
}

/// The contents of an `UndoSnapshot`.
#[verifier::ext_equal]
pub struct SnapshotView {
    pub description: Seq<char>,
    pub state: ViewState,
}

impl View for UndoSnapshot {
    type V = SnapshotView;

    open spec fn view(&self) -> SnapshotView {
        SnapshotView {
            description: self.description@,
            state: ViewState {
                focused_root_id: self.focused_root_id,
                selected_node_id: self.selected_node_id,
                camera: self.camera,
                positions: self.custom_positions@,
            },
        }
    }
}

/// The contents of a stack of snapshots.
pub open spec fn snapshot_views(stack: Seq<UndoSnapshot>) -> Seq<SnapshotView> {
    stack.map_values(|snapshot: UndoSnapshot| snapshot@)
}

/// What is shown, what undo goes back to, and what redo goes forward to.
#[verifier::ext_equal]
pub struct HistoryView {
    pub current: ViewState,
    pub undos: Seq<SnapshotView>,
    pub redos: Seq<SnapshotView>,
}

/// A snapshot of what is shown is put on record. What was undone before can
/// no longer be redone.
pub open spec fn recorded(h: HistoryView, description: Seq<char>) -> HistoryView {
    HistoryView {
        current: h.current,
        undos: h.undos.push(SnapshotView { description, state: h.current }),
        redos: Seq::empty(),
    }
}

/// The last snapshot is restored, and what was shown can be redone. Without a
/// snapshot nothing changes.
pub open spec fn undone(h: HistoryView) -> HistoryView {
    if h.undos.len() > 0 {
        HistoryView {
            current: h.undos.last().state,
            undos: h.undos.drop_last(),
            redos: h.redos.push(SnapshotView { description: "Redo state"@, state: h.current }),
        }
    } else {
        h
    }
}

/// What was undone last is restored, and what was shown can be undone again.
/// Where nothing was undone nothing changes.
pub open spec fn redone(h: HistoryView) -> HistoryView {
    if h.redos.len() > 0 {
        HistoryView {
            current: h.redos.last().state,
            undos: h.undos.push(SnapshotView { description: "Undo state"@, state: h.current }),
            redos: h.redos.drop_last(),
        }
    } else {
        h
    }
}

/// The same history with something else shown.
pub open spec fn showing(h: HistoryView, current: ViewState) -> HistoryView {
    HistoryView { current, ..h }
}

/// Undo `n` times.
pub open spec fn undone_times(h: HistoryView, n: nat) -> HistoryView
    decreases n,
{
    if n == 0 {
        h
    } else {
        undone(undone_times(h, (n - 1) as nat))
    }
}

/// Redo `n` times.
pub open spec fn redone_times(h: HistoryView, n: nat) -> HistoryView
    decreases n,
{
    if n == 0 {
        h
    } else {
        redone_times(redone(h), (n - 1) as nat)
    }
}

/// Undo gives back what was shown when the last snapshot was recorded,
/// whatever is shown by then, and leaves the older snapshots as they were.
pub proof fn law_undo_restores(h: HistoryView, description: Seq<char>, later: ViewState)
    ensures
        undone(showing(recorded(h, description), later)).current == h.current,
        undone(showing(recorded(h, description), later)).undos == h.undos,
{
    assert(recorded(h, description).undos.drop_last() =~= h.undos);
}

/// Redo takes back an undo: what was shown is shown again, and as much can be
/// undone and redone as before.
pub proof fn law_redo_reverts_undo(h: HistoryView)
    requires
        h.undos.len() > 0,
    ensures
        redone(undone(h)).current == h.current,
        redone(undone(h)).redos == h.redos,
        redone(undone(h)).undos.len() == h.undos.len(),
        redone(undone(h)).undos.last().state == h.undos.last().state,
        redone(undone(h)).undos.drop_last() == h.undos.drop_last(),
{
    assert(undone(h).redos.drop_last() =~= h.redos);
    assert(redone(undone(h)).undos.drop_last() =~= h.undos.drop_last());
}

/// Undo takes back a redo.
pub proof fn law_undo_reverts_redo(h: HistoryView)
    requires
        h.redos.len() > 0,
    ensures
        undone(redone(h)).current == h.current,
        undone(redone(h)).undos == h.undos,
        undone(redone(h)).redos.len() == h.redos.len(),
        undone(redone(h)).redos.last().state == h.redos.last().state,
        undone(redone(h)).redos.drop_last() == h.redos.drop_last(),
{
    assert(redone(h).undos.drop_last() =~= h.undos);
    assert(undone(redone(h)).redos.drop_last() =~= h.redos.drop_last());
}

/// A new snapshot ends redoing: after it, redo changes nothing.
pub proof fn law_recording_ends_redo(h: HistoryView, description: Seq<char>)
    ensures
        redone(recorded(h, description)) == recorded(h, description),
{
}

proof fn lemma_undone_times(h: HistoryView, n: nat)
    requires
        n <= h.undos.len(),
    ensures
        undone_times(h, n).undos == h.undos.take(h.undos.len() - n),
        undone_times(h, n).redos.len() == h.redos.len() + n,
        n > 0 ==> undone_times(h, n).current == h.undos[h.undos.len() - n].state,
    decreases n,
{
    if n > 0 {
        lemma_undone_times(h, (n - 1) as nat);
        assert(h.undos.take(h.undos.len() - n + 1).drop_last() =~= h.undos.take(
            h.undos.len() - n,
        ));
    } else {
        assert(h.undos.take(h.undos.len() as int) =~= h.undos);
    }
}

/// What redo shows depends on the redo stack alone.
proof fn lemma_redone_times_current(a: HistoryView, b: HistoryView, n: nat)
    requires
        a.current == b.current,
        a.redos == b.redos,
    ensures
        redone_times(a, n).current == redone_times(b, n).current,
        redone_times(a, n).redos == redone_times(b, n).redos,
    decreases n,
{
    if n > 0 {
        lemma_redone_times_current(redone(a), redone(b), (n - 1) as nat);
    }
}

/// Going back any number of steps and forward as many shows what was shown.
pub proof fn law_redo_all_reverts_undo_all(h: HistoryView, n: nat)
    requires
        n <= h.undos.len(),
    ensures
        redone_times(undone_times(h, n), n).current == h.current,
        redone_times(undone_times(h, n), n).redos == h.redos,
    decreases n,
{
    if n > 0 {
        let before = undone_times(h, (n - 1) as nat);
        lemma_undone_times(h, (n - 1) as nat);
        law_redo_reverts_undo(before);
        lemma_redone_times_current(redone(undone(before)), before, (n - 1) as nat);
        law_redo_all_reverts_undo_all(h, (n - 1) as nat);
    }
}

/// What undo and redo keep of what was shown goes by a general name.
pub proof fn law_kept_states_are_named(h: HistoryView)
    ensures
        h.undos.len() > 0 ==> undone(h).redos.last().description == "Redo state"@
            && undone(h).redos.last().state == h.current,
        h.redos.len() > 0 ==> redone(h).undos.last().description == "Undo state"@
            && redone(h).undos.last().state == h.current,
        h.undos.len() == 0 ==> undone(h) == h,
        h.redos.len() == 0 ==> redone(h) == h,
{
}

} // verus!
