//! The session: what the explorer holds, and how it answers events.

use std::collections::HashMap;
use vstd::prelude::*;
use vstd::std_specs::hash::*;
use vstd::string::*;
use crate::audit::{history_lines, AuditRecord};
use crate::cards::{rgb, AgeThresholds, Color};
use crate::diff::TreeDiffResult;
use crate::export::ExportedAuditReport;
use crate::filter::DEFAULT_MAX_SIZE;
use crate::hashing::HashAlgorithm;
use crate::history::{
    home_camera, recorded, redone, showing, snapshot_views, undone, Camera, HistoryView,
    PinnedPoint, UndoSnapshot, ViewState,
};
use crate::node::{table, tree_wf, Node};
use crate::text::{lines, texts};

verus! {

broadcast use vstd::std_specs::hash::group_hash_axioms;

/// The tabs of the explorer.
#[derive(Clone, Copy, Debug, PartialEq, Eq, Structural)]
pub enum AppTab {
    /// The tree as cards on a canvas.
    Explorer,
    /// Comparisons, the ledger and exports.
    Traceability,
    Settings,
}

/// What the colours of a card stand for.
#[derive(Clone, Copy, Debug, PartialEq, Eq, Structural)]
pub enum NodeColorMode {
    /// The type of the file.
    ByExtension,
    /// The time since the last modification.
    ByAge,
}

/// The colours of the legend of ages.
#[derive(Clone, Copy, Debug, PartialEq, Eq, Structural)]
pub struct LegendColors {
    pub red: Color,
    pub yellow: Color,
    pub green: Color,
    pub old: Color,
}

/// The colours of the legend at first.
#[verifier::allow_in_spec]
pub fn default_legend() -> (colors: LegendColors)
    returns
        (LegendColors {
            red: rgb(239, 68, 68),
            yellow: rgb(245, 158, 11),
            green: rgb(16, 185, 129),
            old: rgb(160, 160, 160),
        }),
{
    LegendColors {
        red: rgb(239, 68, 68),
        yellow: rgb(245, 158, 11),
        green: rgb(16, 185, 129),
        old: rgb(160, 160, 160),
    }
}

/// How the canvas is moved over. The speeds are bit patterns of 32-bit floats.
#[derive(Clone, Copy, Debug, PartialEq, Eq, Structural)]
pub struct NavigationSettings {
    pub pan_speed_mult: u32,
    pub zoom_speed_factor: u32,
    /// Zooming deep into a folder focuses it.
    pub smart_zoom_focus_enabled: bool,
}

/// How the canvas is moved over at first: panning at 2.0, zooming at 1.04.
#[verifier::allow_in_spec]
pub fn default_navigation() -> (settings: NavigationSettings)
    returns
        (NavigationSettings {
            pan_speed_mult: 0x4000_0000,
            zoom_speed_factor: 0x3f85_1eb8,
            smart_zoom_focus_enabled: true,
        }),
{
    NavigationSettings {
        pan_speed_mult: 0x4000_0000,
        zoom_speed_factor: 0x3f85_1eb8,
        smart_zoom_focus_enabled: true,
    }
}

/// A message to the user, with the time it was given.
#[derive(Debug)]
pub struct Notification {
    pub text: String,
    /// Milliseconds since the session began.
    pub given_at: u64,
}

/// The session of a user. Times are in milliseconds since it began.
#[derive(Debug)]
pub struct MerkleApp {
    pub nodes: Vec<Node>,
    pub selected_node_id: Option<usize>,
    /// The node that is shown as the root, where it is not the first one.
    pub focused_root_id: Option<usize>,
    pub is_loading: bool,
    /// The files hashed so far, and the files to hash.
    pub progress: (usize, usize),
    pub compute_hashes_enabled: bool,
    pub hash_algorithm: HashAlgorithm,
    pub dark_mode: bool,
    pub color_mode: NodeColorMode,
    pub camera: Camera,
    /// Where cards were dragged to.
    pub custom_node_positions: HashMap<usize, PinnedPoint>,
    pub undo_stack: Vec<UndoSnapshot>,
    pub redo_stack: Vec<UndoSnapshot>,
    pub watcher_active: bool,
    pub last_audit: Option<AuditRecord>,
    pub current_path: Option<String>,
    pub thresholds: AgeThresholds,
    pub legend: LegendColors,
    pub notification_msg: Option<Notification>,
    pub search_query: String,
    pub filter_extension: String,
    pub filter_max_size: u64,
    pub forensic_mode: bool,
    /// Which files a process has open.
    pub open_files_cache: HashMap<usize, bool>,
    pub navigation: NavigationSettings,
    /// When a change that was seen is followed by a reload.
    pub pending_watcher_reload: Option<u64>,
    pub active_tab: AppTab,
    pub diff_report_a: Option<ExportedAuditReport>,
    pub diff_report_b: Option<ExportedAuditReport>,
    pub diff_result: Option<TreeDiffResult>,
    pub history_log_lines: Vec<String>,
    /// The node to move and the folder to move it to, until the user decides.
    pub pending_move_confirmation: Option<(usize, usize)>,
    pub show_welcome_dialog: bool,
}

impl MerkleApp {
    /// What undo and redo restore of the session.
    pub open spec fn shown(&self) -> ViewState {
        ViewState {
            focused_root_id: self.focused_root_id,
            selected_node_id: self.selected_node_id,
            camera: self.camera,
            positions: self.custom_node_positions@,
        }
    }

    /// What is shown, with what can be undone and redone.
    pub open spec fn history(&self) -> HistoryView {
        HistoryView {
            current: self.shown(),
            undos: snapshot_views(self.undo_stack@),
            redos: snapshot_views(self.redo_stack@),
        }
    }

    /// The table of the session holds one tree, or nothing.
    pub open spec fn wf(&self) -> bool {
        tree_wf(table(self.nodes@))
    }

    /// The session tells the user something at a time.
    pub open spec fn notified(&self, text: Seq<char>, now: u64) -> bool {
        self.notification_msg matches Some(message) && message.text@ == text && message.given_at
            == now
    }

    /// A session at its start. `ledger` is what the ledger holds, where it could be read.
    pub fn new(ledger: Option<&str>) -> (app: MerkleApp)
        ensures
            app.wf(),
            app.nodes@.len() == 0,
            app.shown() == (ViewState {
                focused_root_id: None,
                selected_node_id: None,
                camera: home_camera(),
                positions: Map::empty(),
            }),
            app.undo_stack@.len() == 0,
            app.redo_stack@.len() == 0,
            !app.is_loading,
            app.progress == (0usize, 0usize),
            app.compute_hashes_enabled,
            app.hash_algorithm == HashAlgorithm::Sha256,
            !app.dark_mode,
            app.color_mode == NodeColorMode::ByExtension,
            !app.watcher_active,
            app.last_audit is None,
            app.current_path is None,
            app.thresholds == (AgeThresholds { red_hours: 1, yellow_hours: 12, green_days: 7 }),
            app.legend == default_legend(),
            app.notification_msg is None,
            app.search_query@.len() == 0,
            app.filter_extension@.len() == 0,
            app.filter_max_size == DEFAULT_MAX_SIZE,
            !app.forensic_mode,
            app.open_files_cache@ == Map::<usize, bool>::empty(),
            app.navigation == default_navigation(),
            app.pending_watcher_reload is None,
            app.active_tab == AppTab::Explorer,
            app.diff_report_a is None,
            app.diff_report_b is None,
            app.diff_result is None,
            texts(app.history_log_lines@) == ledger_history(ledger),
            app.pending_move_confirmation is None,
            app.show_welcome_dialog,
            app.focused_root_id is None,
            app.selected_node_id is None,
            app.camera == (Camera { zoom_scale: 0x3f80_0000, pan_x: 0, pan_y: 0 }),
            app.custom_node_positions@ == Map::<usize, PinnedPoint>::empty(),
            app.filter_max_size == 524_288_016,
            app.legend == (LegendColors {
                red: Color { r: 239, g: 68, b: 68, a: 255 },
                yellow: Color { r: 245, g: 158, b: 11, a: 255 },
                green: Color { r: 16, g: 185, b: 129, a: 255 },
                old: Color { r: 160, g: 160, b: 160, a: 255 },
            }),
            app.navigation == (NavigationSettings {
                pan_speed_mult: 0x4000_0000,
                zoom_speed_factor: 0x3f85_1eb8,
                smart_zoom_focus_enabled: true,
            }),
            ledger is None ==> app.history_log_lines@.len() == 0,
            ledger matches Some(text) ==> texts(app.history_log_lines@) == lines(text@),
    {
        MerkleApp {
            nodes: Vec::new(),
            selected_node_id: None,
            focused_root_id: None,
            is_loading: false,
            progress: (0, 0),
            compute_hashes_enabled: true,
            hash_algorithm: HashAlgorithm::Sha256,
            dark_mode: false,
            color_mode: NodeColorMode::ByExtension,
            camera: home_camera(),
            custom_node_positions: HashMap::new(),
            undo_stack: Vec::new(),
            redo_stack: Vec::new(),
            watcher_active: false,
            last_audit: None,
            current_path: None,
            thresholds: AgeThresholds { red_hours: 1, yellow_hours: 12, green_days: 7 },
            legend: default_legend(),
            notification_msg: None,
            search_query: String::new(),
            filter_extension: String::new(),
            filter_max_size: DEFAULT_MAX_SIZE,
            forensic_mode: false,
            open_files_cache: HashMap::new(),
            navigation: default_navigation(),
            pending_watcher_reload: None,
            active_tab: AppTab::Explorer,
            diff_report_a: None,
            diff_report_b: None,
            diff_result: None,
            history_log_lines: load_history_log(ledger),
            pending_move_confirmation: None,
            show_welcome_dialog: true,
        }
    }

    /// Tells the user something.
    pub fn set_notification(&mut self, text: String, now: u64)
        ensures
            final(self).notified(text@, now),
            final(self).notification_msg matches Some(message) && message.text@ == text@
                && message.given_at == now,
            *final(self) == (MerkleApp {
                notification_msg: final(self).notification_msg,
                ..*old(self)
            }),
    {
        self.notification_msg = Some(Notification { text, given_at: now });
    }

    /// What is shown, as a snapshot.
    fn snapshot(&self, description: &str) -> (snapshot: UndoSnapshot)
        ensures
            snapshot@.description == description@,
            snapshot@.state == self.shown(),
    {
        UndoSnapshot {
            description: description.to_owned(),
            focused_root_id: self.focused_root_id,
            selected_node_id: self.selected_node_id,
            camera: self.camera,
            custom_positions: self.custom_node_positions.clone(),
        }
    }

    /// Records what is shown, so that it can be undone to.
    pub fn push_undo_snapshot(&mut self, description: &str)
        ensures
            final(self).history() == recorded(old(self).history(), description@),
            final(self).redo_stack@.len() == 0,
            final(self).undo_stack@.len() == old(self).undo_stack@.len() + 1,
            ({
                let last = final(self).undo_stack@.last();
                &&& last.description@ == description@
                &&& last.focused_root_id == old(self).focused_root_id
                &&& last.selected_node_id == old(self).selected_node_id
                &&& last.camera == old(self).camera
                &&& last.custom_positions@ == old(self).custom_node_positions@
            }),
            forall|i: int|
                0 <= i < old(self).undo_stack@.len() ==> (#[trigger] final(self).undo_stack@[i])@
                    == old(self).undo_stack@[i]@,
            *final(self) == (MerkleApp {
                undo_stack: final(self).undo_stack,
                redo_stack: final(self).redo_stack,
                ..*old(self)
            }),
    {
        let snapshot = self.snapshot(description);
        self.undo_stack.push(snapshot);
        self.redo_stack.clear();
        assert(self.history() =~~= recorded(old(self).history(), description@));
    }

    /// Shows what a snapshot holds.
    fn restore(&mut self, snapshot: UndoSnapshot)
        ensures
            final(self).shown() == snapshot@.state,
            *final(self) == (MerkleApp {
                focused_root_id: final(self).focused_root_id,
                selected_node_id: final(self).selected_node_id,
                camera: final(self).camera,
                custom_node_positions: final(self).custom_node_positions,
                ..*old(self)
            }),
    {
        self.focused_root_id = snapshot.focused_root_id;
        self.selected_node_id = snapshot.selected_node_id;
        self.camera = snapshot.camera;
        self.custom_node_positions = snapshot.custom_positions;
    }

    /// Goes back to the last snapshot, and tells so.
    pub fn undo(&mut self, now: u64)
        ensures
            final(self).history() == undone(old(self).history()),
            old(self).undo_stack@.len() > 0 ==> {
                let last = old(self).undo_stack@.last();
                let kept = final(self).redo_stack@.last();
                &&& last.focused_root_id == final(self).focused_root_id
                &&& last.selected_node_id == final(self).selected_node_id
                &&& last.camera == final(self).camera
                &&& last.custom_positions@ == final(self).custom_node_positions@
                &&& kept.focused_root_id == old(self).focused_root_id
                &&& kept.selected_node_id == old(self).selected_node_id
                &&& kept.camera == old(self).camera
                &&& kept.custom_positions@ == old(self).custom_node_positions@
                &&& final(self).undo_stack@.len() == old(self).undo_stack@.len() - 1
                &&& final(self).redo_stack@.len() == old(self).redo_stack@.len() + 1
            },
            old(self).undo_stack@.len() == 0 ==> {
                &&& final(self).focused_root_id == old(self).focused_root_id
                &&& final(self).selected_node_id == old(self).selected_node_id
                &&& final(self).camera == old(self).camera
                &&& final(self).custom_node_positions@ == old(self).custom_node_positions@
                &&& final(self).redo_stack@.len() == old(self).redo_stack@.len()
                &&& final(self).undo_stack@.len() == 0
            },
            final(self).notification_msg matches Some(message) && message.given_at == now && {
                if old(self).undo_stack@.len() > 0 {
                    message.text@ == "↩ Deshecho: "@ + old(self).undo_stack@.last().description@
                } else {
                    message.text@ == "⚠️ No hay más acciones para deshacer"@
                }
            },
            final(self).notified(undo_text(old(self).history()), now),
            only_history_changed(*old(self), *final(self)),
    {
        match self.undo_stack.pop() {
            Some(snapshot) => {
                let current = self.snapshot("Redo state");
                self.redo_stack.push(current);
                let mut text = "↩ Deshecho: ".to_owned();
                text.append(snapshot.description.as_str());
                self.restore(snapshot);
                self.set_notification(text, now);
                assert(self.history() =~~= undone(old(self).history()));
            },
            None => {
                self.set_notification("⚠️ No hay más acciones para deshacer".to_owned(), now);
                assert(self.history() =~~= undone(old(self).history()));
            },
        }
    }

    /// Goes forward to what was undone last, and tells so. Where nothing was
    /// undone nothing happens.
    pub fn redo(&mut self, now: u64)
        ensures
            final(self).history() == redone(old(self).history()),
            old(self).redo_stack@.len() > 0 ==> {
                let last = old(self).redo_stack@.last();
                let kept = final(self).undo_stack@.last();
                &&& last.focused_root_id == final(self).focused_root_id
                &&& last.selected_node_id == final(self).selected_node_id
                &&& last.camera == final(self).camera
                &&& last.custom_positions@ == final(self).custom_node_positions@
                &&& kept.focused_root_id == old(self).focused_root_id
                &&& kept.selected_node_id == old(self).selected_node_id
                &&& kept.camera == old(self).camera
                &&& kept.custom_positions@ == old(self).custom_node_positions@
                &&& final(self).redo_stack@.len() == old(self).redo_stack@.len() - 1
                &&& final(self).undo_stack@.len() == old(self).undo_stack@.len() + 1
            },
            old(self).redo_stack@.len() == 0 ==> {
                &&& final(self).focused_root_id == old(self).focused_root_id
                &&& final(self).selected_node_id == old(self).selected_node_id
                &&& final(self).camera == old(self).camera
                &&& final(self).custom_node_positions@ == old(self).custom_node_positions@
                &&& final(self).undo_stack@.len() == old(self).undo_stack@.len()
                &&& final(self).redo_stack@.len() == 0
            },
            if old(self).redo_stack@.len() > 0 {
                final(self).notified("↪ Rehecho"@, now)
            } else {
                final(self).notification_msg == old(self).notification_msg
            },
            only_history_changed(*old(self), *final(self)),
    {
        match self.redo_stack.pop() {
            Some(snapshot) => {
                let current = self.snapshot("Undo state");
                self.undo_stack.push(current);
                self.restore(snapshot);
                self.set_notification("↪ Rehecho".to_owned(), now);
                assert(self.history() =~~= redone(old(self).history()));
            },
            None => {
                assert(self.history() =~~= redone(old(self).history()));
            },
        }
    }

    /// What the user is told at a time: a message is shown for six seconds.
    pub fn shown_notification(&self, now: u64) -> (text: Option<&String>)
        ensures
            text == self.notification_at(now),
            text is Some <==> self.notification_msg is Some && now
                - self.notification_msg->0.given_at < 6000,
            text matches Some(shown) ==> shown@ == self.notification_msg->0.text@,
    {
        match &self.notification_msg {
            Some(message) => {
                if now < message.given_at || now - message.given_at < 6000 {
                    Some(&message.text)
                } else {
                    None
                }
            },
            None => None,
        }
    }

    /// What the user is told at a time.
    pub open spec fn notification_at(&self, now: u64) -> Option<&String> {
        match self.notification_msg {
            Some(message) => if now - message.given_at < 6000 {
                Some(&message.text)
            } else {
                None
            },
            None => None,
        }
    }
}

/// What the user is told of an undo.
pub open spec fn undo_text(h: HistoryView) -> Seq<char> {
    if h.undos.len() > 0 {
        "↩ Deshecho: "@ + h.undos.last().description
    } else {
        "⚠️ No hay más acciones para deshacer"@
    }
}

/// Two sessions that differ in what is shown, in its history and in the
/// message to the user at most.
pub open spec fn only_history_changed(before: MerkleApp, after: MerkleApp) -> bool {
    after == (MerkleApp {
        focused_root_id: after.focused_root_id,
        selected_node_id: after.selected_node_id,
        camera: after.camera,
        custom_node_positions: after.custom_node_positions,
        undo_stack: after.undo_stack,
        redo_stack: after.redo_stack,
        notification_msg: after.notification_msg,
        ..before
    })
}

/// The history that a ledger tells, none where it could not be read.
pub open spec fn ledger_history(ledger: Option<&str>) -> Seq<Seq<char>> {
    match ledger {
        Some(text) => lines(text@),
        None => Seq::empty(),
    }
}

/// The lines of the ledger, none where it could not be read.
pub fn load_history_log(ledger: Option<&str>) -> (history: Vec<String>)
    ensures
        texts(history@) == ledger_history(ledger),
        ledger is None ==> history@.len() == 0,
        ledger matches Some(text) ==> texts(history@) == lines(text@),
{
    match ledger {
        Some(text) => history_lines(text),
        None => {
            let none: Vec<String> = Vec::new();
            assert(texts(none@) =~= Seq::empty());
            none
        },
    }
}

/// A message is shown from the time it is given for six seconds, and no longer.
pub proof fn law_message_is_shown_for_six_seconds(
    app: MerkleApp,
    text: Seq<char>,
    now: u64,
    later: u64,
)
    requires
        app.notified(text, now),
        now <= later,
    ensures
        later < now + 6000 ==> (app.notification_at(later) matches Some(shown) && shown@ == text),
        later >= now + 6000 ==> app.notification_at(later) is None,
{
}

/// What is told of an undo names what the snapshot was taken for.
pub proof fn law_undo_text(h: HistoryView, description: Seq<char>, later: ViewState)
    ensures
        undo_text(showing(recorded(h, description), later)) == "↩ Deshecho: "@ + description,
        h.undos.len() == 0 ==> undo_text(h) == "⚠️ No hay más acciones para deshacer"@,
{
}

/// Going back and forth in the history leaves all the rest of a session as it
/// is: the tree, the audit, the settings, the filter, the reports and what
/// waits to be done.
pub proof fn law_history_leaves_the_rest(before: MerkleApp, after: MerkleApp)
    requires
        only_history_changed(before, after),
    ensures
        after.nodes == before.nodes,
        after.is_loading == before.is_loading,
        after.progress == before.progress,
        after.compute_hashes_enabled == before.compute_hashes_enabled,
        after.hash_algorithm == before.hash_algorithm,
        after.dark_mode == before.dark_mode,
        after.color_mode == before.color_mode,
        after.watcher_active == before.watcher_active,
        after.last_audit == before.last_audit,
        after.current_path == before.current_path,
        after.thresholds == before.thresholds,
        after.legend == before.legend,
        after.search_query == before.search_query,
        after.filter_extension == before.filter_extension,
        after.filter_max_size == before.filter_max_size,
        after.forensic_mode == before.forensic_mode,
        after.open_files_cache == before.open_files_cache,
        after.navigation == before.navigation,
        after.pending_watcher_reload == before.pending_watcher_reload,
        after.active_tab == before.active_tab,
        after.diff_report_a == before.diff_report_a,
        after.diff_report_b == before.diff_report_b,
        after.diff_result == before.diff_result,
        after.history_log_lines == before.history_log_lines,
        after.pending_move_confirmation == before.pending_move_confirmation,
        after.show_welcome_dialog == before.show_welcome_dialog,
{
}

} // verus!
