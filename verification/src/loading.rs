//! Loading and reloading directories: what the session asks of the tree
//! builder and the file watcher, and how it takes their reports.

use vstd::prelude::*;
use vstd::std_specs::hash::*;
use vstd::string::*;
use crate::audit::WorkerMessage;
use crate::hashing::HashAlgorithm;
use crate::history::{home_camera, Camera, PinnedPoint, ViewState};
use crate::node::{table, tree_wf};
use crate::session::{ledger_history, load_history_log, MerkleApp};
use crate::text::texts;
use crate::watcher::WatcherMessage;

verus! {

broadcast use vstd::std_specs::hash::group_hash_axioms;

/// The time from a change that was seen to the reload that follows it, in
/// milliseconds.
pub const RELOAD_DELAY: u64 = 500;

/// What the tree builder is asked for.
#[derive(Debug)]
pub struct BuildRequest {
    pub path: String,
    pub compute_hashes: bool,
    pub algorithm: HashAlgorithm,
}

/// The contents of a `BuildRequest`.
pub struct BuildRequestView {
    pub path: Seq<char>,
    pub compute_hashes: bool,
    pub algorithm: HashAlgorithm,
}

impl View for BuildRequest {
    type V = BuildRequestView;

    open spec fn view(&self) -> BuildRequestView {
        BuildRequestView {
            path: self.path@,
            compute_hashes: self.compute_hashes,
            algorithm: self.algorithm,
        }
    }
}

/// The contents of a request that may be missing.
pub open spec fn request_view(request: Option<BuildRequest>) -> Option<BuildRequestView> {
    match request {
        Some(request) => Some(request@),
        None => None,
    }
}

/// What loading a directory asks for: whether it is to be watched, and its tree.
#[derive(Debug)]
pub struct LoadPlan {
    pub watch: bool,
    pub build: BuildRequest,
}

/// A session with nothing to show.
pub open spec fn nothing_shown() -> ViewState {
    ViewState {
        focused_root_id: None,
        selected_node_id: None,
        camera: home_camera(),
        positions: Map::empty(),
    }
}

impl MerkleApp {
    /// The request for the tree at a path, under the session's settings.
    pub open spec fn request_for(&self, path: Seq<char>) -> BuildRequestView {
        BuildRequestView {
            path,
            compute_hashes: self.compute_hashes_enabled,
            algorithm: self.hash_algorithm,
        }
    }

    /// The request of a reload: none while a tree is being built, or where no
    /// directory was loaded.
    pub open spec fn reload_request(&self) -> Option<BuildRequestView> {
        match self.current_path {
            Some(path) => if self.is_loading {
                None
            } else {
                Some(self.request_for(path@))
            },
            None => None,
        }
    }

    /// Begins to load a directory: the tree, the view and the pinned cards
    /// are cleared. Where changes are watched, the new directory is to be.
    pub fn load_directory(&mut self, path: &str) -> (plan: LoadPlan)
        ensures
            plan.watch == old(self).watcher_active,
            plan.build@ == old(self).request_for(path@),
            plan.build.path@ == path@,
            plan.build.compute_hashes == old(self).compute_hashes_enabled,
            plan.build.algorithm == old(self).hash_algorithm,
            final(self).focused_root_id is None,
            final(self).selected_node_id is None,
            final(self).camera == (Camera { zoom_scale: 0x3f80_0000, pan_x: 0, pan_y: 0 }),
            final(self).custom_node_positions@ == Map::<usize, PinnedPoint>::empty(),
            final(self).wf(),
            final(self).is_loading,
            final(self).progress == (0usize, 0usize),
            final(self).nodes@.len() == 0,
            final(self).shown() == nothing_shown(),
            final(self).open_files_cache@ == Map::<usize, bool>::empty(),
            final(self).current_path matches Some(current) && current@ == path@,
            *final(self) == (MerkleApp {
                is_loading: final(self).is_loading,
                progress: final(self).progress,
                nodes: final(self).nodes,
                selected_node_id: final(self).selected_node_id,
                focused_root_id: final(self).focused_root_id,
                camera: final(self).camera,
                custom_node_positions: final(self).custom_node_positions,
                open_files_cache: final(self).open_files_cache,
                current_path: final(self).current_path,
                ..*old(self)
            }),
    {
        self.is_loading = true;
        self.progress = (0, 0);
        self.nodes.clear();
        self.selected_node_id = None;
        self.focused_root_id = None;
        self.camera = home_camera();
        self.custom_node_positions.clear();
        self.open_files_cache.clear();
        self.current_path = Some(path.to_owned());
        LoadPlan {
            watch: self.watcher_active,
            build: BuildRequest {
                path: path.to_owned(),
                compute_hashes: self.compute_hashes_enabled,
                algorithm: self.hash_algorithm,
            },
        }
    }

    /// Begins to reload the directory in the background. The tree that is
    /// shown stays, and so does the view.
    pub fn reload_directory_background(&mut self) -> (request: Option<BuildRequest>)
        ensures
            request_view(request) == old(self).reload_request(),
            request is Some <==> old(self).current_path is Some && !old(self).is_loading,
            request matches Some(build) ==> build.path@ == old(self).current_path->0@
                && build.compute_hashes == old(self).compute_hashes_enabled && build.algorithm
                == old(self).hash_algorithm,
            request is Some ==> final(self).is_loading && final(self).progress == (0usize, 0usize),
            request is None ==> *final(self) == *old(self),
            *final(self) == (MerkleApp {
                is_loading: final(self).is_loading,
                progress: final(self).progress,
                ..*old(self)
            }),
    {
        if self.is_loading {
            return None;
        }
        let path = match &self.current_path {
            Some(path) => path.clone(),
            None => {
                return None;
            },
        };
        self.is_loading = true;
        self.progress = (0, 0);
        Some(
            BuildRequest {
                path,
                compute_hashes: self.compute_hashes_enabled,
                algorithm: self.hash_algorithm,
            },
        )
    }

    /// Takes what starting the file watcher came to, and tells it.
    pub fn start_watcher(&mut self, outcome: &Result<(), String>, now: u64)
        ensures
            final(self).watcher_active == (outcome is Ok),
            match outcome {
                Ok(_) => final(self).notified("👁️ Monitoreo en tiempo real activado"@, now),
                Err(error) => final(self).notified("❌ Error iniciando watcher: "@ + error@, now),
            },
            *final(self) == (MerkleApp {
                watcher_active: final(self).watcher_active,
                notification_msg: final(self).notification_msg,
                ..*old(self)
            }),
    {
        match outcome {
            Ok(_) => {
                self.watcher_active = true;
                self.set_notification("👁️ Monitoreo en tiempo real activado".to_owned(), now);
            },
            Err(error) => {
                let mut text = "❌ Error iniciando watcher: ".to_owned();
                text.append(error.as_str());
                self.set_notification(text, now);
                self.watcher_active = false;
            },
        }
    }

    /// Takes note that the file watcher is gone, and tells it.
    pub fn stop_watcher(&mut self, now: u64)
        ensures
            !final(self).watcher_active,
            final(self).notified("⏹️ Monitoreo detenido"@, now),
            *final(self) == (MerkleApp {
                watcher_active: final(self).watcher_active,
                notification_msg: final(self).notification_msg,
                ..*old(self)
            }),
    {
        self.watcher_active = false;
        self.set_notification("⏹️ Monitoreo detenido".to_owned(), now);
    }

    /// Takes a report of the tree builder. A tree replaces the one before;
    /// the view is reset where there was none, and kept otherwise. `ledger`
    /// is what the ledger holds by then, where it could be read.
    pub fn receive_worker_message(&mut self, message: WorkerMessage, ledger: Option<&str>, now: u64)
        ensures
            old(self).wf() && (message matches WorkerMessage::TreeBuilt { nodes, .. } ==> tree_wf(
                table(nodes@),
            )) ==> final(self).wf(),
            match message {
                WorkerMessage::TreeBuilt { nodes, root_id, audit_record } => {
                    let was_empty = old(self).nodes@.len() == 0;
                    &&& final(self).nodes == nodes
                    &&& final(self).last_audit == Some(audit_record)
                    &&& !final(self).is_loading
                    &&& texts(final(self).history_log_lines@) == ledger_history(ledger)
                    &&& final(self).selected_node_id == old(self).selected_node_id
                    &&& was_empty ==> final(self).focused_root_id is None && final(self).camera == (
                    Camera { zoom_scale: 0x3f80_0000, pan_x: 0, pan_y: 0 })
                        && final(self).custom_node_positions@ == Map::<
                        usize,
                        PinnedPoint,
                    >::empty()
                    &&& !was_empty ==> final(self).focused_root_id == old(self).focused_root_id
                        && final(self).camera == old(self).camera
                        && final(self).custom_node_positions@ == old(self).custom_node_positions@
                    &&& final(self).shown() == (if was_empty {
                        ViewState {
                            selected_node_id: old(self).selected_node_id,
                            ..nothing_shown()
                        }
                    } else {
                        old(self).shown()
                    })
                    &&& final(self).notified(
                        if was_empty {
                            "✅ Árbol de Merkle cargado y centrado"@
                        } else {
                            "🔄 Árbol actualizado en segundo plano (Sin interrupción)"@
                        },
                        now,
                    )
                    &&& *final(self) == (MerkleApp {
                        nodes: final(self).nodes,
                        last_audit: final(self).last_audit,
                        is_loading: final(self).is_loading,
                        history_log_lines: final(self).history_log_lines,
                        focused_root_id: final(self).focused_root_id,
                        camera: final(self).camera,
                        custom_node_positions: final(self).custom_node_positions,
                        notification_msg: final(self).notification_msg,
                        ..*old(self)
                    })
                },
                WorkerMessage::Progress { current, total } => *final(self) == (MerkleApp {
                    progress: (current, total),
                    ..*old(self)
                }),
                WorkerMessage::FileAdded(text) => {
                    &&& final(self).notified(text@, now)
                    &&& *final(self) == (MerkleApp {
                        notification_msg: final(self).notification_msg,
                        ..*old(self)
                    })
                },
                WorkerMessage::Error(error) => {
                    &&& final(self).notified("❌ Error: "@ + error@, now)
                    &&& *final(self) == (MerkleApp {
                        is_loading: false,
                        notification_msg: final(self).notification_msg,
                        ..*old(self)
                    })
                },
            },
    {
        match message {
            WorkerMessage::TreeBuilt { nodes, root_id: _, audit_record } => {
                let was_empty = self.nodes.len() == 0;
                self.nodes = nodes;
                self.last_audit = Some(audit_record);
                self.is_loading = false;
                self.history_log_lines = load_history_log(ledger);
                if was_empty {
                    self.focused_root_id = None;
                    self.camera = home_camera();
                    self.custom_node_positions.clear();
                    self.set_notification("✅ Árbol de Merkle cargado y centrado".to_owned(), now);
                } else {
                    self.set_notification(
                        "🔄 Árbol actualizado en segundo plano (Sin interrupción)".to_owned(),
                        now,
                    );
                }
            },
            WorkerMessage::Progress { current, total } => {
                self.progress = (current, total);
            },
            WorkerMessage::FileAdded(text) => {
                self.set_notification(text, now);
            },
            WorkerMessage::Error(error) => {
                self.is_loading = false;
                let mut text = "❌ Error: ".to_owned();
                text.append(error.as_str());
                self.set_notification(text, now);
            },
        }
    }

    /// Takes a report of the file watcher, and says whether it calls for the
    /// alert sound. A change is followed by a reload after a while; a later
    /// change puts the reload off.
    pub fn receive_watcher_message(&mut self, message: &WatcherMessage, now: u64) -> (alert: bool)
        requires
            now + RELOAD_DELAY <= u64::MAX,
        ensures
            alert == (message is FileChanged),
            match message {
                WatcherMessage::FileChanged(_, description) => {
                    &&& final(self).notified("🔔 Cambio en tiempo real: "@ + description@, now)
                    &&& final(self).pending_watcher_reload == Some((now + RELOAD_DELAY) as u64)
                    &&& final(self).pending_watcher_reload == Some((now + 500) as u64)
                },
                WatcherMessage::Error(error) => {
                    &&& final(self).notified("⚠️ Watcher Error: "@ + error@, now)
                    &&& final(self).pending_watcher_reload == old(self).pending_watcher_reload
                },
            },
            *final(self) == (MerkleApp {
                pending_watcher_reload: final(self).pending_watcher_reload,
                notification_msg: final(self).notification_msg,
                ..*old(self)
            }),
    {
        match message {
            WatcherMessage::FileChanged(_, description) => {
                let mut text = "🔔 Cambio en tiempo real: ".to_owned();
                text.append(description.as_str());
                self.set_notification(text, now);
                self.pending_watcher_reload = Some(now + RELOAD_DELAY);
                true
            },
            WatcherMessage::Error(error) => {
                let mut text = "⚠️ Watcher Error: ".to_owned();
                text.append(error.as_str());
                self.set_notification(text, now);
                false
            },
        }
    }

    /// Whether the reload that follows a change is due.
    pub open spec fn reload_due(&self, now: u64) -> bool {
        self.pending_watcher_reload matches Some(at) && now >= at
    }

    /// Begins the reload that follows a change, once it is due. A reload that
    /// falls due while a tree is being built is dropped.
    pub fn poll_watcher_reload(&mut self, now: u64) -> (request: Option<BuildRequest>)
        ensures
            request_view(request) == (if old(self).reload_due(now) {
                old(self).reload_request()
            } else {
                None
            }),
            old(self).pending_watcher_reload is None ==> request is None,
            old(self).pending_watcher_reload matches Some(at) ==> now < at ==> request is None
                && final(self).pending_watcher_reload == Some(at),
            old(self).pending_watcher_reload matches Some(at) ==> now >= at
                ==> final(self).pending_watcher_reload is None && (request is Some <==> old(
                self,
            ).current_path is Some && !old(self).is_loading),
            request matches Some(build) ==> build.path@ == old(self).current_path->0@
                && build.compute_hashes == old(self).compute_hashes_enabled && build.algorithm
                == old(self).hash_algorithm,
            final(self).pending_watcher_reload == (if old(self).reload_due(now) {
                None
            } else {
                old(self).pending_watcher_reload
            }),
            request is Some ==> final(self).is_loading && final(self).progress == (0usize, 0usize),
            request is None ==> final(self).is_loading == old(self).is_loading
                && final(self).progress == old(self).progress,
            *final(self) == (MerkleApp {
                pending_watcher_reload: final(self).pending_watcher_reload,
                is_loading: final(self).is_loading,
                progress: final(self).progress,
                ..*old(self)
            }),
    {
        match self.pending_watcher_reload {
            Some(at) => {
                if now >= at {
                    self.pending_watcher_reload = None;
                    self.reload_directory_background()
                } else {
                    None
                }
            },
            None => None,
        }
    }
}

/// A reload is asked for exactly where a directory was loaded and no tree is
/// being built, and asks for that directory under the session's settings.
pub proof fn law_reload_request(app: MerkleApp)
    ensures
        app.reload_request() is Some <==> app.current_path is Some && !app.is_loading,
        app.reload_request() matches Some(request) ==> request.path == app.current_path->0@
            && request.compute_hashes == app.compute_hashes_enabled && request.algorithm
            == app.hash_algorithm,
{
}

/// A change that was seen is followed by a reload half a second later, and not
/// before.
pub proof fn law_reload_waits_half_a_second(app: MerkleApp, seen: u64, now: u64)
    requires
        seen + RELOAD_DELAY <= u64::MAX,
        app.pending_watcher_reload == Some((seen + RELOAD_DELAY) as u64),
    ensures
        app.reload_due(now) <==> now >= seen + 500,
{
}

} // verus!
