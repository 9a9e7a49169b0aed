//! Moving files into folders: the user confirms, the target must be free, and
//! nothing is ever deleted.

use vstd::prelude::*;
use vstd::string::*;
use crate::cards::{get_file_icon, node_icon};
use crate::history::recorded;
use crate::loading::{request_view, BuildRequest};
use crate::node::{table, NodeView};
use crate::paths::{file_name, path_file_name};
use crate::session::MerkleApp;
use crate::text::text_option;

verus! {

/// A node that is to be moved into a folder.
#[derive(Debug)]
pub struct MoveRequest {
    pub src_node_id: usize,
    pub dest_folder_id: usize,
    pub file_name: String,
    pub dest_dir: String,
}

/// The contents of a `MoveRequest`.
pub struct MoveRequestView {
    pub src_node_id: usize,
    pub dest_folder_id: usize,
    pub file_name: Seq<char>,
    pub dest_dir: Seq<char>,
}

impl View for MoveRequest {
    type V = MoveRequestView;

    open spec fn view(&self) -> MoveRequestView {
        MoveRequestView {
            src_node_id: self.src_node_id,
            dest_folder_id: self.dest_folder_id,
            file_name: self.file_name@,
            dest_dir: self.dest_dir@,
        }
    }
}

/// The contents of a request that may be missing.
pub open spec fn move_view(request: Option<MoveRequest>) -> Option<MoveRequestView> {
    match request {
        Some(request) => Some(request@),
        None => None,
    }
}

/// What moving a node into a folder asks for, given the file name of the
/// node's path: nothing where one of the two is not there, where they are
/// one, where the target is no folder, or where the path has no file name.
pub open spec fn move_of(
    t: Seq<NodeView>,
    src: usize,
    dest: usize,
    name: Option<Seq<char>>,
) -> Option<MoveRequestView> {
    if src == dest || src >= t.len() || dest >= t.len() || !t[dest as int].is_dir {
        None
    } else {
        match name {
            Some(file_name) => Some(
                MoveRequestView {
                    src_node_id: src,
                    dest_folder_id: dest,
                    file_name,
                    dest_dir: t[dest as int].path,
                },
            ),
            None => None,
        }
    }
}

/// What moving a node into a folder asks for.
pub open spec fn planned_move(t: Seq<NodeView>, src: usize, dest: usize) -> Option<MoveRequestView> {
    move_of(t, src, dest, path_file_name(t[src as int].path))
}

/// How a move is told.
pub open spec fn move_text(start: Seq<char>, request: MoveRequestView) -> Seq<char> {
    start + request.file_name + " a "@ + request.dest_dir
}

/// How a move is told.
fn tell_move(start: &str, request: &MoveRequest) -> (text: String)
    ensures
        text@ == move_text(start@, request@),
{
    let mut text = start.to_owned();
    text.append(request.file_name.as_str());
    text.append(" a ");
    text.append(request.dest_dir.as_str());
    text
}

/// What the user is shown of a move before consenting to it.
#[derive(Debug)]
pub struct MovePreview {
    pub src_icon: &'static str,
    pub src_name: String,
    pub dest_name: String,
}

/// The icon and the name under which a node that is to be moved is shown.
pub open spec fn shown_source(t: Seq<NodeView>, id: usize) -> (Seq<char>, Seq<char>) {
    if id < t.len() {
        (node_icon(t[id as int]), t[id as int].name)
    } else {
        ("📄"@, "Archivo"@)
    }
}

/// The name under which the folder of a move is shown.
pub open spec fn shown_target(t: Seq<NodeView>, id: usize) -> Seq<char> {
    if id < t.len() {
        t[id as int].name
    } else {
        "Carpeta Destino"@
    }
}

impl MerkleApp {
    /// What the user is shown of the move that waits for consent. A node that
    /// is gone is shown under a general name.
    pub fn move_preview(&self) -> (preview: Option<MovePreview>)
        ensures
            preview is Some <==> self.pending_move_confirmation is Some,
            preview matches Some(preview) ==> {
                let pair = self.pending_move_confirmation->0;
                let source = shown_source(table(self.nodes@), pair.0);
                &&& preview.src_icon@ == source.0
                &&& preview.src_name@ == source.1
                &&& preview.dest_name@ == shown_target(table(self.nodes@), pair.1)
            },
    {
        let pair = match self.pending_move_confirmation {
            Some(pair) => pair,
            None => {
                return None;
            },
        };
        let (src_icon, src_name): (&'static str, String) = if pair.0 < self.nodes.len() {
            (get_file_icon(&self.nodes[pair.0]), self.nodes[pair.0].name.clone())
        } else {
            ("📄", "Archivo".to_owned())
        };
        let dest_name: String = if pair.1 < self.nodes.len() {
            self.nodes[pair.1].name.clone()
        } else {
            "Carpeta Destino".to_owned()
        };
        Some(MovePreview { src_icon, src_name, dest_name })
    }

    /// What moving a node into a folder asks for.
    pub fn move_node_to_folder(&self, src_node_id: usize, dest_folder_id: usize) -> (request: Option<
        MoveRequest,
    >)
        ensures
            move_view(request) == planned_move(table(self.nodes@), src_node_id, dest_folder_id),
            request is Some <==> src_node_id != dest_folder_id && src_node_id < self.nodes.len()
                && dest_folder_id < self.nodes.len() && self.nodes@[dest_folder_id as int].is_dir
                && path_file_name(self.nodes@[src_node_id as int].path@) is Some,
            request matches Some(asked) ==> {
                &&& asked.src_node_id == src_node_id
                &&& asked.dest_folder_id == dest_folder_id
                &&& asked.file_name@ == path_file_name(self.nodes@[src_node_id as int].path@)->0
                &&& asked.dest_dir@ == self.nodes@[dest_folder_id as int].path@
            },
    {
        if src_node_id >= self.nodes.len() {
            return None;
        }
        let name = file_name(self.nodes[src_node_id].path.as_str());
        self.move_with_name(src_node_id, dest_folder_id, name)
    }

    /// What moving a node into a folder asks for, given the file name of the
    /// node's path.
    pub fn move_with_name(
        &self,
        src_node_id: usize,
        dest_folder_id: usize,
        name: Option<String>,
    ) -> (request: Option<MoveRequest>)
        ensures
            move_view(request) == move_of(
                table(self.nodes@),
                src_node_id,
                dest_folder_id,
                text_option(name),
            ),
    {
        if src_node_id == dest_folder_id || src_node_id >= self.nodes.len() || dest_folder_id
            >= self.nodes.len() || !self.nodes[dest_folder_id].is_dir {
            return None;
        }
        match name {
            Some(file_name) => Some(
                MoveRequest {
                    src_node_id,
                    dest_folder_id,
                    file_name,
                    dest_dir: self.nodes[dest_folder_id].path.clone(),
                },
            ),
            None => None,
        }
    }

    /// Takes whether something stands where a node is to be moved to, and
    /// says whether the node may be renamed: only where nothing does.
    pub fn target_checked(&mut self, target_exists: bool, now: u64) -> (rename: bool)
        ensures
            rename == !target_exists,
            rename ==> *final(self) == *old(self),
            !rename ==> final(self).notified(
                "⚠️ Ya existe un archivo con ese nombre en la carpeta destino"@,
                now,
            ),
            *final(self) == (MerkleApp {
                notification_msg: final(self).notification_msg,
                ..*old(self)
            }),
    {
        if target_exists {
            self.set_notification(
                "⚠️ Ya existe un archivo con ese nombre en la carpeta destino".to_owned(),
                now,
            );
            return false;
        }
        true
    }

    /// Takes what renaming came to. A move is recorded, told and followed by
    /// a reload; a failure is told.
    pub fn move_finished(
        &mut self,
        request: &MoveRequest,
        outcome: &Result<(), String>,
        now: u64,
    ) -> (reload: Option<BuildRequest>)
        ensures
            match outcome {
                Ok(_) => {
                    &&& request_view(reload) == old(self).reload_request()
                    &&& final(self).history() == recorded(
                        old(self).history(),
                        move_text("Mover "@, request@),
                    )
                    &&& final(self).notified(move_text("📦 Movido "@, request@), now)
                    &&& reload is Some ==> final(self).is_loading && final(self).progress == (
                        0usize,
                        0usize,
                    )
                    &&& reload is None ==> final(self).is_loading == old(self).is_loading
                        && final(self).progress == old(self).progress
                    &&& *final(self) == (MerkleApp {
                        undo_stack: final(self).undo_stack,
                        redo_stack: final(self).redo_stack,
                        is_loading: final(self).is_loading,
                        progress: final(self).progress,
                        notification_msg: final(self).notification_msg,
                        ..*old(self)
                    })
                },
                Err(error) => {
                    &&& reload is None
                    &&& final(self).notified("❌ Error moviendo archivo: "@ + error@, now)
                    &&& *final(self) == (MerkleApp {
                        notification_msg: final(self).notification_msg,
                        ..*old(self)
                    })
                },
            },
    {
        match outcome {
            Ok(_) => {
                let description = tell_move("Mover ", request);
                self.push_undo_snapshot(description.as_str());
                self.set_notification(tell_move("📦 Movido ", request), now);
                self.reload_directory_background()
            },
            Err(error) => {
                let mut text = "❌ Error moviendo archivo: ".to_owned();
                text.append(error.as_str());
                self.set_notification(text, now);
                None
            },
        }
    }

    /// Takes the user's consent to the move that waits for it.
    pub fn confirm_move(&mut self) -> (request: Option<MoveRequest>)
        ensures
            move_view(request) == (match old(self).pending_move_confirmation {
                Some(pair) => planned_move(table(old(self).nodes@), pair.0, pair.1),
                None => None,
            }),
            *final(self) == (MerkleApp { pending_move_confirmation: None, ..*old(self) }),
    {
        match self.pending_move_confirmation {
            Some(pair) => {
                self.pending_move_confirmation = None;
                self.move_node_to_folder(pair.0, pair.1)
            },
            None => None,
        }
    }

    /// Takes the user's refusal of the move that waits for consent, and tells so.
    pub fn cancel_move(&mut self, now: u64)
        ensures
            final(self).notified("ℹ️ Traslado de archivo cancelado"@, now),
            *final(self) == (MerkleApp {
                pending_move_confirmation: None,
                notification_msg: final(self).notification_msg,
                ..*old(self)
            }),
    {
        self.pending_move_confirmation = None;
        self.set_notification("ℹ️ Traslado de archivo cancelado".to_owned(), now);
    }
}

/// What is moved is another node than the folder it goes to, both are in the
/// table, and the target is a folder.
pub proof fn law_moves_go_into_folders(t: Seq<NodeView>, src: usize, dest: usize)
    ensures
        planned_move(t, src, dest) matches Some(request) ==> {
            &&& request.src_node_id == src
            &&& request.dest_folder_id == dest
            &&& src != dest
            &&& src < t.len()
            &&& dest < t.len()
            &&& t[dest as int].is_dir
            &&& request.dest_dir == t[dest as int].path
        },
{
}

/// A move is asked for exactly where two different nodes of the table are
/// given, the target is a folder and the path of the other has a file name; it
/// keeps that name.
pub proof fn law_planned_moves(t: Seq<NodeView>, src: usize, dest: usize)
    ensures
        planned_move(t, src, dest) is Some <==> src != dest && src < t.len() && dest < t.len()
            && t[dest as int].is_dir && path_file_name(t[src as int].path) is Some,
        planned_move(t, src, dest) matches Some(request) ==> path_file_name(t[src as int].path)
            == Some(request.file_name),
{
}

/// A move is told with the name of what is moved, then the folder it goes to.
pub proof fn law_move_text(start: Seq<char>, request: MoveRequestView)
    ensures
        move_text(start, request) == start + request.file_name + " a "@ + request.dest_dir,
{
}

/// What is shown of a move: the icon and the name of the node that is moved and
/// the name of the folder, or general names for what is gone.
pub proof fn law_move_preview(t: Seq<NodeView>, id: usize)
    ensures
        id < t.len() ==> shown_source(t, id) == (node_icon(t[id as int]), t[id as int].name)
            && shown_target(t, id) == t[id as int].name,
        id >= t.len() ==> shown_source(t, id) == ("📄"@, "Archivo"@) && shown_target(t, id)
            == "Carpeta Destino"@,
{
}

} // verus!
