//! What a file watcher reports.

use vstd::prelude::*;
use vstd::string::*;

verus! {

/// What a file watcher reports: a change of the file at a path, with its
/// description, or a failure.
#[derive(Debug)]
pub enum WatcherMessage {
    FileChanged(String, String),
    Error(String),
}

/// The contents of a `WatcherMessage`.
pub enum WatcherMessageView {
    FileChanged(Seq<char>, Seq<char>),
    Error(Seq<char>),
}

impl View for WatcherMessage {
    type V = WatcherMessageView;

    open spec fn view(&self) -> WatcherMessageView {
        match self {
            WatcherMessage::FileChanged(path, description) => WatcherMessageView::FileChanged(
                path@,
                description@,
            ),
            WatcherMessage::Error(text) => WatcherMessageView::Error(text@),
        }
    }
}

/// The changes that a watcher tells apart.
#[derive(Clone, Copy, Debug, PartialEq, Eq, Structural)]
pub enum ChangeKind {
    Created,
    Modified,
    Removed,
    /// A change that is not reported.
    Other,
}

/// What the description of a change begins with.
pub open spec fn change_label(kind: ChangeKind) -> Option<Seq<char>> {
    match kind {
        ChangeKind::Created => Some("Archivo Creado: "@),
        ChangeKind::Modified => Some("Archivo Modificado: "@),
        ChangeKind::Removed => Some("Archivo Eliminado: "@),
        ChangeKind::Other => None,
    }
}

/// The reports on a change: one for each path.
pub open spec fn change_reports(kind: ChangeKind, paths: Seq<String>) -> Seq<WatcherMessageView> {
    match change_label(kind) {
        Some(label) => paths.map_values(
            |path: String| WatcherMessageView::FileChanged(path@, label + path@),
        ),
        None => Seq::empty(),
    }
}

/// The contents of a list of reports.
pub open spec fn message_views(messages: Seq<WatcherMessage>) -> Seq<WatcherMessageView> {
    messages.map_values(|message: WatcherMessage| message@)
}

/// The reports on a change: one for each path. Changes of another kind than
/// creation, modification and removal bring none.
pub fn change_messages(kind: ChangeKind, paths: &Vec<String>) -> (messages: Vec<WatcherMessage>)
    ensures
        message_views(messages@) == change_reports(kind, paths@),
        kind == ChangeKind::Other ==> messages.len() == 0,
        kind != ChangeKind::Other ==> messages.len() == paths.len(),
        forall|i: int|
            0 <= i < messages.len() ==> ((#[trigger] messages@[i]) matches
                WatcherMessage::FileChanged(path, description) && path@ == paths@[i]@ && (kind
                == ChangeKind::Created ==> description@ == "Archivo Creado: "@ + paths@[i]@) && (
            kind == ChangeKind::Modified ==> description@ == "Archivo Modificado: "@ + paths@[i]@)
                && (kind == ChangeKind::Removed ==> description@ == "Archivo Eliminado: "@
                + paths@[i]@)),
{
    let mut messages: Vec<WatcherMessage> = Vec::new();
    let label = match kind {
        ChangeKind::Created => "Archivo Creado: ",
        ChangeKind::Modified => "Archivo Modificado: ",
        ChangeKind::Removed => "Archivo Eliminado: ",
        ChangeKind::Other => {
            assert(message_views(messages@) =~= Seq::empty());
            return messages;
        },
    };
    let mut i: usize = 0;
    while i < paths.len()
        invariant
            i <= paths.len(),
            change_label(kind) == Some(label@),
            message_views(messages@) == change_reports(kind, paths@).take(i as int),
        decreases paths.len() - i,
    {
        let mut description = label.to_owned();
        description.append(paths[i].as_str());
        let ghost before = messages@;
        messages.push(WatcherMessage::FileChanged(paths[i].clone(), description));
        i = i + 1;
        assert(message_views(messages@) =~= message_views(before).push(messages@.last()@));
        assert(change_reports(kind, paths@).take(i as int) =~= change_reports(kind, paths@).take(
            i - 1,
        ).push(messages@.last()@));
    }
    assert(change_reports(kind, paths@).take(i as int) =~= change_reports(kind, paths@));
    proof {
        law_change_reports(kind, paths@);
        assert forall|j: int| 0 <= j < messages.len() implies (#[trigger] messages@[j])@
            == change_reports(kind, paths@)[j] by {
            assert(message_views(messages@)[j] == messages@[j]@);
        }
    }
    messages
}

/// The report on a failure of the watcher.
pub fn failure_message(error: &str) -> (message: WatcherMessage)
    ensures
        message@ == WatcherMessageView::Error("Watcher Error: "@ + error@),
{
    let mut text = "Watcher Error: ".to_owned();
    text.append(error);
    WatcherMessage::Error(text)
}

/// A creation, a modification and a removal bring one report for each path, in
/// order, with the path and a description that says what happened to it; no
/// other change brings any.
pub proof fn law_change_reports(kind: ChangeKind, paths: Seq<String>)
    ensures
        kind == ChangeKind::Other ==> change_reports(kind, paths).len() == 0,
        kind != ChangeKind::Other ==> change_reports(kind, paths).len() == paths.len(),
        forall|i: int|
            0 <= i < change_reports(kind, paths).len() ==> {
                let report = #[trigger] change_reports(kind, paths)[i];
                let path = paths[i]@;
                &&& kind == ChangeKind::Created ==> report == WatcherMessageView::FileChanged(
                    path,
                    "Archivo Creado: "@ + path,
                )
                &&& kind == ChangeKind::Modified ==> report == WatcherMessageView::FileChanged(
                    path,
                    "Archivo Modificado: "@ + path,
                )
                &&& kind == ChangeKind::Removed ==> report == WatcherMessageView::FileChanged(
                    path,
                    "Archivo Eliminado: "@ + path,
                )
            },
{
}

} // verus!
