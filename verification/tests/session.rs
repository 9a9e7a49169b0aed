use merkle_audit::audit::{AuditRecord, WorkerMessage};
use merkle_audit::cards::{rgb, solid, AgeThresholds, Color};
use merkle_audit::diff::DiffStatus;
use merkle_audit::explorer::fit_in_seconds;
use merkle_audit::export::ExportedAuditReport;
use merkle_audit::hashing::HashAlgorithm;
use merkle_audit::history::{home_camera, Camera, PinnedPoint};
use merkle_audit::navigation::{FrameOutcome, WheelZoom};
use merkle_audit::node::Node;
use merkle_audit::reports::{fits_report_label, report_label, status_color, status_mark, ReportSide};
use merkle_audit::session::{AppTab, MerkleApp, NodeColorMode};
use merkle_audit::watcher::{change_messages, failure_message, ChangeKind, WatcherMessage};

fn node(id: usize, path: &str, parent: Option<usize>, children: Vec<usize>, is_dir: bool) -> Node {
    Node {
        id,
        name: path.rsplit('/').next().unwrap_or("").to_string(),
        path: path.to_string(),
        hash_hex: format!("hash{}", id),
        children,
        parent,
        modified_timestamp: 0,
        size_bytes: 4,
        is_dir,
        source: id,
    }
}

fn nodes() -> Vec<Node> {
    vec![
        node(0, "/data", None, vec![1, 3], true),
        node(1, "/data/docs", Some(0), vec![2], true),
        node(2, "/data/docs/a.txt", Some(1), vec![], false),
        node(3, "/data/b.txt", Some(0), vec![], false),
    ]
}

fn record() -> AuditRecord {
    AuditRecord {
        timestamp: 7,
        root_hash: "0123456789abcdef".to_string(),
        target_path: "/data".to_string(),
        algorithm: HashAlgorithm::Sha256,
    }
}

fn loaded() -> MerkleApp {
    let mut app = MerkleApp::new(None);
    app.load_directory("/data");
    app.receive_worker_message(
        WorkerMessage::TreeBuilt { nodes: nodes(), root_id: 0, audit_record: record() },
        Some("one\ntwo\n"),
        100,
    );
    app
}

fn told(app: &MerkleApp) -> String {
    app.notification_msg.as_ref().unwrap().text.clone()
}

fn camera(zoom: f32, x: f32, y: f32) -> Camera {
    Camera { zoom_scale: zoom.to_bits(), pan_x: x.to_bits(), pan_y: y.to_bits() }
}

#[test]
fn session_starts_with_its_defaults() {
    let app = MerkleApp::new(Some("[1] PATH: /x | MERKLE_ROOT_SHA-256: y\n"));
    assert!(app.nodes.is_empty() && !app.is_loading && app.compute_hashes_enabled);
    assert_eq!(app.hash_algorithm, HashAlgorithm::Sha256);
    assert!(!app.dark_mode && app.show_welcome_dialog && !app.watcher_active);
    assert_eq!(app.color_mode, NodeColorMode::ByExtension);
    assert_eq!(app.active_tab, AppTab::Explorer);
    assert_eq!(app.camera, camera(1.0, 0.0, 0.0));
    assert_eq!(app.navigation.pan_speed_mult, 2.0_f32.to_bits());
    assert_eq!(app.navigation.zoom_speed_factor, 1.04_f32.to_bits());
    assert!(app.navigation.smart_zoom_focus_enabled);
    assert_eq!(app.legend.old, Color { r: 160, g: 160, b: 160, a: 255 });
    assert_eq!(app.thresholds.red_hours, 1);
    assert_eq!(app.thresholds.yellow_hours, 12);
    assert_eq!(app.thresholds.green_days, 7);
    assert_eq!(app.history_log_lines, vec!["[1] PATH: /x | MERKLE_ROOT_SHA-256: y"]);
    assert!(MerkleApp::new(None).history_log_lines.is_empty());
}

#[test]
fn undo_restores_what_was_recorded() {
    let mut app = loaded();
    app.selected_node_id = Some(2);
    app.camera = camera(1.5, 3.0, -4.0);
    app.custom_node_positions.insert(3, PinnedPoint { x: 1, y: 2 });
    app.focus_folder(1, "Enfocar subcarpeta");
    app.selected_node_id = None;
    app.custom_node_positions.clear();
    assert_eq!(app.focused_root_id, Some(1));
    assert_eq!(app.camera, home_camera());

    app.undo(200);
    assert_eq!(told(&app), "↩ Deshecho: Enfocar subcarpeta");
    assert_eq!(app.focused_root_id, None);
    assert_eq!(app.selected_node_id, Some(2));
    assert_eq!(app.camera, camera(1.5, 3.0, -4.0));
    assert_eq!(app.custom_node_positions.get(&3), Some(&PinnedPoint { x: 1, y: 2 }));
    assert!(app.undo_stack.is_empty());

    app.redo(300);
    assert_eq!(told(&app), "↪ Rehecho");
    assert_eq!(app.focused_root_id, Some(1));
    assert_eq!(app.selected_node_id, None);
    assert_eq!(app.camera, home_camera());
    assert!(app.custom_node_positions.is_empty());
    assert!(app.redo_stack.is_empty());

    app.undo(400);
    assert_eq!(told(&app), "↩ Deshecho: Undo state");
    assert_eq!(app.selected_node_id, Some(2));
}

#[test]
fn undo_and_redo_many_times() {
    let mut app = loaded();
    for id in 0..4 {
        app.focus_folder(id, "x");
    }
    for _ in 0..4 {
        app.undo(1);
    }
    assert_eq!(app.focused_root_id, None);
    for _ in 0..4 {
        app.redo(1);
    }
    assert_eq!(app.focused_root_id, Some(3));
}

#[test]
fn nothing_to_undo_or_redo() {
    let mut app = loaded();
    app.redo(150);
    assert_eq!(told(&app), "✅ Árbol de Merkle cargado y centrado");
    app.undo(160);
    assert_eq!(told(&app), "⚠️ No hay más acciones para deshacer");
}

#[test]
fn recording_ends_redo() {
    let mut app = loaded();
    app.push_undo_snapshot("a");
    app.undo(1);
    assert_eq!(app.redo_stack.len(), 1);
    app.push_undo_snapshot("b");
    assert!(app.redo_stack.is_empty());
    assert_eq!(app.undo_stack[0].description, "b");
}

#[test]
fn loading_clears_the_view() {
    let mut app = loaded();
    app.focused_root_id = Some(1);
    app.selected_node_id = Some(2);
    app.watcher_active = true;
    app.compute_hashes_enabled = false;
    app.hash_algorithm = HashAlgorithm::Blake3;
    app.open_files_cache.insert(1, true);
    let plan = app.load_directory("/other");
    assert!(plan.watch);
    assert_eq!(plan.build.path, "/other");
    assert!(!plan.build.compute_hashes);
    assert_eq!(plan.build.algorithm, HashAlgorithm::Blake3);
    assert!(app.is_loading && app.nodes.is_empty() && app.open_files_cache.is_empty());
    assert_eq!(app.focused_root_id, None);
    assert_eq!(app.selected_node_id, None);
    assert_eq!(app.current_path, Some("/other".to_string()));
}

#[test]
fn first_tree_resets_the_view_and_later_ones_keep_it() {
    let mut app = loaded();
    assert_eq!(told(&app), "✅ Árbol de Merkle cargado y centrado");
    assert_eq!(app.history_log_lines, vec!["one", "two"]);
    assert!(!app.is_loading);
    app.focused_root_id = Some(1);
    app.camera = camera(2.0, 1.0, 1.0);
    let request = app.reload_directory_background().unwrap();
    assert_eq!(request.path, "/data");
    assert!(app.is_loading);
    assert_eq!(app.nodes.len(), 4);
    assert!(app.reload_directory_background().is_none());
    app.receive_worker_message(
        WorkerMessage::TreeBuilt { nodes: nodes(), root_id: 0, audit_record: record() },
        None,
        200,
    );
    assert_eq!(told(&app), "🔄 Árbol actualizado en segundo plano (Sin interrupción)");
    assert_eq!(app.focused_root_id, Some(1));
    assert_eq!(app.camera, camera(2.0, 1.0, 1.0));
    assert!(app.history_log_lines.is_empty());
}

#[test]
fn builder_reports_are_taken() {
    let mut app = MerkleApp::new(None);
    app.load_directory("/data");
    assert_eq!(app.progress_text(), "Escaneando...");
    app.receive_worker_message(WorkerMessage::Progress { current: 10, total: 120 }, None, 1);
    assert_eq!(app.progress_text(), "Procesando 10/120 archivos...");
    app.receive_worker_message(WorkerMessage::FileAdded("nuevo".to_string()), None, 2);
    assert_eq!(told(&app), "nuevo");
    app.receive_worker_message(WorkerMessage::Error("disco".to_string()), None, 3);
    assert_eq!(told(&app), "❌ Error: disco");
    assert!(!app.is_loading);
}

#[test]
fn nothing_to_reload_without_a_directory() {
    assert!(MerkleApp::new(None).reload_directory_background().is_none());
}

#[test]
fn notifications_are_shown_for_six_seconds() {
    let mut app = MerkleApp::new(None);
    assert_eq!(app.shown_notification(0), None);
    app.set_notification("hola".to_string(), 1000);
    assert_eq!(app.shown_notification(1000), Some(&"hola".to_string()));
    assert_eq!(app.shown_notification(6999), Some(&"hola".to_string()));
    assert_eq!(app.shown_notification(7000), None);
}

#[test]
fn watcher_outcomes_are_told() {
    let mut app = loaded();
    app.start_watcher(&Ok(()), 1);
    assert!(app.watcher_active);
    assert_eq!(told(&app), "👁️ Monitoreo en tiempo real activado");
    app.start_watcher(&Err("sin permiso".to_string()), 2);
    assert!(!app.watcher_active);
    assert_eq!(told(&app), "❌ Error iniciando watcher: sin permiso");
    app.start_watcher(&Ok(()), 3);
    app.stop_watcher(4);
    assert!(!app.watcher_active);
    assert_eq!(told(&app), "⏹️ Monitoreo detenido");
}

#[test]
fn changes_are_followed_by_one_reload() {
    let mut app = loaded();
    let change = WatcherMessage::FileChanged(
        "/data/b.txt".to_string(),
        "Archivo Modificado: /data/b.txt".to_string(),
    );
    assert!(app.receive_watcher_message(&change, 1000));
    assert_eq!(told(&app), "🔔 Cambio en tiempo real: Archivo Modificado: /data/b.txt");
    assert!(app.poll_watcher_reload(1400).is_none());
    assert!(app.receive_watcher_message(&change, 1400));
    assert!(app.poll_watcher_reload(1899).is_none());
    assert_eq!(app.poll_watcher_reload(1900).unwrap().path, "/data");
    assert!(app.is_loading);
    assert!(app.poll_watcher_reload(5000).is_none());
}

#[test]
fn reload_that_falls_due_while_loading_is_dropped() {
    let mut app = loaded();
    let change = WatcherMessage::FileChanged("/data".to_string(), "x".to_string());
    app.receive_watcher_message(&change, 0);
    app.reload_directory_background();
    assert!(app.poll_watcher_reload(600).is_none());
    assert_eq!(app.pending_watcher_reload, None);
}

#[test]
fn watcher_errors_are_told() {
    let mut app = loaded();
    assert!(!app.receive_watcher_message(&failure_message("cola llena"), 5));
    assert_eq!(told(&app), "⚠️ Watcher Error: Watcher Error: cola llena");
    assert_eq!(app.pending_watcher_reload, None);
}

#[test]
fn changes_are_described() {
    let paths = vec!["/a".to_string(), "/b".to_string()];
    let describe = |kind: ChangeKind| -> Vec<(String, String)> {
        change_messages(kind, &paths)
            .into_iter()
            .map(|m| match m {
                WatcherMessage::FileChanged(path, text) => (path, text),
                WatcherMessage::Error(text) => panic!("unexpected: {}", text),
            })
            .collect()
    };
    assert_eq!(describe(ChangeKind::Created)[1].1, "Archivo Creado: /b");
    assert_eq!(describe(ChangeKind::Modified)[0].1, "Archivo Modificado: /a");
    assert_eq!(
        describe(ChangeKind::Removed)[0],
        ("/a".to_string(), "Archivo Eliminado: /a".to_string())
    );
    assert_eq!(describe(ChangeKind::Created).len(), 2);
    assert!(describe(ChangeKind::Other).is_empty());
}

#[test]
fn moves_go_into_folders_only() {
    let app = loaded();
    let request = app.move_node_to_folder(3, 1).unwrap();
    assert_eq!(request.file_name, "b.txt");
    assert_eq!(request.dest_dir, "/data/docs");
    assert!(app.move_node_to_folder(3, 3).is_none());
    assert!(app.move_node_to_folder(1, 2).is_none());
    assert!(app.move_node_to_folder(9, 1).is_none());
    assert!(app.move_node_to_folder(3, 9).is_none());
}

#[test]
fn path_without_a_file_name_is_not_moved() {
    let mut app = loaded();
    app.nodes[3].path = "/data/..".to_string();
    assert!(app.move_node_to_folder(3, 1).is_none());
}

#[test]
fn nothing_is_overwritten() {
    let mut app = loaded();
    assert!(!app.target_checked(true, 10));
    assert_eq!(told(&app), "⚠️ Ya existe un archivo con ese nombre en la carpeta destino");
    assert!(app.undo_stack.is_empty());
    assert!(app.target_checked(false, 11));
}

#[test]
fn move_is_recorded_and_followed_by_a_reload() {
    let mut app = loaded();
    let request = app.move_node_to_folder(3, 1).unwrap();
    let reload = app.move_finished(&request, &Ok(()), 10);
    assert_eq!(reload.unwrap().path, "/data");
    assert_eq!(told(&app), "📦 Movido b.txt a /data/docs");
    assert_eq!(app.undo_stack[0].description, "Mover b.txt a /data/docs");
    assert!(app.is_loading);
}

#[test]
fn failed_move_is_told() {
    let mut app = loaded();
    let request = app.move_node_to_folder(3, 1).unwrap();
    assert!(app.move_finished(&request, &Err("ocupado".to_string()), 10).is_none());
    assert_eq!(told(&app), "❌ Error moviendo archivo: ocupado");
    assert!(app.undo_stack.is_empty() && !app.is_loading);
}

#[test]
fn moves_wait_for_the_user() {
    let mut app = loaded();
    assert!(app.confirm_move().is_none());
    app.finish_frame(&FrameOutcome { move_request: Some((3, 1)), pinned: None, focus: None });
    assert_eq!(app.pending_move_confirmation, Some((3, 1)));
    app.cancel_move(5);
    assert_eq!(app.pending_move_confirmation, None);
    assert_eq!(told(&app), "ℹ️ Traslado de archivo cancelado");
    app.pending_move_confirmation = Some((3, 1));
    assert_eq!(app.confirm_move().unwrap().src_node_id, 3);
    assert_eq!(app.pending_move_confirmation, None);
}

#[test]
fn move_is_previewed() {
    let mut app = loaded();
    assert!(app.move_preview().is_none());
    app.pending_move_confirmation = Some((3, 1));
    let preview = app.move_preview().unwrap();
    assert_eq!((preview.src_icon, preview.src_name.as_str()), ("📝", "b.txt"));
    assert_eq!(preview.dest_name, "docs");
    app.pending_move_confirmation = Some((30, 10));
    let preview = app.move_preview().unwrap();
    assert_eq!((preview.src_icon, preview.src_name.as_str()), ("📄", "Archivo"));
    assert_eq!(preview.dest_name, "Carpeta Destino");
}

#[test]
fn focused_folder_has_a_name() {
    let mut app = loaded();
    assert_eq!(app.focused_name(), None);
    app.focused_root_id = Some(1);
    assert_eq!(app.focused_name(), Some("docs".to_string()));
    app.focused_root_id = Some(99);
    assert_eq!(app.focused_name(), Some("Carpeta".to_string()));
}

#[test]
fn frame_pins_and_focuses() {
    let mut app = loaded();
    let pin = PinnedPoint { x: 1.0_f32.to_bits(), y: 2.0_f32.to_bits() };
    app.finish_frame(&FrameOutcome { move_request: None, pinned: Some((2, pin)), focus: Some(1) });
    assert_eq!(app.custom_node_positions.get(&2), Some(&pin));
    assert_eq!(app.focused_root_id, Some(1));
    assert_eq!(app.undo_stack[0].description, "Double click focus subfolder");
    assert_eq!(app.undo_stack[0].custom_positions.get(&2), Some(&pin));
}

fn wheel(zoom_in: bool, zoom: f32) -> WheelZoom {
    WheelZoom {
        zoom_in,
        new_zoom: zoom.to_bits(),
        deep: zoom > 1.6,
        far: zoom < 0.4,
        pan: Some((1.0_f32.to_bits(), 2.0_f32.to_bits())),
        subfolder: Some(1),
    }
}

#[test]
fn wheel_zooms_about_the_pointer() {
    let mut app = loaded();
    app.wheel_zoom(&wheel(true, 1.2), 5);
    assert_eq!(app.camera, camera(1.2, 1.0, 2.0));
    assert_eq!(app.focused_root_id, None);
    let mut blind = wheel(true, 1.9);
    blind.pan = None;
    app.wheel_zoom(&blind, 6);
    assert_eq!(app.camera, camera(1.9, 1.0, 2.0));
    assert_eq!(app.focused_root_id, None);
}

#[test]
fn deep_zoom_focuses_the_folder_under_the_pointer() {
    let mut app = loaded();
    app.wheel_zoom(&wheel(true, 1.7), 5);
    assert_eq!(app.focused_root_id, Some(1));
    assert_eq!(app.camera, camera(1.7, 0.0, 0.0));
    assert_eq!(told(&app), "🔍 Enfocado automáticamente en subcarpeta por zoom profundo");
    assert_eq!(app.undo_stack[0].description, "Auto-focus subfolder on deep zoom");
    assert_eq!(app.undo_stack[0].camera, camera(1.0, 1.0, 2.0));
    app.wheel_zoom(&wheel(true, 1.8), 6);
    assert_eq!(app.undo_stack.len(), 1);
    assert_eq!(app.camera, camera(1.8, 1.0, 2.0));
}

#[test]
fn deep_zoom_can_be_told_not_to_focus() {
    let mut app = loaded();
    app.navigation.smart_zoom_focus_enabled = false;
    app.wheel_zoom(&wheel(true, 1.7), 5);
    assert_eq!(app.focused_root_id, None);
}

#[test]
fn far_zoom_steps_out() {
    let mut app = loaded();
    app.focused_root_id = Some(1);
    app.wheel_zoom(&wheel(false, 0.3), 5);
    assert_eq!(app.focused_root_id, Some(0));
    assert_eq!(app.camera.zoom_scale, 0.3_f32.to_bits());
    assert_eq!(told(&app), "🏠 Perspectiva Ampliada: Retornando a carpeta superior");
    app.wheel_zoom(&wheel(false, 0.2), 6);
    assert_eq!(app.focused_root_id, None);
    app.focused_root_id = Some(77);
    app.wheel_zoom(&wheel(false, 0.2), 7);
    assert_eq!(app.focused_root_id, None);
}

#[test]
fn ways_back_to_the_whole_tree() {
    let mut app = loaded();
    app.focused_root_id = Some(1);
    app.camera = camera(1.3, 9.0, 9.0);
    app.return_to_root();
    assert_eq!(app.focused_root_id, None);
    assert_eq!(app.camera, camera(1.3, 9.0, 9.0));
    assert_eq!(app.undo_stack[0].description, "Volver a raíz principal");
    app.focused_root_id = Some(1);
    assert_eq!(app.root_id(), 1);
    app.leave_focus();
    assert_eq!(app.root_id(), 0);
    assert_eq!(app.camera, home_camera());
    assert_eq!(app.undo_stack.len(), 1);
}

#[test]
fn camera_reset_can_be_undone() {
    let mut app = loaded();
    app.camera = camera(1.3, 9.0, 9.0);
    app.custom_node_positions.insert(1, PinnedPoint { x: 0, y: 0 });
    app.reset_camera(5);
    assert_eq!(told(&app), "🎯 Cámara y posiciones reubicadas");
    assert_eq!(app.camera, home_camera());
    assert!(app.custom_node_positions.is_empty());
    app.undo(6);
    assert_eq!(told(&app), "↩ Deshecho: Reset Cámara");
    assert_eq!(app.camera, camera(1.3, 9.0, 9.0));
    assert_eq!(app.custom_node_positions.len(), 1);
}

#[test]
fn settings_are_put_back() {
    let mut app = loaded();
    app.legend.red = rgb(1, 2, 3);
    app.navigation.smart_zoom_focus_enabled = false;
    app.thresholds.red_hours = 9;
    app.reset_settings(5);
    assert_eq!(app.legend.red, rgb(239, 68, 68));
    assert!(app.navigation.smart_zoom_focus_enabled);
    assert_eq!(app.thresholds.red_hours, 9);
    assert_eq!(told(&app), "🎨 Colores y navegación restablecidos");
}

#[test]
fn export_needs_an_audit() {
    let mut app = MerkleApp::new(None);
    assert!(app.export_current_json(5).is_none());
    assert_eq!(told(&app), "⚠️ No hay auditoría activa para exportar");
    let mut app = loaded();
    let report = app.export_current_json(6).unwrap();
    assert_eq!(report.total_nodes, 4);
    assert_eq!(report.total_bytes, 16);
    app.export_finished("/tmp/r.json", &Ok(()), 7);
    assert_eq!(told(&app), "✅ Reporte exportado a /tmp/r.json");
    app.export_finished("/tmp/r.json", &Err("lleno".to_string()), 8);
    assert_eq!(told(&app), "❌ Error exportando JSON: lleno");
}

#[test]
fn sizes_must_fit_a_report() {
    let mut app = loaded();
    assert!(app.fits_report());
    app.nodes[2].size_bytes = u64::MAX - 12;
    assert!(app.fits_report());
    app.nodes[2].size_bytes = u64::MAX - 11;
    assert!(!app.fits_report());
}

#[test]
fn thresholds_must_fit_in_seconds() {
    let fit = |red_hours: u64, yellow_hours: u64, green_days: u64| {
        fit_in_seconds(&AgeThresholds { red_hours, yellow_hours, green_days })
    };
    assert!(fit(1, 12, 7));
    assert!(fit(u64::MAX / 3600, u64::MAX / 3600, u64::MAX / 86400));
    assert!(!fit(u64::MAX / 3600 + 1, 1, 1));
    assert!(!fit(1, u64::MAX / 3600 + 1, 1));
    assert!(!fit(1, 1, u64::MAX / 86400 + 1));
}

#[test]
fn comparison_needs_a_base() {
    let mut app = loaded();
    app.run_comparison(5);
    assert_eq!(told(&app), "⚠️ Carga al menos un reporte base para comparar");
    assert!(app.diff_result.is_none());
}

#[test]
fn base_is_compared_with_the_audit() {
    let mut app = loaded();
    let report: ExportedAuditReport = app.export_current_json(1).unwrap();
    app.report_loaded(ReportSide::A, Ok(report.clone()), 2);
    assert_eq!(told(&app), "✅ Reporte A cargado");
    app.nodes[3].hash_hex = "other".to_string();
    app.run_comparison(3);
    let result = app.diff_result.as_ref().unwrap();
    assert_eq!(result.total_modified, 1);
    assert_eq!(result.total_unchanged, 3);
    assert_eq!(status_mark(&result.items[1].status), "[~]");

    app.report_loaded(ReportSide::B, Ok(report), 4);
    assert_eq!(told(&app), "✅ Reporte B cargado");
    app.run_comparison(5);
    assert_eq!(app.diff_result.as_ref().unwrap().total_unchanged, 4);
}

#[test]
fn base_without_an_audit_is_not_enough() {
    let report = loaded().export_current_json(1).unwrap();
    let mut app = MerkleApp::new(None);
    app.report_loaded(ReportSide::A, Ok(report), 2);
    app.run_comparison(3);
    assert_eq!(told(&app), "⚠️ Carga un segundo reporte o abre una carpeta actual");
    app.report_loaded(ReportSide::B, Err("mal".to_string()), 4);
    assert_eq!(told(&app), "❌ Error: mal");
    assert!(app.diff_report_b.is_none());
}

#[test]
fn report_labels_show_the_start_of_the_hash() {
    let mut report = loaded().export_current_json(1).unwrap();
    assert_eq!(report_label(ReportSide::A, &report), "A: /data (01234567)");
    assert!(fits_report_label(&report));
    report.root_hash = "1234567é".to_string();
    assert!(!fits_report_label(&report));
    report.root_hash = "abc".to_string();
    assert!(fits_report_label(&report));
    assert_eq!(report_label(ReportSide::B, &report), "B: /data (abc)");
}

#[test]
fn statuses_have_marks() {
    assert_eq!(status_mark(&DiffStatus::Added), "[+]");
    assert_eq!(status_mark(&DiffStatus::Removed), "[-]");
    assert_eq!(status_mark(&DiffStatus::Unchanged), "[=]");
    assert_eq!(status_color(&DiffStatus::Added), rgb(16, 185, 129));
    assert_eq!(status_color(&DiffStatus::Removed), rgb(239, 68, 68));
    assert_eq!(status_color(&DiffStatus::Unchanged), rgb(160, 160, 160));
    let modified = DiffStatus::Modified { old_hash: "a".to_string(), new_hash: "b".to_string() };
    assert_eq!(status_color(&modified), rgb(245, 158, 11));
}

#[test]
fn cards_know_their_state() {
    let mut app = loaded();
    app.selected_node_id = Some(3);
    app.focused_root_id = Some(1);
    app.search_query = "b.txt".to_string();
    let file = app.nodes[3].clone();
    let folder = app.nodes[1].clone();
    let state = app.card_state(&file, Some(3));
    assert!(!state.is_drop_target && state.is_selected && !state.is_focused);
    assert!(state.is_match && state.has_filter && !state.is_open);
    let state = app.card_state(&folder, Some(1));
    assert!(state.is_drop_target && state.is_focused && !state.is_match);
}

#[test]
fn open_files_count_in_forensic_mode_only() {
    let mut app = loaded();
    app.open_files_cache.insert(3, true);
    app.open_files_cache.insert(2, false);
    app.open_files_cache.insert(40, true);
    assert_eq!(app.open_file_count(), 0);
    let file = app.nodes[3].clone();
    assert!(!app.card_state(&file, None).is_open);
    app.forensic_mode = true;
    assert_eq!(app.open_file_count(), 2);
    assert!(app.card_state(&file, None).is_open);
    let other = app.nodes[2].clone();
    assert!(!app.card_state(&other, None).is_open);
}

#[test]
fn cards_are_coloured_by_type_or_age() {
    let mut app = loaded();
    let folder = app.nodes[1].clone();
    let by_type = solid(rgb(254, 243, 199), rgb(217, 119, 6), rgb(120, 53, 15));
    assert_eq!(app.card_colors(&folder, 0), by_type);
    app.color_mode = NodeColorMode::ByAge;
    let recent = solid(rgb(254, 226, 226), rgb(239, 68, 68), rgb(185, 28, 28));
    assert_eq!(app.card_colors(&folder, 0), recent);
}
