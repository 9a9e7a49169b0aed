//! Reports in the session: exporting the audit, loading reports and comparing
//! them, and the settings.

use vstd::prelude::*;
use vstd::string::*;
use vstd::utf8::*;
use crate::audit::{
    exported_report, law_total_size_is_sum, lemma_total_size_take, total_size,
};
use crate::cards::{rgb, Color};
use crate::diff::{compare_reports, compares, report_entries, DiffStatus};
use crate::export::{ExportedAuditReport, ReportView};
use crate::node::{table, Node, NodeView};
use crate::session::{
    default_legend, default_navigation, LegendColors, MerkleApp, NavigationSettings,
};
use crate::text::{byte_prefix, decimal, push_decimal, take_bytes};

verus! {

/// The two sides of a comparison.
#[derive(Clone, Copy, Debug, PartialEq, Eq, Structural)]
pub enum ReportSide {
    /// The base of the comparison.
    A,
    /// What is compared with the base.
    B,
}

/// The contents of a report that may be missing.
pub open spec fn report_view(report: Option<ExportedAuditReport>) -> Option<ReportView> {
    match report {
        Some(report) => Some(report@),
        None => None,
    }
}

impl MerkleApp {
    /// The sizes of the nodes add up to a number of bytes that a report can hold.
    pub open spec fn exportable(&self) -> bool {
        total_size(table(self.nodes@)) <= u64::MAX
    }

    /// Whether the sizes of the nodes add up to a number of bytes that a
    /// report can hold.
    pub fn fits_report(&self) -> (fits: bool)
        ensures
            fits == self.exportable(),
            fits <==> self.nodes@.map_values(|node: Node| node.size_bytes as int).fold_left(
                0,
                |sum: int, size: int| sum + size,
            ) <= u64::MAX,
    {
        let ghost t = table(self.nodes@);
        proof {
            law_total_size_is_sum(t);
            assert(self.nodes@.map_values(|node: Node| node.size_bytes as int) =~= t.map_values(
                |node: NodeView| node.size_bytes as int,
            ));
        }
        let mut total: u64 = 0;
        let mut i: usize = 0;
        while i < self.nodes.len()
            invariant
                t == table(self.nodes@),
                total_size(t) == self.nodes@.map_values(
                    |node: Node| node.size_bytes as int,
                ).fold_left(0, |sum: int, size: int| sum + size),
                i <= self.nodes.len(),
                total == total_size(t.take(i as int)),
            decreases self.nodes.len() - i,
        {
            proof {
                lemma_total_size_take(t, i + 1);
                assert(t.take(i + 1).drop_last() =~= t.take(i as int));
                assert(t.take(i + 1).last() == self.nodes@[i as int]@);
            }
            match total.checked_add(self.nodes[i].size_bytes) {
                Some(sum) => {
                    total = sum;
                },
                None => {
                    return false;
                },
            }
            i = i + 1;
        }
        assert(t.take(i as int) =~= t);
        true
    }

    /// The audit as it is exported.
    pub open spec fn current_report(&self) -> Option<ReportView> {
        match self.last_audit {
            Some(audit) => Some(exported_report(audit@, table(self.nodes@))),
            None => None,
        }
    }

    /// The report to export, or a message where there is no audit.
    pub fn export_current_json(&mut self, now: u64) -> (report: Option<ExportedAuditReport>)
        requires
            old(self).last_audit is Some ==> old(self).exportable(),
        ensures
            report_view(report) == old(self).current_report(),
            report is Some ==> *final(self) == *old(self),
            report is None ==> final(self).notified(
                "⚠️ No hay auditoría activa para exportar"@,
                now,
            ),
            *final(self) == (MerkleApp {
                notification_msg: final(self).notification_msg,
                ..*old(self)
            }),
    {
        if let Some(audit) = &self.last_audit {
            return Some(audit.to_exported_report(self.nodes.as_slice()));
        }
        self.set_notification("⚠️ No hay auditoría activa para exportar".to_owned(), now);
        None
    }

    /// Takes what writing the report came to, and tells it.
    pub fn export_finished(&mut self, path: &str, outcome: &Result<(), String>, now: u64)
        ensures
            match outcome {
                Ok(_) => final(self).notified("✅ Reporte exportado a "@ + path@, now),
                Err(error) => final(self).notified("❌ Error exportando JSON: "@ + error@, now),
            },
            *final(self) == (MerkleApp {
                notification_msg: final(self).notification_msg,
                ..*old(self)
            }),
    {
        match outcome {
            Ok(_) => {
                let mut text = "✅ Reporte exportado a ".to_owned();
                text.append(path);
                self.set_notification(text, now);
            },
            Err(error) => {
                let mut text = "❌ Error exportando JSON: ".to_owned();
                text.append(error.as_str());
                self.set_notification(text, now);
            },
        }
    }

    /// Takes what loading a report came to, and tells it.
    pub fn report_loaded(
        &mut self,
        side: ReportSide,
        outcome: Result<ExportedAuditReport, String>,
        now: u64,
    )
        ensures
            match outcome {
                Ok(report) => {
                    &&& final(self).diff_report_a == (if side == ReportSide::A {
                        Some(report)
                    } else {
                        old(self).diff_report_a
                    })
                    &&& final(self).diff_report_b == (if side == ReportSide::B {
                        Some(report)
                    } else {
                        old(self).diff_report_b
                    })
                    &&& final(self).notified(
                        match side {
                            ReportSide::A => "✅ Reporte A cargado"@,
                            ReportSide::B => "✅ Reporte B cargado"@,
                        },
                        now,
                    )
                },
                Err(error) => {
                    &&& final(self).diff_report_a == old(self).diff_report_a
                    &&& final(self).diff_report_b == old(self).diff_report_b
                    &&& final(self).notified("❌ Error: "@ + error@, now)
                },
            },
            *final(self) == (MerkleApp {
                diff_report_a: final(self).diff_report_a,
                diff_report_b: final(self).diff_report_b,
                notification_msg: final(self).notification_msg,
                ..*old(self)
            }),
    {
        match outcome {
            Ok(report) => match side {
                ReportSide::A => {
                    self.diff_report_a = Some(report);
                    self.set_notification("✅ Reporte A cargado".to_owned(), now);
                },
                ReportSide::B => {
                    self.diff_report_b = Some(report);
                    self.set_notification("✅ Reporte B cargado".to_owned(), now);
                },
            },
            Err(error) => {
                let mut text = "❌ Error: ".to_owned();
                text.append(error.as_str());
                self.set_notification(text, now);
            },
        }
    }

    /// What the base is compared with: the other report, or else the audit.
    pub open spec fn compared_report(&self) -> Option<ReportView> {
        match self.diff_report_b {
            Some(report) => Some(report@),
            None => self.current_report(),
        }
    }

    /// Compares the two reports, or the base with the audit where there is
    /// only the base. Where something is missing the user is told what.
    pub fn run_comparison(&mut self, now: u64)
        requires
            old(self).diff_report_a is Some && old(self).diff_report_b is None
                && old(self).last_audit is Some ==> old(self).exportable(),
        ensures
            match (old(self).diff_report_a, old(self).compared_report()) {
                (Some(base), Some(other)) => {
                    &&& final(self).diff_result matches Some(result) && compares(
                        report_entries(base@),
                        report_entries(other),
                        result,
                    )
                    &&& final(self).notification_msg == old(self).notification_msg
                },
                (Some(_), None) => {
                    &&& final(self).diff_result == old(self).diff_result
                    &&& final(self).notified(
                        "⚠️ Carga un segundo reporte o abre una carpeta actual"@,
                        now,
                    )
                },
                (None, _) => {
                    &&& final(self).diff_result == old(self).diff_result
                    &&& final(self).notified(
                        "⚠️ Carga al menos un reporte base para comparar"@,
                        now,
                    )
                },
            },
            *final(self) == (MerkleApp {
                diff_result: final(self).diff_result,
                notification_msg: final(self).notification_msg,
                ..*old(self)
            }),
    {
        match (&self.diff_report_a, &self.diff_report_b) {
            (Some(base), Some(other)) => {
                let result = compare_reports(base, other);
                self.diff_result = Some(result);
            },
            (Some(base), None) => {
                if let Some(audit) = &self.last_audit {
                    let current = audit.to_exported_report(self.nodes.as_slice());
                    let result = compare_reports(base, &current);
                    self.diff_result = Some(result);
                } else {
                    self.set_notification(
                        "⚠️ Carga un segundo reporte o abre una carpeta actual".to_owned(),
                        now,
                    );
                }
            },
            _ => {
                self.set_notification(
                    "⚠️ Carga al menos un reporte base para comparar".to_owned(),
                    now,
                );
            },
        }
    }

    /// Puts the colours of the legend and the navigation back, and tells so.
    pub fn reset_settings(&mut self, now: u64)
        ensures
            final(self).notified("🎨 Colores y navegación restablecidos"@, now),
            final(self).legend == (LegendColors {
                red: Color { r: 239, g: 68, b: 68, a: 255 },
                yellow: Color { r: 245, g: 158, b: 11, a: 255 },
                green: Color { r: 16, g: 185, b: 129, a: 255 },
                old: Color { r: 160, g: 160, b: 160, a: 255 },
            }),
            final(self).navigation == (NavigationSettings {
                pan_speed_mult: 0x4000_0000,
                zoom_speed_factor: 0x3f85_1eb8,
                smart_zoom_focus_enabled: true,
            }),
            *final(self) == (MerkleApp {
                legend: default_legend(),
                navigation: default_navigation(),
                notification_msg: final(self).notification_msg,
                ..*old(self)
            }),
    {
        self.legend = default_legend();
        self.navigation = default_navigation();
        self.set_notification("🎨 Colores y navegación restablecidos".to_owned(), now);
    }

    /// What the user is told while a tree is built.
    pub open spec fn progress_label(&self) -> Seq<char> {
        if self.progress.1 > 0 {
            "Procesando "@ + decimal(self.progress.0 as nat) + "/"@ + decimal(
                self.progress.1 as nat,
            ) + " archivos..."@
        } else {
            "Escaneando..."@
        }
    }

    /// What the user is told while a tree is built: how many files are hashed.
    pub fn progress_text(&self) -> (text: String)
        ensures
            text@ == self.progress_label(),
            self.progress.1 == 0 ==> text@ == "Escaneando..."@,
            self.progress.1 > 0 ==> text@ == "Procesando "@ + decimal(self.progress.0 as nat) + "/"@
                + decimal(self.progress.1 as nat) + " archivos..."@,
    {
        if self.progress.1 > 0 {
            let mut text = "Procesando ".to_owned();
            push_decimal(&mut text, self.progress.0 as u64);
            text.append("/");
            push_decimal(&mut text, self.progress.1 as u64);
            text.append(" archivos...");
            text
        } else {
            "Escaneando...".to_owned()
        }
    }
}

/// How many bytes of a root hash a label shows.
pub open spec fn label_hash_len(report: ReportView) -> int {
    let length = encode_utf8(report.root_hash).len() as int;
    if length < 8 {
        length
    } else {
        8
    }
}

/// The label of a loaded report: its side, its path and the start of its hash.
pub open spec fn report_label_of(side: ReportSide, report: ReportView) -> Seq<char> {
    (match side {
        ReportSide::A => "A: "@,
        ReportSide::B => "B: "@,
    }) + report.target_path + " ("@ + byte_prefix(report.root_hash, label_hash_len(report)) + ")"@
}

/// A root hash that is cut has a character end after its eighth byte.
pub open spec fn hash_can_be_cut(report: ReportView) -> bool {
    encode_utf8(report.root_hash).len() >= 8 ==> is_char_boundary(
        encode_utf8(report.root_hash),
        8,
    )
}

/// Whether a root hash that is cut has a character end after its eighth byte.
pub fn fits_report_label(report: &ExportedAuditReport) -> (fits: bool)
    ensures
        fits == hash_can_be_cut(report@),
        fits <==> encode_utf8(report.root_hash@).len() < 8 || is_char_boundary(
            encode_utf8(report.root_hash@),
            8,
        ),
{
    report.root_hash.as_str().as_bytes().len() < 8 || report.root_hash.as_str().is_char_boundary(8)
}

/// The label of a loaded report.
pub fn report_label(side: ReportSide, report: &ExportedAuditReport) -> (label: String)
    requires
        hash_can_be_cut(report@),
    ensures
        label@ == report_label_of(side, report@),
{
    let length: usize = report.root_hash.as_str().as_bytes().len();
    let shown: usize = if length < 8 {
        length
    } else {
        8
    };
    proof {
        encode_utf8_valid_utf8(report.root_hash@);
        is_char_boundary_start_end_of_seq(encode_utf8(report.root_hash@));
    }
    let hash = take_bytes(report.root_hash.as_str(), shown);
    let mut label = match side {
        ReportSide::A => "A: ",
        ReportSide::B => "B: ",
    }.to_owned();
    label.append(report.target_path.as_str());
    label.append(" (");
    label.append(hash.as_str());
    label.append(")");
    label
}

/// How a status is marked in the list of a comparison.
pub open spec fn status_mark_of(status: DiffStatus) -> Seq<char> {
    match status {
        DiffStatus::Added => "[+]"@,
        DiffStatus::Removed => "[-]"@,
        DiffStatus::Modified { .. } => "[~]"@,
        DiffStatus::Unchanged => "[=]"@,
    }
}

/// How a status is marked in the list of a comparison.
pub fn status_mark(status: &DiffStatus) -> (mark: &'static str)
    ensures
        mark@ == status_mark_of(*status),
        status is Added ==> mark@ == "[+]"@,
        status is Removed ==> mark@ == "[-]"@,
        status is Modified ==> mark@ == "[~]"@,
        status is Unchanged ==> mark@ == "[=]"@,
{
    match status {
        DiffStatus::Added => "[+]",
        DiffStatus::Removed => "[-]",
        DiffStatus::Modified { .. } => "[~]",
        DiffStatus::Unchanged => "[=]",
    }
}

/// The colour of a status in the list of a comparison.
pub open spec fn status_color_of(status: DiffStatus) -> Color {
    match status {
        DiffStatus::Added => rgb(16, 185, 129),
        DiffStatus::Removed => rgb(239, 68, 68),
        DiffStatus::Modified { .. } => rgb(245, 158, 11),
        DiffStatus::Unchanged => rgb(160, 160, 160),
    }
}

/// The colour of a status in the list of a comparison.
pub fn status_color(status: &DiffStatus) -> (color: Color)
    ensures
        color == status_color_of(*status),
        status is Added ==> color == (Color { r: 16, g: 185, b: 129, a: 255 }),
        status is Removed ==> color == (Color { r: 239, g: 68, b: 68, a: 255 }),
        status is Modified ==> color == (Color { r: 245, g: 158, b: 11, a: 255 }),
        status is Unchanged ==> color == (Color { r: 160, g: 160, b: 160, a: 255 }),
{
    match status {
        DiffStatus::Added => rgb(16, 185, 129),
        DiffStatus::Removed => rgb(239, 68, 68),
        DiffStatus::Modified { .. } => rgb(245, 158, 11),
        DiffStatus::Unchanged => rgb(160, 160, 160),
    }
}

/// The label of a loaded report names its side, the audited path and the first
/// eight bytes of the root hash, or all of it where it is shorter.
pub proof fn law_report_label(side: ReportSide, report: ReportView)
    ensures
        ({
            let bytes = encode_utf8(report.root_hash);
            let shown = if bytes.len() < 8 {
                decode_utf8(bytes)
            } else {
                decode_utf8(bytes.subrange(0, 8))
            };
            &&& side == ReportSide::A ==> report_label_of(side, report) == "A: "@
                + report.target_path + " ("@ + shown + ")"@
            &&& side == ReportSide::B ==> report_label_of(side, report) == "B: "@
                + report.target_path + " ("@ + shown + ")"@
        }),
{
    let bytes = encode_utf8(report.root_hash);
    assert(bytes.subrange(0, bytes.len() as int) =~= bytes);
}

/// The base is compared with the second report where there is one, and with the
/// last audit otherwise.
pub proof fn law_compared_report(app: MerkleApp)
    ensures
        app.diff_report_b matches Some(report) ==> app.compared_report() == Some(report@),
        app.diff_report_b is None && app.last_audit is None ==> app.compared_report() is None,
        app.diff_report_b is None ==> (app.last_audit matches Some(audit)
            ==> app.compared_report() == Some(exported_report(audit@, table(app.nodes@)))),
{
}

} // verus!
