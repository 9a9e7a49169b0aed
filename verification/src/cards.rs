//! The cards that present nodes: icons, colours, labels and highlights.

use vstd::prelude::*;
use vstd::string::*;
use vstd::utf8::*;
use crate::node::{Node, NodeView};
use crate::paths::{extension, path_extension};
use crate::text::{byte_prefix, decimal, lowercase, push_decimal, take_bytes, text_eq, to_lowercase};

verus! {

/// A colour with its opacity, premultiplied.
#[derive(Clone, Copy, Debug, PartialEq, Eq, Structural)]
pub struct Color {
    pub r: u8,
    pub g: u8,
    pub b: u8,
    pub a: u8,
}

/// An opaque colour.
#[verifier::allow_in_spec]
pub fn rgb(r: u8, g: u8, b: u8) -> (color: Color)
    returns
        (Color { r, g, b, a: 255 }),
{
    Color { r, g, b, a: 255 }
}

/// What an area is painted with: a colour, or a hue whose saturation and
/// value are given in percent.
#[derive(Clone, Copy, Debug, PartialEq, Eq, Structural)]
pub enum Paint {
    Solid(Color),
    Hue { degrees: u32, saturation: u32, value: u32 },
}

/// The colours of a card.
#[derive(Clone, Copy, Debug, PartialEq, Eq, Structural)]
pub struct CardColors {
    pub fill: Paint,
    pub border: Paint,
    pub text: Color,
}

/// The colours of a card that has no hue of its own.
#[verifier::allow_in_spec]
pub fn solid(fill: Color, border: Color, text: Color) -> (colors: CardColors)
    returns
        (CardColors { fill: Paint::Solid(fill), border: Paint::Solid(border), text }),
{
    CardColors { fill: Paint::Solid(fill), border: Paint::Solid(border), text }
}

/// What a file is, as far as its extension tells.
#[derive(Clone, Copy, Debug, PartialEq, Eq, Structural)]
pub enum FileType {
    /// A PDF document.
    Pdf,
    /// A text document.
    Document,
    /// Source code, markup or configuration.
    Code,
    /// A picture.
    Image,
    /// An archive.
    Archive,
    /// An archive compressed with bzip2.
    BzipArchive,
    /// A sound recording.
    Audio,
    /// A film.
    Video,
    /// A technical drawing or model.
    Drawing,
    /// A program or script to run.
    Program,
    /// Anything else.
    Other,
}

/// What a lower-case extension says of a file.
pub open spec fn file_type(extension: Seq<char>) -> FileType {
    if extension == "pdf"@ {
        FileType::Pdf
    } else if extension == "doc"@
        || extension == "docx"@
        || extension == "txt"@
        || extension == "md"@
        || extension == "log"@
        || extension == "rtf"@ {
        FileType::Document
    } else if extension == "rs"@
        || extension == "py"@
        || extension == "js"@
        || extension == "ts"@
        || extension == "json"@
        || extension == "html"@
        || extension == "css"@
        || extension == "toml"@
        || extension == "yaml"@
        || extension == "xml"@
        || extension == "cpp"@
        || extension == "c"@ {
        FileType::Code
    } else if extension == "png"@
        || extension == "jpg"@
        || extension == "jpeg"@
        || extension == "gif"@
        || extension == "svg"@
        || extension == "webp"@
        || extension == "bmp"@ {
        FileType::Image
    } else if extension == "zip"@
        || extension == "rar"@
        || extension == "7z"@
        || extension == "tar"@
        || extension == "gz"@ {
        FileType::Archive
    } else if extension == "bz2"@ {
        FileType::BzipArchive
    } else if extension == "mp3"@
        || extension == "wav"@
        || extension == "flac"@
        || extension == "ogg"@ {
        FileType::Audio
    } else if extension == "mp4"@
        || extension == "mkv"@
        || extension == "avi"@
        || extension == "mov"@
        || extension == "webm"@ {
        FileType::Video
    } else if extension == "rfa"@
        || extension == "rvt"@
        || extension == "dwg"@
        || extension == "dxf"@ {
        FileType::Drawing
    } else if extension == "exe"@
        || extension == "bat"@
        || extension == "cmd"@
        || extension == "sh"@
        || extension == "msi"@ {
        FileType::Program
    } else {
        FileType::Other
    }
}

/// What a lower-case extension says of a file.
pub fn classify_extension(extension: &str) -> (kind: FileType)
    ensures
        kind == file_type(extension@),
{
    if text_eq(extension, "pdf") {
        FileType::Pdf
    } else if text_eq(extension, "doc")
        || text_eq(extension, "docx")
        || text_eq(extension, "txt")
        || text_eq(extension, "md")
        || text_eq(extension, "log")
        || text_eq(extension, "rtf") {
        FileType::Document
    } else if text_eq(extension, "rs")
        || text_eq(extension, "py")
        || text_eq(extension, "js")
        || text_eq(extension, "ts")
        || text_eq(extension, "json")
        || text_eq(extension, "html")
        || text_eq(extension, "css")
        || text_eq(extension, "toml")
        || text_eq(extension, "yaml")
        || text_eq(extension, "xml")
        || text_eq(extension, "cpp")
        || text_eq(extension, "c") {
        FileType::Code
    } else if text_eq(extension, "png")
        || text_eq(extension, "jpg")
        || text_eq(extension, "jpeg")
        || text_eq(extension, "gif")
        || text_eq(extension, "svg")
        || text_eq(extension, "webp")
        || text_eq(extension, "bmp") {
        FileType::Image
    } else if text_eq(extension, "zip")
        || text_eq(extension, "rar")
        || text_eq(extension, "7z")
        || text_eq(extension, "tar")
        || text_eq(extension, "gz") {
        FileType::Archive
    } else if text_eq(extension, "bz2") {
        FileType::BzipArchive
    } else if text_eq(extension, "mp3")
        || text_eq(extension, "wav")
        || text_eq(extension, "flac")
        || text_eq(extension, "ogg") {
        FileType::Audio
    } else if text_eq(extension, "mp4")
        || text_eq(extension, "mkv")
        || text_eq(extension, "avi")
        || text_eq(extension, "mov")
        || text_eq(extension, "webm") {
        FileType::Video
    } else if text_eq(extension, "rfa")
        || text_eq(extension, "rvt")
        || text_eq(extension, "dwg")
        || text_eq(extension, "dxf") {
        FileType::Drawing
    } else if text_eq(extension, "exe")
        || text_eq(extension, "bat")
        || text_eq(extension, "cmd")
        || text_eq(extension, "sh")
        || text_eq(extension, "msi") {
        FileType::Program
    } else {
        FileType::Other
    }
}

/// What a file is, by the extension of its path in any case.
pub open spec fn node_type(node: NodeView) -> FileType {
    file_type(lowercase(path_extension(node.path)))
}

/// The lower-case extension of a node's path.
fn extension_of(node: &Node) -> (lower: String)
    ensures
        lower@ == lowercase(path_extension(node@.path)),
{
    let written = extension(node.path.as_str());
    to_lowercase(written.as_str())
}

/// The icon for files of a type.
pub open spec fn type_icon(kind: FileType) -> Seq<char> {
    match kind {
        FileType::Pdf => "📕"@,
        FileType::Document => "📝"@,
        FileType::Code => "💻"@,
        FileType::Image => "🖼️"@,
        FileType::Archive | FileType::BzipArchive => "📦"@,
        FileType::Audio => "🎵"@,
        FileType::Video => "🎬"@,
        FileType::Program => "⚙️"@,
        FileType::Drawing | FileType::Other => "📄"@,
    }
}

/// The icon for files of a type.
pub fn icon_for_type(kind: FileType) -> (icon: &'static str)
    ensures
        icon@ == type_icon(kind),
        kind == FileType::Pdf ==> icon@ == "📕"@,
        kind == FileType::Document ==> icon@ == "📝"@,
        kind == FileType::Code ==> icon@ == "💻"@,
        kind == FileType::Image ==> icon@ == "🖼️"@,
        kind == FileType::Archive ==> icon@ == "📦"@,
        kind == FileType::BzipArchive ==> icon@ == "📦"@,
        kind == FileType::Audio ==> icon@ == "🎵"@,
        kind == FileType::Video ==> icon@ == "🎬"@,
        kind == FileType::Program ==> icon@ == "⚙️"@,
        kind == FileType::Drawing ==> icon@ == "📄"@,
        kind == FileType::Other ==> icon@ == "📄"@,
{
    match kind {
        FileType::Pdf => "📕",
        FileType::Document => "📝",
        FileType::Code => "💻",
        FileType::Image => "🖼️",
        FileType::Archive | FileType::BzipArchive => "📦",
        FileType::Audio => "🎵",
        FileType::Video => "🎬",
        FileType::Program => "⚙️",
        FileType::Drawing | FileType::Other => "📄",
    }
}

/// The icon of a node.
pub open spec fn node_icon(node: NodeView) -> Seq<char> {
    if node.is_dir {
        "📁"@
    } else {
        type_icon(node_type(node))
    }
}

/// The icon of a node: a folder, or what its extension says of the file.
pub fn get_file_icon(node: &Node) -> (icon: &'static str)
    ensures
        icon@ == node_icon(node@),
{
    if node.is_dir {
        return "📁";
    }
    let lower = extension_of(node);
    icon_for_type(classify_extension(lower.as_str()))
}

/// The djb2 hash of some bytes.
pub open spec fn djb2(bytes: Seq<u8>) -> nat
    decreases bytes.len(),
{
    if bytes.len() == 0 {
        5381
    } else {
        (djb2(bytes.drop_last()) * 33 + bytes.last()) as nat % 0x1_0000_0000
    }
}

/// The djb2 hash of some bytes.
fn djb2_hash(bytes: &[u8]) -> (hash: u32)
    ensures
        hash == djb2(bytes@),
{
    let mut hash: u32 = 5381;
    let mut i: usize = 0;
    assert(bytes@.take(0) =~= Seq::empty());
    while i < bytes.len()
        invariant
            i <= bytes.len(),
            hash == djb2(bytes@.take(i as int)),
        decreases bytes.len() - i,
    {
        assert(bytes@.take(i + 1).drop_last() =~= bytes@.take(i as int));
        hash = ((hash as u64 * 33 + bytes[i] as u64) % 0x1_0000_0000) as u32;
        i = i + 1;
    }
    assert(bytes@.take(i as int) =~= bytes@);
    hash
}

/// The hue of files that have no colours of their own, in degrees.
pub open spec fn extension_hue(extension: Seq<char>) -> nat {
    djb2(encode_utf8(extension)) % 360
}

/// The colours of a folder's card.
pub open spec fn folder_colors(dark_mode: bool) -> CardColors {
    if dark_mode {
        solid(rgb(45, 32, 10), rgb(245, 158, 11), rgb(254, 243, 199))
    } else {
        solid(rgb(254, 243, 199), rgb(217, 119, 6), rgb(120, 53, 15))
    }
}

/// The colours of the cards of files of a type, where the type has its own.
pub open spec fn type_colors(kind: FileType, dark_mode: bool) -> Option<CardColors> {
    match kind {
        FileType::Pdf => Some(
            if dark_mode {
                solid(rgb(60, 20, 20), rgb(239, 68, 68), rgb(255, 255, 255))
            } else {
                solid(rgb(254, 226, 226), rgb(220, 38, 38), rgb(153, 27, 27))
            },
        ),
        FileType::Code => Some(
            if dark_mode {
                solid(rgb(15, 45, 30), rgb(16, 185, 129), rgb(255, 255, 255))
            } else {
                solid(rgb(209, 250, 229), rgb(5, 150, 105), rgb(6, 78, 59))
            },
        ),
        FileType::Image => Some(
            if dark_mode {
                solid(rgb(15, 35, 60), rgb(14, 165, 233), rgb(255, 255, 255))
            } else {
                solid(rgb(224, 242, 254), rgb(2, 132, 199), rgb(12, 74, 110))
            },
        ),
        FileType::Audio | FileType::Video => Some(
            if dark_mode {
                solid(rgb(50, 15, 45), rgb(236, 72, 153), rgb(255, 255, 255))
            } else {
                solid(rgb(252, 231, 243), rgb(219, 39, 119), rgb(131, 24, 67))
            },
        ),
        FileType::Drawing => Some(
            if dark_mode {
                solid(rgb(25, 25, 60), rgb(99, 102, 241), rgb(255, 255, 255))
            } else {
                solid(rgb(224, 231, 255), rgb(79, 70, 229), rgb(49, 46, 129))
            },
        ),
        FileType::Archive => Some(
            if dark_mode {
                solid(rgb(55, 30, 15), rgb(249, 115, 22), rgb(255, 255, 255))
            } else {
                solid(rgb(255, 237, 213), rgb(234, 88, 12), rgb(154, 52, 18))
            },
        ),
        FileType::Document | FileType::BzipArchive | FileType::Program | FileType::Other => None,
    }
}

/// The colours of the cards of files of a type, where the type has its own.
fn colors_for_type(kind: FileType, dark_mode: bool) -> (colors: Option<CardColors>)
    ensures
        colors == type_colors(kind, dark_mode),
{
    match kind {
        FileType::Pdf => Some(
            if dark_mode {
                solid(rgb(60, 20, 20), rgb(239, 68, 68), rgb(255, 255, 255))
            } else {
                solid(rgb(254, 226, 226), rgb(220, 38, 38), rgb(153, 27, 27))
            },
        ),
        FileType::Code => Some(
            if dark_mode {
                solid(rgb(15, 45, 30), rgb(16, 185, 129), rgb(255, 255, 255))
            } else {
                solid(rgb(209, 250, 229), rgb(5, 150, 105), rgb(6, 78, 59))
            },
        ),
        FileType::Image => Some(
            if dark_mode {
                solid(rgb(15, 35, 60), rgb(14, 165, 233), rgb(255, 255, 255))
            } else {
                solid(rgb(224, 242, 254), rgb(2, 132, 199), rgb(12, 74, 110))
            },
        ),
        FileType::Audio | FileType::Video => Some(
            if dark_mode {
                solid(rgb(50, 15, 45), rgb(236, 72, 153), rgb(255, 255, 255))
            } else {
                solid(rgb(252, 231, 243), rgb(219, 39, 119), rgb(131, 24, 67))
            },
        ),
        FileType::Drawing => Some(
            if dark_mode {
                solid(rgb(25, 25, 60), rgb(99, 102, 241), rgb(255, 255, 255))
            } else {
                solid(rgb(224, 231, 255), rgb(79, 70, 229), rgb(49, 46, 129))
            },
        ),
        FileType::Archive => Some(
            if dark_mode {
                solid(rgb(55, 30, 15), rgb(249, 115, 22), rgb(255, 255, 255))
            } else {
                solid(rgb(255, 237, 213), rgb(234, 88, 12), rgb(154, 52, 18))
            },
        ),
        FileType::Document | FileType::BzipArchive | FileType::Program | FileType::Other => None,
    }
}

/// The colours of a card of a given hue.
pub open spec fn hue_colors(degrees: nat, dark_mode: bool) -> CardColors {
    if dark_mode {
        CardColors {
            fill: Paint::Hue { degrees: degrees as u32, saturation: 45, value: 25 },
            border: Paint::Hue { degrees: degrees as u32, saturation: 75, value: 85 },
            text: rgb(255, 255, 255),
        }
    } else {
        CardColors {
            fill: Paint::Hue { degrees: degrees as u32, saturation: 20, value: 95 },
            border: Paint::Hue { degrees: degrees as u32, saturation: 75, value: 60 },
            text: rgb(15, 23, 42),
        }
    }
}

/// The colours for a lower-case extension.
pub open spec fn extension_colors(extension: Seq<char>, dark_mode: bool) -> CardColors {
    match type_colors(file_type(extension), dark_mode) {
        Some(colors) => colors,
        None => hue_colors(extension_hue(extension), dark_mode),
    }
}

/// The colours for a lower-case extension: those of its type, or a hue that
/// is derived from the extension.
pub fn colors_for_extension(extension: &str, dark_mode: bool) -> (colors: CardColors)
    ensures
        colors == extension_colors(extension@, dark_mode),
{
    if let Some(colors) = colors_for_type(classify_extension(extension), dark_mode) {
        return colors;
    }
    let degrees = djb2_hash(extension.as_bytes()) % 360;
    let (fill, border): ((u32, u32), (u32, u32)) = if dark_mode {
        ((45, 25), (75, 85))
    } else {
        ((20, 95), (75, 60))
    };
    CardColors {
        fill: Paint::Hue { degrees, saturation: fill.0, value: fill.1 },
        border: Paint::Hue { degrees, saturation: border.0, value: border.1 },
        text: if dark_mode {
            rgb(255, 255, 255)
        } else {
            rgb(15, 23, 42)
        },
    }
}

/// The colours of a node's card by the node's type.
pub open spec fn node_colors(node: NodeView, dark_mode: bool) -> CardColors {
    if node.is_dir {
        folder_colors(dark_mode)
    } else {
        extension_colors(lowercase(path_extension(node.path)), dark_mode)
    }
}

/// The colours of a node's card by the node's type.
pub fn get_extension_card_colors(node: &Node, dark_mode: bool) -> (colors: CardColors)
    ensures
        colors == node_colors(node@, dark_mode),
{
    if node.is_dir {
        if dark_mode {
            return solid(rgb(45, 32, 10), rgb(245, 158, 11), rgb(254, 243, 199));
        } else {
            return solid(rgb(254, 243, 199), rgb(217, 119, 6), rgb(120, 53, 15));
        }
    }
    let lower = extension_of(node);
    colors_for_extension(lower.as_str(), dark_mode)
}


/// How long ago a node was modified.
#[derive(Clone, Copy, Debug, PartialEq, Eq, Structural)]
pub enum Age {
    Recent,
    Medium,
    Stable,
    Old,
}

/// Up to what time since its modification a node counts as recent, medium or stable.
#[derive(Clone, Copy, Debug, PartialEq, Eq, Structural)]
pub struct AgeThresholds {
    pub red_hours: u64,
    pub yellow_hours: u64,
    pub green_days: u64,
}

/// The age of a node, by the seconds since its modification.
pub open spec fn age_after(seconds: nat, thresholds: AgeThresholds) -> Age {
    if seconds <= thresholds.red_hours * 3600 {
        Age::Recent
    } else if seconds <= thresholds.yellow_hours * 3600 {
        Age::Medium
    } else if seconds <= thresholds.green_days * 86400 {
        Age::Stable
    } else {
        Age::Old
    }
}

/// How an age is described in the legend.
pub open spec fn age_text(age: Age, thresholds: AgeThresholds) -> Seq<char> {
    match age {
        Age::Recent => "■ <"@ + decimal(thresholds.red_hours as nat) + "h (Reciente)"@,
        Age::Medium => "■ <"@ + decimal(thresholds.yellow_hours as nat) + "h (Medio)"@,
        Age::Stable => "■ <"@ + decimal(thresholds.green_days as nat) + "d (Estable)"@,
        Age::Old => "■ Antiguo"@,
    }
}

/// How an age is described in the legend.
pub fn age_label(age: Age, thresholds: &AgeThresholds) -> (label: String)
    ensures
        label@ == age_text(age, *thresholds),
{
    let (limit, unit): (u64, &str) = match age {
        Age::Recent => (thresholds.red_hours, "h (Reciente)"),
        Age::Medium => (thresholds.yellow_hours, "h (Medio)"),
        Age::Stable => (thresholds.green_days, "d (Estable)"),
        Age::Old => {
            return "■ Antiguo".to_owned();
        },
    };
    let mut label = "■ <".to_owned();
    push_decimal(&mut label, limit);
    label.append(unit);
    label
}

/// The seconds from a modification to now, none where it lies in the future.
pub open spec fn seconds_since(modified: u64, now: u64) -> nat {
    if modified <= now {
        (now - modified) as nat
    } else {
        0
    }
}

/// The colours for an age.
pub open spec fn age_colors(age: Age, dark_mode: bool) -> CardColors {
    match age {
        Age::Recent => if dark_mode {
            solid(rgb(69, 10, 10), rgb(239, 68, 68), rgb(254, 202, 202))
        } else {
            solid(rgb(254, 226, 226), rgb(239, 68, 68), rgb(185, 28, 28))
        },
        Age::Medium => if dark_mode {
            solid(rgb(69, 26, 3), rgb(245, 158, 11), rgb(253, 230, 138))
        } else {
            solid(rgb(254, 243, 199), rgb(245, 158, 11), rgb(180, 83, 9))
        },
        Age::Stable => if dark_mode {
            solid(rgb(6, 78, 59), rgb(16, 185, 129), rgb(167, 243, 208))
        } else {
            solid(rgb(209, 250, 229), rgb(16, 185, 129), rgb(4, 120, 87))
        },
        Age::Old => if dark_mode {
            solid(rgb(30, 41, 59), rgb(100, 116, 139), rgb(203, 213, 225))
        } else {
            solid(rgb(241, 245, 249), rgb(148, 163, 184), rgb(71, 85, 105))
        },
    }
}

/// The colours of a node's card by the time since the node was modified. The
/// modification and `now` are in seconds since the epoch.
pub fn get_node_age_card_colors(
    node: &Node,
    now: u64,
    thresholds: &AgeThresholds,
    dark_mode: bool,
) -> (colors: CardColors)
    requires
        thresholds.red_hours * 3600 <= u64::MAX,
        thresholds.yellow_hours * 3600 <= u64::MAX,
        thresholds.green_days * 86400 <= u64::MAX,
    ensures
        colors == age_colors(
            age_after(seconds_since(node.modified_timestamp, now), *thresholds),
            dark_mode,
        ),
{
    let elapsed: u64 = if node.modified_timestamp <= now {
        now - node.modified_timestamp
    } else {
        0
    };
    let age = if elapsed <= thresholds.red_hours * 3600 {
        Age::Recent
    } else if elapsed <= thresholds.yellow_hours * 3600 {
        Age::Medium
    } else if elapsed <= thresholds.green_days * 86400 {
        Age::Stable
    } else {
        Age::Old
    };
    match age {
        Age::Recent => if dark_mode {
            solid(rgb(69, 10, 10), rgb(239, 68, 68), rgb(254, 202, 202))
        } else {
            solid(rgb(254, 226, 226), rgb(239, 68, 68), rgb(185, 28, 28))
        },
        Age::Medium => if dark_mode {
            solid(rgb(69, 26, 3), rgb(245, 158, 11), rgb(253, 230, 138))
        } else {
            solid(rgb(254, 243, 199), rgb(245, 158, 11), rgb(180, 83, 9))
        },
        Age::Stable => if dark_mode {
            solid(rgb(6, 78, 59), rgb(16, 185, 129), rgb(167, 243, 208))
        } else {
            solid(rgb(209, 250, 229), rgb(16, 185, 129), rgb(4, 120, 87))
        },
        Age::Old => if dark_mode {
            solid(rgb(30, 41, 59), rgb(100, 116, 139), rgb(203, 213, 225))
        } else {
            solid(rgb(241, 245, 249), rgb(148, 163, 184), rgb(71, 85, 105))
        },
    }
}

/// What is special about a card at the moment.
#[derive(Clone, Copy, Debug, PartialEq, Eq, Structural)]
pub struct CardState {
    /// A dragged node would be dropped into the card's folder.
    pub is_drop_target: bool,
    /// A process has the file open.
    pub is_open: bool,
    /// The node is the root of what is shown.
    pub is_focused: bool,
    pub is_selected: bool,
    /// The node passes the filter.
    pub is_match: bool,
    /// There is a filter.
    pub has_filter: bool,
}

/// How a card is drawn. What is dimmed is drawn mostly transparent.
#[derive(Clone, Copy, Debug, PartialEq, Eq, Structural)]
pub struct CardLook {
    pub border: Paint,
    /// The width of the border, in halves of a point.
    pub border_width: u32,
    pub fill: Paint,
    pub fill_dimmed: bool,
    pub header: Paint,
    pub header_dimmed: bool,
    pub text: Color,
    pub text_dimmed: bool,
    pub shadow: bool,
}

/// A card that the filter leaves out.
pub open spec fn filtered_out(state: CardState) -> bool {
    !state.is_match && state.has_filter
}

/// The border of a card and its width: what is dropped on comes first, then
/// what is open, focused, selected, filtered out and found.
pub open spec fn card_border(colors: CardColors, state: CardState) -> (Paint, u32) {
    if state.is_drop_target {
        (Paint::Solid(rgb(37, 99, 235)), 9)
    } else if state.is_open {
        (Paint::Solid(rgb(239, 68, 68)), 7)
    } else if state.is_focused {
        (Paint::Solid(rgb(37, 99, 235)), 7)
    } else if state.is_selected {
        (Paint::Solid(rgb(239, 68, 68)), 6)
    } else if filtered_out(state) {
        (Paint::Solid(Color { r: 0, g: 0, b: 0, a: 0 }), 0)
    } else if state.has_filter {
        (Paint::Solid(rgb(245, 158, 11)), 6)
    } else {
        (colors.border, 4)
    }
}

/// How a card is drawn.
pub open spec fn card_look_of(colors: CardColors, state: CardState) -> CardLook {
    let border = card_border(colors, state);
    CardLook {
        border: border.0,
        border_width: border.1,
        fill: if state.is_drop_target {
            Paint::Solid(rgb(219, 234, 254))
        } else {
            colors.fill
        },
        fill_dimmed: filtered_out(state) && !state.is_drop_target,
        header: colors.border,
        header_dimmed: filtered_out(state),
        text: if state.is_drop_target {
            rgb(37, 99, 235)
        } else {
            colors.text
        },
        text_dimmed: filtered_out(state) && !state.is_drop_target,
        shadow: !filtered_out(state),
    }
}

/// How a card is drawn.
pub fn card_look(colors: CardColors, state: CardState) -> (look: CardLook)
    ensures
        look == card_look_of(colors, state),
{
    let left_out = !state.is_match && state.has_filter;
    let border: (Paint, u32) = if state.is_drop_target {
        (Paint::Solid(rgb(37, 99, 235)), 9)
    } else if state.is_open {
        (Paint::Solid(rgb(239, 68, 68)), 7)
    } else if state.is_focused {
        (Paint::Solid(rgb(37, 99, 235)), 7)
    } else if state.is_selected {
        (Paint::Solid(rgb(239, 68, 68)), 6)
    } else if left_out {
        (Paint::Solid(Color { r: 0, g: 0, b: 0, a: 0 }), 0)
    } else if state.has_filter {
        (Paint::Solid(rgb(245, 158, 11)), 6)
    } else {
        (colors.border, 4)
    };
    let (fill, text) = if state.is_drop_target {
        (Paint::Solid(rgb(219, 234, 254)), rgb(37, 99, 235))
    } else {
        (colors.fill, colors.text)
    };
    CardLook {
        border: border.0,
        border_width: border.1,
        fill,
        fill_dimmed: left_out && !state.is_drop_target,
        header: colors.border,
        header_dimmed: left_out,
        text,
        text_dimmed: left_out && !state.is_drop_target,
        shadow: !left_out,
    }
}

/// Whether a card stands for a folder that is shown without its many children.
pub open spec fn shows_count(node: NodeView, root: usize, zoomed_in: bool) -> bool {
    node.is_dir && node.children.len() > 4 && node.id != root && !zoomed_in
}

/// Whether a card stands for a folder that is shown without its many children.
pub fn hides_children(node: &Node, root_id: usize, zoomed_in: bool) -> (hides: bool)
    ensures
        hides == shows_count(node@, root_id, zoomed_in),
        hides <==> node.is_dir && node.children.len() > 4 && node.id != root_id && !zoomed_in,
{
    node.is_dir && node.children.len() > 4 && node.id != root_id && !zoomed_in
}

/// The text on a card: the icon, a flame where the file is open, and the
/// name. A folder that hides its children says how many; a long name is cut.
pub open spec fn card_text(node: NodeView, root: usize, zoomed_in: bool, is_open: bool) -> Seq<
    char,
> {
    let start = node_icon(node) + (if is_open {
        " 🔥"@
    } else {
        Seq::empty()
    }) + " "@;
    if shows_count(node, root, zoomed_in) {
        start + node.name + "\n📁 +"@ + decimal(node.children.len())
            + " archivos (Haz clic para explorar)"@
    } else if encode_utf8(node.name).len() > 16 {
        start + byte_prefix(node.name, 13) + "..."@
    } else {
        start + node.name
    }
}

/// A name that is cut has a character end after its thirteenth byte.
pub open spec fn can_be_labelled(node: NodeView, root: usize, zoomed_in: bool) -> bool {
    !shows_count(node, root, zoomed_in) && encode_utf8(node.name).len() > 16 ==> is_char_boundary(
        encode_utf8(node.name),
        13,
    )
}

/// Whether a name that is cut has a character end after its thirteenth byte.
pub fn fits_label(node: &Node, root_id: usize, zoomed_in: bool) -> (fits: bool)
    ensures
        fits == can_be_labelled(node@, root_id, zoomed_in),
        fits <==> (node.is_dir && node.children.len() > 4 && node.id != root_id && !zoomed_in)
            || encode_utf8(node.name@).len() <= 16 || is_char_boundary(encode_utf8(node.name@), 13),
{
    hides_children(node, root_id, zoomed_in) || node.name.as_str().as_bytes().len() <= 16
        || node.name.as_str().is_char_boundary(13)
}

/// The text on a card.
pub fn card_label(node: &Node, root_id: usize, zoomed_in: bool, is_open: bool) -> (label: String)
    requires
        can_be_labelled(node@, root_id, zoomed_in),
    ensures
        label@ == card_text(node@, root_id, zoomed_in, is_open),
{
    let mut label = String::new();
    label.append(get_file_icon(node));
    if is_open {
        label.append(" 🔥");
    }
    label.append(" ");
    assert(label@ =~= node_icon(node@) + (if is_open {
        " 🔥"@
    } else {
        Seq::empty()
    }) + " "@);
    if hides_children(node, root_id, zoomed_in) {
        label.append(node.name.as_str());
        label.append("\n📁 +");
        push_decimal(&mut label, node.children.len() as u64);
        label.append(" archivos (Haz clic para explorar)");
    } else if node.name.as_str().as_bytes().len() > 16 {
        let head = take_bytes(node.name.as_str(), 13);
        label.append(head.as_str());
        label.append("...");
    } else {
        label.append(node.name.as_str());
    }
    label
}

/// The extensions of each type of file: a file is of a type exactly where its
/// lower-case extension is one of those of the type, and of no special type
/// where it is none of them.
pub proof fn law_file_types(extension: Seq<char>)
    ensures
        file_type(extension) == FileType::Pdf <==> (extension == "pdf"@),
        file_type(extension) == FileType::Document <==> (extension == "doc"@
            || extension == "docx"@
            || extension == "txt"@
            || extension == "md"@
            || extension == "log"@
            || extension == "rtf"@),
        file_type(extension) == FileType::Code <==> (extension == "rs"@
            || extension == "py"@
            || extension == "js"@
            || extension == "ts"@
            || extension == "json"@
            || extension == "html"@
            || extension == "css"@
            || extension == "toml"@
            || extension == "yaml"@
            || extension == "xml"@
            || extension == "cpp"@
            || extension == "c"@),
        file_type(extension) == FileType::Image <==> (extension == "png"@
            || extension == "jpg"@
            || extension == "jpeg"@
            || extension == "gif"@
            || extension == "svg"@
            || extension == "webp"@
            || extension == "bmp"@),
        file_type(extension) == FileType::Archive <==> (extension == "zip"@
            || extension == "rar"@
            || extension == "7z"@
            || extension == "tar"@
            || extension == "gz"@),
        file_type(extension) == FileType::BzipArchive <==> (extension == "bz2"@),
        file_type(extension) == FileType::Audio <==> (extension == "mp3"@
            || extension == "wav"@
            || extension == "flac"@
            || extension == "ogg"@),
        file_type(extension) == FileType::Video <==> (extension == "mp4"@
            || extension == "mkv"@
            || extension == "avi"@
            || extension == "mov"@
            || extension == "webm"@),
        file_type(extension) == FileType::Drawing <==> (extension == "rfa"@
            || extension == "rvt"@
            || extension == "dwg"@
            || extension == "dxf"@),
        file_type(extension) == FileType::Program <==> (extension == "exe"@
            || extension == "bat"@
            || extension == "cmd"@
            || extension == "sh"@
            || extension == "msi"@),
        file_type(extension) == FileType::Other <==> !(extension == "pdf"@
            || extension == "doc"@
            || extension == "docx"@
            || extension == "txt"@
            || extension == "md"@
            || extension == "log"@
            || extension == "rtf"@
            || extension == "rs"@
            || extension == "py"@
            || extension == "js"@
            || extension == "ts"@
            || extension == "json"@
            || extension == "html"@
            || extension == "css"@
            || extension == "toml"@
            || extension == "yaml"@
            || extension == "xml"@
            || extension == "cpp"@
            || extension == "c"@
            || extension == "png"@
            || extension == "jpg"@
            || extension == "jpeg"@
            || extension == "gif"@
            || extension == "svg"@
            || extension == "webp"@
            || extension == "bmp"@
            || extension == "zip"@
            || extension == "rar"@
            || extension == "7z"@
            || extension == "tar"@
            || extension == "gz"@
            || extension == "bz2"@
            || extension == "mp3"@
            || extension == "wav"@
            || extension == "flac"@
            || extension == "ogg"@
            || extension == "mp4"@
            || extension == "mkv"@
            || extension == "avi"@
            || extension == "mov"@
            || extension == "webm"@
            || extension == "rfa"@
            || extension == "rvt"@
            || extension == "dwg"@
            || extension == "dxf"@
            || extension == "exe"@
            || extension == "bat"@
            || extension == "cmd"@
            || extension == "sh"@
            || extension == "msi"@),
{
    reveal_strlit("pdf");
    assert("pdf"@.len() == 3 && "pdf"@[0] == 'p' && "pdf"@[1] == 'd' && "pdf"@[2] == 'f');
    reveal_strlit("doc");
    assert("doc"@.len() == 3 && "doc"@[0] == 'd' && "doc"@[1] == 'o' && "doc"@[2] == 'c');
    reveal_strlit("docx");
    assert("docx"@.len() == 4 && "docx"@[0] == 'd' && "docx"@[1] == 'o' && "docx"@[2] == 'c'
        && "docx"@[3] == 'x');
    reveal_strlit("txt");
    assert("txt"@.len() == 3 && "txt"@[0] == 't' && "txt"@[1] == 'x' && "txt"@[2] == 't');
    reveal_strlit("md");
    assert("md"@.len() == 2 && "md"@[0] == 'm' && "md"@[1] == 'd');
    reveal_strlit("log");
    assert("log"@.len() == 3 && "log"@[0] == 'l' && "log"@[1] == 'o' && "log"@[2] == 'g');
    reveal_strlit("rtf");
    assert("rtf"@.len() == 3 && "rtf"@[0] == 'r' && "rtf"@[1] == 't' && "rtf"@[2] == 'f');
    reveal_strlit("rs");
    assert("rs"@.len() == 2 && "rs"@[0] == 'r' && "rs"@[1] == 's');
    reveal_strlit("py");
    assert("py"@.len() == 2 && "py"@[0] == 'p' && "py"@[1] == 'y');
    reveal_strlit("js");
    assert("js"@.len() == 2 && "js"@[0] == 'j' && "js"@[1] == 's');
    reveal_strlit("ts");
    assert("ts"@.len() == 2 && "ts"@[0] == 't' && "ts"@[1] == 's');
    reveal_strlit("json");
    assert("json"@.len() == 4 && "json"@[0] == 'j' && "json"@[1] == 's' && "json"@[2] == 'o'
        && "json"@[3] == 'n');
    reveal_strlit("html");
    assert("html"@.len() == 4 && "html"@[0] == 'h' && "html"@[1] == 't' && "html"@[2] == 'm'
        && "html"@[3] == 'l');
    reveal_strlit("css");
    assert("css"@.len() == 3 && "css"@[0] == 'c' && "css"@[1] == 's' && "css"@[2] == 's');
    reveal_strlit("toml");
    assert("toml"@.len() == 4 && "toml"@[0] == 't' && "toml"@[1] == 'o' && "toml"@[2] == 'm'
        && "toml"@[3] == 'l');
    reveal_strlit("yaml");
    assert("yaml"@.len() == 4 && "yaml"@[0] == 'y' && "yaml"@[1] == 'a' && "yaml"@[2] == 'm'
        && "yaml"@[3] == 'l');
    reveal_strlit("xml");
    assert("xml"@.len() == 3 && "xml"@[0] == 'x' && "xml"@[1] == 'm' && "xml"@[2] == 'l');
    reveal_strlit("cpp");
    assert("cpp"@.len() == 3 && "cpp"@[0] == 'c' && "cpp"@[1] == 'p' && "cpp"@[2] == 'p');
    reveal_strlit("c");
    assert("c"@.len() == 1 && "c"@[0] == 'c');
    reveal_strlit("png");
    assert("png"@.len() == 3 && "png"@[0] == 'p' && "png"@[1] == 'n' && "png"@[2] == 'g');
    reveal_strlit("jpg");
    assert("jpg"@.len() == 3 && "jpg"@[0] == 'j' && "jpg"@[1] == 'p' && "jpg"@[2] == 'g');
    reveal_strlit("jpeg");
    assert("jpeg"@.len() == 4 && "jpeg"@[0] == 'j' && "jpeg"@[1] == 'p' && "jpeg"@[2] == 'e'
        && "jpeg"@[3] == 'g');
    reveal_strlit("gif");
    assert("gif"@.len() == 3 && "gif"@[0] == 'g' && "gif"@[1] == 'i' && "gif"@[2] == 'f');
    reveal_strlit("svg");
    assert("svg"@.len() == 3 && "svg"@[0] == 's' && "svg"@[1] == 'v' && "svg"@[2] == 'g');
    reveal_strlit("webp");
    assert("webp"@.len() == 4 && "webp"@[0] == 'w' && "webp"@[1] == 'e' && "webp"@[2] == 'b'
        && "webp"@[3] == 'p');
    reveal_strlit("bmp");
    assert("bmp"@.len() == 3 && "bmp"@[0] == 'b' && "bmp"@[1] == 'm' && "bmp"@[2] == 'p');
    reveal_strlit("zip");
    assert("zip"@.len() == 3 && "zip"@[0] == 'z' && "zip"@[1] == 'i' && "zip"@[2] == 'p');
    reveal_strlit("rar");
    assert("rar"@.len() == 3 && "rar"@[0] == 'r' && "rar"@[1] == 'a' && "rar"@[2] == 'r');
    reveal_strlit("7z");
    assert("7z"@.len() == 2 && "7z"@[0] == '7' && "7z"@[1] == 'z');
    reveal_strlit("tar");
    assert("tar"@.len() == 3 && "tar"@[0] == 't' && "tar"@[1] == 'a' && "tar"@[2] == 'r');
    reveal_strlit("gz");
    assert("gz"@.len() == 2 && "gz"@[0] == 'g' && "gz"@[1] == 'z');
    reveal_strlit("bz2");
    assert("bz2"@.len() == 3 && "bz2"@[0] == 'b' && "bz2"@[1] == 'z' && "bz2"@[2] == '2');
    reveal_strlit("mp3");
    assert("mp3"@.len() == 3 && "mp3"@[0] == 'm' && "mp3"@[1] == 'p' && "mp3"@[2] == '3');
    reveal_strlit("wav");
    assert("wav"@.len() == 3 && "wav"@[0] == 'w' && "wav"@[1] == 'a' && "wav"@[2] == 'v');
    reveal_strlit("flac");
    assert("flac"@.len() == 4 && "flac"@[0] == 'f' && "flac"@[1] == 'l' && "flac"@[2] == 'a'
        && "flac"@[3] == 'c');
    reveal_strlit("ogg");
    assert("ogg"@.len() == 3 && "ogg"@[0] == 'o' && "ogg"@[1] == 'g' && "ogg"@[2] == 'g');
    reveal_strlit("mp4");
    assert("mp4"@.len() == 3 && "mp4"@[0] == 'm' && "mp4"@[1] == 'p' && "mp4"@[2] == '4');
    reveal_strlit("mkv");
    assert("mkv"@.len() == 3 && "mkv"@[0] == 'm' && "mkv"@[1] == 'k' && "mkv"@[2] == 'v');
    reveal_strlit("avi");
    assert("avi"@.len() == 3 && "avi"@[0] == 'a' && "avi"@[1] == 'v' && "avi"@[2] == 'i');
    reveal_strlit("mov");
    assert("mov"@.len() == 3 && "mov"@[0] == 'm' && "mov"@[1] == 'o' && "mov"@[2] == 'v');
    reveal_strlit("webm");
    assert("webm"@.len() == 4 && "webm"@[0] == 'w' && "webm"@[1] == 'e' && "webm"@[2] == 'b'
        && "webm"@[3] == 'm');
    reveal_strlit("rfa");
    assert("rfa"@.len() == 3 && "rfa"@[0] == 'r' && "rfa"@[1] == 'f' && "rfa"@[2] == 'a');
    reveal_strlit("rvt");
    assert("rvt"@.len() == 3 && "rvt"@[0] == 'r' && "rvt"@[1] == 'v' && "rvt"@[2] == 't');
    reveal_strlit("dwg");
    assert("dwg"@.len() == 3 && "dwg"@[0] == 'd' && "dwg"@[1] == 'w' && "dwg"@[2] == 'g');
    reveal_strlit("dxf");
    assert("dxf"@.len() == 3 && "dxf"@[0] == 'd' && "dxf"@[1] == 'x' && "dxf"@[2] == 'f');
    reveal_strlit("exe");
    assert("exe"@.len() == 3 && "exe"@[0] == 'e' && "exe"@[1] == 'x' && "exe"@[2] == 'e');
    reveal_strlit("bat");
    assert("bat"@.len() == 3 && "bat"@[0] == 'b' && "bat"@[1] == 'a' && "bat"@[2] == 't');
    reveal_strlit("cmd");
    assert("cmd"@.len() == 3 && "cmd"@[0] == 'c' && "cmd"@[1] == 'm' && "cmd"@[2] == 'd');
    reveal_strlit("sh");
    assert("sh"@.len() == 2 && "sh"@[0] == 's' && "sh"@[1] == 'h');
    reveal_strlit("msi");
    assert("msi"@.len() == 3 && "msi"@[0] == 'm' && "msi"@[1] == 's' && "msi"@[2] == 'i');
}

/// The icon of a folder is a folder, and that of a file is the one of its type.
pub proof fn law_icons(node: NodeView)
    ensures
        node.is_dir ==> node_icon(node) == "📁"@,
        !node.is_dir ==> {
            let kind = file_type(lowercase(path_extension(node.path)));
            &&& kind == FileType::Pdf ==> node_icon(node) == "📕"@
            &&& kind == FileType::Document ==> node_icon(node) == "📝"@
            &&& kind == FileType::Code ==> node_icon(node) == "💻"@
            &&& kind == FileType::Image ==> node_icon(node) == "🖼️"@
            &&& kind == FileType::Archive ==> node_icon(node) == "📦"@
            &&& kind == FileType::BzipArchive ==> node_icon(node) == "📦"@
            &&& kind == FileType::Audio ==> node_icon(node) == "🎵"@
            &&& kind == FileType::Video ==> node_icon(node) == "🎬"@
            &&& kind == FileType::Program ==> node_icon(node) == "⚙️"@
            &&& kind == FileType::Drawing ==> node_icon(node) == "📄"@
            &&& kind == FileType::Other ==> node_icon(node) == "📄"@
        },
{
}

/// Files whose extensions differ in case at most are presented alike.
pub proof fn law_extension_case_does_not_matter(a: NodeView, b: NodeView, dark_mode: bool)
    requires
        a.is_dir == b.is_dir,
        lowercase(path_extension(a.path)) == lowercase(path_extension(b.path)),
    ensures
        node_icon(a) == node_icon(b),
        node_colors(a, dark_mode) == node_colors(b, dark_mode),
{
}

/// The colours of folders, in the dark and in the light.
pub proof fn law_folder_colors(node: NodeView, dark_mode: bool)
    requires
        node.is_dir,
    ensures
        dark_mode ==> node_colors(node, dark_mode) == (CardColors {
            fill: Paint::Solid(Color { r: 45, g: 32, b: 10, a: 255 }),
            border: Paint::Solid(Color { r: 245, g: 158, b: 11, a: 255 }),
            text: Color { r: 254, g: 243, b: 199, a: 255 },
        }),
        !dark_mode ==> node_colors(node, dark_mode) == (CardColors {
            fill: Paint::Solid(Color { r: 254, g: 243, b: 199, a: 255 }),
            border: Paint::Solid(Color { r: 217, g: 119, b: 6, a: 255 }),
            text: Color { r: 120, g: 53, b: 15, a: 255 },
        }),
{
}

/// The colours of each type of file, in the dark and in the light. The other
/// files get a hue of their own.
pub proof fn law_type_colors(kind: FileType, dark_mode: bool)
    ensures
        kind == FileType::Pdf && dark_mode ==> type_colors(
            kind,
            dark_mode,
        ) == Some(CardColors {
            fill: Paint::Solid(Color { r: 60, g: 20, b: 20, a: 255 }),
            border: Paint::Solid(Color { r: 239, g: 68, b: 68, a: 255 }),
            text: Color { r: 255, g: 255, b: 255, a: 255 },
        }),
        kind == FileType::Pdf && !dark_mode ==> type_colors(
            kind,
            dark_mode,
        ) == Some(CardColors {
            fill: Paint::Solid(Color { r: 254, g: 226, b: 226, a: 255 }),
            border: Paint::Solid(Color { r: 220, g: 38, b: 38, a: 255 }),
            text: Color { r: 153, g: 27, b: 27, a: 255 },
        }),
        kind == FileType::Code && dark_mode ==> type_colors(
            kind,
            dark_mode,
        ) == Some(CardColors {
            fill: Paint::Solid(Color { r: 15, g: 45, b: 30, a: 255 }),
            border: Paint::Solid(Color { r: 16, g: 185, b: 129, a: 255 }),
            text: Color { r: 255, g: 255, b: 255, a: 255 },
        }),
        kind == FileType::Code && !dark_mode ==> type_colors(
            kind,
            dark_mode,
        ) == Some(CardColors {
            fill: Paint::Solid(Color { r: 209, g: 250, b: 229, a: 255 }),
            border: Paint::Solid(Color { r: 5, g: 150, b: 105, a: 255 }),
            text: Color { r: 6, g: 78, b: 59, a: 255 },
        }),
        kind == FileType::Image && dark_mode ==> type_colors(
            kind,
            dark_mode,
        ) == Some(CardColors {
            fill: Paint::Solid(Color { r: 15, g: 35, b: 60, a: 255 }),
            border: Paint::Solid(Color { r: 14, g: 165, b: 233, a: 255 }),
            text: Color { r: 255, g: 255, b: 255, a: 255 },
        }),
        kind == FileType::Image && !dark_mode ==> type_colors(
            kind,
            dark_mode,
        ) == Some(CardColors {
            fill: Paint::Solid(Color { r: 224, g: 242, b: 254, a: 255 }),
            border: Paint::Solid(Color { r: 2, g: 132, b: 199, a: 255 }),
            text: Color { r: 12, g: 74, b: 110, a: 255 },
        }),
        kind == FileType::Audio && dark_mode ==> type_colors(
            kind,
            dark_mode,
        ) == Some(CardColors {
            fill: Paint::Solid(Color { r: 50, g: 15, b: 45, a: 255 }),
            border: Paint::Solid(Color { r: 236, g: 72, b: 153, a: 255 }),
            text: Color { r: 255, g: 255, b: 255, a: 255 },
        }),
        kind == FileType::Audio && !dark_mode ==> type_colors(
            kind,
            dark_mode,
        ) == Some(CardColors {
            fill: Paint::Solid(Color { r: 252, g: 231, b: 243, a: 255 }),
            border: Paint::Solid(Color { r: 219, g: 39, b: 119, a: 255 }),
            text: Color { r: 131, g: 24, b: 67, a: 255 },
        }),
        kind == FileType::Video && dark_mode ==> type_colors(
            kind,
            dark_mode,
        ) == Some(CardColors {
            fill: Paint::Solid(Color { r: 50, g: 15, b: 45, a: 255 }),
            border: Paint::Solid(Color { r: 236, g: 72, b: 153, a: 255 }),
            text: Color { r: 255, g: 255, b: 255, a: 255 },
        }),
        kind == FileType::Video && !dark_mode ==> type_colors(
            kind,
            dark_mode,
        ) == Some(CardColors {
            fill: Paint::Solid(Color { r: 252, g: 231, b: 243, a: 255 }),
            border: Paint::Solid(Color { r: 219, g: 39, b: 119, a: 255 }),
            text: Color { r: 131, g: 24, b: 67, a: 255 },
        }),
        kind == FileType::Drawing && dark_mode ==> type_colors(
            kind,
            dark_mode,
        ) == Some(CardColors {
            fill: Paint::Solid(Color { r: 25, g: 25, b: 60, a: 255 }),
            border: Paint::Solid(Color { r: 99, g: 102, b: 241, a: 255 }),
            text: Color { r: 255, g: 255, b: 255, a: 255 },
        }),
        kind == FileType::Drawing && !dark_mode ==> type_colors(
            kind,
            dark_mode,
        ) == Some(CardColors {
            fill: Paint::Solid(Color { r: 224, g: 231, b: 255, a: 255 }),
            border: Paint::Solid(Color { r: 79, g: 70, b: 229, a: 255 }),
            text: Color { r: 49, g: 46, b: 129, a: 255 },
        }),
        kind == FileType::Archive && dark_mode ==> type_colors(
            kind,
            dark_mode,
        ) == Some(CardColors {
            fill: Paint::Solid(Color { r: 55, g: 30, b: 15, a: 255 }),
            border: Paint::Solid(Color { r: 249, g: 115, b: 22, a: 255 }),
            text: Color { r: 255, g: 255, b: 255, a: 255 },
        }),
        kind == FileType::Archive && !dark_mode ==> type_colors(
            kind,
            dark_mode,
        ) == Some(CardColors {
            fill: Paint::Solid(Color { r: 255, g: 237, b: 213, a: 255 }),
            border: Paint::Solid(Color { r: 234, g: 88, b: 12, a: 255 }),
            text: Color { r: 154, g: 52, b: 18, a: 255 },
        }),
        kind == FileType::Document ==> type_colors(kind, dark_mode) is None,
        kind == FileType::BzipArchive ==> type_colors(kind, dark_mode) is None,
        kind == FileType::Program ==> type_colors(kind, dark_mode) is None,
        kind == FileType::Other ==> type_colors(kind, dark_mode) is None,
{
}

/// The colours of each age, in the dark and in the light.
pub proof fn law_age_colors(age: Age, dark_mode: bool)
    ensures
        age == Age::Recent && dark_mode ==> age_colors(age, dark_mode) == (CardColors {
            fill: Paint::Solid(Color { r: 69, g: 10, b: 10, a: 255 }),
            border: Paint::Solid(Color { r: 239, g: 68, b: 68, a: 255 }),
            text: Color { r: 254, g: 202, b: 202, a: 255 },
        }),
        age == Age::Recent && !dark_mode ==> age_colors(age, dark_mode) == (CardColors {
            fill: Paint::Solid(Color { r: 254, g: 226, b: 226, a: 255 }),
            border: Paint::Solid(Color { r: 239, g: 68, b: 68, a: 255 }),
            text: Color { r: 185, g: 28, b: 28, a: 255 },
        }),
        age == Age::Medium && dark_mode ==> age_colors(age, dark_mode) == (CardColors {
            fill: Paint::Solid(Color { r: 69, g: 26, b: 3, a: 255 }),
            border: Paint::Solid(Color { r: 245, g: 158, b: 11, a: 255 }),
            text: Color { r: 253, g: 230, b: 138, a: 255 },
        }),
        age == Age::Medium && !dark_mode ==> age_colors(age, dark_mode) == (CardColors {
            fill: Paint::Solid(Color { r: 254, g: 243, b: 199, a: 255 }),
            border: Paint::Solid(Color { r: 245, g: 158, b: 11, a: 255 }),
            text: Color { r: 180, g: 83, b: 9, a: 255 },
        }),
        age == Age::Stable && dark_mode ==> age_colors(age, dark_mode) == (CardColors {
            fill: Paint::Solid(Color { r: 6, g: 78, b: 59, a: 255 }),
            border: Paint::Solid(Color { r: 16, g: 185, b: 129, a: 255 }),
            text: Color { r: 167, g: 243, b: 208, a: 255 },
        }),
        age == Age::Stable && !dark_mode ==> age_colors(age, dark_mode) == (CardColors {
            fill: Paint::Solid(Color { r: 209, g: 250, b: 229, a: 255 }),
            border: Paint::Solid(Color { r: 16, g: 185, b: 129, a: 255 }),
            text: Color { r: 4, g: 120, b: 87, a: 255 },
        }),
        age == Age::Old && dark_mode ==> age_colors(age, dark_mode) == (CardColors {
            fill: Paint::Solid(Color { r: 30, g: 41, b: 59, a: 255 }),
            border: Paint::Solid(Color { r: 100, g: 116, b: 139, a: 255 }),
            text: Color { r: 203, g: 213, b: 225, a: 255 },
        }),
        age == Age::Old && !dark_mode ==> age_colors(age, dark_mode) == (CardColors {
            fill: Paint::Solid(Color { r: 241, g: 245, b: 249, a: 255 }),
            border: Paint::Solid(Color { r: 148, g: 163, b: 184, a: 255 }),
            text: Color { r: 71, g: 85, b: 105, a: 255 },
        }),
{
}

/// A file whose type has colours of its own has those, and any other a hue that
/// its whole lower-case extension gives: the djb2 hash of its UTF-8 bytes,
/// taken from 5381 by 33 times the hash before and the next byte, in 32 bits.
pub proof fn law_extension_colors(extension: Seq<char>, dark_mode: bool)
    ensures
        type_colors(file_type(extension), dark_mode) matches Some(colors) ==> extension_colors(
            extension,
            dark_mode,
        ) == colors,
        type_colors(file_type(extension), dark_mode) is None ==> ({
            let hash = encode_utf8(extension).fold_left(
                5381,
                |hash: int, byte: u8| (33 * hash + byte) % 0x1_0000_0000,
            );
            let degrees = (hash % 360) as u32;
            let colors = extension_colors(extension, dark_mode);
            &&& dark_mode ==> colors.fill == (Paint::Hue { degrees, saturation: 45, value: 25 })
            &&& dark_mode ==> colors.border == (Paint::Hue { degrees, saturation: 75, value: 85 })
            &&& dark_mode ==> colors.text == (Color { r: 255, g: 255, b: 255, a: 255 })
            &&& !dark_mode ==> colors.fill == (Paint::Hue { degrees, saturation: 20, value: 95 })
            &&& !dark_mode ==> colors.border == (Paint::Hue { degrees, saturation: 75, value: 60 })
            &&& !dark_mode ==> colors.text == (Color { r: 15, g: 23, b: 42, a: 255 })
        }),
{
    lemma_djb2_fold(encode_utf8(extension));
}

proof fn lemma_djb2_fold(bytes: Seq<u8>)
    ensures
        djb2(bytes) == bytes.fold_left(
            5381,
            |hash: int, byte: u8| (33 * hash + byte) % 0x1_0000_0000,
        ),
    decreases bytes.len(),
{
    if bytes.len() > 0 {
        lemma_djb2_fold(bytes.drop_last());
    }
}

/// The age of a node: the first of the limits that the time since its
/// modification does not pass decides, in hours for the first two and in days
/// for the third. A time in the future counts as now.
pub proof fn law_ages(modified: u64, now: u64, thresholds: AgeThresholds)
    ensures
        ({
            let passed = if now >= modified {
                now - modified
            } else {
                0
            };
            let red = 3600 * thresholds.red_hours;
            let yellow = 3600 * thresholds.yellow_hours;
            let green = 86400 * thresholds.green_days;
            let age = age_after(seconds_since(modified, now), thresholds);
            &&& age == Age::Recent <==> passed <= red
            &&& age == Age::Medium <==> passed > red && passed <= yellow
            &&& age == Age::Stable <==> passed > red && passed > yellow && passed <= green
            &&& age == Age::Old <==> passed > red && passed > yellow && passed > green
        }),
{
}

/// A node grows no younger as time passes.
pub proof fn law_ages_advance(modified: u64, now: u64, later: u64, thresholds: AgeThresholds)
    requires
        now <= later,
    ensures
        ({
            let before = age_after(seconds_since(modified, now), thresholds);
            let after = age_after(seconds_since(modified, later), thresholds);
            &&& after == Age::Recent ==> before == Age::Recent
            &&& before == Age::Old ==> after == Age::Old
            &&& before == Age::Stable ==> after == Age::Stable || after == Age::Old
        }),
{
}

/// What an age is called in the legend, with its limit.
pub proof fn law_age_texts(age: Age, thresholds: AgeThresholds)
    ensures
        age == Age::Recent ==> age_text(age, thresholds) == "■ <"@ + decimal(
            thresholds.red_hours as nat,
        ) + "h (Reciente)"@,
        age == Age::Medium ==> age_text(age, thresholds) == "■ <"@ + decimal(
            thresholds.yellow_hours as nat,
        ) + "h (Medio)"@,
        age == Age::Stable ==> age_text(age, thresholds) == "■ <"@ + decimal(
            thresholds.green_days as nat,
        ) + "d (Estable)"@,
        age == Age::Old ==> age_text(age, thresholds) == "■ Antiguo"@,
{
}

/// The border of a card shows the first of these that holds: the card is
/// dropped on, open, focused, selected, left out by the filter, or found by it.
/// A card with none of them has the border of its own colours.
pub proof fn law_card_border(colors: CardColors, state: CardState)
    ensures
        ({
            let look = card_look_of(colors, state);
            let blue = Paint::Solid(Color { r: 37, g: 99, b: 235, a: 255 });
            let red = Paint::Solid(Color { r: 239, g: 68, b: 68, a: 255 });
            let amber = Paint::Solid(Color { r: 245, g: 158, b: 11, a: 255 });
            let none = Paint::Solid(Color { r: 0, g: 0, b: 0, a: 0 });
            let marked = state.is_drop_target || state.is_open || state.is_focused
                || state.is_selected;
            &&& state.is_drop_target ==> look.border == blue && look.border_width == 9
            &&& !state.is_drop_target && state.is_open ==> look.border == red && look.border_width
                == 7
            &&& !state.is_drop_target && !state.is_open && state.is_focused ==> look.border == blue
                && look.border_width == 7
            &&& !state.is_drop_target && !state.is_open && !state.is_focused && state.is_selected
                ==> look.border == red && look.border_width == 6
            &&& !marked && state.has_filter && !state.is_match ==> look.border == none
                && look.border_width == 0
            &&& !marked && state.has_filter && state.is_match ==> look.border == amber
                && look.border_width == 6
            &&& !marked && !state.has_filter ==> look.border == colors.border && look.border_width
                == 4
        }),
{
}

/// A card that the filter leaves out is dimmed and casts no shadow; a card that
/// is dropped on is lit up, and all others have their own colours.
pub proof fn law_card_fill(colors: CardColors, state: CardState)
    ensures
        ({
            let look = card_look_of(colors, state);
            let left_out = state.has_filter && !state.is_match;
            &&& state.is_drop_target ==> look.fill == Paint::Solid(
                Color { r: 219, g: 234, b: 254, a: 255 },
            )
            &&& state.is_drop_target ==> look.text == (Color { r: 37, g: 99, b: 235, a: 255 })
            &&& !state.is_drop_target ==> look.fill == colors.fill && look.text == colors.text
            &&& look.header == colors.border
            &&& look.fill_dimmed <==> left_out && !state.is_drop_target
            &&& look.text_dimmed <==> left_out && !state.is_drop_target
            &&& look.header_dimmed <==> left_out
            &&& look.shadow <==> !left_out
        }),
{
}

/// The text on a card begins with the node's icon, has a flame where the file
/// is open, and goes on with the name: whole where it is a folder that hides
/// more than four children, which are counted on a second line, or where it
/// takes no more than sixteen bytes, and cut after thirteen bytes otherwise.
pub proof fn law_card_text(node: NodeView, root: usize, zoomed_in: bool, is_open: bool)
    ensures
        ({
            let hides = node.is_dir && node.children.len() > 4 && node.id != root && !zoomed_in;
            let mark = if is_open {
                node_icon(node) + " 🔥"@ + " "@
            } else {
                node_icon(node) + " "@
            };
            let text = card_text(node, root, zoomed_in, is_open);
            &&& hides ==> text == mark + node.name + "\n📁 +"@ + decimal(node.children.len())
                + " archivos (Haz clic para explorar)"@
            &&& !hides && encode_utf8(node.name).len() <= 16 ==> text == mark + node.name
            &&& !hides && encode_utf8(node.name).len() > 16 ==> text == mark + decode_utf8(
                encode_utf8(node.name).subrange(0, 13),
            ) + "..."@
        }),
{
    assert(node_icon(node) + Seq::empty() =~= node_icon(node));
}

/// Every name of ASCII characters can be put on a card.
pub proof fn law_ascii_names_can_be_labelled(node: NodeView, root: usize, zoomed_in: bool)
    requires
        is_ascii_chars(node.name),
    ensures
        can_be_labelled(node, root, zoomed_in),
{
    let bytes = encode_utf8(node.name);
    encode_utf8_valid_utf8(node.name);
    is_ascii_chars_encode_utf8(node.name);
    if bytes.len() > 16 {
        is_char_boundary_iff_is_leading_byte(bytes, 13);
    }
}

} // verus!
