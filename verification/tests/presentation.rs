use merkle_audit::cards::{
    age_label, card_label, card_look, colors_for_extension, fits_label, get_extension_card_colors, get_file_icon,
    get_node_age_card_colors, rgb, solid, Age, AgeThresholds, CardState, Color, Paint,
};
use merkle_audit::filter::{has_active_filter, matches_filter, DEFAULT_MAX_SIZE};
use merkle_audit::node::Node;
use merkle_audit::paths::{extension, extension_of_name};

fn file(path: &str) -> Node {
    Node {
        id: 3,
        name: path.rsplit('/').next().unwrap_or("").to_string(),
        path: path.to_string(),
        hash_hex: "ABCDEF0123".to_string(),
        children: vec![],
        parent: Some(0),
        modified_timestamp: 1_000_000,
        size_bytes: 10,
        is_dir: false,
        source: 0,
    }
}

fn folder(path: &str, children: usize) -> Node {
    let mut node = file(path);
    node.is_dir = true;
    node.children = (4..4 + children).collect();
    node
}

#[test]
fn icons_follow_the_extension() {
    assert_eq!(get_file_icon(&folder("/d/photos.png", 0)), "📁");
    assert_eq!(get_file_icon(&file("/d/a.PDF")), "📕");
    assert_eq!(get_file_icon(&file("/d/notes.md")), "📝");
    assert_eq!(get_file_icon(&file("/d/main.rs")), "💻");
    assert_eq!(get_file_icon(&file("/d/x.JpEg")), "🖼️");
    assert_eq!(get_file_icon(&file("/d/x.tar.gz")), "📦");
    assert_eq!(get_file_icon(&file("/d/x.bz2")), "📦");
    assert_eq!(get_file_icon(&file("/d/x.ogg")), "🎵");
    assert_eq!(get_file_icon(&file("/d/x.webm")), "🎬");
    assert_eq!(get_file_icon(&file("/d/run.sh")), "⚙️");
    assert_eq!(get_file_icon(&file("/d/plan.dwg")), "📄");
    assert_eq!(get_file_icon(&file("/d/README")), "📄");
}

#[test]
fn dot_files_have_no_extension() {
    assert_eq!(get_file_icon(&file("/d/.rs")), "📄");
    assert_eq!(get_file_icon(&file("/d/.config.rs")), "💻");
    assert_eq!(get_file_icon(&file("/d/rs")), "📄");
    assert_eq!(get_file_icon(&file("/d/file.")), "📄");
    assert_eq!(get_file_icon(&file("/dir.rs/..")), "📄");
}

#[test]
fn extensions_are_those_of_paths() {
    for name in ["a.txt", ".hidden", ".hidden.rs", "none", "two.parts.gz", "end.", "ä.é", "a..b"] {
        let path = format!("/d.x/{}", name);
        let std_extension = std::path::Path::new(&path).extension();
        let expected = std_extension.map(|e| e.to_string_lossy().to_string());
        assert_eq!(extension_of_name(name), expected);
        assert_eq!(extension(&path), expected.unwrap_or_default());
    }
    assert_eq!(extension("/d.x/.."), "");
    assert_eq!(extension("/"), "");
}

#[test]
fn types_have_their_colours() {
    let white = rgb(255, 255, 255);
    assert_eq!(
        get_extension_card_colors(&folder("/d", 2), false),
        solid(rgb(254, 243, 199), rgb(217, 119, 6), rgb(120, 53, 15))
    );
    assert_eq!(
        get_extension_card_colors(&folder("/d", 2), true),
        solid(rgb(45, 32, 10), rgb(245, 158, 11), rgb(254, 243, 199))
    );
    assert_eq!(
        get_extension_card_colors(&file("/d/a.Pdf"), true),
        solid(rgb(60, 20, 20), rgb(239, 68, 68), white)
    );
    assert_eq!(
        colors_for_extension("toml", false),
        solid(rgb(209, 250, 229), rgb(5, 150, 105), rgb(6, 78, 59))
    );
    assert_eq!(
        colors_for_extension("webp", true),
        solid(rgb(15, 35, 60), rgb(14, 165, 233), white)
    );
    assert_eq!(colors_for_extension("mp3", false), colors_for_extension("mkv", false));
    assert_eq!(
        colors_for_extension("mp3", false),
        solid(rgb(252, 231, 243), rgb(219, 39, 119), rgb(131, 24, 67))
    );
    assert_eq!(
        colors_for_extension("dxf", false),
        solid(rgb(224, 231, 255), rgb(79, 70, 229), rgb(49, 46, 129))
    );
    assert_eq!(
        colors_for_extension("7z", true),
        solid(rgb(55, 30, 15), rgb(249, 115, 22), white)
    );
}

#[test]
fn other_extensions_get_a_hue() {
    // 5381 % 360
    let none = colors_for_extension("", false);
    assert_eq!(none.fill, Paint::Hue { degrees: 341, saturation: 20, value: 95 });
    assert_eq!(none.border, Paint::Hue { degrees: 341, saturation: 75, value: 60 });
    assert_eq!(none.text, rgb(15, 23, 42));
    // (5381 * 33 + 97) % 360
    let a = colors_for_extension("a", true);
    assert_eq!(a.fill, Paint::Hue { degrees: 190, saturation: 45, value: 25 });
    assert_eq!(a.border, Paint::Hue { degrees: 190, saturation: 75, value: 85 });
    assert_eq!(a.text, rgb(255, 255, 255));
}

#[test]
fn hash_of_a_long_extension_wraps() {
    let text = "an-extension-that-wraps";
    let mut hash: u32 = 5381;
    for b in text.bytes() {
        hash = ((hash << 5).wrapping_add(hash)).wrapping_add(b as u32);
    }
    assert_eq!(
        colors_for_extension(text, false).fill,
        Paint::Hue { degrees: hash % 360, saturation: 20, value: 95 }
    );
}

#[test]
fn ages_have_their_colours() {
    let thresholds = AgeThresholds { red_hours: 1, yellow_hours: 12, green_days: 7 };
    let node = file("/d/a");
    let after = |seconds: u64, dark: bool| {
        get_node_age_card_colors(&node, 1_000_000 + seconds, &thresholds, dark)
    };
    let recent = solid(rgb(254, 226, 226), rgb(239, 68, 68), rgb(185, 28, 28));
    let medium = solid(rgb(254, 243, 199), rgb(245, 158, 11), rgb(180, 83, 9));
    let stable = solid(rgb(209, 250, 229), rgb(16, 185, 129), rgb(4, 120, 87));
    let old = solid(rgb(241, 245, 249), rgb(148, 163, 184), rgb(71, 85, 105));
    assert_eq!(after(0, false), recent);
    assert_eq!(after(3600, false), recent);
    assert_eq!(after(3601, false), medium);
    assert_eq!(after(43_200, false), medium);
    assert_eq!(after(43_201, false), stable);
    assert_eq!(after(604_800, false), stable);
    assert_eq!(after(604_801, false), old);
    assert_eq!(after(0, true), solid(rgb(69, 10, 10), rgb(239, 68, 68), rgb(254, 202, 202)));
    assert_eq!(
        after(604_801, true),
        solid(rgb(30, 41, 59), rgb(100, 116, 139), rgb(203, 213, 225))
    );
    assert_eq!(get_node_age_card_colors(&node, 5, &thresholds, false), recent);
}

#[test]
fn legend_describes_the_ages() {
    let thresholds = AgeThresholds { red_hours: 1, yellow_hours: 12, green_days: 365 };
    assert_eq!(age_label(Age::Recent, &thresholds), "■ <1h (Reciente)");
    assert_eq!(age_label(Age::Medium, &thresholds), "■ <12h (Medio)");
    assert_eq!(age_label(Age::Stable, &thresholds), "■ <365d (Estable)");
    assert_eq!(age_label(Age::Old, &thresholds), "■ Antiguo");
}

fn plain() -> CardState {
    CardState {
        is_drop_target: false,
        is_open: false,
        is_focused: false,
        is_selected: false,
        is_match: true,
        has_filter: false,
    }
}

#[test]
fn highlights_have_an_order() {
    let colors = colors_for_extension("rs", false);
    let blue = Paint::Solid(rgb(37, 99, 235));
    let red = Paint::Solid(rgb(239, 68, 68));

    let look = card_look(colors, plain());
    assert_eq!((look.border, look.border_width), (colors.border, 4));
    assert_eq!(look.fill, colors.fill);
    assert!(look.shadow && !look.fill_dimmed && !look.text_dimmed && !look.header_dimmed);

    let mut state = plain();
    state.has_filter = true;
    let look = card_look(colors, state);
    assert_eq!((look.border, look.border_width), (Paint::Solid(rgb(245, 158, 11)), 6));

    state.is_match = false;
    let look = card_look(colors, state);
    assert_eq!(look.border, Paint::Solid(Color { r: 0, g: 0, b: 0, a: 0 }));
    assert_eq!(look.border_width, 0);
    assert!(!look.shadow && look.fill_dimmed && look.text_dimmed && look.header_dimmed);

    state.is_selected = true;
    assert_eq!((card_look(colors, state).border, card_look(colors, state).border_width), (red, 6));
    state.is_focused = true;
    assert_eq!((card_look(colors, state).border, card_look(colors, state).border_width), (blue, 7));
    state.is_open = true;
    assert_eq!((card_look(colors, state).border, card_look(colors, state).border_width), (red, 7));

    state.is_drop_target = true;
    let look = card_look(colors, state);
    assert_eq!((look.border, look.border_width), (blue, 9));
    assert_eq!(look.fill, Paint::Solid(rgb(219, 234, 254)));
    assert_eq!(look.text, rgb(37, 99, 235));
    assert!(!look.fill_dimmed && !look.text_dimmed && look.header_dimmed);
}

#[test]
fn labels_say_what_the_card_is() {
    assert_eq!(card_label(&file("/d/main.rs"), 0, false, false), "💻 main.rs");
    assert_eq!(card_label(&file("/d/main.rs"), 0, false, true), "💻 🔥 main.rs");
}

#[test]
fn long_names_are_cut() {
    assert_eq!(card_label(&file("/d/sixteen_chars.rs"), 0, false, false), "💻 sixteen_chars.rs");
    assert_eq!(
        card_label(&file("/d/a-seventeen-ch.rs"), 0, false, false),
        "💻 a-seventeen-c..."
    );
}

#[test]
fn names_are_cut_between_characters() {
    assert!(fits_label(&file("/d/a-seventeen-ch.rs"), 0, false));
    assert!(!fits_label(&file("/d/abcdefghijklé-more.rs"), 0, false));
    assert!(fits_label(&file("/d/abcdefghijklé"), 0, false));
    assert!(fits_label(&folder("/d/abcdefghijklé-more.rs", 5), 0, false));
}

#[test]
fn hidden_children_are_counted() {
    let crowded = folder("/d/src", 12);
    assert_eq!(
        card_label(&crowded, 0, false, false),
        "📁 src\n📁 +12 archivos (Haz clic para explorar)"
    );
    assert_eq!(card_label(&crowded, 0, true, false), "📁 src");
    assert_eq!(card_label(&crowded, 3, false, false), "📁 src");
    assert_eq!(card_label(&folder("/d/src", 4), 0, false, false), "📁 src");
}

#[test]
fn search_looks_into_names_and_hashes() {
    let node = file("/d/Informe Anual.pdf");
    assert!(matches_filter(&node, "", "", DEFAULT_MAX_SIZE));
    assert!(matches_filter(&node, "ANUAL", "", DEFAULT_MAX_SIZE));
    assert!(matches_filter(&node, "cdef", "", DEFAULT_MAX_SIZE));
    assert!(!matches_filter(&node, "mensual", "", DEFAULT_MAX_SIZE));
}

#[test]
fn search_lowers_letters_beyond_ascii() {
    assert!(matches_filter(&file("/d/AÑO.txt"), "año", "", DEFAULT_MAX_SIZE));
    assert!(matches_filter(&file("/d/ÉTÉ.txt"), "Été", "", DEFAULT_MAX_SIZE));
}

#[test]
fn type_is_asked_of_files_only() {
    let node = file("/d/a.PDF");
    assert!(matches_filter(&node, "", "pdf", DEFAULT_MAX_SIZE));
    assert!(matches_filter(&node, "", "..Pdf", DEFAULT_MAX_SIZE));
    assert!(!matches_filter(&node, "", "pd", DEFAULT_MAX_SIZE));
    assert!(!matches_filter(&node, "", "rs", DEFAULT_MAX_SIZE));
    assert!(matches_filter(&folder("/d/src", 0), "", "pdf", DEFAULT_MAX_SIZE));
    assert!(matches_filter(&file("/d/none"), "", ".", DEFAULT_MAX_SIZE));
}

#[test]
fn size_limit_is_that_of_rounded_megabytes() {
    let mut node = file("/d/a.iso");
    for size in 524_287_990u64..524_288_050 {
        node.size_bytes = size;
        let size_mb = size as f32 / (1024.0_f32 * 1024.0_f32);
        assert_eq!(matches_filter(&node, "", "", DEFAULT_MAX_SIZE), !(size_mb > 500.0_f32));
    }
    let mut dir = folder("/d/big", 0);
    dir.size_bytes = u64::MAX;
    assert!(matches_filter(&dir, "", "", DEFAULT_MAX_SIZE));
}

#[test]
fn filter_is_active_with_a_search_or_a_type() {
    assert!(!has_active_filter("", ""));
    assert!(has_active_filter("a", ""));
    assert!(has_active_filter("", "rs"));
}
