use steamclipconverter::appid::AppId;
use steamclipconverter::identity::resolve_app_name;
use steamclipconverter::naming::{compose_file_name, display_name, output_file_name};

#[test]
fn file_name_without_a_resolved_name() {
    let name = display_name(None, &AppId::from_u64(570));
    assert_eq!(name, "570");
    assert_eq!(output_file_name(&name, "20250101", "000000"), "570-20250101-000000.mp4");
}

#[test]
fn file_name_with_a_resolved_name() {
    let manifest = "\"AppState\"\n{\n\t\"appid\"\t\"570\"\n\t\"name\"\t\"Example Game\"\n}\n";
    let resolved = resolve_app_name(&vec![Some(manifest.to_string())]);
    let name = display_name(resolved, &AppId::from_u64(570));
    assert_eq!(name, "Example Game");
    assert_eq!(output_file_name(&name, "20250101", "000000"), "Example Game-20250101-000000.mp4");
}

#[test]
fn display_name_falls_back_to_the_identifier() {
    assert_eq!(display_name(None, &AppId::from_u64(0)), "0");
    assert_eq!(display_name(None, &AppId::from_u64(4294967296)), "4294967296");
    assert_eq!(display_name(Some("".to_string()), &AppId::from_u64(7)), "");
    assert_eq!(display_name(Some("Rim World".to_string()), &AppId::from_u64(294100)), "Rim World");
}

#[test]
fn file_name_has_unsafe_characters_taken_out() {
    assert_eq!(
        output_file_name("A/B\\C:D*E?F\"G<H>I|J", "20250101", "000000"),
        "ABCDEFGHIJ-20250101-000000.mp4"
    );
    assert_eq!(output_file_name("x\u{0}y\u{1f}z\u{80}w\u{9f}", "20250101", "000000"), "xyzw-20250101-000000.mp4");
    assert_eq!(output_file_name("../../etc", "20250101", "000000"), "....etc-20250101-000000.mp4");
}

#[test]
fn file_name_stem_may_be_empty() {
    assert_eq!(output_file_name("", "20250101", "000000"), "-20250101-000000.mp4");
    assert_eq!(output_file_name("..", "20250101", "000000"), "-20250101-000000.mp4");
    assert_eq!(output_file_name("///", "20250101", "000000"), "-20250101-000000.mp4");
}

#[test]
fn file_name_stem_is_cut_at_255_bytes() {
    let long = "a".repeat(300);
    assert_eq!(
        output_file_name(&long, "20250101", "000000"),
        format!("{}-20250101-000000.mp4", "a".repeat(255))
    );
    let wide = "\u{e9}".repeat(200);
    assert_eq!(
        output_file_name(&wide, "20250101", "000000"),
        format!("{}-20250101-000000.mp4", "\u{e9}".repeat(127))
    );
}

#[test]
fn compose_puts_the_parts_together() {
    assert_eq!(compose_file_name("Game", "20250828", "124021"), "Game-20250828-124021.mp4");
    assert_eq!(compose_file_name("", "", ""), "--.mp4");
}

#[test]
fn file_name_keeps_a_plain_name_whole() {
    let long = "Portal ".repeat(36);
    for name in ["570", "Example Game", "x", "Half-Life 2", "Dota 2 (beta)", "r\u{e9}sum\u{e9}", long.trim_end()] {
        assert_eq!(
            output_file_name(name, "20250101", "000000"),
            format!("{}-20250101-000000.mp4", name)
        );
    }
}

#[test]
fn file_name_stem_begins_what_is_left_of_the_name() {
    for name in ["a/b:c", "..", "trailing. ", "x\ny", "a".repeat(400).as_str(), "nul", "COM1.txt"] {
        let left: String = name
            .chars()
            .filter(|c| !"/?<>\\:*|\"".contains(*c) && !(*c <= '\u{1f}') && !('\u{80}'..='\u{9f}').contains(c))
            .collect();
        let got = output_file_name(name, "20250101", "000000");
        let stem = got.strip_suffix("-20250101-000000.mp4").unwrap();
        assert!(left.starts_with(stem), "{:?} {:?}", name, stem);
        assert!(stem.len() <= 255);
    }
}
