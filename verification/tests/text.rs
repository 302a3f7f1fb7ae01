use talkdedsec_visual::text::{is_white_space, same_text, trim};

#[test]
fn trim_removes_whitespace_at_both_ends_only() {
    assert_eq!(trim("  dusk  "), "dusk");
    assert_eq!(trim("\tlate  night\n"), "late  night");
    assert_eq!(trim("\u{A0}gece\u{3000}"), "gece");
    assert_eq!(trim("   "), "");
    assert_eq!(trim(""), "");
    assert_eq!(trim("x"), "x");
    assert_eq!(trim("Gece Görüşü"), "Gece Görüşü");
}

#[test]
fn same_text_compares_characters() {
    assert!(same_text("F9", "F9"));
    assert!(!same_text("F9", "F10"));
    assert!(!same_text("F1", "F10"));
    assert!(same_text("", ""));
    assert!(!same_text("Sıcak", "Sicak"));
}

#[test]
fn trimming_twice_changes_nothing_more() {
    for s in ["  a b  ", "\n\t", "x", " \u{A0}y\u{A0} ", ""] {
        let once = trim(s);
        assert_eq!(trim(&once), once);
    }
}

#[test]
fn trim_follows_the_unicode_white_space_list() {
    assert_eq!(trim("\u{85}x\u{2028}"), "x");
    assert_eq!(trim("\u{1680}\u{2000}\u{200A}y\u{202F}\u{205F}\u{3000}\u{2029}"), "y");
    assert_eq!(trim("\u{0B}\u{0C}\r z"), "z");
    assert_eq!(trim("\u{200B}a\u{200B}"), "\u{200B}a\u{200B}");
    assert_eq!(trim("\u{FEFF}b"), "\u{FEFF}b");
}

#[test]
fn white_space_agrees_with_std() {
    for u in 0u32..0x11000 {
        if let Some(c) = char::from_u32(u) {
            assert_eq!(is_white_space(c), c.is_whitespace(), "U+{:04X}", u);
        }
    }
}
