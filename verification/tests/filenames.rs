use fontgarden::filenames::{
    default_file_name_for_glyph_name, default_file_name_for_layer_name, user_name_to_file_name,
};
use fontgarden::name_set::NameSet;

fn glif(name: &str) -> String {
    default_file_name_for_glyph_name(name, &NameSet::new()).unwrap()
}

#[test]
fn glyph_names_become_file_names() {
    assert_eq!(glif("a"), "a.glif");
    assert_eq!(glif("A"), "A_.glif");
    assert_eq!(glif("Aacute"), "A_acute.glif");
    assert_eq!(glif(".notdef"), "_notdef.glif");
    assert_eq!(glif("a.alt"), "a.alt.glif");
    assert_eq!(glif("T_H"), "T__H_.glif");
    assert_eq!(glif("a*b"), "a_b.glif");
    assert_eq!(glif("con"), "_con.glif");
    assert_eq!(glif("con.alt"), "_con.alt.glif");
    assert_eq!(glif("com10"), "com10.glif");
}

#[test]
fn layer_names_become_directory_names() {
    let none = NameSet::new();
    assert_eq!(default_file_name_for_layer_name("foreground", &none).unwrap(), "glyphs.foreground");
    assert_eq!(default_file_name_for_layer_name("Sketches", &none).unwrap(), "glyphs.S_ketches");
    assert_eq!(default_file_name_for_layer_name(".hidden", &none).unwrap(), "glyphs..hidden");
    assert_eq!(default_file_name_for_layer_name("alt. ", &none).unwrap(), "glyphs.alt__");
}

#[test]
fn a_taken_name_gets_a_counter() {
    let mut existing = NameSet::new();
    existing.insert("a_.glif".to_string());
    assert_eq!(default_file_name_for_glyph_name("A", &existing).unwrap(), "A_01.glif");
}

#[test]
fn ninety_nine_counters_and_no_more() {
    let mut existing = NameSet::new();
    existing.insert("a_.glif".to_string());
    let mut seen = Vec::new();
    for _ in 0..99 {
        let name = default_file_name_for_glyph_name("A", &existing).unwrap();
        assert!(!seen.contains(&name));
        assert!(!existing.contains(&name.to_lowercase()));
        existing.insert(name.to_lowercase());
        seen.push(name);
    }
    assert_eq!(seen.len(), 99);
    assert_eq!(seen[0], "A_01.glif");
    assert_eq!(seen[98], "A_99.glif");
    assert_eq!(default_file_name_for_glyph_name("A", &existing), None);
}

#[test]
fn long_names_are_clipped() {
    let long = "a".repeat(300);
    let name = glif(&long);
    assert_eq!(name.len(), 255);
    assert!(name.ends_with(".glif"));
    let wide = "\u{00e9}".repeat(200);
    let name = user_name_to_file_name(&wide, "", "", &NameSet::new()).unwrap();
    assert_eq!(name.len(), 254);
    assert_eq!(name.chars().count(), 127);
}

#[test]
fn same_names_as_the_font_object_library() {
    for name in ["a", "A", "Aacute", ".notdef", "a.alt", "con", "aux.alt", "T_H", "a:b", "alt. ", "\u{00c4}"] {
        for (prefix, suffix) in [("", ".glif"), ("glyphs.", ""), ("", "")] {
            let ours = user_name_to_file_name(name, prefix, suffix, &NameSet::new()).unwrap();
            let theirs = norad::user_name_to_file_name(name, prefix, suffix, |_| true);
            assert_eq!(ours, theirs.to_string_lossy());
        }
    }
}
