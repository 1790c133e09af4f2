use fontgarden::document::{extract_glyph_data, guess_source_name, FontDocument};
use fontgarden::errors::{LoadError, LoadSetError, LoadSourceError};
use fontgarden::metadata::OpenTypeCategory;
use fontgarden::model::{Fontgarden, GlyphSet, Layer, Source};
use fontgarden::name_map::NameMap;
use fontgarden::name_set::NameSet;

fn names(list: &[&str]) -> NameSet {
    NameSet::from_names(&list.iter().map(|n| n.to_string()).collect())
}

fn outline(name: &str, components: &[&str], codepoints: &[char]) -> norad::Glyph {
    let mut glyph = norad::Glyph::new(name);
    glyph.width = 500.0;
    glyph.codepoints = norad::Codepoints::new(codepoints.iter().copied());
    for base in components {
        glyph.components.push(norad::Component::new(
            norad::Name::new(base).unwrap(),
            norad::AffineTransform::default(),
            None,
        ));
    }
    glyph
}

/// A small font in the shape of the MutatorSans masters: a default layer
/// `foreground` with letters, accents, punctuation and an arrow, and one
/// more layer.
fn master(style: &str, width: f64, second_layer: &str, second_glyphs: &[&str]) -> norad::Font {
    let mut font = norad::Font::new();
    font.font_info.style_name = Some(style.to_string());
    font.layers.rename_layer("public.default", "foreground", false).unwrap();
    let drawn: Vec<norad::Glyph> = vec![
        outline("A", &[], &['A']),
        outline("Aacute", &["A", "acute"], &['\u{c1}']),
        outline("Adieresis", &["A", "dieresis"], &['\u{c4}']),
        outline("B", &[], &['B']),
        outline("Omega", &[], &['\u{3a9}', '\u{2126}']),
        outline("S", &[], &['S']),
        outline("acute", &[], &['\u{b4}']),
        outline("dieresis", &[], &['\u{a8}']),
        outline("arrowleft", &[], &['\u{2190}']),
        outline("comma", &[], &[',']),
        outline("period", &[], &['.']),
        outline("semicolon", &["period", "comma"], &[';']),
        outline("quotedblbase", &["comma", "comma"], &['\u{201e}']),
        outline("quotedblleft", &["comma", "comma"], &['\u{201c}']),
    ];
    for mut glyph in drawn {
        glyph.width = width;
        font.default_layer_mut().insert_glyph(glyph);
    }
    font.get_glyph_mut("S").unwrap().lib.insert("public.markColor".into(), "1,0,0,1".into());
    let layer = font.layers.new_layer(second_layer).unwrap();
    for name in second_glyphs {
        let mut glyph = outline(name, &[], &[]);
        glyph.width = width + 10.0;
        layer.insert_glyph(glyph);
    }
    let mut table = norad::Plist::new();
    table.insert("Aacute".into(), "Aacute.prod".into());
    font.lib.insert("public.postscriptNames".into(), plist::Value::Dictionary(table));
    let mut categories = norad::Plist::new();
    categories.insert("acute".into(), "Mark".into());
    categories.insert("A".into(), "Base".into());
    font.lib.insert("public.openTypeCategories".into(), plist::Value::Dictionary(categories));
    font.lib.insert("public.skipExportGlyphs".into(), plist::Value::Array(vec!["dieresis".into()]));
    font
}

fn light_wide() -> norad::Font {
    master("LightWide", 700.0, "background", &["S"])
}

fn light_condensed() -> norad::Font {
    master("LightCondensed", 400.0, "support", &["A"])
}

fn reload(garden: &Fontgarden) -> Fontgarden {
    Fontgarden::from_path(Some(garden.save().unwrap())).unwrap()
}

fn glyphs_of_fontgarden(garden: &Fontgarden) -> Vec<(String, String, String, Vec<String>)> {
    let mut contents = Vec::new();
    for s in 0..garden.sets.len() {
        let set = garden.sets.value_at(s);
        for o in 0..set.sources.len() {
            let source = set.sources.value_at(o);
            for l in 0..source.layers.len() {
                contents.push((
                    garden.sets.key_at(s).clone(),
                    set.sources.key_at(o).clone(),
                    source.layers.key_at(l).clone(),
                    source.layers.value_at(l).glyphs.key_set().to_vec(),
                ));
            }
        }
    }
    contents
}

fn row(set: &str, source: &str, layer: &str, glyphs: &[&str]) -> (String, String, String, Vec<String>) {
    (
        set.to_string(),
        source.to_string(),
        layer.to_string(),
        glyphs.iter().map(|g| g.to_string()).collect(),
    )
}

fn assert_font_eq(reference: &norad::Font, other: &norad::Font) {
    for reference_layer in reference.layers.iter() {
        let other_layer = other.layers.get(reference_layer.name()).unwrap();
        assert_eq!(reference_layer.len(), other_layer.len());
        for glyph in reference_layer.iter() {
            assert_eq!(glyph, other_layer.get_glyph(glyph.name()).unwrap());
        }
    }
}

fn assert_defaults(garden: &Fontgarden) {
    for s in 0..garden.sets.len() {
        let set = garden.sets.value_at(s);
        for o in 0..set.sources.len() {
            let source = set.sources.value_at(o);
            let mut defaults = 0;
            for l in 0..source.layers.len() {
                if source.layers.key_at(l) == "foreground" {
                    assert!(source.layers.value_at(l).default);
                } else {
                    assert!(!source.layers.value_at(l).default);
                }
                if source.layers.value_at(l).default {
                    defaults += 1;
                }
            }
            assert_eq!(defaults, 1);
        }
    }
}

fn assert_disjoint(garden: &Fontgarden) {
    for a in 0..garden.sets.len() {
        for b in 0..garden.sets.len() {
            if a != b {
                let both = garden
                    .sets
                    .value_at(a)
                    .glyph_coverage()
                    .intersection(&garden.sets.value_at(b).glyph_coverage());
                assert!(both.is_empty());
            }
        }
    }
}

#[test]
fn lib_load_empty() {
    let fontgarden = Fontgarden::new();
    let fontgarden2 = reload(&fontgarden);
    assert_eq!(fontgarden, fontgarden2);
}

#[test]
fn structs_load_empty() {
    let fontgarden = Fontgarden::new();
    let stored = fontgarden.save().unwrap();
    assert!(stored.is_empty());
    let fontgarden2 = Fontgarden::from_path(Some(stored)).unwrap();
    assert_eq!(fontgarden, fontgarden2);
}

#[test]
fn mod_load_empty() {
    let fontgarden = Fontgarden::default();
    let fontgarden2 = reload(&fontgarden);
    assert_eq!(fontgarden, fontgarden2);
    assert_eq!(fontgarden2.sets.len(), 0);
}

#[test]
fn it_works() {
    let latin_glyphs = names(&["A", "B", "Adieresis", "Omega"]);
    let mut sources = NameMap::new();
    for (font, source_name) in [(light_wide(), "Light"), (light_condensed(), "Bold")] {
        let mut layers = NameMap::new();
        for layer in font.iter_layers() {
            let mut our_layer = Layer::from_ufo_layer(layer.iter().cloned().collect(), &latin_glyphs);
            if !our_layer.glyphs.is_empty() {
                our_layer.default = layer.name() == font.default_layer().name();
                layers.insert(layer.name().to_string(), our_layer);
            }
        }
        sources.insert(source_name.to_string(), Source { layers });
    }
    let latin_glyph_data = extract_glyph_data(&FontDocument::from_font(&light_wide()), &latin_glyphs);
    assert_eq!(latin_glyph_data.len(), 4);
    assert_eq!(latin_glyph_data.get("Omega").unwrap().codepoints, vec!['\u{3a9}', '\u{2126}']);
    assert_eq!(latin_glyph_data.get("A").unwrap().opentype_category, OpenTypeCategory::Base);
    let latin_set = GlyphSet { glyph_data: latin_glyph_data, sources };
    let mut sets = NameMap::new();
    sets.insert("Latin".to_string(), latin_set);
    let fontgarden = Fontgarden { sets };

    let fontgarden2 = reload(&fontgarden);
    assert_eq!(fontgarden, fontgarden2);
    assert_eq!(
        glyphs_of_fontgarden(&fontgarden2),
        vec![
            row("Latin", "Bold", "foreground", &["A", "Adieresis", "B", "Omega"]),
            row("Latin", "Bold", "support", &["A"]),
            row("Latin", "Light", "foreground", &["A", "Adieresis", "B", "Omega"]),
        ]
    );
}

#[test]
fn save_load() {
    let mut fontgarden = Fontgarden::new();
    let fonts = [light_wide(), light_condensed()];
    let sets = vec![
        ("Latin", names(&["A", "Aacute", "S"])),
        ("Arrows", names(&["quotedblbase", "quotedblleft", "comma"])),
        ("Punctuation", names(&["arrowleft"])),
        ("default", names(&["acute"])),
    ];
    for font in &fonts {
        let source_name = guess_source_name(font).unwrap();
        for (set_name, set_glyphs) in &sets {
            fontgarden.import(font, set_glyphs, set_name, &source_name).unwrap();
        }
    }
    assert_defaults(&fontgarden);
    assert_disjoint(&fontgarden);

    let fontgarden2 = reload(&fontgarden);
    assert_eq!(fontgarden, fontgarden2);
    assert_eq!(
        fontgarden.sets.key_set().to_vec(),
        vec!["Arrows".to_string(), "Latin".to_string(), "Punctuation".to_string()]
    );
}

#[test]
fn roundtrip_mutatorsans() {
    let mut fontgarden = Fontgarden::new();
    let sets = vec![
        ("Latin", names(&["A", "Aacute", "S"])),
        ("Arrows", names(&["arrowleft"])),
        ("Punctuation", names(&["quotedblbase", "quotedblleft", "comma"])),
        ("default", names(&["acute"])),
    ];
    for font in [light_wide(), light_condensed()] {
        let source_name = font.font_info.style_name.clone().unwrap();
        for (set_name, set_glyphs) in &sets {
            fontgarden.import(&font, set_glyphs, set_name, &source_name).unwrap();
        }
    }
    let fontgarden2 = reload(&fontgarden);
    assert_defaults(&fontgarden);
    assert_eq!(fontgarden, fontgarden2);
}

#[test]
fn export_import() {
    let mut fontgarden = Fontgarden::new();
    let fonts = [light_wide(), light_condensed()];
    let all_glyphs = NameSet::from_names(&fonts[0].iter_names().map(|n| n.to_string()).collect());
    let latin_glyphs = names(&["A", "Aacute", "S"]);
    let default_glyphs = all_glyphs.difference(&latin_glyphs);
    let sets = vec![("Latin", latin_glyphs), ("default", default_glyphs)];

    let mut source_names = NameSet::new();
    for font in &fonts {
        let source_name = guess_source_name(font).unwrap();
        source_names.insert(source_name.clone());
        for (set_name, set_glyphs) in &sets {
            fontgarden.import(font, set_glyphs, set_name, &source_name).unwrap();
        }
    }

    let roundtripped_ufos = fontgarden.export(&all_glyphs, &source_names).unwrap();
    assert_eq!(roundtripped_ufos.len(), 2);
    assert_eq!(roundtripped_ufos[0].name, "LightCondensed");
    assert_eq!(roundtripped_ufos[1].name, "LightWide");
    assert_font_eq(&fonts[0], &roundtripped_ufos[1].font);
    assert_font_eq(&fonts[1], &roundtripped_ufos[0].font);
}

#[test]
fn roundtrip_mutatorsans_export_import() {
    let mut fontgarden = Fontgarden::new();
    let mut ufo_lightwide = light_wide();
    let mut ufo_lightcond = light_condensed();
    for ufo in [&mut ufo_lightwide, &mut ufo_lightcond] {
        ufo.get_glyph_mut("A").unwrap().lib.insert("public.markColor".into(), "0.5,0.25,0,1".into());
    }
    let latin_set = names(&["A", "Aacute", "S"]);
    let mut glyph_names = NameSet::new();
    let mut source_names = NameSet::new();
    for font in [&ufo_lightwide, &ufo_lightcond] {
        let source_name = font.font_info.style_name.clone().unwrap();
        let all = NameSet::from_names(&font.iter_names().map(|n| n.to_string()).collect());
        glyph_names.extend(&all);
        source_names.insert(source_name.clone());
        fontgarden.import(font, &latin_set, "Latin", &source_name).unwrap();
        fontgarden.import(font, &all.difference(&latin_set), "default", &source_name).unwrap();
    }
    let roundtripped_ufos = fontgarden.export(&glyph_names, &source_names).unwrap();
    assert_font_eq(&ufo_lightwide, &roundtripped_ufos[1].font);
    assert_font_eq(&ufo_lightcond, &roundtripped_ufos[0].font);
}

fn exported_glyph(garden: &Fontgarden, set: &str, source: &str, layer: &str, glyph: &str) -> norad::Glyph {
    garden
        .sets
        .get(set)
        .unwrap()
        .sources
        .get(source)
        .unwrap()
        .layers
        .get(layer)
        .unwrap()
        .export_glyph(glyph)
        .unwrap()
}

#[test]
fn structs_update_sets() {
    let mut fontgarden = Fontgarden::new();
    let (mut ufo1, mut ufo2) = (light_wide(), light_condensed());
    let sets = vec![("Latin", names(&["A"])), ("default", names(&["arrowleft"]))];
    for font in [&ufo1, &ufo2] {
        let source_name = guess_source_name(font).unwrap();
        for (set_name, set_glyphs) in &sets {
            fontgarden.import(font, set_glyphs, set_name, &source_name).unwrap();
        }
    }
    assert_eq!(
        ufo1.get_glyph("A").unwrap(),
        &exported_glyph(&fontgarden, "Latin", "LightWide", "foreground", "A")
    );
    assert_eq!(
        ufo2.get_glyph("arrowleft").unwrap(),
        &exported_glyph(&fontgarden, "default", "LightCondensed", "foreground", "arrowleft")
    );

    ufo1.get_glyph_mut("A").unwrap().lib.insert("public.markColor".into(), "1,1,1,1".into());
    ufo2.get_glyph_mut("arrowleft").unwrap().lib.insert("bbbb".into(), 1.into());

    let both_glyphs = names(&["A", "arrowleft"]);
    for font in [&ufo1, &ufo2] {
        let source_name = guess_source_name(font).unwrap();
        fontgarden.import(font, &both_glyphs, "Latin", &source_name).unwrap();
    }
    assert_eq!(
        ufo1.get_glyph("A").unwrap(),
        &exported_glyph(&fontgarden, "Latin", "LightWide", "foreground", "A")
    );
    assert_eq!(
        ufo2.get_glyph("arrowleft").unwrap(),
        &exported_glyph(&fontgarden, "default", "LightCondensed", "foreground", "arrowleft")
    );
    assert!(!fontgarden.sets.get("Latin").unwrap().glyph_coverage().contains("arrowleft"));
}

#[test]
fn mod_update_sets() {
    let mut fontgarden = Fontgarden::new();
    let mut ufo_lightwide = light_wide();
    let mut ufo_lightcond = light_condensed();
    let latin_set = names(&["A"]);
    let default_set = names(&["arrowleft"]);
    for font in [&ufo_lightwide, &ufo_lightcond] {
        let source_name = font.font_info.style_name.clone().unwrap();
        fontgarden.import(font, &latin_set, "Latin", &source_name).unwrap();
        fontgarden.import(font, &default_set, "default", &source_name).unwrap();
    }
    assert_eq!(
        &exported_glyph(&fontgarden, "Latin", "LightWide", "foreground", "A"),
        ufo_lightwide.get_glyph("A").unwrap()
    );
    assert_eq!(
        &exported_glyph(&fontgarden, "default", "LightCondensed", "foreground", "arrowleft"),
        ufo_lightcond.get_glyph("arrowleft").unwrap()
    );

    ufo_lightwide.get_glyph_mut("A").unwrap().lib.insert("aaaa".into(), 1.into());
    ufo_lightcond.get_glyph_mut("arrowleft").unwrap().lib.insert("bbbb".into(), 1.into());

    let mut union = latin_set.duplicate();
    union.extend(&default_set);
    for font in [&ufo_lightwide, &ufo_lightcond] {
        let source_name = font.font_info.style_name.clone().unwrap();
        fontgarden.import(font, &union, "Latin", &source_name).unwrap();
    }
    assert_eq!(
        &exported_glyph(&fontgarden, "Latin", "LightWide", "foreground", "A"),
        ufo_lightwide.get_glyph("A").unwrap()
    );
    assert_eq!(
        &exported_glyph(&fontgarden, "default", "LightCondensed", "foreground", "arrowleft"),
        ufo_lightcond.get_glyph("arrowleft").unwrap()
    );
}

fn glyphs_of_exported_fonts(fonts: &[fontgarden::export::ExportedFont]) -> Vec<(String, String, Vec<String>)> {
    let mut contents = Vec::new();
    for exported in fonts {
        for layer in exported.font.layers.iter() {
            contents.push((
                exported.name.clone(),
                layer.name().to_string(),
                layer.iter().map(|g| g.name().to_string()).collect(),
            ));
        }
    }
    contents
}

#[test]
fn follow_components() {
    let mut fontgarden = Fontgarden::new();
    let fonts = [light_wide(), light_condensed()];
    let sets = vec![("Latin", names(&["Aacute"])), ("Punctuation", names(&["semicolon"]))];
    let all_glyphs = names(&["Aacute", "semicolon"]);
    for font in &fonts {
        let source_name = guess_source_name(font).unwrap();
        for (set_name, set_glyphs) in &sets {
            fontgarden.import(font, set_glyphs, set_name, &source_name).unwrap();
        }
    }
    assert_eq!(
        vec![
            row("Latin", "LightCondensed", "foreground", &["A", "Aacute", "acute"]),
            row("Latin", "LightCondensed", "support", &["A"]),
            row("Latin", "LightWide", "foreground", &["A", "Aacute", "acute"]),
            row("Punctuation", "LightCondensed", "foreground", &["comma", "period", "semicolon"]),
            row("Punctuation", "LightWide", "foreground", &["comma", "period", "semicolon"]),
        ],
        glyphs_of_fontgarden(&fontgarden),
    );

    let source_names = names(&["LightWide", "LightCondensed"]);
    let exports = fontgarden.export(&all_glyphs, &source_names).unwrap();
    let list = |glyphs: &[&str]| glyphs.iter().map(|g| g.to_string()).collect::<Vec<String>>();
    assert_eq!(
        vec![
            (
                "LightCondensed".to_string(),
                "foreground".to_string(),
                list(&["A", "Aacute", "acute", "comma", "period", "semicolon"])
            ),
            ("LightCondensed".to_string(), "support".to_string(), list(&["A"])),
            (
                "LightWide".to_string(),
                "foreground".to_string(),
                list(&["A", "Aacute", "acute", "comma", "period", "semicolon"])
            ),
        ],
        glyphs_of_exported_fonts(&exports),
    );
}

#[test]
fn roundtrip_mutatorsans_follow_components() {
    let mut fontgarden = Fontgarden::new();
    let glyphs = names(&["Aacute"]);
    let glyphs_expected = names(&["A", "Aacute", "acute"]);
    for font in [light_wide(), light_condensed()] {
        let source_name = font.font_info.style_name.clone().unwrap();
        fontgarden.import(&font, &glyphs, "Latin", &source_name).unwrap();
    }
    for (set_name, source_name, layer_name, layer_glyphs) in glyphs_of_fontgarden(&fontgarden) {
        assert!(
            NameSet::from_names(&layer_glyphs).difference(&glyphs_expected).is_empty(),
            "Set {set_name}, source {source_name}, layer {layer_name}"
        );
    }
    let source_names = names(&["LightWide", "LightCondensed"]);
    let exports = fontgarden.export(&glyphs, &source_names).unwrap();
    assert_eq!(exports.len(), 2);
    for (font_name, layer_name, layer_glyphs) in glyphs_of_exported_fonts(&exports) {
        assert!(
            NameSet::from_names(&layer_glyphs).difference(&glyphs_expected).is_empty(),
            "Font {font_name}, layer {}",
            layer_name
        );
    }
}

#[test]
fn export_holds_the_closure_and_nothing_else() {
    let mut fontgarden = Fontgarden::new();
    let font = light_wide();
    fontgarden.import(&font, &names(&["Aacute"]), "Latin", "LightWide").unwrap();
    fontgarden.import(&font, &names(&["B", "S"]), "Latin", "LightWide").unwrap();
    let docs = fontgarden.export_documents(&names(&["Aacute"]), &names(&["LightWide"]));
    assert_eq!(docs.len(), 1);
    let doc = docs.get("LightWide").unwrap();
    assert_eq!(doc.layers.len(), 1);
    assert_eq!(doc.layers[0].name, "foreground");
    assert_eq!(
        doc.layers[0].layer.glyphs.key_set().to_vec(),
        vec!["A".to_string(), "Aacute".to_string(), "acute".to_string()]
    );
}

#[test]
fn two_sources_share_one_record() {
    let mut fontgarden = Fontgarden::new();
    let first = light_wide();
    let mut second = light_condensed();
    let mut categories = norad::Plist::new();
    categories.insert("A".into(), "Ligature".into());
    second.lib.insert("public.openTypeCategories".into(), plist::Value::Dictionary(categories));
    second.get_glyph_mut("A").unwrap().codepoints = norad::Codepoints::new(['a']);
    fontgarden.import(&first, &names(&["A"]), "Latin", "LightWide").unwrap();
    fontgarden.import(&second, &names(&["A"]), "Latin", "LightCondensed").unwrap();

    assert_eq!(fontgarden.sets.len(), 1);
    let set = fontgarden.sets.get("Latin").unwrap();
    assert_eq!(set.sources.len(), 2);
    let wide = set.sources.get("LightWide").unwrap();
    assert_eq!(wide.layers.len(), 1);
    assert!(wide.layers.get("foreground").unwrap().default);
    assert!(wide.layers.get("foreground").unwrap().glyphs.contains_key("A"));
    let condensed = set.sources.get("LightCondensed").unwrap();
    assert!(condensed.layers.get("foreground").unwrap().default);
    assert!(condensed.layers.get("foreground").unwrap().glyphs.contains_key("A"));
    assert_eq!(set.glyph_data.len(), 1);
    let record = set.glyph_data.get("A").unwrap();
    assert_eq!(record.opentype_category, OpenTypeCategory::Ligature);
    assert_eq!(record.codepoints, vec!['a']);
    assert!(record.export);
}

#[test]
fn importing_twice_is_importing_once() {
    let mut once = Fontgarden::new();
    let mut twice = Fontgarden::new();
    let font = light_condensed();
    let glyphs = names(&["Aacute", "S", "semicolon"]);
    once.import(&font, &glyphs, "Latin", "LightCondensed").unwrap();
    twice.import(&font, &glyphs, "Latin", "LightCondensed").unwrap();
    twice.import(&font, &glyphs, "Latin", "LightCondensed").unwrap();
    assert_eq!(once, twice);
}

#[test]
fn records_follow_the_tables_of_the_font() {
    let mut fontgarden = Fontgarden::new();
    fontgarden
        .import(&light_wide(), &names(&["Aacute", "Adieresis", "missing"]), "Latin", "LightWide")
        .unwrap();
    let set = fontgarden.sets.get("Latin").unwrap();
    let aacute = set.glyph_data.get("Aacute").unwrap();
    assert_eq!(aacute.postscript_name, Some("Aacute.prod".to_string()));
    assert_eq!(aacute.codepoints, vec!['\u{c1}']);
    assert_eq!(aacute.opentype_category, OpenTypeCategory::Unassigned);
    assert!(aacute.export);
    assert_eq!(set.glyph_data.get("acute").unwrap().opentype_category, OpenTypeCategory::Mark);
    assert!(!set.glyph_data.get("dieresis").unwrap().export);
    let missing = set.glyph_data.get("missing").unwrap();
    assert_eq!(missing.postscript_name, None);
    assert!(missing.codepoints.is_empty());
    assert!(missing.export);
    assert!(set.glyph_coverage().contains("missing"));
}

#[test]
fn color_marks_are_kept_beside_the_glyphs() {
    let mut fontgarden = Fontgarden::new();
    let mut font = light_wide();
    font.get_glyph_mut("S").unwrap().lib.insert("public.markColor".into(), "1,0.50,0,1.0".into());
    fontgarden.import(&font, &names(&["S"]), "Latin", "LightWide").unwrap();
    let layer = fontgarden
        .sets
        .get("Latin")
        .unwrap()
        .sources
        .get("LightWide")
        .unwrap()
        .layers
        .get("foreground")
        .unwrap();
    assert_eq!(layer.color_marks.get("S"), Some(&"1,0.5,0,1".to_string()));
    assert!(!layer.glyphs.get("S").unwrap().outline.lib.contains_key("public.markColor"));
    let exported = layer.export_glyph("S").unwrap();
    assert_eq!(exported.lib.get("public.markColor").unwrap().as_string(), Some("1,0.5,0,1"));
    assert_eq!(layer.export_glyph("T"), None);
}

#[test]
fn a_document_without_layers_is_refused() {
    let mut fontgarden = Fontgarden::new();
    let doc = FontDocument {
        layers: Vec::new(),
        postscript_names: NameMap::new(),
        opentype_categories: NameMap::new(),
        skip_export_glyphs: NameSet::new(),
    };
    let result = fontgarden.import_document(&doc, &names(&["A"]), "Latin", "Light");
    assert!(matches!(result, Err(LoadError::NoDefaultLayer)));
    assert_eq!(fontgarden, Fontgarden::new());
}

#[test]
fn loading_reports_what_is_wrong() {
    assert!(matches!(Fontgarden::from_path(None), Err(LoadError::NotAFontgarden)));

    let mut fontgarden = Fontgarden::new();
    fontgarden.import(&light_wide(), &names(&["A"]), "Latin", "LightWide").unwrap();

    let mut stored = fontgarden.save().unwrap();
    stored[0].dir_name = "set.".to_string();
    assert!(matches!(Fontgarden::from_path(Some(stored)), Err(LoadError::NamingError(name)) if name.is_empty()));

    let mut stored = fontgarden.save().unwrap();
    let mut copy = fontgarden.save().unwrap();
    copy[0].dir_name = "set.Other".to_string();
    stored.append(&mut copy);
    match Fontgarden::from_path(Some(stored)) {
        Err(LoadError::DuplicateGlyphs(set, glyphs)) => {
            assert_eq!(set, "Other");
            assert_eq!(glyphs, vec!["A".to_string()]);
        }
        other => panic!("{:?}", other),
    }

    let mut stored = fontgarden.save().unwrap();
    stored[0].sources[0].layers[0].dir_name = "glyphs.other".to_string();
    assert!(matches!(
        Fontgarden::from_path(Some(stored)),
        Err(LoadError::LoadSet(_, LoadSetError::LoadSource(_, LoadSourceError::NoDefaultLayer)))
    ));

    let mut stored = fontgarden.save().unwrap();
    stored[0].dir_name = "other".to_string();
    assert_eq!(Fontgarden::from_path(Some(stored)).unwrap(), Fontgarden::new());
}

#[test]
fn saving_lays_out_directories() {
    let mut fontgarden = Fontgarden::new();
    fontgarden.import(&light_condensed(), &names(&["A", "Aacute"]), "Latin", "LightCondensed").unwrap();
    let stored = fontgarden.save().unwrap();
    assert_eq!(stored.len(), 1);
    assert_eq!(stored[0].dir_name, "set.Latin");
    assert_eq!(stored[0].glyph_data.len(), 3);
    assert_eq!(stored[0].glyph_data[0], vec!["A", "", "0041", "Base", "true"]);
    assert_eq!(stored[0].glyph_data[1], vec!["Aacute", "Aacute.prod", "00C1", "Unassigned", "true"]);
    assert_eq!(stored[0].sources[0].dir_name, "source.LightCondensed");
    let layers = &stored[0].sources[0].layers;
    assert_eq!(layers.len(), 2);
    assert_eq!((layers[0].dir_name.as_str(), layers[0].layerinfo.name.as_str()), ("glyphs", "foreground"));
    assert_eq!((layers[1].dir_name.as_str(), layers[1].layerinfo.name.as_str()), ("glyphs.support", "support"));
    let files: Vec<&str> = layers[0].glyphs.iter().map(|g| g.file_name.as_str()).collect();
    assert_eq!(files, vec!["A_.glif", "A_acute.glif", "acute.glif"]);
}

#[test]
fn imports_keep_the_repository_sound() {
    let mut fontgarden = Fontgarden::new();
    assert!(fontgarden.has_sound_sources());
    for font in [light_wide(), light_condensed()] {
        let source_name = guess_source_name(&font).unwrap();
        fontgarden.import(&font, &names(&["Adieresis", "semicolon"]), "Latin", &source_name).unwrap();
        fontgarden.import(&font, &names(&["comma", "A", "S"]), "Other", &source_name).unwrap();
        assert!(fontgarden.has_sound_sources());
        assert_disjoint(&fontgarden);
    }
    assert_eq!(
        fontgarden.sets.get("Latin").unwrap().glyph_coverage().to_vec(),
        vec!["A", "Adieresis", "comma", "dieresis", "period", "semicolon"]
    );
    assert_eq!(fontgarden.sets.get("Other").unwrap().glyph_coverage().to_vec(), vec!["S"]);
    fontgarden
        .sets
        .value_at_mut(0)
        .sources
        .value_at_mut(0)
        .get_or_create_layer("second".to_string())
        .default = true;
    assert!(!fontgarden.has_sound_sources());
    assert!(!fontgarden.sets.value_at(0).sources.value_at(0).has_one_default_layer());
    assert!(fontgarden.sets.value_at(1).has_sound_sources());
}

#[test]
fn a_new_repository_has_no_directories() {
    assert_eq!(fontgarden::storage::new().unwrap(), Vec::new());
    assert_eq!(Fontgarden::from_path(Some(Vec::new())).unwrap(), Fontgarden::new());
}

#[test]
fn a_layer_named_with_periods_is_not_found_again() {
    let mut fontgarden = Fontgarden::new();
    let mut font = light_wide();
    font.layers.new_layer(".").unwrap().insert_glyph(norad::Glyph::new("A"));
    fontgarden.import(&font, &names(&["A"]), "Latin", "LightWide").unwrap();
    let stored = fontgarden.save().unwrap();
    let dirs: Vec<&str> = stored[0].sources[0].layers.iter().map(|l| l.dir_name.as_str()).collect();
    assert_eq!(dirs, vec!["glyphs__", "glyphs"]);
    let fontgarden2 = Fontgarden::from_path(Some(stored)).unwrap();
    assert_ne!(fontgarden, fontgarden2);
    assert_eq!(fontgarden2.sets.get("Latin").unwrap().sources.get("LightWide").unwrap().layers.len(), 1);
}

fn case_variants() -> Vec<String> {
    let mut variants = vec![String::new()];
    for letter in ["a", "b", "c", "d", "e", "f", "g"] {
        let mut next = Vec::new();
        for stem in &variants {
            next.push(format!("{stem}{}", letter.to_uppercase()));
            next.push(format!("{stem}{letter}_"));
        }
        variants = next;
    }
    variants
}

#[test]
fn too_many_names_that_differ_in_case_only() {
    let variants = case_variants();
    assert_eq!(variants.len(), 128);
    let mut font = norad::Font::new();
    font.layers.rename_layer("public.default", "foreground", false).unwrap();
    let layer = font.layers.new_layer("crowd").unwrap();
    for name in variants.iter().take(100) {
        layer.insert_glyph(norad::Glyph::new(name));
    }
    let mut fontgarden = Fontgarden::new();
    let wanted = NameSet::from_names(&variants);
    fontgarden.import(&font, &wanted, "Latin", "Regular").unwrap();
    let layer = fontgarden.sets.get("Latin").unwrap().sources.get("Regular").unwrap().layers.get("crowd").unwrap();
    assert_eq!(layer.glyphs.len(), 100);
    assert!(fontgarden::storage::glyph_files_fit(&layer.glyphs));

    let mut crowded = Layer::new(false);
    for name in &variants {
        crowded.glyphs.insert(name.clone(), fontgarden::glyph::Drawing::new(norad::Glyph::new(name)));
    }
    assert!(!fontgarden::storage::glyph_files_fit(&crowded.glyphs));
    let mut existing = NameSet::new();
    assert!(matches!(
        crowded.save("crowd", &mut existing),
        Err(fontgarden::errors::SaveLayerError::SaveGlyph(_))
    ));
    fontgarden
        .sets
        .value_at_mut(0)
        .sources
        .value_at_mut(0)
        .get_or_create_layer("crowd".to_string())
        .absorb(crowded);
    match fontgarden.save() {
        Err(fontgarden::errors::SaveError::SaveSet(
            set,
            fontgarden::errors::SaveSetError::SaveSource(
                source,
                fontgarden::errors::SaveSourceError::SaveLayer(layer, _),
            ),
        )) => {
            assert_eq!((set.as_str(), source.as_str(), layer.as_str()), ("Latin", "Regular", "crowd"));
        }
        other => panic!("{:?}", other),
    }
    let exported = fontgarden.export(&wanted, &names(&["Regular"]));
    assert!(matches!(exported, Err(fontgarden::errors::ExportError::Other(layer)) if layer == "crowd"));
}

#[test]
fn the_font_object_library_refuses_a_reserved_layer_name() {
    let mut fontgarden = Fontgarden::new();
    fontgarden.import(&light_wide(), &names(&["A"]), "Latin", "LightWide").unwrap();
    fontgarden
        .sets
        .value_at_mut(0)
        .sources
        .value_at_mut(0)
        .get_or_create_layer("public.default".to_string())
        .glyphs
        .insert("A".to_string(), fontgarden::glyph::Drawing::new(norad::Glyph::new("A")));
    let exported = fontgarden.export(&names(&["A"]), &names(&["LightWide"]));
    assert!(matches!(exported, Err(fontgarden::errors::ExportError::Other(layer)) if layer == "public.default"));
}

#[test]
fn loading_reports_the_directory_at_fault() {
    let mut fontgarden = Fontgarden::new();
    fontgarden.import(&light_condensed(), &names(&["A", "S"]), "Latin", "LightCondensed").unwrap();

    let mut stored = fontgarden.save().unwrap();
    stored[0].sources[0].dir_name = "source.".to_string();
    assert!(matches!(
        Fontgarden::from_path(Some(stored)),
        Err(LoadError::LoadSet(set, LoadSetError::NamingError(name))) if set == "Latin" && name.is_empty()
    ));

    let mut stored = fontgarden.save().unwrap();
    stored[0].glyph_data[0][3] = "Letter".to_string();
    assert!(matches!(
        Fontgarden::from_path(Some(stored)),
        Err(LoadError::LoadSet(
            _,
            LoadSetError::LoadGlyphData(fontgarden::errors::LoadGlyphDataError::InvalidOpenTypeCategory(_, _))
        ))
    ));

    let mut stored = fontgarden.save().unwrap();
    stored[0].sources[0].layers[1].layerinfo.name = "bad\u{1}name".to_string();
    assert!(matches!(
        Fontgarden::from_path(Some(stored)),
        Err(LoadError::LoadSet(
            _,
            LoadSetError::LoadSource(
                source,
                LoadSourceError::LoadLayer(dir, fontgarden::errors::LoadLayerError::LoadLayerInfo(name))
            )
        )) if source == "LightCondensed" && dir == "glyphs.support" && name == "bad\u{1}name"
    ));

    let mut stored = fontgarden.save().unwrap();
    stored[0].sources[0].layers[0].color_marks[0][1] = "red".to_string();
    assert!(matches!(
        Fontgarden::from_path(Some(stored)),
        Err(LoadError::LoadSet(
            _,
            LoadSetError::LoadSource(
                _,
                LoadSourceError::LoadLayer(_, fontgarden::errors::LoadLayerError::LoadColorMarks(_))
            )
        ))
    ));

    let mut stored = fontgarden.save().unwrap();
    stored[0].sources[0].layers[1].dir_name = "glyphs".to_string();
    assert!(matches!(
        Fontgarden::from_path(Some(stored)),
        Err(LoadError::LoadSet(_, LoadSetError::LoadSource(_, LoadSourceError::NoDefaultLayer)))
    ));
}

#[test]
fn outlines_that_carry_clashing_names_are_refused() {
    let variants = case_variants();
    let mut crowded = Layer::new(true);
    for (i, name) in variants.iter().enumerate() {
        crowded
            .glyphs
            .insert(format!("g{i:03}"), fontgarden::glyph::Drawing::new(norad::Glyph::new(name)));
    }
    assert!(fontgarden::storage::glyph_files_fit(&crowded.glyphs));
    let doc = FontDocument {
        layers: vec![fontgarden::document::DocumentLayer { name: "foreground".to_string(), layer: crowded }],
        postscript_names: NameMap::new(),
        opentype_categories: NameMap::new(),
        skip_export_glyphs: NameSet::new(),
    };
    assert!(matches!(doc.to_font(), Err(fontgarden::errors::ExportError::Other(layer)) if layer == "foreground"));
}

#[test]
fn documents_are_built_as_fonts() {
    let mut first = Layer::new(true);
    first.glyphs.insert("a".to_string(), fontgarden::glyph::Drawing::new(norad::Glyph::new("a")));
    first.glyphs.insert("b".to_string(), fontgarden::glyph::Drawing::new(norad::Glyph::new("a")));
    first.color_marks.insert("a".to_string(), "1,0,0,1".to_string());
    let mut second = Layer::new(false);
    second.glyphs.insert("c".to_string(), fontgarden::glyph::Drawing::new(norad::Glyph::new("c")));
    let layers = |names: [&str; 2]| {
        vec![
            fontgarden::document::DocumentLayer { name: names[0].to_string(), layer: first.restricted(&names_of_all()) },
            fontgarden::document::DocumentLayer { name: names[1].to_string(), layer: second.restricted(&names_of_all()) },
        ]
    };
    let document = |names: [&str; 2]| FontDocument {
        layers: layers(names),
        postscript_names: NameMap::new(),
        opentype_categories: NameMap::new(),
        skip_export_glyphs: NameSet::new(),
    };
    let font = document(["public.default", "Sketches"]).to_font().unwrap();
    let found: Vec<String> = font.layers.iter().map(|l| l.name().to_string()).collect();
    assert_eq!(found, vec!["public.default", "Sketches"]);
    assert_eq!(font.default_layer().len(), 1);
    assert_eq!(font.layers.get("Sketches").unwrap().len(), 1);
    let font = document(["front", "back"]).to_font().unwrap();
    assert_eq!(font.default_layer().name().as_str(), "front");
    for (names, refused) in [
        (["front", "front"], "front"),
        (["front", "public.default"], "public.default"),
        (["front", ""], ""),
        (["", "back"], ""),
        (["bad\u{1}", "back"], "bad\u{1}"),
    ] {
        assert!(matches!(
            document(names).to_font(),
            Err(fontgarden::errors::ExportError::Other(layer)) if layer == refused
        ));
    }
    let empty = FontDocument {
        layers: Vec::new(),
        postscript_names: NameMap::new(),
        opentype_categories: NameMap::new(),
        skip_export_glyphs: NameSet::new(),
    };
    assert_eq!(empty.to_font().unwrap().layers.len(), 1);
}

fn names_of_all() -> NameSet {
    names(&["a", "b", "c"])
}

#[test]
fn the_font_object_library_is_asked_for_names() {
    let mut probe = fontgarden::ufo::NameProbe { taken: NameSet::new(), asked: 0, forced: false };
    assert_eq!(probe.find("A", "", ".glif"), Some("A_.glif".to_string()));
    probe.taken.insert("a_.glif".to_string());
    assert_eq!(probe.find("A", "", ".glif"), Some("A_01.glif".to_string()));
    assert_eq!(probe.find("Sketches", "glyphs.", ""), Some("glyphs.S_ketches".to_string()));
    for k in 1..99 {
        probe.taken.insert(format!("a_{k:02}.glif"));
    }
    assert_eq!(probe.find("A", "", ".glif"), Some("A_99.glif".to_string()));
    probe.taken.insert("a_99.glif".to_string());
    assert_eq!(probe.find("A", "", ".glif"), None);
    assert_eq!(probe.find("B", "", ".glif"), Some("B_.glif".to_string()));
    assert!(fontgarden::ufo::is_valid_name("a b"));
    assert!(!fontgarden::ufo::is_valid_name(""));
    assert!(!fontgarden::ufo::is_valid_name("a\u{7f}"));
    for text in ["", "a", " ", "\u{0}", "a\u{1f}b", "\u{80}", "\u{9f}", "\u{a0}", "\u{7f}", "\u{e9}"] {
        assert_eq!(fontgarden::ufo::is_valid_name(text), norad::Name::new(text).is_ok());
    }
}
