use fontgarden::closure::glyphset_follow_composites;
use fontgarden::document::{
    guess_source_name, names_of, source_name_of, table_of, FontDocument, MarkedDrawing,
};
use fontgarden::errors::{LoadGlyphDataError, LoadLayerError};
use fontgarden::glyph::Drawing;
use fontgarden::loading::{is_layer_dir_name, strip_prefix};
use fontgarden::metadata::{format_codepoints, parse_codepoints, GlyphRecord, OpenTypeCategory};
use fontgarden::model::{Fontgarden, Layer, Source};
use fontgarden::name_map::NameMap;
use fontgarden::name_set::NameSet;
use fontgarden::names::{compare_names, NameOrder};
use fontgarden::selection::{load_glyph_list, SelectionError, SetMembers};
use fontgarden::tables::{
    default_true, load_color_marks, load_glyph_data, write_color_marks, write_glyph_data,
};

fn names(list: &[&str]) -> NameSet {
    NameSet::from_names(&list.iter().map(|n| n.to_string()).collect())
}

fn row(fields: &[&str]) -> Vec<String> {
    fields.iter().map(|f| f.to_string()).collect()
}

fn drawing(name: &str, components: &[&str]) -> Drawing {
    let mut glyph = norad::Glyph::new(name);
    for base in components {
        glyph.components.push(norad::Component::new(
            norad::Name::new(base).unwrap(),
            norad::AffineTransform::default(),
            None,
        ));
    }
    Drawing::new(glyph)
}

fn graph(edges: &[(&str, &[&str])]) -> NameMap<Drawing> {
    let mut glyphs = NameMap::new();
    for (name, components) in edges {
        glyphs.insert(name.to_string(), drawing(name, components));
    }
    glyphs
}

#[test]
fn names_are_ordered_by_their_bytes() {
    assert_eq!(compare_names("A", "a"), NameOrder::Before);
    assert_eq!(compare_names("a", "A"), NameOrder::After);
    assert_eq!(compare_names("a", "a"), NameOrder::Same);
    assert_eq!(compare_names("a", "ab"), NameOrder::Before);
    assert_eq!(compare_names("", "a"), NameOrder::Before);
    assert_eq!(compare_names("z", "\u{e9}"), NameOrder::Before);
    assert_eq!(compare_names("\u{10000}", "\u{ffff}"), NameOrder::After);
    for (a, b) in [("Aacute", "A"), ("acute", "Aacute"), ("a.alt", "a_b")] {
        let expected = match a.cmp(b) {
            std::cmp::Ordering::Less => NameOrder::Before,
            std::cmp::Ordering::Equal => NameOrder::Same,
            std::cmp::Ordering::Greater => NameOrder::After,
        };
        assert_eq!(compare_names(a, b), expected);
    }
}

#[test]
fn maps_keep_their_names_in_order() {
    let mut map: NameMap<String> = NameMap::new();
    assert!(map.is_empty());
    assert_eq!(map.insert("b".to_string(), "2".to_string()), None);
    assert_eq!(map.insert("a".to_string(), "1".to_string()), None);
    assert_eq!(map.insert("c".to_string(), "3".to_string()), None);
    assert_eq!(map.insert("b".to_string(), "two".to_string()), Some("2".to_string()));
    assert_eq!(map.len(), 3);
    assert_eq!(map.key_set().to_vec(), vec!["a", "b", "c"]);
    assert_eq!(map.get("b"), Some(&"two".to_string()));
    assert_eq!(map.get("d"), None);
    assert_eq!(map.position("c"), Some(2));
    *map.value_at_mut(0) = "one".to_string();
    assert_eq!(map.value_at(0), "one");
    assert_eq!(map.remove("a"), Some("one".to_string()));
    assert_eq!(map.remove("a"), None);
    assert!(!map.contains_key("a"));
    let mut other: NameMap<String> = NameMap::new();
    other.insert("c".to_string(), "three".to_string());
    other.insert("d".to_string(), "four".to_string());
    map.absorb(other);
    assert_eq!(map.key_set().to_vec(), vec!["b", "c", "d"]);
    assert_eq!(map.get("c"), Some(&"three".to_string()));
    let part = map.restricted(&names(&["b", "d", "x"]));
    assert_eq!(part.key_set().to_vec(), vec!["b", "d"]);
    map.retain_names(&names(&["c"]));
    assert_eq!(map.into_parts(), (vec!["c".to_string()], vec!["three".to_string()]));
}

#[test]
fn sets_of_names() {
    let a = names(&["x", "b", "a", "b"]);
    assert_eq!(a.to_vec(), vec!["a", "b", "x"]);
    assert_eq!(a.len(), 3);
    let b = names(&["b", "c"]);
    assert_eq!(a.intersection(&b).to_vec(), vec!["b"]);
    assert_eq!(a.difference(&b).to_vec(), vec!["a", "x"]);
    let mut c = a.duplicate();
    c.extend(&b);
    assert_eq!(c.to_vec(), vec!["a", "b", "c", "x"]);
    assert!(c.remove("x"));
    assert!(!c.remove("x"));
    assert!(!c.insert("a".to_string()));
    assert_eq!(c.name_at(2), "c");
}

#[test]
fn closure_holds_the_seeds_and_is_closed() {
    let glyphs = graph(&[
        ("A", &[]),
        ("acute", &[]),
        ("Aacute", &["A", "acute"]),
        ("Aacute.sc", &["Aacute", "missing"]),
        ("B", &[]),
    ]);
    let found = glyphset_follow_composites(&names(&["Aacute.sc", "unknown"]), &glyphs);
    assert_eq!(found.to_vec(), vec!["A", "Aacute", "Aacute.sc", "acute", "missing", "unknown"]);
    for i in 0..found.len() {
        if let Some(drawing) = glyphs.get(found.name_at(i)) {
            for component in &drawing.components {
                assert!(found.contains(component));
            }
        }
    }
    assert!(glyphset_follow_composites(&NameSet::new(), &glyphs).is_empty());
}

#[test]
fn closure_ends_on_a_cycle() {
    let glyphs = graph(&[("a", &["b"]), ("b", &["c"]), ("c", &["a", "d"]), ("d", &["d"]), ("e", &["a"])]);
    assert_eq!(glyphset_follow_composites(&names(&["b"]), &glyphs).to_vec(), vec!["a", "b", "c", "d"]);
}

#[test]
fn code_points_as_text() {
    assert_eq!(parse_codepoints("0041 0042").unwrap(), vec!['A', 'B']);
    assert_eq!(parse_codepoints("  0041\t0041 1F600\n0041 e9 ").unwrap(), vec!['A', '\u{1f600}', '\u{e9}']);
    assert_eq!(parse_codepoints("").unwrap(), Vec::<char>::new());
    assert_eq!(parse_codepoints("10FFFF").unwrap(), vec!['\u{10ffff}']);
    assert_eq!(parse_codepoints("0000000041").unwrap(), vec!['A']);
    assert_eq!(parse_codepoints("0041 G1").unwrap_err().token, "G1");
    assert_eq!(parse_codepoints("D800").unwrap_err().token, "D800");
    assert_eq!(parse_codepoints("110000").unwrap_err().token, "110000");
    assert_eq!(parse_codepoints("0x41").unwrap_err().token, "0x41");
    assert_eq!(parse_codepoints("FFFFFFFFFFFFFFFFFFFF").unwrap_err().token, "FFFFFFFFFFFFFFFFFFFF");

    assert_eq!(format_codepoints(&vec![]), "");
    assert_eq!(format_codepoints(&vec!['A']), "0041");
    assert_eq!(format_codepoints(&vec!['A', '\u{e9}', '\u{1f600}', '\u{10ffff}', '\0']), "0041 00E9 1F600 10FFFF 0000");
    for codepoints in [vec!['a', 'b'], vec!['\u{ffff}', '\u{10000}'], vec!['\u{abcd}']] {
        assert_eq!(parse_codepoints(&format_codepoints(&codepoints)).unwrap(), codepoints);
        let expected: Vec<String> = codepoints.iter().map(|c| format!("{:04X}", *c as usize)).collect();
        assert_eq!(format_codepoints(&codepoints), expected.join(" "));
    }
}

#[test]
fn categories_by_name() {
    for category in [
        OpenTypeCategory::Unassigned,
        OpenTypeCategory::Base,
        OpenTypeCategory::Ligature,
        OpenTypeCategory::Mark,
        OpenTypeCategory::Component,
    ] {
        assert_eq!(OpenTypeCategory::from_str(category.name()), Ok(category));
    }
    assert_eq!(OpenTypeCategory::Mark.name(), "Mark");
    assert!(OpenTypeCategory::from_str("mark").is_err());
    assert!(OpenTypeCategory::from_str("").is_err());
    assert_eq!(OpenTypeCategory::default(), OpenTypeCategory::Unassigned);
    assert!(GlyphRecord::default().export);
    assert!(default_true());
}

#[test]
fn records_as_rows() {
    assert_eq!(
        GlyphRecord::write_header_to_csv(),
        row(&["name", "postscript_name", "codepoints", "opentype_category", "export"])
    );
    let record = GlyphRecord {
        postscript_name: Some("uni0041".to_string()),
        codepoints: vec!['A', '\u{391}'],
        opentype_category: OpenTypeCategory::Base,
        export: false,
    };
    let written = record.write_row_to_csv("A");
    assert_eq!(written, row(&["A", "uni0041", "0041 0391", "Base", "false"]));
    assert_eq!(GlyphRecord::from_row(&written).unwrap(), ("A".to_string(), record));

    let (name, record) = GlyphRecord::from_row(&row(&["b", "", "", ""])).unwrap();
    assert_eq!(name, "b");
    assert_eq!(record, GlyphRecord::new());
    assert!(record.export);

    assert!(matches!(GlyphRecord::from_row(&row(&["a", "", ""])), Err(LoadGlyphDataError::Csv(_))));
    assert!(matches!(
        GlyphRecord::from_row(&row(&["a", "", "", "", "true", "x"])),
        Err(LoadGlyphDataError::Csv(_))
    ));
    assert!(matches!(
        GlyphRecord::from_row(&row(&["a", "", "", "", "yes"])),
        Err(LoadGlyphDataError::Csv(_))
    ));
    assert!(matches!(
        GlyphRecord::from_row(&row(&["", "", "", "", "true"])),
        Err(LoadGlyphDataError::InvalidGlyphName(name)) if name.is_empty()
    ));
    assert!(matches!(
        GlyphRecord::from_row(&row(&["a\u{7}", "", "", "", "true"])),
        Err(LoadGlyphDataError::InvalidGlyphName(_))
    ));
    assert!(matches!(
        GlyphRecord::from_row(&row(&["a", "", "00G1", "", "true"])),
        Err(LoadGlyphDataError::InvalidCodepoint(name, text)) if name == "a" && text == "00G1"
    ));
    assert!(matches!(
        GlyphRecord::from_row(&row(&["a", "", "", "Letter", "true"])),
        Err(LoadGlyphDataError::InvalidOpenTypeCategory(name, text)) if name == "a" && text == "Letter"
    ));
}

#[test]
fn tables_of_records_and_colors() {
    let mut records = NameMap::new();
    records.insert("b".to_string(), GlyphRecord::new());
    records.insert(
        "a".to_string(),
        GlyphRecord {
            postscript_name: None,
            codepoints: vec!['a'],
            opentype_category: OpenTypeCategory::Mark,
            export: true,
        },
    );
    let rows = write_glyph_data(&records);
    assert_eq!(rows, vec![row(&["a", "", "0061", "Mark", "true"]), row(&["b", "", "", "Unassigned", "true"])]);
    assert_eq!(load_glyph_data(&rows).unwrap(), records);
    let mut twice = rows.clone();
    twice.push(row(&["a", "other", "", "", "false"]));
    assert_eq!(load_glyph_data(&twice).unwrap().get("a").unwrap().postscript_name, Some("other".to_string()));
    twice.push(row(&["c"]));
    assert!(matches!(load_glyph_data(&twice), Err(LoadGlyphDataError::Csv(fields)) if fields == row(&["c"])));

    let marks = load_color_marks(&vec![row(&["a", "1,0,0,1.0"]), row(&["b", "0.1234,0.5,1,0"])]).unwrap();
    assert_eq!(marks.get("a"), Some(&"1,0,0,1".to_string()));
    assert_eq!(marks.get("b"), Some(&"0.123,0.5,1,0".to_string()));
    assert_eq!(write_color_marks(&marks), vec![row(&["a", "1,0,0,1"]), row(&["b", "0.123,0.5,1,0"])]);
    assert!(load_color_marks(&Vec::new()).unwrap().is_empty());
    for bad in [row(&["a", "red"]), row(&["a", "1,0,0"]), row(&["a", "2,0,0,1"]), row(&["", "1,0,0,1"]), row(&["a"])] {
        assert!(matches!(
            load_color_marks(&vec![bad.clone()]),
            Err(LoadLayerError::LoadColorMarks(fields)) if fields == bad
        ));
    }
}

#[test]
fn lists_of_glyphs() {
    let list = load_glyph_list("A\n  B.alt \r\n\n\t\nA\nspace between").unwrap();
    assert_eq!(list.to_vec(), vec!["A", "B.alt", "space between"]);
    assert!(load_glyph_list("").unwrap().is_empty());
    assert!(load_glyph_list(" \n \n").unwrap().is_empty());
    assert_eq!(load_glyph_list("A\nB\u{1}C\nD"), Err("B\u{1}C".to_string()));
}

#[test]
fn directories_by_their_names() {
    assert_eq!(strip_prefix("set.Latin", "set."), Some("Latin".to_string()));
    assert_eq!(strip_prefix("set.", "set."), Some(String::new()));
    assert_eq!(strip_prefix("sets", "set."), None);
    assert_eq!(strip_prefix("se", "set."), None);
    assert!(is_layer_dir_name("glyphs"));
    assert!(is_layer_dir_name("glyphs.background"));
    assert!(!is_layer_dir_name("glyphsx"));
    assert!(!is_layer_dir_name("images"));
}

#[test]
fn sources_and_their_default_layer() {
    let mut source = Source::new_with_default_layer_name("foreground".to_string());
    assert_eq!(source.default_layer_index(), Some(0));
    assert!(source.get_default_layer_mut().glyphs.is_empty());
    source.get_or_create_layer("background".to_string()).glyphs.insert("A".to_string(), drawing("A", &[]));
    source.get_default_layer_mut().glyphs.insert("B".to_string(), drawing("B", &[]));
    assert_eq!(source.layers.len(), 2);
    assert_eq!(source.default_layer_index(), Some(1));
    assert!(!source.layers.get("background").unwrap().default);
    assert!(source.layers.get("foreground").unwrap().glyphs.contains_key("B"));
    assert_eq!(source.get_or_create_layer("background".to_string()).glyphs.len(), 1);
    assert_eq!(source.glyph_names().to_vec(), vec!["A", "B"]);
    assert_eq!(Source::default().layers.key_set().to_vec(), vec!["public.default"]);
    assert_eq!(Layer::default(), Layer::new(false));
}

#[test]
fn what_sets_stand_for() {
    let mut garden = Fontgarden::new();
    let mut font = norad::Font::new();
    for name in ["a", "b", "c"] {
        font.default_layer_mut().insert_glyph(norad::Glyph::new(name));
    }
    garden.import(&font, &names(&["a"]), "One", "Regular").unwrap();
    garden.import(&font, &names(&["b", "c"]), "Two", "Bold").unwrap();
    assert_eq!(garden.glyphs_of_sets(&vec![]).unwrap().to_vec(), vec!["a", "b", "c"]);
    assert_eq!(garden.glyphs_of_sets(&vec!["Two".to_string()]).unwrap().to_vec(), vec!["b", "c"]);
    assert_eq!(
        garden.glyphs_of_sets(&vec!["Two".to_string(), "Three".to_string()]),
        Err("Three".to_string())
    );
    assert_eq!(garden.source_names().to_vec(), vec!["Bold", "Regular"]);
    let gathered = garden.assemble_sources(&names(&["Bold"]));
    assert_eq!(gathered.key_set().to_vec(), vec!["Bold"]);
    assert_eq!(
        gathered.get("Bold").unwrap().layers.get("public.default").unwrap().glyphs.key_set().to_vec(),
        vec!["b", "c"]
    );
}

#[test]
fn what_is_imported_into_which_set() {
    let mut garden = Fontgarden::new();
    let mut font = norad::Font::new();
    for name in ["a", "b", "c"] {
        font.default_layer_mut().insert_glyph(norad::Glyph::new(name));
    }
    garden.import(&font, &names(&["a", "b"]), "One", "Regular").unwrap();
    let sets = vec!["One".to_string(), "New".to_string()];
    assert_eq!(garden.import_members(&sets, &vec![names(&["x"])]), Err(SelectionError::Mismatch));
    assert_eq!(
        garden.import_members(&sets, &vec![names(&["x"]), names(&["y", "z"])]),
        Ok(vec![
            SetMembers { set: "One".to_string(), glyphs: names(&["x"]) },
            SetMembers { set: "New".to_string(), glyphs: names(&["y", "z"]) },
        ])
    );
    assert_eq!(garden.import_members(&sets, &vec![]), Err(SelectionError::UnknownSet("New".to_string())));
    assert_eq!(
        garden.import_members(&vec!["One".to_string()], &vec![]),
        Ok(vec![SetMembers { set: "One".to_string(), glyphs: names(&["a", "b"]) }])
    );
    assert_eq!(garden.import_members(&vec![], &vec![]), Ok(vec![]));
}

#[test]
fn layers_from_marked_drawings() {
    let items = vec![
        MarkedDrawing { drawing: drawing("A", &[]), mark: Some("1,0,0,1.0".to_string()) },
        MarkedDrawing { drawing: drawing("B", &["A"]), mark: Some("red".to_string()) },
        MarkedDrawing { drawing: drawing("C", &[]), mark: None },
        MarkedDrawing { drawing: drawing("A", &["C"]), mark: None },
        MarkedDrawing { drawing: drawing("C", &[]), mark: Some("0,0,0,0.5".to_string()) },
    ];
    let layer = Layer::from_drawings(items);
    assert!(!layer.default);
    assert_eq!(layer.glyphs.key_set().to_vec(), vec!["A", "B", "C"]);
    assert_eq!(layer.glyphs.get("A").unwrap().components, vec!["C"]);
    assert_eq!(layer.color_marks.into_parts(), (vec!["C".to_string()], vec!["0,0,0,0.5".to_string()]));
    assert_eq!(Layer::from_drawings(Vec::new()), Layer::new(false));
}

#[test]
fn tables_and_lists_of_a_font() {
    let table = table_of(vec![
        ("a".to_string(), Some("first".to_string())),
        ("b".to_string(), None),
        ("a".to_string(), Some("second".to_string())),
        ("c".to_string(), Some("third".to_string())),
    ]);
    assert_eq!(
        table.into_parts(),
        (vec!["a".to_string(), "c".to_string()], vec!["first".to_string(), "third".to_string()])
    );
    assert_eq!(names_of(vec![Some("b".to_string()), None, Some("a".to_string())]).to_vec(), vec!["a", "b"]);
    assert!(names_of(Vec::new()).is_empty());
}

#[test]
fn what_is_exported() {
    let mut garden = Fontgarden::new();
    let mut font = norad::Font::new();
    for name in ["a", "b", "c"] {
        font.default_layer_mut().insert_glyph(norad::Glyph::new(name));
    }
    garden.import(&font, &names(&["a"]), "One", "Regular").unwrap();
    garden.import(&font, &names(&["b"]), "Two", "Bold").unwrap();
    let request = garden.export_request(Some(names(&["x"])), &vec!["Nowhere".to_string()], &vec![]).unwrap();
    assert_eq!(request.glyph_names.to_vec(), vec!["x"]);
    assert_eq!(request.source_names.to_vec(), vec!["Bold", "Regular"]);
    let request = garden.export_request(None, &vec!["Two".to_string()], &vec!["Thin".to_string()]).unwrap();
    assert_eq!(request.glyph_names.to_vec(), vec!["b"]);
    assert_eq!(request.source_names.to_vec(), vec!["Thin"]);
    assert_eq!(garden.export_request(None, &vec!["Nowhere".to_string()], &vec![]), Err("Nowhere".to_string()));
    let fonts = garden.export(&names(&["a", "b"]), &names(&["Bold", "Regular"])).unwrap();
    assert_eq!(fonts[0].file_name(), "Bold.ufo");
    assert_eq!(fonts[1].file_name(), "Regular.ufo");
    assert!(fonts[0].font.default_layer().contains_glyph("b"));
    assert!(!fonts[0].font.default_layer().contains_glyph("a"));
}

#[test]
fn a_style_name_gives_the_name_of_a_source() {
    assert_eq!(source_name_of(Some("Bold Condensed".to_string())), Some("Bold Condensed".to_string()));
    assert_eq!(source_name_of(Some(String::new())), None);
    assert_eq!(source_name_of(Some("Bold\u{7}".to_string())), None);
    assert_eq!(source_name_of(None), None);
    let mut font = norad::Font::new();
    assert_eq!(guess_source_name(&font), None);
    font.font_info.style_name = Some("Light".to_string());
    assert_eq!(guess_source_name(&font), Some("Light".to_string()));
    font.font_info.style_name = Some("\u{9f}".to_string());
    assert_eq!(guess_source_name(&font), None);
}

#[test]
fn a_font_is_read_as_a_document() {
    let mut font = norad::Font::new();
    font.default_layer_mut().insert_glyph(norad::Glyph::new("a"));
    let layer = font.layers.new_layer("sketches").unwrap();
    layer.insert_glyph(norad::Glyph::new("b"));
    layer.insert_glyph(norad::Glyph::new("c"));
    let mut table = norad::Plist::new();
    table.insert("a".into(), "a.prod".into());
    table.insert("b".into(), 1.into());
    font.lib.insert("public.postscriptNames".into(), plist::Value::Dictionary(table));
    font.lib.insert("public.openTypeCategories".into(), "no table".into());
    font.lib.insert("public.skipExportGlyphs".into(), plist::Value::Array(vec!["c".into(), 2.into()]));
    let doc = FontDocument::from_font(&font);
    assert_eq!(doc.layers.len(), 2);
    assert_eq!(doc.layers[0].name, "public.default");
    assert_eq!(doc.layers[0].layer.glyphs.key_set().to_vec(), vec!["a"]);
    assert_eq!(doc.layers[1].name, "sketches");
    assert_eq!(doc.layers[1].layer.glyphs.key_set().to_vec(), vec!["b", "c"]);
    assert!(!doc.layers[0].layer.default && !doc.layers[1].layer.default);
    assert_eq!(doc.postscript_names.into_parts(), (vec!["a".to_string()], vec!["a.prod".to_string()]));
    assert!(doc.opentype_categories.is_empty());
    assert_eq!(doc.skip_export_glyphs.to_vec(), vec!["c"]);
    let empty = FontDocument::from_font(&norad::Font::new());
    assert_eq!(empty.layers.len(), 1);
    assert!(empty.layers[0].layer.glyphs.is_empty());
    assert!(Fontgarden::new().import(&norad::Font::new(), &names_set(), "One", "Regular").is_ok());
    assert!(Fontgarden::new().export(&names_set(), &names_set()).unwrap().is_empty());
    let only_some = Layer::from_ufo_layer(font.layers.get("sketches").unwrap().iter().cloned().collect(), &names(&["c", "x"]));
    assert_eq!(only_some.glyphs.key_set().to_vec(), vec!["c"]);
    assert_eq!(Layer::from_outlines(Vec::new()), Layer::new(false));
}

fn names_set() -> NameSet {
    names(&["a", "b"])
}
