//! Font documents as this library reads them: the layers of a font with
//! their glyphs, and the tables of the font that say something of single
//! glyphs.

use vstd::prelude::*;
use crate::errors::ExportError;
use crate::text::{lowercase, to_lowercase};
use crate::glyph::{
    exported_outline, mark_key, outline_entry_of, outline_name, outline_name_of,
    unmarked_drawing_of, Drawing, DrawingView,
};
use crate::metadata::{
    category_named, dedup_chars, without_repeats, GlyphRecord, GlyphRecordView, OpenTypeCategory,
};
use crate::model::{empty_layer, restricted_layer, Layer, LayerView};
use crate::name_map::{ascending_keys, reversed, Duplicate, NameMap};
use crate::name_set::NameSet;
use crate::names::{same_name, NameView};
use crate::ufo::{
    canonical_color, canonical_rgba, default_layer_name, font_add_layer, font_dirs_taken,
    font_files_taken, font_glyph_names, font_layer_glyphs, font_layer_names, font_layer_outlines,
    font_layers, font_lib_entries, font_lib_items, font_lib_list, font_lib_table, font_put_glyph,
    font_rename_default_layer, font_style, font_style_name, is_valid_name, library_file_name,
    new_font, valid_name, NameProbe,
};

verus! {

/// A layer of a font document, with its name.
#[derive(Debug, PartialEq)]
pub struct DocumentLayer {
    pub name: String,
    pub layer: Layer,
}

/// A layer of a font document as contracts see it.
pub struct DocumentLayerView {
    pub name: NameView,
    pub layer: LayerView,
}

impl View for DocumentLayer {
    type V = DocumentLayerView;

    open spec fn view(&self) -> DocumentLayerView {
        DocumentLayerView { name: self.name@, layer: self.layer@ }
    }
}

/// A font document.
#[derive(Debug, PartialEq)]
pub struct FontDocument {
    /// The layers; the first is the default layer.
    pub layers: Vec<DocumentLayer>,
    /// The production names of glyphs.
    pub postscript_names: NameMap<String>,
    /// The OpenType categories of glyphs, as text.
    pub opentype_categories: NameMap<String>,
    /// The glyphs that are not to be exported.
    pub skip_export_glyphs: NameSet,
}

/// A font document as contracts see it.
pub struct FontDocumentView {
    pub layers: Seq<DocumentLayerView>,
    pub postscript_names: Map<NameView, Seq<char>>,
    pub opentype_categories: Map<NameView, Seq<char>>,
    pub skip_export_glyphs: Set<NameView>,
}

/// The layers as contracts see them.
pub open spec fn layer_views(layers: Seq<DocumentLayer>) -> Seq<DocumentLayerView> {
    Seq::new(layers.len(), |i: int| layers[i]@)
}

impl View for FontDocument {
    type V = FontDocumentView;

    open spec fn view(&self) -> FontDocumentView {
        FontDocumentView {
            layers: layer_views(self.layers@),
            postscript_names: self.postscript_names@,
            opentype_categories: self.opentype_categories@,
            skip_export_glyphs: self.skip_export_glyphs@,
        }
    }
}

/// Whether each color mark of the layer belongs to a glyph of the layer,
/// and each drawing stands under the name of its glyph.
pub open spec fn layer_sound(layer: LayerView) -> bool {
    &&& forall|glyph: NameView| #[trigger]
        layer.color_marks.contains_key(glyph) ==> layer.glyphs.contains_key(glyph)
    &&& forall|glyph: NameView| #[trigger]
        layer.glyphs.contains_key(glyph) ==> layer.glyphs[glyph].name == glyph
}

/// What a font document says of the glyph `name`: its production name and
/// category from the tables of the font, its code points from the default
/// layer, and whether it is exported. What the document does not say is as
/// in the record of a glyph of which nothing is known.
pub open spec fn extracted_record(doc: FontDocumentView, name: NameView) -> GlyphRecordView {
    GlyphRecordView {
        postscript_name: if doc.postscript_names.contains_key(name) {
            Some(doc.postscript_names[name])
        } else {
            None
        },
        codepoints: if doc.layers.len() > 0 && doc.layers[0].layer.glyphs.contains_key(name) {
            without_repeats(doc.layers[0].layer.glyphs[name].codepoints)
        } else {
            Seq::empty()
        },
        opentype_category: if doc.opentype_categories.contains_key(name) {
            match category_named(doc.opentype_categories[name]) {
                Some(category) => category,
                None => OpenTypeCategory::Unassigned,
            }
        } else {
            OpenTypeCategory::Unassigned
        },
        export: !doc.skip_export_glyphs.contains(name),
    }
}

/// The records that a font document gives for `names`.
pub open spec fn extracted_records(doc: FontDocumentView, names: Set<NameView>) -> Map<
    NameView,
    GlyphRecordView,
> {
    Map::new(|name: NameView| names.contains(name), |name: NameView| extracted_record(doc, name))
}

/// A drawing, and the text that its outline was marked with as a color.
#[derive(Debug, PartialEq)]
pub struct MarkedDrawing {
    pub drawing: Drawing,
    pub mark: Option<String>,
}

/// A marked drawing as contracts see it.
pub struct MarkedDrawingView {
    pub drawing: DrawingView,
    pub mark: Option<Seq<char>>,
}

impl View for MarkedDrawing {
    type V = MarkedDrawingView;

    open spec fn view(&self) -> MarkedDrawingView {
        MarkedDrawingView { drawing: self.drawing@, mark: self.mark.deep_view() }
    }
}

/// The marked drawings as contracts see them.
pub open spec fn marked_views(items: Seq<MarkedDrawing>) -> Seq<MarkedDrawingView> {
    Seq::new(items.len(), |i: int| items[i]@)
}

/// The color that a mark gives, in its canonical form; none where there is
/// no mark or the mark is no color.
pub open spec fn mark_color(mark: Option<Seq<char>>) -> Option<Seq<char>> {
    match mark {
        Some(text) => canonical_rgba(text),
        None => None,
    }
}

/// The layer that holds the given drawings, each under the name of its
/// glyph and with the color of its mark. Of two drawings of one glyph the
/// later counts, with its mark. The layer is not flagged as default.
pub open spec fn layer_of(items: Seq<MarkedDrawingView>) -> LayerView
    decreases items.len(),
{
    if items.len() == 0 {
        empty_layer(false)
    } else {
        let before = layer_of(items.drop_last());
        let name = items.last().drawing.name;
        LayerView {
            glyphs: before.glyphs.insert(name, items.last().drawing),
            color_marks: match mark_color(items.last().mark) {
                Some(color) => before.color_marks.insert(name, color),
                None => before.color_marks.remove(name),
            },
            default: false,
        }
    }
}

/// The marked drawing that an outline gives: its drawing once the mark is
/// taken out of it, and the text of the mark.
pub open spec fn marked_of(outline: norad::Glyph) -> MarkedDrawingView {
    MarkedDrawingView {
        drawing: unmarked_drawing_of(outline),
        mark: outline_entry_of(outline, mark_key()),
    }
}

/// The marked drawings that outlines give, in their order.
pub open spec fn marked_seq(outlines: Seq<norad::Glyph>) -> Seq<MarkedDrawingView> {
    Seq::new(outlines.len(), |i: int| marked_of(outlines[i]))
}

/// The document that is read from a font: the layers of the font under
/// their names and in their order, each the layer of the marked drawings
/// that its glyphs give; the tables that the `lib` of the font holds under
/// `public.postscriptNames` and `public.openTypeCategories`, and the list
/// that it holds under `public.skipExportGlyphs`.
pub open spec fn document_of_font(font: norad::Font) -> FontDocumentView {
    FontDocumentView {
        layers: Seq::new(
            font_layers(font).len(),
            |i: int|
                DocumentLayerView {
                    name: font_layers(font)[i],
                    layer: layer_of(marked_seq(font_layer_glyphs(font, i))),
                },
        ),
        postscript_names: table_of_entries(font_lib_entries(font, "public.postscriptNames"@)),
        opentype_categories: table_of_entries(font_lib_entries(font, "public.openTypeCategories"@)),
        skip_export_glyphs: names_of_items(font_lib_items(font, "public.skipExportGlyphs"@)),
    }
}

/// The names of the layers of a document, in their order.
pub open spec fn layer_names(doc: FontDocumentView) -> Seq<Seq<char>> {
    Seq::new(doc.layers.len(), |i: int| doc.layers[i].name)
}

/// Whether the font-object library takes the name at index `i` for a
/// layer. The first layer is the default layer: it keeps the name that the
/// font-object library gives it, or gets a valid name. Each other layer
/// needs a valid name that is not the name kept for the default layer and
/// not that of a layer before it.
pub open spec fn layer_name_fits(names: Seq<Seq<char>>, i: int) -> bool {
    if i == 0 {
        names[0] == default_layer_name() || valid_name(names[0])
    } else {
        valid_name(names[i]) && names[i] != default_layer_name() && !names.take(i).contains(names[i])
    }
}

/// The lowercase forms of the directory names that the font-object library
/// has taken once it has found one for each of the first `upto` layers;
/// the first layer, the default layer, takes none. `None` where it finds
/// none for one of them.
pub open spec fn dirs_taken_after(names: Seq<Seq<char>>, upto: int) -> Option<Set<Seq<char>>>
    decreases upto,
{
    if upto <= 1 {
        Some(Set::empty())
    } else {
        match dirs_taken_after(names, upto - 1) {
            None => None,
            Some(taken) => match library_file_name(names[upto - 1], "glyphs."@, ""@, taken) {
                None => None,
                Some(dir) => Some(taken.insert(lowercase(dir))),
            },
        }
    }
}

/// The names that the outlines of a layer carry when they are exported, in
/// the order of the names of the glyphs.
pub open spec fn carried_names(layer: LayerView) -> Seq<Seq<char>> {
    let keys = ascending_keys(layer.glyphs.dom());
    Seq::new(
        keys.len(),
        |k: int| outline_name_of(exported_outline(layer.glyphs[keys[k]], mark_of(layer, keys[k]))),
    )
}

/// The lowercase forms of the file names that the font-object library has
/// taken once it has found one for each of the first `upto` names; a name
/// that came before takes none again. `None` where it finds none for one of
/// them.
pub open spec fn files_taken_after(carried: Seq<Seq<char>>, upto: int) -> Option<Set<Seq<char>>>
    decreases upto,
{
    if upto <= 0 {
        Some(Set::empty())
    } else {
        match files_taken_after(carried, upto - 1) {
            None => None,
            Some(taken) => if carried.take(upto - 1).contains(carried[upto - 1]) {
                Some(taken)
            } else {
                match library_file_name(carried[upto - 1], ""@, ".glif"@, taken) {
                    None => None,
                    Some(file) => Some(taken.insert(lowercase(file))),
                }
            },
        }
    }
}

/// Whether the font-object library finds a file name for each glyph of the
/// layer.
pub open spec fn files_found(layer: LayerView) -> bool {
    files_taken_after(carried_names(layer), carried_names(layer).len() as int) is Some
}

/// Whether the document can be built as a font of the font-object
/// library: it takes the name of each layer, and finds a name for the
/// directory of each layer and for the file of each glyph.
pub open spec fn buildable(doc: FontDocumentView) -> bool {
    &&& forall|i: int| 0 <= i < doc.layers.len() ==> #[trigger] layer_name_fits(layer_names(doc), i)
    &&& dirs_taken_after(layer_names(doc), doc.layers.len() as int) is Some
    &&& forall|i: int| 0 <= i < doc.layers.len() ==> files_found((#[trigger] doc.layers[i]).layer)
}

/// The names of the layers of the font that a document is built as: those
/// of the layers of the document, and that of the default layer alone where
/// the document has no layer.
pub open spec fn built_layers(doc: FontDocumentView) -> Seq<Seq<char>> {
    if doc.layers.len() == 0 {
        seq![default_layer_name()]
    } else {
        layer_names(doc)
    }
}

/// Whether the font holds the document: its layers have the names of the
/// layers of the document, in their order, and each holds glyphs of the
/// names that the outlines of that layer of the document carry, and of no
/// others.
pub open spec fn holds_document(font: norad::Font, doc: FontDocumentView) -> bool {
    &&& font_layers(font) == built_layers(doc)
    &&& forall|i: int|
        0 <= i < doc.layers.len() ==> font_glyph_names(font, (#[trigger] doc.layers[i]).name)
            == carried_names(doc.layers[i].layer).to_set()
}

/// Where the font-object library finds no directory name for one of the
/// first layers, it finds none for all of them.
pub proof fn lemma_no_dir_stays(names: Seq<Seq<char>>, upto: int, all: int)
    requires
        upto <= all,
        dirs_taken_after(names, upto) is None,
    ensures
        dirs_taken_after(names, all) is None,
    decreases all - upto,
{
    if upto < all {
        lemma_no_dir_stays(names, upto + 1, all);
    }
}

/// Where the font-object library finds no file name for one of the first
/// names, it finds none for all of them.
pub proof fn lemma_no_file_stays(carried: Seq<Seq<char>>, upto: int, all: int)
    requires
        upto <= all,
        files_taken_after(carried, upto) is None,
    ensures
        files_taken_after(carried, all) is None,
    decreases all - upto,
{
    if upto < all {
        lemma_no_file_stays(carried, upto + 1, all);
    }
}

/// Whether the document has a layer of the given name.
pub open spec fn names_layer(doc: FontDocumentView, name: Seq<char>) -> bool {
    exists|i: int| 0 <= i < doc.layers.len() && (#[trigger] doc.layers[i]).name == name
}

/// The name of a source that a style name gives: the style name, where
/// there is one and it may be a name.
pub open spec fn source_name_given(style_name: Option<Seq<char>>) -> Option<Seq<char>> {
    match style_name {
        Some(text) => if valid_name(text) {
            Some(text)
        } else {
            None
        },
        None => None,
    }
}

/// The color that the layer has for the glyph `name`, if it has one.
pub open spec fn mark_of(layer: LayerView, name: NameView) -> Option<Seq<char>> {
    if layer.color_marks.contains_key(name) {
        Some(layer.color_marks[name])
    } else {
        None
    }
}

/// The layer of marked drawings is sound.
pub proof fn lemma_layer_of_is_sound(items: Seq<MarkedDrawingView>)
    ensures
        layer_sound(layer_of(items)),
        !layer_of(items).default,
    decreases items.len(),
{
    if items.len() > 0 {
        lemma_layer_of_is_sound(items.drop_last());
        let before = layer_of(items.drop_last());
        let after = layer_of(items);
        let name = items.last().drawing.name;
        assert forall|glyph: NameView| #[trigger] after.color_marks.contains_key(glyph) implies after.glyphs.contains_key(
            glyph,
        ) by {
            if glyph != name {
                assert(before.color_marks.contains_key(glyph));
            }
        }
        assert forall|glyph: NameView| #[trigger] after.glyphs.contains_key(glyph) implies after.glyphs[glyph].name
            == glyph by {
            if glyph != name {
                assert(before.glyphs.contains_key(glyph));
            }
        }
    }
}

impl Layer {
    /// The layer that holds the given drawings, each with the color that
    /// its mark gives in its canonical form. A mark that is no color is
    /// dropped.
    pub fn from_drawings(items: Vec<MarkedDrawing>) -> (layer: Layer)
        ensures
            layer@ == layer_of(marked_views(items@)),
            layer_sound(layer@),
            !layer@.default,
    {
        let ghost all = items@;
        let ghost views = marked_views(items@);
        let n = items.len();
        let mut rest = reversed(items);
        let mut layer = Layer::new(false);
        let mut i: usize = 0;
        proof {
            assert(views.take(0) =~= Seq::<MarkedDrawingView>::empty());
        }
        while i < n
            invariant
                i <= n,
                n == all.len(),
                views == marked_views(all),
                rest@.len() == n - i,
                forall|j: int| 0 <= j < rest@.len() ==> rest@[j] == all[all.len() - 1 - j],
                layer@ == layer_of(views.take(i as int)),
            decreases n - i,
        {
            let item = rest.pop().unwrap();
            proof {
                assert(item == all[i as int]);
                let upto = views.take(i as int + 1);
                assert(upto.last() == item@);
                assert(upto.drop_last() =~= views.take(i as int));
            }
            let MarkedDrawing { drawing, mark } = item;
            let name = drawing.name.clone();
            let color = match mark {
                Some(text) => canonical_color(text.as_str()),
                None => None,
            };
            match color {
                Some(color) => {
                    layer.color_marks.insert(name.clone(), color);
                },
                None => {
                    layer.color_marks.remove(name.as_str());
                },
            }
            layer.glyphs.insert(name, drawing);
            i += 1;
        }
        proof {
            assert(views.take(n as int) =~= views);
            lemma_layer_of_is_sound(views);
        }
        layer
    }

    /// The layer that holds the given outlines: each outline gives a
    /// drawing and a mark, and the layer is the layer of these. The color
    /// that an outline is marked with is taken out of the outline and kept
    /// beside it, in its canonical form; a mark that is no color is dropped.
    pub fn from_outlines(outlines: Vec<norad::Glyph>) -> (layer: Layer)
        ensures
            layer@ == layer_of(marked_seq(outlines@)),
            layer_sound(layer@),
            !layer@.default,
    {
        let ghost all = outlines@;
        let n = outlines.len();
        let mut rest = reversed(outlines);
        let mut items: Vec<MarkedDrawing> = Vec::new();
        let mut i: usize = 0;
        while i < n
            invariant
                i <= n,
                n == all.len(),
                rest@.len() == n - i,
                forall|j: int| 0 <= j < rest@.len() ==> rest@[j] == all[all.len() - 1 - j],
                items.len() == i,
                forall|j: int| 0 <= j < i ==> (#[trigger] items@[j])@ == marked_of(all[j]),
            decreases n - i,
        {
            let outline = rest.pop().unwrap();
            let (drawing, mark) = Drawing::from_outline(outline);
            items.push(MarkedDrawing { drawing, mark });
            i += 1;
        }
        proof {
            assert(marked_views(items@) =~= marked_seq(all));
        }
        Layer::from_drawings(items)
    }

    /// The layer that holds those of the given outlines whose glyphs are
    /// named in `glyph_names`: the layer of all the outlines, of which the
    /// glyphs with these names and their color marks are kept.
    pub fn from_ufo_layer(outlines: Vec<norad::Glyph>, glyph_names: &NameSet) -> (layer: Layer)
        ensures
            layer@ == restricted_layer(layer_of(marked_seq(outlines@)), glyph_names@),
            layer_sound(layer@),
            !layer@.default,
            layer@.glyphs.dom().subset_of(glyph_names@),
    {
        let mut layer = Layer::from_outlines(outlines);
        layer.retain(glyph_names);
        layer
    }

    /// The outline of the glyph `name`, marked with the color that the
    /// layer has for it. `None` where the layer has no such glyph.
    pub fn export_glyph(&self, name: &str) -> (outline: Option<norad::Glyph>)
        ensures
            outline is Some <==> self@.glyphs.contains_key(name@),
            outline is Some ==> outline == Some(
                exported_outline(self@.glyphs[name@], mark_of(self@, name@)),
            ),
    {
        match self.glyphs.get(name) {
            Some(drawing) => Some(drawing.to_outline(self.color_marks.get(name))),
            None => None,
        }
    }
}

/// The records that a font document gives for `glyphs`.
pub fn extract_glyph_data(doc: &FontDocument, glyphs: &NameSet) -> (records: NameMap<GlyphRecord>)
    ensures
        records@ == extracted_records(doc@, glyphs@),
        records.wf(),
{
    let mut records: NameMap<GlyphRecord> = NameMap::new();
    let n = glyphs.len();
    let mut i: usize = 0;
    proof {
        assert(glyphs.names().take(0) =~= Seq::<NameView>::empty());
        assert(records@ =~= extracted_records(doc@, glyphs.names().take(0).to_set()));
    }
    while i < n
        invariant
            i <= n,
            n == glyphs.names().len(),
            glyphs.wf(),
            records.wf(),
            records@ == extracted_records(doc@, glyphs.names().take(i as int).to_set()),
        decreases n - i,
    {
        let name = glyphs.name_at(i);
        let postscript_name = match doc.postscript_names.get(name.as_str()) {
            Some(text) => Some(text.clone()),
            None => None,
        };
        let codepoints = if doc.layers.len() > 0 {
            match doc.layers[0].layer.glyphs.get(name.as_str()) {
                Some(drawing) => dedup_chars(&drawing.codepoints),
                None => Vec::new(),
            }
        } else {
            Vec::new()
        };
        let opentype_category = match doc.opentype_categories.get(name.as_str()) {
            Some(text) => match OpenTypeCategory::from_str(text.as_str()) {
                Ok(category) => category,
                Err(_) => OpenTypeCategory::Unassigned,
            },
            None => OpenTypeCategory::Unassigned,
        };
        let export = !doc.skip_export_glyphs.contains(name.as_str());
        let record = GlyphRecord { postscript_name, codepoints, opentype_category, export };
        proof {
            assert(record@.codepoints =~= extracted_record(doc@, name@).codepoints);
            assert(record@ == extracted_record(doc@, name@));
        }
        records.insert(name.clone(), record);
        proof {
            assert(glyphs.names().take(i as int + 1) =~= glyphs.names().take(i as int).push(
                glyphs.names()[i as int],
            ));
            crate::name_set::lemma_to_set_push(glyphs.names().take(i as int), glyphs.names()[i as int]);
            assert(records@ =~= extracted_records(doc@, glyphs.names().take(i as int + 1).to_set()));
        }
        i += 1;
    }
    proof {
        assert(glyphs.names().take(n as int) =~= glyphs.names());
        assert(glyphs.names().to_set() =~= glyphs@);
    }
    records
}

/// The map that the entries of a table give. An entry whose value is no
/// text gives nothing; of two entries for one glyph the earlier counts.
pub open spec fn table_of_entries(entries: Seq<(Seq<char>, Option<Seq<char>>)>) -> Map<
    NameView,
    Seq<char>,
>
    decreases entries.len(),
{
    if entries.len() == 0 {
        Map::empty()
    } else {
        let rest = table_of_entries(entries.drop_first());
        match entries[0].1 {
            Some(text) => rest.insert(entries[0].0, text),
            None => rest,
        }
    }
}

/// The names that the items of a list give. An item that is no text gives
/// none.
pub open spec fn names_of_items(items: Seq<Option<Seq<char>>>) -> Set<NameView> {
    Set::new(|name: NameView| exists|i: int| 0 <= i < items.len() && #[trigger] items[i] == Some(name))
}

/// The table of a font for single glyphs, as a map. An entry whose value
/// is no text is left out.
pub fn table_of(entries: Vec<(String, Option<String>)>) -> (table: NameMap<String>)
    ensures
        table@ == table_of_entries(entries.deep_view()),
{
    let ghost all = entries.deep_view();
    let mut entries = entries;
    let mut table: NameMap<String> = NameMap::new();
    proof {
        assert(all.skip(all.len() as int) =~= Seq::<(Seq<char>, Option<Seq<char>>)>::empty());
    }
    while entries.len() > 0
        invariant
            entries.len() <= all.len(),
            entries.deep_view() == all.take(entries.len() as int),
            table@ == table_of_entries(all.skip(entries.len() as int)),
        decreases entries.len(),
    {
        let ghost n = entries.len() as int;
        let ghost before = entries.deep_view();
        let (key, value) = entries.pop().unwrap();
        proof {
            assert(before[n - 1] == (key@, value.deep_view()));
            assert(all[n - 1] == before[n - 1]);
            assert(entries.deep_view() =~= all.take(n - 1));
            let rest = all.skip(n - 1);
            assert(rest[0] == all[n - 1]);
            assert(rest.drop_first() =~= all.skip(n));
        }
        match value {
            Some(text) => {
                table.insert(key, text);
            },
            None => {},
        }
    }
    proof {
        assert(all.skip(0) =~= all);
    }
    table
}

/// The texts of a list as a set of names. An item that is no text is left
/// out.
pub fn names_of(items: Vec<Option<String>>) -> (names: NameSet)
    ensures
        names@ == names_of_items(items.deep_view()),
{
    let ghost all = items.deep_view();
    let mut items = items;
    let mut names = NameSet::new();
    proof {
        assert(names@ =~= names_of_items(all.skip(all.len() as int)));
    }
    while items.len() > 0
        invariant
            items.len() <= all.len(),
            items.deep_view() == all.take(items.len() as int),
            names@ == names_of_items(all.skip(items.len() as int)),
        decreases items.len(),
    {
        let ghost n = items.len() as int;
        let ghost before = items.deep_view();
        let ghost found = names@;
        let item = items.pop().unwrap();
        proof {
            assert(before[n - 1] == item.deep_view());
            assert(all[n - 1] == before[n - 1]);
            assert(items.deep_view() =~= all.take(n - 1));
        }
        match item {
            Some(text) => {
                names.insert(text);
            },
            None => {},
        }
        proof {
            let now = all.skip(n - 1);
            let rest = all.skip(n);
            assert forall|name: NameView| names@.contains(name) <==> names_of_items(now).contains(
                name,
            ) by {
                if names_of_items(now).contains(name) {
                    let i = choose|i: int| 0 <= i < now.len() && #[trigger] now[i] == Some(name);
                    if i > 0 {
                        assert(rest[i - 1] == now[i]);
                    }
                }
                if found.contains(name) {
                    let i = choose|i: int| 0 <= i < rest.len() && #[trigger] rest[i] == Some(name);
                    assert(now[i + 1] == rest[i]);
                }
                if all[n - 1] == Some(name) {
                    assert(now[0] == all[n - 1]);
                }
            }
            assert(names@ =~= names_of_items(now));
        }
    }
    proof {
        assert(all.skip(0) =~= all);
    }
    names
}

/// The name of a source that a style name gives: the style name, where
/// there is one and it may be a name.
pub fn source_name_of(style_name: Option<String>) -> (name: Option<String>)
    ensures
        name.deep_view() == source_name_given(style_name.deep_view()),
{
    match style_name {
        Some(text) => if is_valid_name(text.as_str()) {
            Some(text)
        } else {
            None
        },
        None => None,
    }
}

/// A name for the source that a font contributes: the style name of the
/// font, where it has one that may be a name.
pub fn guess_source_name(font: &norad::Font) -> (name: Option<String>)
    ensures
        name.deep_view() == source_name_given(font_style(*font)),
        name matches Some(text) ==> valid_name(text@),
{
    source_name_of(font_style_name(font))
}

impl FontDocument {
    /// Reads a font of the font-object library: its layers with the default
    /// layer first, the tables `public.postscriptNames` and
    /// `public.openTypeCategories`, and the list `public.skipExportGlyphs`.
    pub fn from_font(font: &norad::Font) -> (doc: FontDocument)
        ensures
            doc@ == document_of_font(*font),
            doc@.layers.len() > 0,
            forall|i: int| 0 <= i < doc@.layers.len() ==> layer_sound((#[trigger] doc@.layers[i]).layer),
    {
        let names = font_layer_names(font);
        let mut layers: Vec<DocumentLayer> = Vec::new();
        let mut i: usize = 0;
        while i < names.len()
            invariant
                i <= names.len(),
                layers.len() == i,
                names.deep_view() == font_layers(*font),
                forall|j: int|
                    0 <= j < layers.len() ==> layer_sound((#[trigger] layers@[j])@.layer)
                        && layers@[j]@.layer == layer_of(marked_seq(font_layer_glyphs(*font, j)))
                        && layers@[j]@.name == font_layers(*font)[j],
            decreases names.len() - i,
        {
            let layer = Layer::from_outlines(font_layer_outlines(font, i));
            proof {
                assert(names.deep_view()[i as int] == names[i as int]@);
            }
            layers.push(DocumentLayer { name: names[i].clone(), layer });
            i += 1;
        }
        let doc = FontDocument {
            layers,
            postscript_names: table_of(font_lib_table(font, "public.postscriptNames")),
            opentype_categories: table_of(font_lib_table(font, "public.openTypeCategories")),
            skip_export_glyphs: names_of(font_lib_list(font, "public.skipExportGlyphs")),
        };
        proof {
            assert(doc@.layers.len() == names.deep_view().len());
            assert forall|i: int| 0 <= i < doc@.layers.len() implies #[trigger] doc@.layers[i]
                == document_of_font(*font).layers[i] by {
                assert(doc@.layers[i] == doc.layers@[i]@);
            }
            assert(doc@.layers =~= document_of_font(*font).layers);
        }
        doc
    }

    /// Builds a font of the font-object library that holds the layers of
    /// the document, each glyph marked with the color that its layer has for
    /// it. The first layer becomes the default layer of the font. The tables
    /// of the document are not written.
    ///
    /// Fails where the document cannot be built: where the font-object
    /// library does not take the name of a layer, or finds no name for the
    /// directory of a layer or for the file of a glyph. The error names the
    /// layer.
    pub fn to_font(&self) -> (r: Result<norad::Font, ExportError>)
        ensures
            r is Ok <==> buildable(self@),
            r matches Ok(font) ==> holds_document(font, self@),
            r matches Err(ExportError::Other(name)) ==> names_layer(self@, name@),
    {
        let mut font = new_font();
        let ghost names = layer_names(self@);
        let mut dirs = NameProbe { taken: NameSet::new(), asked: 0, forced: false };
        let n = self.layers.len();
        let mut i: usize = 0;
        proof {
            assert(names.take(0) =~= Seq::<Seq<char>>::empty());
        }
        while i < n
            invariant
                i <= n,
                n == self.layers.len(),
                names == layer_names(self@),
                forall|j: int| 0 <= j < i ==> #[trigger] layer_name_fits(names, j),
                dirs_taken_after(names, i as int) == Some(dirs.taken@),
                font_dirs_taken(font) == dirs.taken@,
                font_layers(font) == if i == 0 {
                    seq![default_layer_name()]
                } else {
                    names.take(i as int)
                },
                i == 0 ==> font_files_taken(font, default_layer_name()) == Set::<Seq<char>>::empty(),
                i == 0 ==> font_glyph_names(font, default_layer_name()) == Set::<Seq<char>>::empty(),
                forall|j: int| 0 <= j < i ==> files_found((#[trigger] self@.layers[j]).layer),
                forall|j: int|
                    0 <= j < i ==> font_glyph_names(font, (#[trigger] self@.layers[j]).name)
                        == carried_names(self@.layers[j].layer).to_set(),
            decreases n - i,
        {
            let name = &self.layers[i].name;
            let layer = &self.layers[i].layer;
            proof {
                assert(self@.layers[i as int] == self.layers[i as int]@);
                assert(names[i as int] == name@);
                assert(names.take(i as int + 1) =~= names.take(i as int).push(name@));
            }
            if i == 0 {
                if !same_name(name.as_str(), "public.default") {
                    if !font_rename_default_layer(&mut font, name.as_str()) {
                        proof {
                            assert(seq![default_layer_name()][0] == default_layer_name());
                            assert(!seq![default_layer_name()].contains(name@)) by {
                                if seq![default_layer_name()].contains(name@) {
                                    let k = choose|k: int|
                                        0 <= k < 1 && seq![default_layer_name()][k] == name@;
                                }
                            }
                            assert(!layer_name_fits(names, 0));
                        }
                        return Err(ExportError::Other(name.clone()));
                    }
                    proof {
                        assert(!seq![default_layer_name()].contains(name@)) by {
                            if seq![default_layer_name()].contains(name@) {
                                let k = choose|k: int| 0 <= k < 1 && seq![default_layer_name()][k] == name@;
                            }
                        }
                        assert(seq![default_layer_name()].update(0, name@) =~= names.take(1));
                    }
                } else {
                    proof {
                        assert(seq![default_layer_name()] =~= names.take(1));
                    }
                }
                proof {
                    assert(layer_name_fits(names, 0));
                }
            } else {
                match dirs.find(name.as_str(), "glyphs.", "") {
                    None => {
                        proof {
                            assert(dirs_taken_after(names, i as int + 1) is None);
                            lemma_no_dir_stays(names, i as int + 1, n as int);
                        }
                        return Err(ExportError::Other(name.clone()));
                    },
                    Some(dir) => {
                        if !font_add_layer(&mut font, name.as_str()) {
                            proof {
                                assert(!layer_name_fits(names, i as int));
                            }
                            return Err(ExportError::Other(name.clone()));
                        }
                        dirs.taken.insert(to_lowercase(dir.as_str()));
                        proof {
                            assert(layer_name_fits(names, i as int));
                        }
                    },
                }
            }
            proof {
                assert forall|j: int| 0 <= j < i implies (#[trigger] self@.layers[j]).name != name@ by {
                    assert(names.take(i as int)[j] == names[j]);
                    assert(names[j] == self@.layers[j].name);
                }
            }
            let mut files = NameProbe { taken: NameSet::new(), asked: 0, forced: false };
            let mut filed = NameSet::new();
            layer.glyphs.known();
            let ghost carried = carried_names(self@.layers[i as int].layer);
            proof {
                layer.glyphs.lemma_keys_in_order();
                assert(carried.take(0) =~= Seq::<Seq<char>>::empty());
                assert(filed@ =~= carried.take(0).to_set());
            }
            let m = layer.glyphs.len();
            let mut g: usize = 0;
            while g < m
                invariant
                    g <= m,
                    0 <= i < n,
                    n == self.layers.len(),
                    names == layer_names(self@),
                    name == self.layers[i as int].name,
                    layer == self.layers[i as int].layer,
                    names[i as int] == name@,
                    self@.layers[i as int] == self.layers[i as int]@,
                    layer.glyphs.wf(),
                    layer.glyphs.keys() == ascending_keys(layer@.glyphs.dom()),
                    carried == carried_names(self@.layers[i as int].layer),
                    m == carried.len(),
                    m == layer.glyphs.keys().len(),
                    files_taken_after(carried, g as int) == Some(files.taken@),
                    filed@ == carried.take(g as int).to_set(),
                    font_files_taken(font, name@) == files.taken@,
                    font_glyph_names(font, name@) == filed@,
                    font_layers(font) == names.take(i as int + 1),
                    font_dirs_taken(font) == dirs.taken@,
                    layer_name_fits(names, i as int),
                    forall|j: int|
                        0 <= j < i ==> font_glyph_names(font, (#[trigger] self@.layers[j]).name)
                            == carried_names(self@.layers[j].layer).to_set(),
                decreases m - g,
            {
                let key = layer.glyphs.key_at(g);
                let color = layer.color_marks.get(key.as_str());
                let outline = layer.glyphs.value_at(g).to_outline(color);
                let carried_name = outline_name(&outline);
                proof {
                    assert(layer@.glyphs[layer.glyphs.keys()[g as int]] == layer.glyphs.values()[g as int]@);
                    assert(color.deep_view() == mark_of(layer@, key@));
                    assert(carried[g as int] == carried_name@);
                    assert(carried.take(g as int + 1) =~= carried.take(g as int).push(carried[g as int]));
                    crate::name_set::lemma_to_set_push(carried.take(g as int), carried[g as int]);
                    assert(names.take(i as int + 1)[i as int] == name@);
                    assert forall|j: int| 0 <= j < i implies (#[trigger] self@.layers[j]).name != name@ by {
                        assert(names.take(i as int)[j] == names[j]);
                        assert(names[j] == self@.layers[j].name);
                    }
                }
                if !filed.contains(carried_name.as_str()) {
                    match files.find(carried_name.as_str(), "", ".glif") {
                        None => {
                            proof {
                                assert(files_taken_after(carried, g as int + 1) is None);
                                lemma_no_file_stays(carried, g as int + 1, m as int);
                                assert(!files_found(self@.layers[i as int].layer));
                            }
                            return Err(ExportError::Other(name.clone()));
                        },
                        Some(file) => {
                            let put = font_put_glyph(&mut font, name.as_str(), outline);
                            assert(put);
                            files.taken.insert(to_lowercase(file.as_str()));
                            filed.insert(carried_name);
                        },
                    }
                } else {
                    let put = font_put_glyph(&mut font, name.as_str(), outline);
                    assert(put);
                    proof {
                        assert(filed@.insert(carried_name@) =~= filed@);
                    }
                }
                g += 1;
            }
            proof {
                assert(files_found(self@.layers[i as int].layer));
                assert(carried.take(m as int) =~= carried);
            }
            i += 1;
        }
        proof {
            assert(names.take(n as int) =~= names);
            assert(buildable(self@));
        }
        Ok(font)
    }
}

} // verus!
