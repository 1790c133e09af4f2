//! Exporting font documents from the repository.
//!
//! The sources of the same name are gathered from all sets, the glyphs that
//! are asked for are expanded to their composite closure in what was
//! gathered, and each source that draws one of them becomes a document.

use vstd::prelude::*;
use vstd::string::StringExecFns;
use crate::closure::{closure, glyphset_follow_composites};
use crate::document::{
    buildable, holds_document, names_layer, DocumentLayer, DocumentLayerView, FontDocument, FontDocumentView,
};
use crate::errors::ExportError;
use crate::model::{
    empty_layer, layer_or_new, merged_layer, restricted_layer, Fontgarden, FontgardenView, GlyphSet,
    GlyphSetView, Layer, LayerView, Source, SourceView,
};
use crate::name_map::{ascending_keys, values_in_order, Duplicate, NameMap};
use crate::name_set::{lemma_to_set_push, NameSet};
use crate::names::NameView;

verus! {

/// A source without layers.
pub open spec fn empty_source() -> SourceView {
    SourceView { layers: Map::empty() }
}

/// `base` with the glyphs and color marks of `added`; where both have a
/// name, those of `added`. The flag is that of `added`.
pub open spec fn joined_layer(base: LayerView, added: LayerView) -> LayerView {
    LayerView {
        glyphs: base.glyphs.union_prefer_right(added.glyphs),
        color_marks: base.color_marks.union_prefer_right(added.color_marks),
        default: added.default,
    }
}

/// `gathered` with the layers of `source` joined to its layers of the same
/// names.
pub open spec fn joined_source(gathered: SourceView, source: SourceView) -> SourceView {
    SourceView {
        layers: Map::new(
            |layer: NameView| gathered.layers.contains_key(layer) || source.layers.contains_key(layer),
            |layer: NameView|
                if source.layers.contains_key(layer) {
                    joined_layer(layer_or_new(gathered, layer), source.layers[layer])
                } else {
                    gathered.layers[layer]
                },
        ),
    }
}

/// The source of the given name among `gathered`, or a source without
/// layers.
pub open spec fn gathered_or_empty(gathered: Map<NameView, SourceView>, source: NameView) -> SourceView {
    if gathered.contains_key(source) {
        gathered[source]
    } else {
        empty_source()
    }
}

/// `gathered` with each source of `sources` whose name is in `wanted`
/// joined to the source of the same name.
pub open spec fn joined_sources(
    gathered: Map<NameView, SourceView>,
    sources: Map<NameView, SourceView>,
    wanted: Set<NameView>,
) -> Map<NameView, SourceView> {
    Map::new(
        |source: NameView|
            gathered.contains_key(source) || (wanted.contains(source) && sources.contains_key(source)),
        |source: NameView|
            if wanted.contains(source) && sources.contains_key(source) {
                joined_source(gathered_or_empty(gathered, source), sources[source])
            } else {
                gathered[source]
            },
    )
}

/// The sources whose names are in `wanted`, gathered from the sets in
/// their order.
pub open spec fn assembled_from(sets: Seq<GlyphSetView>, wanted: Set<NameView>) -> Map<NameView, SourceView>
    decreases sets.len(),
{
    if sets.len() == 0 {
        Map::empty()
    } else {
        joined_sources(assembled_from(sets.drop_last(), wanted), sets.last().sources, wanted)
    }
}

/// The sources whose names are in `wanted`, gathered from the sets of the
/// repository in the order of their names.
pub open spec fn assembled(garden: FontgardenView, wanted: Set<NameView>) -> Map<NameView, SourceView> {
    assembled_from(values_in_order(garden.sets), wanted)
}

/// `names` expanded layer by layer: the closure in the first layer, the
/// closure of that in the second, and so on.
pub open spec fn closed_over_layers(layers: Seq<LayerView>, names: Set<NameView>) -> Set<NameView>
    decreases layers.len(),
{
    if layers.len() == 0 {
        names
    } else {
        closure(layers.last().glyphs, closed_over_layers(layers.drop_last(), names))
    }
}

/// `names` expanded source by source, in each through its layers in the
/// order of their names.
pub open spec fn closed_over_sources(sources: Seq<SourceView>, names: Set<NameView>) -> Set<NameView>
    decreases sources.len(),
{
    if sources.len() == 0 {
        names
    } else {
        closed_over_layers(
            values_in_order(sources.last().layers),
            closed_over_sources(sources.drop_last(), names),
        )
    }
}

/// The glyphs to export: `requested` expanded through the gathered sources
/// in the order of their names.
pub open spec fn closed_names(gathered: Map<NameView, SourceView>, requested: Set<NameView>) -> Set<
    NameView,
> {
    closed_over_sources(values_in_order(gathered), requested)
}

/// Whether the layer has a glyph among `names`.
pub open spec fn draws_any(layer: LayerView, names: Set<NameView>) -> bool {
    !(restricted_layer(layer, names).glyphs.dom() =~= Set::<NameView>::empty())
}

/// The default layer of the document of a source: the glyphs `names` of
/// the layers that are flagged as default, under the name of the last of
/// them that has such glyphs; an empty layer named `public.default` where
/// none has.
pub open spec fn default_layer_of(source: SourceView, keys: Seq<NameView>, names: Set<NameView>) -> DocumentLayerView
    decreases keys.len(),
{
    if keys.len() == 0 {
        DocumentLayerView { name: "public.default"@, layer: empty_layer(true) }
    } else {
        let before = default_layer_of(source, keys.drop_last(), names);
        let layer = source.layers[keys.last()];
        if layer.default && draws_any(layer, names) {
            DocumentLayerView {
                name: keys.last(),
                layer: merged_layer(before.layer, restricted_layer(layer, names)),
            }
        } else {
            before
        }
    }
}

/// The other layers of the document of a source: the glyphs `names` of
/// each layer that is not flagged as default and has such glyphs.
pub open spec fn other_layers_of(source: SourceView, keys: Seq<NameView>, names: Set<NameView>) -> Seq<
    DocumentLayerView,
>
    decreases keys.len(),
{
    if keys.len() == 0 {
        Seq::empty()
    } else {
        let before = other_layers_of(source, keys.drop_last(), names);
        let layer = source.layers[keys.last()];
        if !layer.default && draws_any(layer, names) {
            before.push(DocumentLayerView { name: keys.last(), layer: restricted_layer(layer, names) })
        } else {
            before
        }
    }
}

/// Whether a layer of the source has a glyph among `names`.
pub open spec fn source_draws_any(source: SourceView, names: Set<NameView>) -> bool {
    exists|layer: NameView| #[trigger]
        source.layers.contains_key(layer) && draws_any(source.layers[layer], names)
}

/// The document of a source, of its glyphs `names`: the default layer
/// first, then the other layers that have such glyphs in the order of their
/// names. The tables of the document are empty.
pub open spec fn document_of(source: SourceView, names: Set<NameView>) -> FontDocumentView {
    let keys = ascending_keys(source.layers.dom());
    FontDocumentView {
        layers: seq![default_layer_of(source, keys, names)] + other_layers_of(source, keys, names),
        postscript_names: Map::empty(),
        opentype_categories: Map::empty(),
        skip_export_glyphs: Set::empty(),
    }
}

/// The documents of the gathered sources that draw one of the glyphs
/// `names`.
pub open spec fn documents_of(gathered: Map<NameView, SourceView>, names: Set<NameView>) -> Map<
    NameView,
    FontDocumentView,
> {
    Map::new(
        |source: NameView| gathered.contains_key(source) && source_draws_any(gathered[source], names),
        |source: NameView| document_of(gathered[source], names),
    )
}

/// The documents that an export gives: one for each source with a name in
/// `source_names` that draws one of the glyphs `glyph_names` or one of the
/// glyphs that these depend on.
pub open spec fn exported(
    garden: FontgardenView,
    glyph_names: Set<NameView>,
    source_names: Set<NameView>,
) -> Map<NameView, FontDocumentView> {
    let gathered = assembled(garden, source_names);
    documents_of(gathered, closed_names(gathered, glyph_names))
}

/// A font of the font-object library, with the name of the source that it
/// was exported from.
#[derive(Debug, PartialEq)]
pub struct ExportedFont {
    pub name: String,
    pub font: norad::Font,
}

impl ExportedFont {
    /// The name of the directory that the font is written to: the name of
    /// its source, and `.ufo`.
    pub fn file_name(&self) -> (name: String)
        ensures
            name@ == self.name@ + ".ufo"@,
    {
        let mut name = self.name.clone();
        name.append(".ufo");
        name
    }
}

/// Joins the layers of `source` to the layers of `gathered`.
fn join_source(gathered: &mut Source, source: &Source)
    ensures
        final(gathered)@ == joined_source(old(gathered)@, source@),
{
    let n = source.layers.len();
    let ghost start = gathered@;
    let ghost keys = source.layers.keys();
    let mut i: usize = 0;
    proof {
        assert(keys.take(0) =~= Seq::<NameView>::empty());
        assert(gathered@.layers =~= joined_source(
            start,
            SourceView { layers: source@.layers.restrict(keys.take(0).to_set()) },
        ).layers);
    }
    while i < n
        invariant
            i <= n,
            n == source.layers.keys().len(),
            keys == source.layers.keys(),
            source.layers.wf(),
            gathered@ == joined_source(
                start,
                SourceView { layers: source@.layers.restrict(keys.take(i as int).to_set()) },
            ),
        decreases n - i,
    {
        let name = source.layers.key_at(i);
        let layer = source.layers.value_at(i);
        let ghost before = gathered@;
        let copy = layer.duplicate();
        let target = gathered.get_or_create_layer(name.clone());
        target.absorb(copy);
        target.default = layer.default;
        proof {
            assert(keys.take(i as int + 1) =~= keys.take(i as int).push(keys[i as int]));
            lemma_to_set_push(keys.take(i as int), keys[i as int]);
            assert(!keys.take(i as int).to_set().contains(keys[i as int])) by {
                if keys.take(i as int).to_set().contains(keys[i as int]) {
                    let j = choose|j: int| 0 <= j < i && keys.take(i as int)[j] == keys[i as int];
                    crate::name_map::lemma_ascending_unique(keys, j, i as int);
                }
            }
            assert(source@.layers[keys[i as int]] == layer@);
            assert(gathered@.layers =~= joined_source(
                start,
                SourceView { layers: source@.layers.restrict(keys.take(i as int + 1).to_set()) },
            ).layers);
        }
        i += 1;
    }
    proof {
        assert(keys.take(n as int) =~= keys);
        assert(source@.layers.restrict(keys.to_set()) =~= source@.layers);
    }
}

/// Joins each source of `set` whose name is in `wanted` to the source of
/// the same name among `gathered`.
fn join_sources(gathered: &mut NameMap<Source>, set: &GlyphSet, wanted: &NameSet)
    ensures
        final(gathered)@ == joined_sources(old(gathered)@, set@.sources, wanted@),
        final(gathered).wf(),
{
    let n = set.sources.len();
    let ghost start = gathered@;
    let ghost keys = set.sources.keys();
    let mut i: usize = 0;
    proof {
        assert(keys.take(0) =~= Seq::<NameView>::empty());
        assert(gathered@ =~= joined_sources(
            start,
            set@.sources.restrict(keys.take(0).to_set()),
            wanted@,
        ));
    }
    gathered.known();
    while i < n
        invariant
            i <= n,
            n == set.sources.keys().len(),
            keys == set.sources.keys(),
            set.sources.wf(),
            gathered.wf(),
            gathered@ == joined_sources(
                start,
                set@.sources.restrict(keys.take(i as int).to_set()),
                wanted@,
            ),
        decreases n - i,
    {
        let name = set.sources.key_at(i);
        let source = set.sources.value_at(i);
        let ghost before = gathered@;
        if wanted.contains(name.as_str()) {
            let at = match gathered.position(name.as_str()) {
                Some(at) => at,
                None => {
                    gathered.insert(name.clone(), Source { layers: NameMap::new() });
                    gathered.position(name.as_str()).unwrap()
                },
            };
            let ghost middle = gathered@;
            proof {
                assert(middle[gathered.keys()[at as int]] == gathered.values()[at as int]@);
                assert(middle[name@] == gathered_or_empty(before, name@));
                assert(forall|v: SourceView| #[trigger] middle.insert(name@, v) =~= before.insert(name@, v));
            }
            let target = gathered.value_at_mut(at);
            join_source(target, source);
        }
        proof {
            assert(keys.take(i as int + 1) =~= keys.take(i as int).push(keys[i as int]));
            lemma_to_set_push(keys.take(i as int), keys[i as int]);
            assert(!keys.take(i as int).to_set().contains(keys[i as int])) by {
                if keys.take(i as int).to_set().contains(keys[i as int]) {
                    let j = choose|j: int| 0 <= j < i && keys.take(i as int)[j] == keys[i as int];
                    crate::name_map::lemma_ascending_unique(keys, j, i as int);
                }
            }
            assert(set@.sources[keys[i as int]] == source@);
            assert(gathered@ =~= joined_sources(
                start,
                set@.sources.restrict(keys.take(i as int + 1).to_set()),
                wanted@,
            ));
        }
        i += 1;
    }
    proof {
        assert(keys.take(n as int) =~= keys);
        assert(set@.sources.restrict(keys.to_set()) =~= set@.sources);
    }
}

/// `names` expanded through the layers of a source in the order of their
/// names.
fn close_over_source(source: &Source, names: NameSet) -> (closed: NameSet)
    ensures
        closed@ == closed_over_layers(values_in_order(source@.layers), names@),
        closed.wf(),
{
    let n = source.layers.len();
    let mut closed = names.duplicate();
    let ghost layers = values_in_order(source@.layers);
    proof {
        source.layers.lemma_keys_in_order();
        assert(layers.take(0) =~= Seq::<LayerView>::empty());
    }
    let mut i: usize = 0;
    while i < n
        invariant
            i <= n,
            n == source.layers.keys().len(),
            source.layers.wf(),
            layers == Seq::new(source.layers.keys().len(), |j: int| source.layers.values()[j]@),
            closed.wf(),
            closed@ == closed_over_layers(layers.take(i as int), names@),
        decreases n - i,
    {
        proof {
            let upto = layers.take(i as int + 1);
            assert(upto.last() == source.layers.values()[i as int]@);
            assert(upto.drop_last() =~= layers.take(i as int));
        }
        closed = glyphset_follow_composites(&closed, &source.layers.value_at(i).glyphs);
        i += 1;
    }
    proof {
        assert(layers.take(n as int) =~= layers);
    }
    closed
}

/// The document of a source, of its glyphs `names`; `None` where no layer
/// of the source has such a glyph.
fn document_of_source(source: &Source, names: &NameSet) -> (doc: Option<FontDocument>)
    ensures
        doc is Some <==> source_draws_any(source@, names@),
        doc matches Some(d) ==> d@ == document_of(source@, names@),
{
    let n = source.layers.len();
    let ghost keys = source.layers.keys();
    proof {
        source.layers.lemma_keys_in_order();
        assert(keys.take(0) =~= Seq::<NameView>::empty());
    }
    let mut default_layer = DocumentLayer { name: "public.default".to_string(), layer: Layer::new(true) };
    let mut others: Vec<DocumentLayer> = Vec::new();
    let mut any = false;
    let mut i: usize = 0;
    while i < n
        invariant
            i <= n,
            n == keys.len(),
            keys == source.layers.keys(),
            source.layers.wf(),
            default_layer@ == default_layer_of(source@, keys.take(i as int), names@),
            crate::document::layer_views(others@) == other_layers_of(source@, keys.take(i as int), names@),
            any <==> exists|j: int|
                0 <= j < i && draws_any(source@.layers[#[trigger] keys[j]], names@),
        decreases n - i,
    {
        let name = source.layers.key_at(i);
        let layer = source.layers.value_at(i);
        let part = layer.restricted(names);
        proof {
            let upto = keys.take(i as int + 1);
            assert(upto.last() == keys[i as int]);
            assert(upto.drop_last() =~= keys.take(i as int));
            assert(source@.layers[keys[i as int]] == layer@);
        }
        let ghost others_before = crate::document::layer_views(others@);
        if !part.glyphs.is_empty() {
            any = true;
            if layer.default {
                default_layer.layer.absorb(part);
                default_layer.name = name.clone();
            } else {
                others.push(DocumentLayer { name: name.clone(), layer: part });
                proof {
                    assert(crate::document::layer_views(others@) =~= others_before.push(
                        DocumentLayerView { name: name@, layer: part@ },
                    ));
                }
            }
        }
        proof {
            assert(crate::document::layer_views(others@) =~= other_layers_of(
                source@,
                keys.take(i as int + 1),
                names@,
            ));
        }
        i += 1;
    }
    proof {
        assert(keys.take(n as int) =~= keys);
        if any {
            let j = choose|j: int| 0 <= j < n && draws_any(source@.layers[#[trigger] keys[j]], names@);
            assert(source@.layers.contains_key(keys[j]));
        }
        if source_draws_any(source@, names@) {
            let layer = choose|layer: NameView| #[trigger]
                source@.layers.contains_key(layer) && draws_any(source@.layers[layer], names@);
            assert(keys.to_set().contains(layer));
            let j = choose|j: int| 0 <= j < keys.len() && keys[j] == layer;
            assert(draws_any(source@.layers[keys[j]], names@));
        }
    }
    if !any {
        return None;
    }
    let mut layers: Vec<DocumentLayer> = Vec::new();
    layers.push(default_layer);
    let ghost first = layers@;
    layers.append(&mut others);
    let doc = FontDocument {
        layers,
        postscript_names: NameMap::new(),
        opentype_categories: NameMap::new(),
        skip_export_glyphs: NameSet::new(),
    };
    proof {
        assert(doc@.layers =~= document_of(source@, names@).layers);
    }
    Some(doc)
}

impl Fontgarden {
    /// The sources whose names are in `source_names`, gathered from all
    /// sets: the layers of the sources of one name are joined, layer name
    /// by layer name, in the order of the names of the sets.
    pub fn assemble_sources(&self, source_names: &NameSet) -> (gathered: NameMap<Source>)
        ensures
            gathered@ == assembled(self@, source_names@),
            gathered.wf(),
    {
        let n = self.sets.len();
        let mut gathered: NameMap<Source> = NameMap::new();
        let ghost sets = values_in_order(self@.sets);
        proof {
            self.sets.lemma_keys_in_order();
            assert(sets.take(0) =~= Seq::<GlyphSetView>::empty());
        }
        let mut i: usize = 0;
        while i < n
            invariant
                i <= n,
                n == self.sets.keys().len(),
                self.sets.wf(),
                sets == Seq::new(self.sets.keys().len(), |j: int| self.sets.values()[j]@),
                gathered.wf(),
                gathered@ == assembled_from(sets.take(i as int), source_names@),
            decreases n - i,
        {
            proof {
                let upto = sets.take(i as int + 1);
                assert(upto.last() == self.sets.values()[i as int]@);
                assert(upto.drop_last() =~= sets.take(i as int));
            }
            join_sources(&mut gathered, self.sets.value_at(i), source_names);
            i += 1;
        }
        proof {
            assert(sets.take(n as int) =~= sets);
        }
        gathered
    }

    /// The documents of an export.
    ///
    /// The sources whose names are in `source_names` are gathered from all
    /// sets. The glyphs `glyph_names` are expanded to their composite closure
    /// in what was gathered. Each gathered source that draws one of these
    /// glyphs gives a document, which holds these glyphs and no others.
    pub fn export_documents(&self, glyph_names: &NameSet, source_names: &NameSet) -> (docs: NameMap<
        FontDocument,
    >)
        ensures
            docs@ == exported(self@, glyph_names@, source_names@),
            docs.wf(),
    {
        let gathered = self.assemble_sources(source_names);
        let n = gathered.len();
        let ghost sources = values_in_order(gathered@);
        let ghost keys = gathered.keys();
        proof {
            gathered.lemma_keys_in_order();
            assert(sources.take(0) =~= Seq::<SourceView>::empty());
        }
        let mut names = glyph_names.duplicate();
        let mut i: usize = 0;
        while i < n
            invariant
                i <= n,
                n == gathered.keys().len(),
                gathered.wf(),
                sources == Seq::new(gathered.keys().len(), |j: int| gathered.values()[j]@),
                names.wf(),
                names@ == closed_over_sources(sources.take(i as int), glyph_names@),
            decreases n - i,
        {
            proof {
                let upto = sources.take(i as int + 1);
                assert(upto.last() == gathered.values()[i as int]@);
                assert(upto.drop_last() =~= sources.take(i as int));
            }
            names = close_over_source(gathered.value_at(i), names);
            i += 1;
        }
        proof {
            assert(sources.take(n as int) =~= sources);
            assert(names@ == closed_names(gathered@, glyph_names@));
        }
        let mut docs: NameMap<FontDocument> = NameMap::new();
        let ghost found = gathered@;
        let ghost wanted = names@;
        let ghost goal = documents_of(found, wanted);
        let mut i: usize = 0;
        proof {
            assert(keys.take(0) =~= Seq::<NameView>::empty());
            assert(docs@ =~= goal.restrict(keys.take(0).to_set()));
        }
        while i < n
            invariant
                i <= n,
                n == keys.len(),
                keys == gathered.keys(),
                gathered.wf(),
                found == gathered@,
                wanted == names@,
                goal == documents_of(found, wanted),
                docs.wf(),
                docs@ == goal.restrict(keys.take(i as int).to_set()),
            decreases n - i,
        {
            let name = gathered.key_at(i);
            let source = gathered.value_at(i);
            let ghost before = docs@;
            let ghost key = keys[i as int];
            proof {
                assert(found.contains_key(key));
                assert(found[key] == source@);
            }
            match document_of_source(source, &names) {
                Some(doc) => {
                    docs.insert(name.clone(), doc);
                },
                None => {},
            }
            proof {
                assert(keys.take(i as int + 1) =~= keys.take(i as int).push(key));
                lemma_to_set_push(keys.take(i as int), key);
                let upto = keys.take(i as int + 1).to_set();
                assert forall|k: NameView| docs@.contains_key(k) <==> goal.restrict(upto).contains_key(
                    k,
                ) by {
                    if k != key {
                        assert(before.contains_key(k) <==> docs@.contains_key(k));
                    }
                }
                assert forall|k: NameView| #[trigger] docs@.contains_key(k) implies docs@[k] == goal.restrict(
                    upto,
                )[k] by {
                    if k != key {
                        assert(before.contains_key(k));
                    }
                }
                assert(docs@ =~= goal.restrict(upto));
            }
            i += 1;
        }
        proof {
            assert(keys.take(n as int) =~= keys);
            assert(goal.restrict(keys.to_set()) =~= goal);
        }
        docs
    }

    /// Exports fonts of the font-object library: the documents of the
    /// export, each built as a font, in the order of the names of their
    /// sources.
    ///
    /// The export succeeds where each of its documents can be built as a
    /// font; where there is nothing to export, there are no fonts, and that
    /// is no failure. It fails at the first document that cannot be built:
    /// the font-object library does not take the name of one of its layers,
    /// or finds no name for the directory of a layer or the file of a glyph.
    /// The error names a layer of that document.
    pub fn export(&self, glyph_names: &NameSet, source_names: &NameSet) -> (r: Result<
        Vec<ExportedFont>,
        ExportError,
    >)
        ensures
            r is Ok <==> forall|source: NameView| #[trigger]
                exported(self@, glyph_names@, source_names@).contains_key(source) ==> buildable(
                    exported(self@, glyph_names@, source_names@)[source],
                ),
            r matches Ok(fonts) ==> fonts.len() == exported(
                self@,
                glyph_names@,
                source_names@,
            ).dom().len() && forall|i: int|
                0 <= i < fonts.len() ==> (#[trigger] fonts[i]).name@ == ascending_keys(
                    exported(self@, glyph_names@, source_names@).dom(),
                )[i] && holds_document(
                    fonts[i].font,
                    exported(self@, glyph_names@, source_names@)[fonts[i].name@],
                ),
            r matches Err(ExportError::Other(name)) ==> exists|source: NameView| #[trigger]
                exported(self@, glyph_names@, source_names@).contains_key(source) && !buildable(
                    exported(self@, glyph_names@, source_names@)[source],
                ) && names_layer(exported(self@, glyph_names@, source_names@)[source], name@),
    {
        let docs = self.export_documents(glyph_names, source_names);
        let n = docs.len();
        proof {
            docs.lemma_keys_in_order();
        }
        let mut fonts: Vec<ExportedFont> = Vec::new();
        let mut i: usize = 0;
        while i < n
            invariant
                i <= n,
                n == docs.keys().len(),
                docs.wf(),
                docs@ == exported(self@, glyph_names@, source_names@),
                fonts.len() == i,
                forall|j: int|
                    0 <= j < i ==> (#[trigger] fonts[j]).name@ == docs.keys()[j] && holds_document(
                        fonts[j].font,
                        docs@[docs.keys()[j]],
                    ),
                forall|j: int| 0 <= j < i ==> buildable((#[trigger] docs.values()[j])@),
            decreases n - i,
        {
            proof {
                let source = docs.keys()[i as int];
                assert(docs@.contains_key(source));
                assert(docs@[source] == docs.values()[i as int]@);
            }
            match docs.value_at(i).to_font() {
                Ok(font) => {
                    fonts.push(ExportedFont { name: docs.key_at(i).clone(), font });
                },
                Err(e) => {
                    return Err(e);
                },
            }
            i += 1;
        }
        proof {
            assert forall|source: NameView| #[trigger] docs@.contains_key(source) implies buildable(
                docs@[source],
            ) by {
                assert(docs.keys().to_set().contains(source));
                let j = choose|j: int| 0 <= j < docs.keys().len() && docs.keys()[j] == source;
                assert(docs@[docs.keys()[j]] == docs.values()[j]@);
            }
        }
        Ok(fonts)
    }
}

} // verus!
