//! The repository as directories and files.
//!
//! A set is the directory `set.<name>`, a source the directory
//! `source.<name>` in it, and a layer a directory in that of its source:
//! `glyphs` for the default layer, and a generated name that begins with
//! `glyphs.` for each other layer. This module computes what is to be
//! written, and reads what was found; it touches no file.

use vstd::prelude::*;
use vstd::string::StringExecFns;
use crate::errors::{SaveError, SaveLayerError, SaveSetError, SaveSourceError};
use crate::filenames::{default_file_name_for_glyph_name, default_file_name_for_layer_name, file_name};
use crate::glyph::{Drawing, DrawingView};
use crate::model::{Fontgarden, FontgardenView, GlyphSet, GlyphSetView, Layer, LayerView, Source, SourceView};
use crate::name_map::{ascending_keys, Duplicate, NameMap};
use crate::name_set::NameSet;
use crate::names::NameView;
use crate::tables::{color_rows, record_rows, row_views, write_color_marks, write_glyph_data, RowView};
use crate::text::{lowercase, to_lowercase};

verus! {

/// The file of a glyph: its name, and the drawing in it.
#[derive(Debug, PartialEq)]
pub struct StoredGlyph {
    pub file_name: String,
    pub drawing: Drawing,
}

/// What the directory of a layer records of the layer: its name.
#[derive(Debug, PartialEq, Eq)]
pub struct LayerInfo {
    pub name: String,
}

/// The directory of a layer: its name, what it records of the layer, the
/// rows of its table of color marks, and the files of its glyphs.
#[derive(Debug, PartialEq)]
pub struct StoredLayer {
    pub dir_name: String,
    pub layerinfo: LayerInfo,
    pub color_marks: Vec<Vec<String>>,
    pub glyphs: Vec<StoredGlyph>,
}

/// The directory of a source: its name, and the directories in it.
#[derive(Debug, PartialEq)]
pub struct StoredSource {
    pub dir_name: String,
    pub layers: Vec<StoredLayer>,
}

/// The directory of a set: its name, the rows of its table of records, and
/// the directories in it.
#[derive(Debug, PartialEq)]
pub struct StoredSet {
    pub dir_name: String,
    pub glyph_data: Vec<Vec<String>>,
    pub sources: Vec<StoredSource>,
}

/// The file of a glyph as contracts see it.
pub struct StoredGlyphView {
    pub file_name: Seq<char>,
    pub drawing: DrawingView,
}

/// The directory of a layer as contracts see it.
pub struct StoredLayerView {
    pub dir_name: Seq<char>,
    pub layer_name: Seq<char>,
    pub color_marks: Seq<RowView>,
    pub glyphs: Seq<StoredGlyphView>,
}

/// The directory of a source as contracts see it.
pub struct StoredSourceView {
    pub dir_name: Seq<char>,
    pub layers: Seq<StoredLayerView>,
}

/// The directory of a set as contracts see it.
pub struct StoredSetView {
    pub dir_name: Seq<char>,
    pub glyph_data: Seq<RowView>,
    pub sources: Seq<StoredSourceView>,
}

impl View for StoredGlyph {
    type V = StoredGlyphView;

    open spec fn view(&self) -> StoredGlyphView {
        StoredGlyphView { file_name: self.file_name@, drawing: self.drawing@ }
    }
}

impl View for StoredLayer {
    type V = StoredLayerView;

    open spec fn view(&self) -> StoredLayerView {
        StoredLayerView {
            dir_name: self.dir_name@,
            layer_name: self.layerinfo.name@,
            color_marks: row_views(self.color_marks@),
            glyphs: Seq::new(self.glyphs@.len(), |i: int| self.glyphs@[i]@),
        }
    }
}

impl View for StoredSource {
    type V = StoredSourceView;

    open spec fn view(&self) -> StoredSourceView {
        StoredSourceView {
            dir_name: self.dir_name@,
            layers: Seq::new(self.layers@.len(), |i: int| self.layers@[i]@),
        }
    }
}

impl View for StoredSet {
    type V = StoredSetView;

    open spec fn view(&self) -> StoredSetView {
        StoredSetView {
            dir_name: self.dir_name@,
            glyph_data: row_views(self.glyph_data@),
            sources: Seq::new(self.sources@.len(), |i: int| self.sources@[i]@),
        }
    }
}

/// The directories of sets as contracts see them.
pub open spec fn set_views(sets: Seq<StoredSet>) -> Seq<StoredSetView> {
    Seq::new(sets.len(), |i: int| sets[i]@)
}

/// The lowercase forms of the given names.
pub open spec fn lowered(names: Seq<Seq<char>>) -> Set<NameView> {
    Set::new(|name: NameView| exists|i: int| 0 <= i < names.len() && lowercase(#[trigger] names[i]) == name)
}

/// The file names of the glyphs `keys`, each told apart from those before
/// it; `None` where no name is left for one of them.
pub open spec fn glyph_file_names(keys: Seq<NameView>) -> Option<Seq<Seq<char>>>
    decreases keys.len(),
{
    if keys.len() == 0 {
        Some(Seq::empty())
    } else {
        match glyph_file_names(keys.drop_last()) {
            None => None,
            Some(before) => match file_name(keys.last(), ""@, ".glif"@, lowered(before)) {
                None => None,
                Some(name) => Some(before.push(name)),
            },
        }
    }
}

/// The files of the glyphs of a layer, in the order of the names of the
/// glyphs.
pub open spec fn saved_glyphs(layer: LayerView) -> Option<Seq<StoredGlyphView>> {
    let keys = ascending_keys(layer.glyphs.dom());
    match glyph_file_names(keys) {
        None => None,
        Some(names) => Some(
            Seq::new(
                keys.len(),
                |i: int| StoredGlyphView { file_name: names[i], drawing: layer.glyphs[keys[i]] },
            ),
        ),
    }
}

/// The directory of a layer, under the given name.
pub open spec fn saved_layer(layer: LayerView, layer_name: NameView, dir_name: Seq<char>) -> Option<
    StoredLayerView,
> {
    match saved_glyphs(layer) {
        None => None,
        Some(glyphs) => Some(
            StoredLayerView { dir_name, layer_name, color_marks: color_rows(layer.color_marks), glyphs },
        ),
    }
}

/// The names of the directories of the layers `keys` of a source: `glyphs`
/// for a layer that is flagged as default, and for each other layer a name
/// that is told apart from those before it. `None` where no name is left
/// for one of them.
pub open spec fn layer_dir_names(source: SourceView, keys: Seq<NameView>) -> Option<Seq<Seq<char>>>
    decreases keys.len(),
{
    if keys.len() == 0 {
        Some(Seq::empty())
    } else {
        match layer_dir_names(source, keys.drop_last()) {
            None => None,
            Some(before) => if source.layers[keys.last()].default {
                Some(before.push("glyphs"@))
            } else {
                match file_name(keys.last(), "glyphs."@, ""@, lowered(before)) {
                    None => None,
                    Some(name) => Some(before.push(name)),
                }
            },
        }
    }
}

/// The directories of the layers `keys` of a source.
pub open spec fn saved_layers(source: SourceView, keys: Seq<NameView>) -> Option<Seq<StoredLayerView>>
    decreases keys.len(),
{
    if keys.len() == 0 {
        Some(Seq::empty())
    } else {
        match (saved_layers(source, keys.drop_last()), layer_dir_names(source, keys)) {
            (Some(before), Some(dirs)) => match saved_layer(
                source.layers[keys.last()],
                keys.last(),
                dirs.last(),
            ) {
                None => None,
                Some(layer) => Some(before.push(layer)),
            },
            _ => None,
        }
    }
}

/// The directory of a source.
pub open spec fn saved_source(source: SourceView, name: NameView) -> Option<StoredSourceView> {
    match saved_layers(source, ascending_keys(source.layers.dom())) {
        None => None,
        Some(layers) => Some(StoredSourceView { dir_name: "source."@ + name, layers }),
    }
}

/// The directories of the sources `keys` of a set.
pub open spec fn saved_sources(set: GlyphSetView, keys: Seq<NameView>) -> Option<Seq<StoredSourceView>>
    decreases keys.len(),
{
    if keys.len() == 0 {
        Some(Seq::empty())
    } else {
        match (saved_sources(set, keys.drop_last()), saved_source(set.sources[keys.last()], keys.last())) {
            (Some(before), Some(source)) => Some(before.push(source)),
            _ => None,
        }
    }
}

/// The directory of a set.
pub open spec fn saved_set(set: GlyphSetView, name: NameView) -> Option<StoredSetView> {
    match saved_sources(set, ascending_keys(set.sources.dom())) {
        None => None,
        Some(sources) => Some(
            StoredSetView { dir_name: "set."@ + name, glyph_data: record_rows(set.glyph_data), sources },
        ),
    }
}

/// The directories of the sets `keys` of a repository.
pub open spec fn saved_sets(garden: FontgardenView, keys: Seq<NameView>) -> Option<Seq<StoredSetView>>
    decreases keys.len(),
{
    if keys.len() == 0 {
        Some(Seq::empty())
    } else {
        match (saved_sets(garden, keys.drop_last()), saved_set(garden.sets[keys.last()], keys.last())) {
            (Some(before), Some(set)) => Some(before.push(set)),
            _ => None,
        }
    }
}

/// The directories of a repository: those of its sets in the order of
/// their names. `None` where no file name is left for a glyph or a layer.
pub open spec fn saved(garden: FontgardenView) -> Option<Seq<StoredSetView>> {
    saved_sets(garden, ascending_keys(garden.sets.dom()))
}

/// The directories of a new repository: it has no sets, so there are
/// none.
pub fn new() -> (r: Result<Vec<StoredSet>, SaveError>)
    ensures
        r matches Ok(stored) && stored@.len() == 0,
{
    let garden = Fontgarden::new();
    let n = garden.sets.len();
    proof {
        assert(garden@.sets.dom() =~= Set::<NameView>::empty());
        garden.sets.lemma_keys_in_order();
        assert(n == 0);
        assert(saved(garden@) == Some(Seq::<StoredSetView>::empty()));
    }
    let r = garden.save();
    proof {
        if r is Ok {
            assert(set_views(r->Ok_0@).len() == r->Ok_0@.len());
        }
    }
    r
}

/// The text `prefix` followed by `name`.
fn prefixed(prefix: &str, name: &str) -> (text: String)
    ensures
        text@ == prefix@ + name@,
{
    let mut text = prefix.to_string();
    text.append(name);
    text
}

/// Whether a file name is left for each of the glyphs, in the order of
/// their names.
pub fn glyph_files_fit(glyphs: &NameMap<Drawing>) -> (r: bool)
    ensures
        r == (glyph_file_names(glyphs.keys()) is Some),
{
    let n = glyphs.len();
    let ghost keys = glyphs.keys();
    let mut taken = NameSet::new();
    let ghost mut names: Seq<Seq<char>> = Seq::empty();
    proof {
        assert(keys.take(0) =~= Seq::<NameView>::empty());
        assert(taken@ =~= lowered(names));
    }
    let mut i: usize = 0;
    while i < n
        invariant
            i <= n,
            n == keys.len(),
            keys == glyphs.keys(),
            glyph_file_names(keys.take(i as int)) == Some(names),
            taken@ == lowered(names),
        decreases n - i,
    {
        proof {
            let upto = keys.take(i as int + 1);
            assert(upto.last() == keys[i as int]);
            assert(upto.drop_last() =~= keys.take(i as int));
        }
        match default_file_name_for_glyph_name(glyphs.key_at(i).as_str(), &taken) {
            Some(file) => {
                taken.insert(to_lowercase(file.as_str()));
                proof {
                    lemma_lowered_push(names, file@);
                    names = names.push(file@);
                }
            },
            None => {
                proof {
                    lemma_no_glyph_file_name(keys, i as int + 1);
                }
                return false;
            },
        }
        i += 1;
    }
    proof {
        assert(keys.take(n as int) =~= keys);
    }
    true
}

impl Layer {
    /// The directory of the layer `layer_name`. The name of the directory
    /// is `glyphs` for a layer that is flagged as default; for another
    /// layer it is generated and told apart from the names in
    /// `existing_layer_names`. The lowercase form of the name is added to
    /// `existing_layer_names`. Each glyph gets a file whose name is told
    /// apart from those of the glyphs before it.
    ///
    /// Fails where no name is left for the directory or for the file of a
    /// glyph.
    pub fn save(&self, layer_name: &str, existing_layer_names: &mut NameSet) -> (r: Result<
        StoredLayer,
        SaveLayerError,
    >)
        ensures
            match r {
                Ok(stored) => {
                    &&& saved_layer(self@, layer_name@, stored@.dir_name) == Some(stored@)
                    &&& stored@.dir_name == if self@.default {
                        "glyphs"@
                    } else {
                        file_name(layer_name@, "glyphs."@, ""@, old(existing_layer_names)@)->0
                    }
                    &&& !self@.default ==> file_name(
                        layer_name@,
                        "glyphs."@,
                        ""@,
                        old(existing_layer_names)@,
                    ) is Some
                    &&& final(existing_layer_names)@ == old(existing_layer_names)@.insert(
                        lowercase(stored@.dir_name),
                    )
                },
                Err(SaveLayerError::CreateDir) => !self@.default && file_name(
                    layer_name@,
                    "glyphs."@,
                    ""@,
                    old(existing_layer_names)@,
                ) is None,
                Err(SaveLayerError::SaveGlyph(glyph)) => saved_glyphs(self@) is None
                    && self@.glyphs.contains_key(glyph@),
            },
    {
        let dir_name = if self.default {
            "glyphs".to_string()
        } else {
            match default_file_name_for_layer_name(layer_name, existing_layer_names) {
                Some(name) => name,
                None => {
                    return Err(SaveLayerError::CreateDir);
                },
            }
        };
        existing_layer_names.insert(to_lowercase(dir_name.as_str()));
        let n = self.glyphs.len();
        let ghost keys = self.glyphs.keys();
        proof {
            self.glyphs.lemma_keys_in_order();
            assert(keys.take(0) =~= Seq::<NameView>::empty());
        }
        let mut glyphs: Vec<StoredGlyph> = Vec::new();
        let mut taken = NameSet::new();
        let ghost mut names: Seq<Seq<char>> = Seq::empty();
        proof {
            assert(taken@ =~= lowered(names));
        }
        let mut i: usize = 0;
        while i < n
            invariant
                i <= n,
                n == keys.len(),
                keys == self.glyphs.keys(),
                keys == ascending_keys(self@.glyphs.dom()),
                self.glyphs.wf(),
                glyph_file_names(keys.take(i as int)) == Some(names),
                names.len() == i,
                glyphs.len() == i,
                taken@ == lowered(names),
                forall|j: int|
                    0 <= j < i ==> (#[trigger] glyphs[j])@ == (StoredGlyphView {
                        file_name: names[j],
                        drawing: self@.glyphs[keys[j]],
                    }),
            decreases n - i,
        {
            let glyph = self.glyphs.key_at(i);
            proof {
                let upto = keys.take(i as int + 1);
                assert(upto.last() == keys[i as int]);
                assert(upto.drop_last() =~= keys.take(i as int));
            }
            match default_file_name_for_glyph_name(glyph.as_str(), &taken) {
                Some(file) => {
                    taken.insert(to_lowercase(file.as_str()));
                    proof {
                        let before = names;
                        names = names.push(file@);
                        lemma_lowered_push(before, file@);
                    }
                    glyphs.push(StoredGlyph { file_name: file, drawing: self.glyphs.value_at(i).duplicate() });
                },
                None => {
                    proof {
                        lemma_no_glyph_file_name(keys, i as int + 1);
                        assert(keys.take(keys.len() as int) =~= keys);
                        assert(self@.glyphs.contains_key(keys[i as int]));
                    }
                    return Err(SaveLayerError::SaveGlyph(glyph.clone()));
                },
            }
            i += 1;
        }
        proof {
            assert(keys.take(n as int) =~= keys);
        }
        let stored = StoredLayer {
            dir_name,
            layerinfo: LayerInfo { name: layer_name.to_string() },
            color_marks: write_color_marks(&self.color_marks),
            glyphs,
        };
        proof {
            assert(stored@.glyphs =~= saved_glyphs(self@)->0);
        }
        Ok(stored)
    }
}

/// The lowercase forms of names with one more name are those of the names
/// and that of the one.
pub proof fn lemma_lowered_push(names: Seq<Seq<char>>, name: Seq<char>)
    ensures
        lowered(names.push(name)) =~= lowered(names).insert(lowercase(name)),
{
    let more = names.push(name);
    assert forall|low: NameView| lowered(more).contains(low) <==> lowered(names).insert(
        lowercase(name),
    ).contains(low) by {
        if lowered(more).contains(low) {
            let j = choose|j: int| 0 <= j < more.len() && lowercase(#[trigger] more[j]) == low;
            if j < names.len() {
                assert(names[j] == more[j]);
            }
        }
        if lowered(names).contains(low) {
            let j = choose|j: int| 0 <= j < names.len() && lowercase(#[trigger] names[j]) == low;
            assert(more[j] == names[j]);
        }
        if low == lowercase(name) {
            assert(lowercase(more[names.len() as int]) == low);
        }
    }
}

/// The file names of the glyphs of a layer do not collide: no two of them
/// have the same lowercase form.
pub proof fn lemma_glyph_files_distinct(keys: Seq<NameView>)
    ensures
        glyph_file_names(keys) matches Some(names) ==> names.len() == keys.len() && forall|
            i: int,
            j: int,
        |
            0 <= i < j < names.len() ==> lowercase(#[trigger] names[i]) != lowercase(#[trigger] names[j]),
    decreases keys.len(),
{
    if keys.len() > 0 {
        lemma_glyph_files_distinct(keys.drop_last());
        match glyph_file_names(keys.drop_last()) {
            Some(before) => {
                crate::filenames::lemma_file_name_is_free(keys.last(), ""@, ".glif"@, lowered(before));
                match file_name(keys.last(), ""@, ".glif"@, lowered(before)) {
                    Some(name) => {
                        let names = before.push(name);
                        assert forall|i: int, j: int| 0 <= i < j < names.len() implies lowercase(
                            #[trigger] names[i],
                        ) != lowercase(#[trigger] names[j]) by {
                            if j == before.len() {
                                assert(names[i] == before[i]);
                                if lowercase(before[i]) == lowercase(name) {
                                    assert(lowered(before).contains(lowercase(name)));
                                }
                            } else {
                                assert(names[i] == before[i] && names[j] == before[j]);
                            }
                        }
                    },
                    None => {},
                }
            },
            None => {},
        }
    }
}

/// Where no name is left for one of the first layers of a source, the
/// layers of the source cannot be saved.
pub proof fn lemma_no_layer_dirs(source: SourceView, keys: Seq<NameView>, upto: int)
    requires
        0 <= upto <= keys.len(),
        saved_layers(source, keys.take(upto)) is None,
    ensures
        saved_layers(source, keys) is None,
    decreases keys.len() - upto,
{
    if upto < keys.len() {
        assert(keys.take(upto + 1).drop_last() =~= keys.take(upto));
        lemma_no_layer_dirs(source, keys, upto + 1);
    } else {
        assert(keys.take(upto) =~= keys);
    }
}

/// Where one of the first sources of a set cannot be saved, the sources of
/// the set cannot be saved.
pub proof fn lemma_no_sources(set: GlyphSetView, keys: Seq<NameView>, upto: int)
    requires
        0 <= upto <= keys.len(),
        saved_sources(set, keys.take(upto)) is None,
    ensures
        saved_sources(set, keys) is None,
    decreases keys.len() - upto,
{
    if upto < keys.len() {
        assert(keys.take(upto + 1).drop_last() =~= keys.take(upto));
        lemma_no_sources(set, keys, upto + 1);
    } else {
        assert(keys.take(upto) =~= keys);
    }
}

/// Where one of the first sets of a repository cannot be saved, the
/// repository cannot be saved.
pub proof fn lemma_no_sets(garden: FontgardenView, keys: Seq<NameView>, upto: int)
    requires
        0 <= upto <= keys.len(),
        saved_sets(garden, keys.take(upto)) is None,
    ensures
        saved_sets(garden, keys) is None,
    decreases keys.len() - upto,
{
    if upto < keys.len() {
        assert(keys.take(upto + 1).drop_last() =~= keys.take(upto));
        lemma_no_sets(garden, keys, upto + 1);
    } else {
        assert(keys.take(upto) =~= keys);
    }
}

impl Source {
    /// The directory of the source `source_name`, with the directories of
    /// its layers in the order of their names.
    ///
    /// Fails where no name is left for the directory of a layer or for the
    /// file of a glyph; the error names the layer.
    pub fn save(&self, source_name: &str) -> (r: Result<StoredSource, SaveSourceError>)
        ensures
            r is Ok <==> saved_source(self@, source_name@) is Some,
            r matches Ok(stored) ==> Some(stored@) == saved_source(self@, source_name@),
            r matches Err(e) ==> e matches SaveSourceError::SaveLayer(layer, _) && self@.layers.contains_key(
                layer@,
            ),
    {
        let n = self.layers.len();
        let ghost keys = self.layers.keys();
        proof {
            self.layers.lemma_keys_in_order();
            assert(keys.take(0) =~= Seq::<NameView>::empty());
        }
        let mut layers: Vec<StoredLayer> = Vec::new();
        let mut existing = NameSet::new();
        let ghost mut dirs: Seq<Seq<char>> = Seq::empty();
        proof {
            assert(existing@ =~= lowered(dirs));
        }
        let mut i: usize = 0;
        while i < n
            invariant
                i <= n,
                n == keys.len(),
                keys == self.layers.keys(),
                keys == ascending_keys(self@.layers.dom()),
                self.layers.wf(),
                layer_dir_names(self@, keys.take(i as int)) == Some(dirs),
                existing@ == lowered(dirs),
                layers.len() == i,
                saved_layers(self@, keys.take(i as int)) == Some(
                    Seq::new(layers@.len(), |j: int| layers@[j]@),
                ),
            decreases n - i,
        {
            let name = self.layers.key_at(i);
            let layer = self.layers.value_at(i);
            let ghost done = Seq::new(layers@.len(), |j: int| layers@[j]@);
            proof {
                let upto = keys.take(i as int + 1);
                assert(upto.last() == keys[i as int]);
                assert(upto.drop_last() =~= keys.take(i as int));
                assert(self@.layers[keys[i as int]] == layer@);
            }
            match layer.save(name.as_str(), &mut existing) {
                Ok(stored) => {
                    proof {
                        lemma_lowered_push(dirs, stored@.dir_name);
                        dirs = dirs.push(stored@.dir_name);
                    }
                    layers.push(stored);
                    proof {
                        assert(Seq::new(layers@.len(), |j: int| layers@[j]@) =~= done.push(stored@));
                    }
                },
                Err(e) => {
                    proof {
                        lemma_no_layer_dirs(self@, keys, i as int + 1);
                        assert(self@.layers.contains_key(keys[i as int]));
                    }
                    return Err(SaveSourceError::SaveLayer(name.clone(), e));
                },
            }
            i += 1;
        }
        proof {
            assert(keys.take(n as int) =~= keys);
        }
        let stored = StoredSource { dir_name: prefixed("source.", source_name), layers };
        proof {
            assert(stored@.layers =~= saved_layers(self@, keys)->0);
        }
        Ok(stored)
    }
}

impl GlyphSet {
    /// The directory of the set `set_name`, with the rows of its records
    /// and the directories of its sources in the order of their names.
    ///
    /// Fails where a source cannot be saved; the error names the source.
    pub fn save(&self, set_name: &str) -> (r: Result<StoredSet, SaveSetError>)
        ensures
            r is Ok <==> saved_set(self@, set_name@) is Some,
            r matches Ok(stored) ==> Some(stored@) == saved_set(self@, set_name@),
            r matches Err(e) ==> e matches SaveSetError::SaveSource(source, _) && self@.sources.contains_key(
                source@,
            ),
    {
        let n = self.sources.len();
        let ghost keys = self.sources.keys();
        proof {
            self.sources.lemma_keys_in_order();
            assert(keys.take(0) =~= Seq::<NameView>::empty());
        }
        let mut sources: Vec<StoredSource> = Vec::new();
        let mut i: usize = 0;
        while i < n
            invariant
                i <= n,
                n == keys.len(),
                keys == self.sources.keys(),
                keys == ascending_keys(self@.sources.dom()),
                self.sources.wf(),
                sources.len() == i,
                saved_sources(self@, keys.take(i as int)) == Some(
                    Seq::new(sources@.len(), |j: int| sources@[j]@),
                ),
            decreases n - i,
        {
            let name = self.sources.key_at(i);
            let source = self.sources.value_at(i);
            let ghost done = Seq::new(sources@.len(), |j: int| sources@[j]@);
            proof {
                let upto = keys.take(i as int + 1);
                assert(upto.last() == keys[i as int]);
                assert(upto.drop_last() =~= keys.take(i as int));
                assert(self@.sources[keys[i as int]] == source@);
            }
            match source.save(name.as_str()) {
                Ok(stored) => {
                    sources.push(stored);
                    proof {
                        assert(Seq::new(sources@.len(), |j: int| sources@[j]@) =~= done.push(stored@));
                    }
                },
                Err(e) => {
                    proof {
                        lemma_no_sources(self@, keys, i as int + 1);
                        assert(self@.sources.contains_key(keys[i as int]));
                    }
                    return Err(SaveSetError::SaveSource(name.clone(), e));
                },
            }
            i += 1;
        }
        proof {
            assert(keys.take(n as int) =~= keys);
        }
        let stored = StoredSet {
            dir_name: prefixed("set.", set_name),
            glyph_data: write_glyph_data(&self.glyph_data),
            sources,
        };
        proof {
            assert(stored@.sources =~= saved_sources(self@, keys)->0);
        }
        Ok(stored)
    }
}

impl Fontgarden {
    /// The directories of the repository: those of its sets in the order of
    /// their names. What was at the place of the repository before is to be
    /// removed, and these written.
    ///
    /// Fails where a set cannot be saved; the error names the set.
    pub fn save(&self) -> (r: Result<Vec<StoredSet>, SaveError>)
        ensures
            r is Ok <==> saved(self@) is Some,
            r matches Ok(stored) ==> Some(set_views(stored@)) == saved(self@),
            r matches Err(e) ==> e matches SaveError::SaveSet(set, _) && self@.sets.contains_key(set@),
    {
        let n = self.sets.len();
        let ghost keys = self.sets.keys();
        proof {
            self.sets.lemma_keys_in_order();
            assert(keys.take(0) =~= Seq::<NameView>::empty());
        }
        let mut sets: Vec<StoredSet> = Vec::new();
        let mut i: usize = 0;
        while i < n
            invariant
                i <= n,
                n == keys.len(),
                keys == self.sets.keys(),
                keys == ascending_keys(self@.sets.dom()),
                self.sets.wf(),
                sets.len() == i,
                saved_sets(self@, keys.take(i as int)) == Some(set_views(sets@)),
            decreases n - i,
        {
            let name = self.sets.key_at(i);
            let set = self.sets.value_at(i);
            let ghost done = set_views(sets@);
            proof {
                let upto = keys.take(i as int + 1);
                assert(upto.last() == keys[i as int]);
                assert(upto.drop_last() =~= keys.take(i as int));
                assert(self@.sets[keys[i as int]] == set@);
            }
            match set.save(name.as_str()) {
                Ok(stored) => {
                    sets.push(stored);
                    proof {
                        assert(set_views(sets@) =~= done.push(stored@));
                    }
                },
                Err(e) => {
                    proof {
                        lemma_no_sets(self@, keys, i as int + 1);
                        assert(self@.sets.contains_key(keys[i as int]));
                    }
                    return Err(SaveError::SaveSet(name.clone(), e));
                },
            }
            i += 1;
        }
        proof {
            assert(keys.take(n as int) =~= keys);
        }
        Ok(sets)
    }
}

/// Where no file name is left for one of the first glyphs, none is left
/// for all of them.
pub proof fn lemma_no_glyph_file_name(keys: Seq<NameView>, upto: int)
    requires
        0 <= upto <= keys.len(),
        glyph_file_names(keys.take(upto)) is None,
    ensures
        glyph_file_names(keys) is None,
    decreases keys.len() - upto,
{
    if upto < keys.len() {
        assert(keys.take(upto + 1).drop_last() =~= keys.take(upto));
        lemma_no_glyph_file_name(keys, upto + 1);
    } else {
        assert(keys.take(upto) =~= keys);
    }
}

} // verus!
