//! Reading a repository from the directories and files that were found at
//! its place.

use vstd::prelude::*;
use crate::errors::{LoadError, LoadLayerError, LoadSetError, LoadSourceError};
use crate::glyph::DrawingView;
use crate::model::{
    coverage, coverage_disjoint, has_one_default, set_sources_sound, sources_sound,
    Fontgarden, GlyphSet, GlyphSetView, Layer, LayerView, Source, SourceView,
};
use crate::name_map::{reversed, NameMap};
use crate::name_set::NameSet;
use crate::names::{same_name, NameView};
use crate::storage::{
    set_views, LayerInfo, StoredGlyph, StoredGlyphView, StoredLayer, StoredLayerView, StoredSet, StoredSetView,
    StoredSource, StoredSourceView,
};
use crate::tables::{
    color_row_sound, load_color_marks, load_glyph_data, marks_of_rows, records_of_rows, row_fault,
};
use crate::text::{from_chars, to_chars};
use crate::ufo::{is_valid_name, valid_name};

verus! {

/// The drawings in the files of glyphs, by the names of the glyphs. Of two
/// files for one glyph the later counts.
pub open spec fn drawings_of(glyphs: Seq<StoredGlyphView>) -> Map<NameView, DrawingView>
    decreases glyphs.len(),
{
    if glyphs.len() == 0 {
        Map::empty()
    } else {
        drawings_of(glyphs.drop_last()).insert(glyphs.last().drawing.name, glyphs.last().drawing)
    }
}

/// Whether the directory of a layer can be read: the name that it records
/// is valid, and the rows of its color marks are without fault.
pub open spec fn layer_readable(layer: StoredLayerView) -> bool {
    &&& valid_name(layer.layer_name)
    &&& forall|i: int| 0 <= i < layer.color_marks.len() ==> color_row_sound(#[trigger] layer.color_marks[i])
}

/// The layer that a directory holds. It is the default layer if the
/// directory is named `glyphs`.
pub open spec fn loaded_layer(layer: StoredLayerView) -> LayerView {
    LayerView {
        glyphs: drawings_of(layer.glyphs),
        color_marks: marks_of_rows(layer.color_marks),
        default: layer.dir_name == "glyphs"@,
    }
}

/// Whether a directory in that of a source is the directory of a layer.
pub open spec fn is_layer_dir(dir_name: Seq<char>) -> bool {
    dir_name == "glyphs"@ || "glyphs."@.is_prefix_of(dir_name)
}

/// The layers that the directories in the directory of a source hold, by
/// the names that they record. Of two directories for one layer the later
/// counts.
pub open spec fn loaded_layers(layers: Seq<StoredLayerView>) -> Map<NameView, LayerView>
    decreases layers.len(),
{
    if layers.len() == 0 {
        Map::empty()
    } else if is_layer_dir(layers.last().dir_name) {
        loaded_layers(layers.drop_last()).insert(layers.last().layer_name, loaded_layer(layers.last()))
    } else {
        loaded_layers(layers.drop_last())
    }
}

/// Whether each directory of a layer among `layers` can be read.
pub open spec fn layers_readable(layers: Seq<StoredLayerView>) -> bool {
    forall|i: int|
        0 <= i < layers.len() && is_layer_dir((#[trigger] layers[i]).dir_name) ==> layer_readable(layers[i])
}

/// The source that a directory holds.
pub open spec fn loaded_source(source: StoredSourceView) -> SourceView {
    SourceView { layers: loaded_layers(source.layers) }
}

/// Whether the directory of a source can be read: the directories of its
/// layers can, and they give exactly one default layer.
pub open spec fn source_readable(source: StoredSourceView) -> bool {
    layers_readable(source.layers) && has_one_default(loaded_source(source))
}

/// The name that the name of a directory gives after `prefix`; `None` where
/// the name of the directory does not begin with `prefix`.
pub open spec fn name_after(prefix: Seq<char>, dir_name: Seq<char>) -> Option<Seq<char>> {
    if prefix.is_prefix_of(dir_name) {
        Some(dir_name.skip(prefix.len() as int))
    } else {
        None
    }
}

/// The sources that the directories in the directory of a set hold, by
/// their names.
pub open spec fn loaded_sources(sources: Seq<StoredSourceView>) -> Map<NameView, SourceView>
    decreases sources.len(),
{
    if sources.len() == 0 {
        Map::empty()
    } else {
        match name_after("source."@, sources.last().dir_name) {
            Some(name) => loaded_sources(sources.drop_last()).insert(name, loaded_source(sources.last())),
            None => loaded_sources(sources.drop_last()),
        }
    }
}

/// Whether each directory of a source among `sources` has a valid name and
/// can be read.
pub open spec fn sources_readable(sources: Seq<StoredSourceView>) -> bool {
    forall|i: int|
        0 <= i < sources.len() && name_after("source."@, (#[trigger] sources[i]).dir_name) is Some ==> valid_name(
            name_after("source."@, sources[i].dir_name)->0,
        ) && source_readable(sources[i])
}

/// Whether the directory of a set can be read: the rows of its records are
/// without fault, and the directories of its sources can be read.
pub open spec fn set_readable(set: StoredSetView) -> bool {
    &&& forall|i: int| 0 <= i < set.glyph_data.len() ==> row_fault(#[trigger] set.glyph_data[i]) is None
    &&& sources_readable(set.sources)
}

/// The set that a directory holds.
pub open spec fn loaded_set(set: StoredSetView) -> GlyphSetView {
    GlyphSetView { glyph_data: records_of_rows(set.glyph_data), sources: loaded_sources(set.sources) }
}

/// The sets that the directories at the place of a repository hold, by
/// their names.
pub open spec fn loaded_sets(sets: Seq<StoredSetView>) -> Map<NameView, GlyphSetView>
    decreases sets.len(),
{
    if sets.len() == 0 {
        Map::empty()
    } else {
        match name_after("set."@, sets.last().dir_name) {
            Some(name) => loaded_sets(sets.drop_last()).insert(name, loaded_set(sets.last())),
            None => loaded_sets(sets.drop_last()),
        }
    }
}

/// The glyphs that the sets in the given directories cover.
pub open spec fn covered(sets: Seq<StoredSetView>) -> Set<NameView>
    decreases sets.len(),
{
    if sets.len() == 0 {
        Set::empty()
    } else {
        match name_after("set."@, sets.last().dir_name) {
            Some(name) => covered(sets.drop_last()).union(coverage(loaded_set(sets.last()))),
            None => covered(sets.drop_last()),
        }
    }
}

/// Whether the directory at index `i` holds a set that can be read and
/// that covers no glyph of the sets before it.
pub open spec fn set_fits(sets: Seq<StoredSetView>, i: int) -> bool {
    name_after("set."@, sets[i].dir_name) matches Some(name) ==> valid_name(name) && set_readable(sets[i])
        && coverage(loaded_set(sets[i])).disjoint(covered(sets.take(i)))
}

/// Whether the error tells what is wrong with the directory at index `i`:
/// that the name of its set is not valid; or else that the set cannot be
/// read; or else that the set covers glyphs that the sets before it cover,
/// which are then listed.
pub open spec fn tells_misfit(sets: Seq<StoredSetView>, i: int, error: LoadError) -> bool {
    match error {
        LoadError::NamingError(name) => name_after("set."@, sets[i].dir_name) == Some(name@)
            && !valid_name(name@),
        LoadError::LoadSet(name, _) => name_after("set."@, sets[i].dir_name) == Some(name@)
            && valid_name(name@) && !set_readable(sets[i]),
        LoadError::DuplicateGlyphs(name, glyphs) => name_after("set."@, sets[i].dir_name) == Some(
            name@,
        ) && valid_name(name@) && set_readable(sets[i]) && glyphs.len() > 0
            && glyphs.deep_view().to_set() =~= coverage(loaded_set(sets[i])).intersect(
            covered(sets.take(i)),
        ),
        _ => false,
    }
}

/// Whether the error tells what is wrong with the first of the directories
/// that does not fit.
pub open spec fn tells_first_misfit(sets: Seq<StoredSetView>, error: LoadError) -> bool {
    exists|i: int|
        0 <= i < sets.len() && #[trigger] tells_misfit(sets, i, error) && forall|j: int|
            0 <= j < i ==> set_fits(sets, j)
}

/// Whether the directories at the place of a repository can be read as a
/// repository.
pub open spec fn readable(sets: Seq<StoredSetView>) -> bool {
    forall|i: int| 0 <= i < sets.len() ==> set_fits(sets, i)
}

/// The rest of `text` after `prefix`; `None` where `text` does not begin
/// with `prefix`.
pub fn strip_prefix(text: &str, prefix: &str) -> (rest: Option<String>)
    ensures
        rest.deep_view() == name_after(prefix@, text@),
{
    let chars = to_chars(text);
    let head = to_chars(prefix);
    if head.len() > chars.len() {
        return None;
    }
    let mut i: usize = 0;
    while i < head.len()
        invariant
            i <= head.len(),
            head.len() <= chars.len(),
            chars@ == text@,
            head@ == prefix@,
            forall|j: int| 0 <= j < i ==> head@[j] == chars@[j],
        decreases head.len() - i,
    {
        if head[i] != chars[i] {
            proof {
                if prefix@.is_prefix_of(text@) {
                    assert(text@.subrange(0, prefix@.len() as int)[i as int] == prefix@[i as int]);
                }
            }
            return None;
        }
        i += 1;
    }
    proof {
        assert(prefix@ =~= text@.subrange(0, prefix@.len() as int));
    }
    let mut rest: Vec<char> = Vec::new();
    let mut k: usize = head.len();
    while k < chars.len()
        invariant
            head.len() <= k <= chars.len(),
            chars@ == text@,
            head@ == prefix@,
            rest@ =~= chars@.subrange(head.len() as int, k as int),
        decreases chars.len() - k,
    {
        rest.push(chars[k]);
        k += 1;
    }
    proof {
        assert(rest@ =~= text@.skip(prefix@.len() as int));
    }
    Some(from_chars(&rest))
}

/// Whether a directory in that of a source is the directory of a layer.
pub fn is_layer_dir_name(dir_name: &str) -> (r: bool)
    ensures
        r == is_layer_dir(dir_name@),
{
    same_name(dir_name, "glyphs") || strip_prefix(dir_name, "glyphs.").is_some()
}

impl Layer {
    /// The layer that a directory holds, with what the directory records
    /// of it.
    ///
    /// Fails where the name that it records is not valid, or where a row of
    /// the color marks has a fault.
    pub fn from_path(stored: StoredLayer) -> (r: Result<(Layer, LayerInfo), LoadLayerError>)
        ensures
            r is Ok <==> layer_readable(stored@),
            r matches Ok(pair) ==> pair.1.name@ == stored@.layer_name && pair.0@ == loaded_layer(stored@),
            r matches Err(e) ==> (e matches LoadLayerError::LoadLayerInfo(name) && name@
                == stored@.layer_name && !valid_name(stored@.layer_name)) || (e is LoadColorMarks
                && valid_name(stored@.layer_name)),
    {
        let ghost view = stored@;
        let StoredLayer { dir_name, layerinfo, color_marks, glyphs } = stored;
        if !is_valid_name(layerinfo.name.as_str()) {
            return Err(LoadLayerError::LoadLayerInfo(layerinfo.name));
        }
        proof {
            assert(view.color_marks == crate::tables::row_views(color_marks@));
        }
        let marks = match load_color_marks(&color_marks) {
            Ok(marks) => marks,
            Err(e) => {
                proof {
                    let i = choose|i: int|
                        0 <= i < color_marks.len() && !color_row_sound(
                            #[trigger] crate::tables::row_views(color_marks@)[i],
                        );
                    assert(!color_row_sound(view.color_marks[i]));
                }
                return Err(e);
            },
        };
        let ghost all = glyphs@;
        let ghost views = view.glyphs;
        let n = glyphs.len();
        let mut rest = reversed(glyphs);
        let mut drawings = NameMap::new();
        let mut i: usize = 0;
        proof {
            assert(views.take(0) =~= Seq::<StoredGlyphView>::empty());
        }
        while i < n
            invariant
                i <= n,
                n == all.len(),
                views == Seq::new(all.len(), |j: int| all[j]@),
                rest@.len() == n - i,
                forall|j: int| 0 <= j < rest@.len() ==> rest@[j] == all[all.len() - 1 - j],
                drawings.wf(),
                drawings@ == drawings_of(views.take(i as int)),
            decreases n - i,
        {
            let glyph = rest.pop().unwrap();
            proof {
                assert(glyph == all[i as int]);
                let upto = views.take(i as int + 1);
                assert(upto.last() == glyph@);
                assert(upto.drop_last() =~= views.take(i as int));
            }
            let name = glyph.drawing.name.clone();
            drawings.insert(name, glyph.drawing);
            i += 1;
        }
        proof {
            assert(views.take(n as int) =~= views);
        }
        let default = same_name(dir_name.as_str(), "glyphs");
        Ok((Layer { glyphs: drawings, color_marks: marks, default }, layerinfo))
    }
}

impl Source {
    /// The source that a directory holds. A directory in it that is not
    /// the directory of a layer is passed over.
    ///
    /// Fails where the directory of a layer cannot be read, and where the
    /// layers do not have exactly one default layer among them.
    pub fn from_path(stored: StoredSource) -> (r: Result<Source, LoadSourceError>)
        ensures
            r is Ok <==> source_readable(stored@),
            r matches Ok(source) ==> source@ == loaded_source(stored@) && has_one_default(source@),
            r matches Err(e) ==> (e is NoDefaultLayer && layers_readable(stored@.layers)) || (e is LoadLayer
                && !layers_readable(stored@.layers)),
    {
        let ghost view = stored@;
        let ghost all = stored.layers@;
        let ghost views = view.layers;
        let n = stored.layers.len();
        let mut rest = reversed(stored.layers);
        let mut layers: NameMap<Layer> = NameMap::new();
        let mut i: usize = 0;
        proof {
            assert(views.take(0) =~= Seq::<StoredLayerView>::empty());
        }
        while i < n
            invariant
                i <= n,
                n == all.len(),
                views == Seq::new(all.len(), |j: int| all[j]@),
                views == stored@.layers,
                rest@.len() == n - i,
                forall|j: int| 0 <= j < rest@.len() ==> rest@[j] == all[all.len() - 1 - j],
                layers.wf(),
                layers@ == loaded_layers(views.take(i as int)),
                layers_readable(views.take(i as int)),
            decreases n - i,
        {
            let layer = rest.pop().unwrap();
            proof {
                assert(layer == all[i as int]);
                let upto = views.take(i as int + 1);
                assert(upto.last() == layer@);
                assert(upto.drop_last() =~= views.take(i as int));
                assert(views[i as int] == layer@);
            }
            if is_layer_dir_name(layer.dir_name.as_str()) {
                let dir_name = layer.dir_name.clone();
                match Layer::from_path(layer) {
                    Ok((loaded, layerinfo)) => {
                        layers.insert(layerinfo.name, loaded);
                    },
                    Err(e) => {
                        proof {
                            assert(!layer_readable(views[i as int]));
                            assert(is_layer_dir(views[i as int].dir_name));
                            assert(!layers_readable(views));
                        }
                        return Err(LoadSourceError::LoadLayer(dir_name, e));
                    },
                }
            }
            proof {
                assert forall|j: int|
                    0 <= j < i + 1 && is_layer_dir((#[trigger] views.take(i as int + 1)[j]).dir_name) implies layer_readable(
                    views.take(i as int + 1)[j],
                ) by {
                    if j < i {
                        assert(views.take(i as int)[j] == views.take(i as int + 1)[j]);
                    }
                }
            }
            i += 1;
        }
        proof {
            assert(views.take(n as int) =~= views);
        }
        let source = Source { layers };
        if source.has_one_default_layer() {
            Ok(source)
        } else {
            Err(LoadSourceError::NoDefaultLayer)
        }
    }
}

impl GlyphSet {
    /// The set that a directory holds. A directory in it whose name does
    /// not begin with `source.` is passed over.
    ///
    /// Fails where a row of the records has a fault, where the name of a
    /// source is not valid, and where the directory of a source cannot be
    /// read.
    pub fn from_path(stored: StoredSet) -> (r: Result<GlyphSet, LoadSetError>)
        ensures
            r is Ok <==> set_readable(stored@),
            r matches Ok(set) ==> set@ == loaded_set(stored@) && set_sources_sound(set@),
            r matches Err(e) ==> match e {
                LoadSetError::LoadGlyphData(_) => exists|i: int|
                    0 <= i < stored@.glyph_data.len() && row_fault(#[trigger] stored@.glyph_data[i]) is Some,
                LoadSetError::NamingError(name) => exists|i: int|
                    0 <= i < stored@.sources.len() && name_after(
                        "source."@,
                        (#[trigger] stored@.sources[i]).dir_name,
                    ) == Some(name@) && !valid_name(name@),
                LoadSetError::LoadSource(name, _) => exists|i: int|
                    0 <= i < stored@.sources.len() && name_after(
                        "source."@,
                        (#[trigger] stored@.sources[i]).dir_name,
                    ) == Some(name@) && !source_readable(stored@.sources[i]),
            },
    {
        let ghost view = stored@;
        let StoredSet { dir_name, glyph_data, sources } = stored;
        proof {
            assert(view.glyph_data == crate::tables::row_views(glyph_data@));
        }
        let records = match load_glyph_data(&glyph_data) {
            Ok(records) => records,
            Err(e) => {
                proof {
                    let i = choose|i: int|
                        0 <= i < glyph_data.len() && crate::tables::tells_fault(
                            e,
                            #[trigger] crate::tables::row_views(glyph_data@)[i],
                        );
                    assert(row_fault(view.glyph_data[i]) is Some);
                }
                return Err(LoadSetError::LoadGlyphData(e));
            },
        };
        let ghost all = sources@;
        let ghost views = view.sources;
        let n = sources.len();
        let mut rest = reversed(sources);
        let mut loaded: NameMap<Source> = NameMap::new();
        let mut i: usize = 0;
        proof {
            assert(views.take(0) =~= Seq::<StoredSourceView>::empty());
        }
        while i < n
            invariant
                i <= n,
                n == all.len(),
                views == Seq::new(all.len(), |j: int| all[j]@),
                views == view.sources,
                view == stored@,
                rest@.len() == n - i,
                forall|j: int| 0 <= j < rest@.len() ==> rest@[j] == all[all.len() - 1 - j],
                loaded.wf(),
                loaded@ == loaded_sources(views.take(i as int)),
                sources_readable(views.take(i as int)),
                forall|name: NameView| #[trigger] loaded@.contains_key(name) ==> has_one_default(loaded@[name]),
            decreases n - i,
        {
            let source = rest.pop().unwrap();
            proof {
                assert(source == all[i as int]);
                let upto = views.take(i as int + 1);
                assert(upto.last() == source@);
                assert(upto.drop_last() =~= views.take(i as int));
                assert(views[i as int] == source@);
            }
            match strip_prefix(source.dir_name.as_str(), "source.") {
                Some(name) => {
                    if !is_valid_name(name.as_str()) {
                        return Err(LoadSetError::NamingError(name));
                    }
                    match Source::from_path(source) {
                        Ok(found) => {
                            loaded.insert(name, found);
                        },
                        Err(e) => {
                            proof {
                                assert(!source_readable(views[i as int]));
                            }
                            return Err(LoadSetError::LoadSource(name, e));
                        },
                    }
                },
                None => {},
            }
            proof {
                assert forall|j: int|
                    0 <= j < i + 1 && name_after(
                        "source."@,
                        (#[trigger] views.take(i as int + 1)[j]).dir_name,
                    ) is Some implies valid_name(
                    name_after("source."@, views.take(i as int + 1)[j].dir_name)->0,
                ) && source_readable(views.take(i as int + 1)[j]) by {
                    if j < i {
                        assert(views.take(i as int)[j] == views.take(i as int + 1)[j]);
                    }
                }
            }
            i += 1;
        }
        proof {
            assert(views.take(n as int) =~= views);
        }
        Ok(GlyphSet { glyph_data: records, sources: loaded })
    }
}

impl Fontgarden {
    /// The repository that the directories at its place hold. `entries` is
    /// `None` where that place is no directory. A directory whose name does
    /// not begin with `set.` is passed over.
    ///
    /// Fails where the place is no directory, where the name of a set is
    /// not valid, where the directory of a set cannot be read, and where a
    /// set covers a glyph that a set before it covers; the error then names
    /// the set and lists these glyphs.
    pub fn from_path(entries: Option<Vec<StoredSet>>) -> (r: Result<Fontgarden, LoadError>)
        ensures
            entries is None ==> r matches Err(LoadError::NotAFontgarden),
            entries matches Some(sets) ==> (r is Ok <==> readable(set_views(sets@))),
            r matches Ok(garden) ==> entries matches Some(sets) && garden@.sets == loaded_sets(
                set_views(sets@),
            ) && sources_sound(garden@) && coverage_disjoint(garden@),
            r matches Err(e) ==> entries is Some ==> tells_first_misfit(set_views(entries->0@), e),
    {
        let sets = match entries {
            Some(sets) => sets,
            None => {
                return Err(LoadError::NotAFontgarden);
            },
        };
        let ghost all = sets@;
        let ghost views = set_views(sets@);
        let n = sets.len();
        let mut rest = reversed(sets);
        let mut loaded: NameMap<GlyphSet> = NameMap::new();
        let mut seen = NameSet::new();
        let mut i: usize = 0;
        proof {
            assert(views.take(0) =~= Seq::<StoredSetView>::empty());
            assert(seen@ =~= covered(views.take(0)));
        }
        while i < n
            invariant
                i <= n,
                n == all.len(),
                views == set_views(all),
                entries == Some(sets),
                all == sets@,
                rest@.len() == n - i,
                forall|j: int| 0 <= j < rest@.len() ==> rest@[j] == all[all.len() - 1 - j],
                loaded.wf(),
                loaded@ == loaded_sets(views.take(i as int)),
                seen@ == covered(views.take(i as int)),
                forall|j: int| 0 <= j < i ==> set_fits(views, j),
                forall|name: NameView| #[trigger]
                    loaded@.contains_key(name) ==> set_sources_sound(loaded@[name]) && coverage(
                        loaded@[name],
                    ).subset_of(seen@),
                forall|a: NameView, b: NameView|
                    #![trigger loaded@.contains_key(a), loaded@.contains_key(b)]
                    loaded@.contains_key(a) && loaded@.contains_key(b) && a != b ==> coverage(
                        loaded@[a],
                    ).disjoint(coverage(loaded@[b])),
            decreases n - i,
        {
            let set = rest.pop().unwrap();
            let ghost before = loaded@;
            let ghost seen_before = seen@;
            proof {
                assert(set == all[i as int]);
                let upto = views.take(i as int + 1);
                assert(upto.last() == set@);
                assert(upto.drop_last() =~= views.take(i as int));
                assert(views[i as int] == set@);
            }
            match strip_prefix(set.dir_name.as_str(), "set.") {
                Some(name) => {
                    if !is_valid_name(name.as_str()) {
                        proof {
                            assert(!set_fits(views, i as int));
                            assert(tells_misfit(views, i as int, LoadError::NamingError(name)));
                        }
                        return Err(LoadError::NamingError(name));
                    }
                    let found = match GlyphSet::from_path(set) {
                        Ok(found) => found,
                        Err(e) => {
                            proof {
                                assert(!set_fits(views, i as int));
                                assert(tells_misfit(views, i as int, LoadError::LoadSet(name, e)));
                            }
                            return Err(LoadError::LoadSet(name, e));
                        },
                    };
                    let covers = found.glyph_coverage();
                    let overlap = seen.intersection(&covers);
                    if !overlap.is_empty() {
                        let glyphs = overlap.to_vec();
                        proof {
                            assert(!set_fits(views, i as int)) by {
                                assert(!(overlap@ =~= Set::<NameView>::empty()));
                                let glyph = choose|glyph: NameView| overlap@.contains(glyph);
                                assert(overlap@.contains(glyph));
                                assert(coverage(loaded_set(views[i as int])).contains(glyph));
                                assert(covered(views.take(i as int)).contains(glyph));
                            }
                            assert(glyphs.deep_view().to_set() =~= coverage(
                                loaded_set(views[i as int]),
                            ).intersect(covered(views.take(i as int))));
                            assert(overlap.names().len() > 0);
                            assert(glyphs.deep_view().len() == glyphs.len());
                            assert(name_after("set."@, views[i as int].dir_name) == Some(name@));
                            assert(tells_misfit(
                                views,
                                i as int,
                                LoadError::DuplicateGlyphs(name, glyphs),
                            ));
                        }
                        return Err(LoadError::DuplicateGlyphs(name, glyphs));
                    }
                    seen.extend(&covers);
                    let ghost key = name@;
                    loaded.insert(name, found);
                    proof {
                        assert(set_fits(views, i as int)) by {
                            assert forall|glyph: NameView|
                                !(coverage(loaded_set(views[i as int])).contains(glyph) && covered(
                                    views.take(i as int),
                                ).contains(glyph)) by {
                                if covers@.contains(glyph) && seen_before.contains(glyph) {
                                    assert(overlap@.contains(glyph));
                                }
                            }
                        }
                        assert forall|a: NameView, b: NameView|
                            #![trigger loaded@.contains_key(a), loaded@.contains_key(b)]
                            loaded@.contains_key(a) && loaded@.contains_key(b) && a != b implies coverage(
                            loaded@[a],
                        ).disjoint(coverage(loaded@[b])) by {
                            if a == key {
                                assert(before.contains_key(b));
                                assert forall|glyph: NameView|
                                    !(coverage(loaded@[a]).contains(glyph) && coverage(
                                        loaded@[b],
                                    ).contains(glyph)) by {
                                    if covers@.contains(glyph) && seen_before.contains(glyph) {
                                        assert(overlap@.contains(glyph));
                                    }
                                }
                            } else if b == key {
                                assert(before.contains_key(a));
                                assert forall|glyph: NameView|
                                    !(coverage(loaded@[a]).contains(glyph) && coverage(
                                        loaded@[b],
                                    ).contains(glyph)) by {
                                    if covers@.contains(glyph) && seen_before.contains(glyph) {
                                        assert(overlap@.contains(glyph));
                                    }
                                }
                            } else {
                                assert(before.contains_key(a) && before.contains_key(b));
                            }
                        }
                        assert forall|other: NameView| #[trigger]
                            loaded@.contains_key(other) implies set_sources_sound(loaded@[other]) && coverage(
                            loaded@[other],
                        ).subset_of(seen@) by {
                            if other != key {
                                assert(before.contains_key(other));
                            }
                        }
                    }
                },
                None => {
                    proof {
                        assert(set_fits(views, i as int));
                    }
                },
            }
            i += 1;
        }
        proof {
            assert(views.take(n as int) =~= views);
        }
        Ok(Fontgarden { sets: loaded })
    }
}

} // verus!
