//! The repository and its parts: sets of glyphs, the sources that
//! contribute drawings to a set, and the layers of a source.

use vstd::prelude::*;
use crate::glyph::{Drawing, DrawingView};
use crate::metadata::{GlyphRecord, GlyphRecordView};
use crate::name_map::{Duplicate, NameMap};
use crate::name_set::NameSet;
use crate::names::NameView;

verus! {

/// One layer of a source: drawings by glyph name, and the colors that
/// glyphs of the layer are marked with.
#[derive(Debug, PartialEq)]
pub struct Layer {
    pub glyphs: NameMap<Drawing>,
    pub color_marks: NameMap<String>,
    /// Whether this is the default layer of its source.
    pub default: bool,
}

/// A layer as contracts see it.
#[verifier::ext_equal]
pub struct LayerView {
    pub glyphs: Map<NameView, DrawingView>,
    pub color_marks: Map<NameView, Seq<char>>,
    pub default: bool,
}

impl View for Layer {
    type V = LayerView;

    open spec fn view(&self) -> LayerView {
        LayerView { glyphs: self.glyphs@, color_marks: self.color_marks@, default: self.default }
    }
}

/// One font that contributes drawings to a set.
#[derive(Debug, PartialEq)]
pub struct Source {
    pub layers: NameMap<Layer>,
}

/// A source as contracts see it.
#[verifier::ext_equal]
pub struct SourceView {
    pub layers: Map<NameView, LayerView>,
}

impl View for Source {
    type V = SourceView;

    open spec fn view(&self) -> SourceView {
        SourceView { layers: self.layers@ }
    }
}

/// A set of glyphs: what is known of each glyph, and the sources that draw
/// them.
#[derive(Debug, PartialEq)]
pub struct GlyphSet {
    pub glyph_data: NameMap<GlyphRecord>,
    pub sources: NameMap<Source>,
}

/// A set as contracts see it.
#[verifier::ext_equal]
pub struct GlyphSetView {
    pub glyph_data: Map<NameView, GlyphRecordView>,
    pub sources: Map<NameView, SourceView>,
}

impl View for GlyphSet {
    type V = GlyphSetView;

    open spec fn view(&self) -> GlyphSetView {
        GlyphSetView { glyph_data: self.glyph_data@, sources: self.sources@ }
    }
}

/// The repository: sets by name.
#[derive(Debug, PartialEq)]
pub struct Fontgarden {
    pub sets: NameMap<GlyphSet>,
}

/// A repository as contracts see it.
#[verifier::ext_equal]
pub struct FontgardenView {
    pub sets: Map<NameView, GlyphSetView>,
}

impl View for Fontgarden {
    type V = FontgardenView;

    open spec fn view(&self) -> FontgardenView {
        FontgardenView { sets: self.sets@ }
    }
}

/// A layer without glyphs.
pub open spec fn empty_layer(default: bool) -> LayerView {
    LayerView { glyphs: Map::empty(), color_marks: Map::empty(), default }
}

/// A source with one layer, which is empty and the default.
pub open spec fn fresh_source(default_layer_name: NameView) -> SourceView {
    SourceView { layers: Map::<NameView, LayerView>::empty().insert(default_layer_name, empty_layer(true)) }
}

/// A set without glyphs and sources.
pub open spec fn empty_set() -> GlyphSetView {
    GlyphSetView { glyph_data: Map::empty(), sources: Map::empty() }
}

/// Whether `name` is the one default layer of the source.
pub open spec fn is_default_layer(source: SourceView, name: NameView) -> bool {
    &&& source.layers.contains_key(name)
    &&& source.layers[name].default
    &&& forall|other: NameView| #[trigger]
        source.layers.contains_key(other) && source.layers[other].default ==> other == name
}

/// Whether the source has exactly one layer that is flagged as default.
pub open spec fn has_one_default(source: SourceView) -> bool {
    exists|name: NameView| is_default_layer(source, name)
}

/// The name of the default layer of a source that has exactly one.
pub open spec fn default_layer_name(source: SourceView) -> NameView {
    choose|name: NameView| is_default_layer(source, name)
}

/// Whether every source of the set has exactly one default layer.
pub open spec fn set_sources_sound(set: GlyphSetView) -> bool {
    forall|source: NameView| #[trigger]
        set.sources.contains_key(source) ==> has_one_default(set.sources[source])
}

/// Whether every source of every set has exactly one default layer.
pub open spec fn sources_sound(garden: FontgardenView) -> bool {
    forall|set: NameView| #[trigger]
        garden.sets.contains_key(set) ==> set_sources_sound(garden.sets[set])
}

/// The glyphs that a source draws in any of its layers.
pub open spec fn source_glyphs(source: SourceView) -> Set<NameView> {
    Set::new(
        |glyph: NameView|
            exists|layer: NameView| #[trigger]
                source.layers.contains_key(layer) && source.layers[layer].glyphs.contains_key(glyph),
    )
}

/// The glyphs that a source of the set draws.
pub open spec fn drawn_glyphs(set: GlyphSetView) -> Set<NameView> {
    Set::new(
        |glyph: NameView|
            exists|source: NameView| #[trigger]
                set.sources.contains_key(source) && source_glyphs(set.sources[source]).contains(glyph),
    )
}

/// The coverage of a set: the glyphs of which it holds a record or a
/// drawing.
pub open spec fn coverage(set: GlyphSetView) -> Set<NameView> {
    set.glyph_data.dom().union(drawn_glyphs(set))
}

/// Whether no glyph is covered by two sets.
pub open spec fn coverage_disjoint(garden: FontgardenView) -> bool {
    forall|a: NameView, b: NameView|
        #![trigger garden.sets.contains_key(a), garden.sets.contains_key(b)]
        garden.sets.contains_key(a) && garden.sets.contains_key(b) && a != b ==> coverage(
            garden.sets[a],
        ).disjoint(coverage(garden.sets[b]))
}

impl Layer {
    /// A layer without glyphs.
    pub fn new(default: bool) -> (layer: Layer)
        ensures
            layer@ == empty_layer(default),
    {
        Layer { glyphs: NameMap::new(), color_marks: NameMap::new(), default }
    }

    /// Moves the glyphs and color marks of `other` into the layer. A glyph
    /// or mark that the layer has under the same name is replaced.
    pub fn absorb(&mut self, other: Layer)
        ensures
            final(self)@ == merged_layer(old(self)@, other@),
    {
        self.glyphs.absorb(other.glyphs);
        self.color_marks.absorb(other.color_marks);
    }

    /// A copy of the glyphs and color marks whose names are in `names`,
    /// with the flag of the layer.
    pub fn restricted(&self, names: &NameSet) -> (part: Layer)
        ensures
            part@ == restricted_layer(self@, names@),
    {
        Layer {
            glyphs: self.glyphs.restricted(names),
            color_marks: self.color_marks.restricted(names),
            default: self.default,
        }
    }

    /// Drops the glyphs and color marks whose names are not in `names`.
    pub fn retain(&mut self, names: &NameSet)
        ensures
            final(self)@ == restricted_layer(old(self)@, names@),
    {
        self.glyphs.retain_names(names);
        self.color_marks.retain_names(names);
    }
}

/// `layer` with the glyphs and color marks of `other` added; where both
/// have a name, those of `other`.
pub open spec fn merged_layer(layer: LayerView, other: LayerView) -> LayerView {
    LayerView {
        glyphs: layer.glyphs.union_prefer_right(other.glyphs),
        color_marks: layer.color_marks.union_prefer_right(other.color_marks),
        default: layer.default,
    }
}

/// The glyphs and color marks of `layer` whose names are in `names`.
pub open spec fn restricted_layer(layer: LayerView, names: Set<NameView>) -> LayerView {
    LayerView {
        glyphs: layer.glyphs.restrict(names),
        color_marks: layer.color_marks.restrict(names),
        default: layer.default,
    }
}

impl Default for Layer {
    fn default() -> (layer: Layer)
        ensures
            layer@ == empty_layer(false),
    {
        Layer::new(false)
    }
}

impl Duplicate for Layer {
    fn duplicate(&self) -> (copy: Layer) {
        Layer {
            glyphs: self.glyphs.duplicate_map(),
            color_marks: self.color_marks.duplicate_map(),
            default: self.default,
        }
    }
}

impl Source {
    /// A source with one layer of the given name, which is empty and the
    /// default.
    pub fn new_with_default_layer_name(name: String) -> (source: Source)
        ensures
            source@ == fresh_source(name@),
            has_one_default(source@),
    {
        let mut layers = NameMap::new();
        layers.insert(name, Layer::new(true));
        let source = Source { layers };
        proof {
            assert(is_default_layer(source@, name@));
        }
        source
    }

    /// The index of the default layer among the layers in the order of
    /// their names; `None` where no layer is flagged as default. Where
    /// several are, the first.
    pub fn default_layer_index(&self) -> (r: Option<usize>)
        ensures
            self.layers.wf(),
            r matches Some(i) ==> i < self.layers.keys().len() && self.layers.values()[i as int].default
                && forall|j: int| 0 <= j < i ==> !(#[trigger] self.layers.values()[j]).default,
            r is None ==> forall|j: int|
                0 <= j < self.layers.keys().len() ==> !(#[trigger] self.layers.values()[j]).default,
            has_one_default(self@) ==> r is Some && is_default_layer(
                self@,
                self.layers.keys()[r->0 as int],
            ),
    {
        let n = self.layers.len();
        let mut i: usize = 0;
        while i < n
            invariant
                i <= n,
                n == self.layers.keys().len(),
                self.layers.wf(),
                forall|j: int| 0 <= j < i ==> !(#[trigger] self.layers.values()[j]).default,
            decreases n - i,
        {
            if self.layers.value_at(i).default {
                proof {
                    if has_one_default(self@) {
                        let name = default_layer_name(self@);
                        let found = self.layers.keys()[i as int];
                        assert(self@.layers.contains_key(found));
                        assert(self@.layers[found] == self.layers.values()[i as int]@);
                    }
                }
                return Some(i);
            }
            i += 1;
        }
        proof {
            if has_one_default(self@) {
                let name = default_layer_name(self@);
                assert(self.layers.keys().to_set().contains(name));
                let j = choose|j: int| 0 <= j < self.layers.keys().len() && self.layers.keys()[j] == name;
                assert(self@.layers[self.layers.keys()[j]] == self.layers.values()[j]@);
            }
        }
        None
    }

    /// Whether the source has exactly one layer that is flagged as default.
    pub fn has_one_default_layer(&self) -> (r: bool)
        ensures
            r == has_one_default(self@),
    {
        match self.default_layer_index() {
            Some(at) => {
                let count = self.layers.len();
                let mut k: usize = at + 1;
                while k < count
                    invariant
                        at < k <= count,
                        count == self.layers.keys().len(),
                        self.layers.wf(),
                        self.layers.values()[at as int].default,
                        forall|j: int| 0 <= j < k && j != at ==> !(#[trigger] self.layers.values()[j]).default,
                    decreases count - k,
                {
                    if self.layers.value_at(k).default {
                        proof {
                            let a = self.layers.keys()[at as int];
                            let b = self.layers.keys()[k as int];
                            assert(self@.layers[a] == self.layers.values()[at as int]@);
                            assert(self@.layers[b] == self.layers.values()[k as int]@);
                            if a == b {
                                crate::name_map::lemma_ascending_unique(
                                    self.layers.keys(),
                                    at as int,
                                    k as int,
                                );
                            }
                            lemma_two_defaults(self@, a, b);
                        }
                        return false;
                    }
                    k += 1;
                }
                proof {
                    let name = self.layers.keys()[at as int];
                    assert(self@.layers[name] == self.layers.values()[at as int]@);
                    assert(is_default_layer(self@, name)) by {
                        assert forall|other: NameView| #[trigger]
                            self@.layers.contains_key(other) && self@.layers[other].default implies other
                            == name by {
                            assert(self.layers.keys().to_set().contains(other));
                            let j = choose|j: int|
                                0 <= j < self.layers.keys().len() && self.layers.keys()[j] == other;
                            assert(self@.layers[self.layers.keys()[j]] == self.layers.values()[j]@);
                        }
                    }
                }
                true
            },
            None => false,
        }
    }

    /// The default layer, to be changed in place.
    pub fn get_default_layer_mut(&mut self) -> (layer: &mut Layer)
        requires
            has_one_default(old(self)@),
        ensures
            layer@ == old(self)@.layers[default_layer_name(old(self)@)],
            final(self)@.layers == old(self)@.layers.insert(
                default_layer_name(old(self)@),
                final(layer)@,
            ),
    {
        let at = self.default_layer_index().unwrap();
        proof {
            let name = self.layers.keys()[at as int];
            assert(is_default_layer(self@, name));
            assert(is_default_layer(self@, default_layer_name(self@)));
            assert(self@.layers[name] == self.layers.values()[at as int]@);
        }
        self.layers.value_at_mut(at)
    }

    /// The layer of the given name, to be changed in place. Where the
    /// source has none, an empty layer that is not the default is made
    /// first.
    pub fn get_or_create_layer(&mut self, name: String) -> (layer: &mut Layer)
        ensures
            layer@ == layer_or_new(old(self)@, name@),
            final(self)@.layers == old(self)@.layers.insert(name@, final(layer)@),
    {
        let ghost key = name@;
        let at = match self.layers.position(name.as_str()) {
            Some(at) => at,
            None => {
                self.layers.insert(name.clone(), Layer::new(false));
                self.layers.position(name.as_str()).unwrap()
            },
        };
        let ghost middle = self.layers@;
        proof {
            assert(self.layers.wf());
            assert(middle[self.layers.keys()[at as int]] == self.layers.values()[at as int]@);
            assert(forall|v: LayerView| #[trigger] middle.insert(key, v) =~= old(self)@.layers.insert(key, v));
        }
        self.layers.value_at_mut(at)
    }
}

/// The layer of the given name, or an empty layer that is not the default
/// where the source has none.
pub open spec fn layer_or_new(source: SourceView, name: NameView) -> LayerView {
    if source.layers.contains_key(name) {
        source.layers[name]
    } else {
        empty_layer(false)
    }
}

impl Source {
    /// The glyphs that the source draws in any of its layers.
    pub fn glyph_names(&self) -> (names: NameSet)
        ensures
            names@ == source_glyphs(self@),
            names.wf(),
    {
        let mut names = NameSet::new();
        let n = self.layers.len();
        let mut i: usize = 0;
        while i < n
            invariant
                i <= n,
                n == self.layers.keys().len(),
                self.layers.wf(),
                names.wf(),
                forall|glyph: NameView|
                    names@.contains(glyph) <==> exists|j: int|
                        0 <= j < i && (#[trigger] self.layers.values()[j])@.glyphs.contains_key(glyph),
            decreases n - i,
        {
            let ghost before = names@;
            let drawn = self.layers.value_at(i).glyphs.key_set();
            names.extend(&drawn);
            proof {
                assert forall|glyph: NameView| names@.contains(glyph) <==> exists|j: int|
                    0 <= j < i + 1 && (#[trigger] self.layers.values()[j])@.glyphs.contains_key(
                        glyph,
                    ) by {
                    if before.contains(glyph) {
                        let j = choose|j: int|
                            0 <= j < i && (#[trigger] self.layers.values()[j])@.glyphs.contains_key(glyph);
                        assert(self.layers.values()[j]@.glyphs.contains_key(glyph));
                    }
                    if drawn@.contains(glyph) {
                        assert(self.layers.values()[i as int]@.glyphs.contains_key(glyph));
                    }
                }
            }
            i += 1;
        }
        proof {
            assert forall|glyph: NameView| names@.contains(glyph) <==> source_glyphs(self@).contains(
                glyph,
            ) by {
                if names@.contains(glyph) {
                    let j = choose|j: int|
                        0 <= j < n && (#[trigger] self.layers.values()[j])@.glyphs.contains_key(glyph);
                    let layer = self.layers.keys()[j];
                    assert(self@.layers.contains_key(layer));
                    assert(self@.layers[layer] == self.layers.values()[j]@);
                }
                if source_glyphs(self@).contains(glyph) {
                    let layer = choose|layer: NameView| #[trigger]
                        self@.layers.contains_key(layer) && self@.layers[layer].glyphs.contains_key(glyph);
                    assert(self.layers.keys().to_set().contains(layer));
                    let j = choose|j: int|
                        0 <= j < self.layers.keys().len() && self.layers.keys()[j] == layer;
                    assert(self@.layers[self.layers.keys()[j]] == self.layers.values()[j]@);
                    assert(self.layers.values()[j]@.glyphs.contains_key(glyph));
                }
            }
            assert(names@ =~= source_glyphs(self@));
        }
        names
    }
}

impl Default for Source {
    fn default() -> (source: Source)
        ensures
            source@ == fresh_source("public.default"@),
    {
        Source::new_with_default_layer_name("public.default".to_string())
    }
}

impl Duplicate for Source {
    fn duplicate(&self) -> (copy: Source) {
        Source { layers: self.layers.duplicate_map() }
    }
}

impl GlyphSet {
    /// A set without glyphs and sources.
    pub fn new() -> (set: GlyphSet)
        ensures
            set@ == empty_set(),
    {
        GlyphSet { glyph_data: NameMap::new(), sources: NameMap::new() }
    }
}

impl GlyphSet {
    /// The coverage of the set: the glyphs of which it holds a record or a
    /// drawing.
    pub fn glyph_coverage(&self) -> (names: NameSet)
        ensures
            names@ == coverage(self@),
            names.wf(),
    {
        let mut names = self.glyph_data.key_set();
        let n = self.sources.len();
        let mut i: usize = 0;
        while i < n
            invariant
                i <= n,
                n == self.sources.keys().len(),
                self.sources.wf(),
                names.wf(),
                forall|glyph: NameView|
                    names@.contains(glyph) <==> self@.glyph_data.contains_key(glyph) || exists|j: int|
                        0 <= j < i && source_glyphs((#[trigger] self.sources.values()[j])@).contains(glyph),
            decreases n - i,
        {
            let ghost before = names@;
            let drawn = self.sources.value_at(i).glyph_names();
            names.extend(&drawn);
            proof {
                assert forall|glyph: NameView|
                    names@.contains(glyph) <==> self@.glyph_data.contains_key(glyph) || exists|j: int|
                        0 <= j < i + 1 && source_glyphs((#[trigger] self.sources.values()[j])@).contains(
                            glyph,
                        ) by {
                    if before.contains(glyph) && !self@.glyph_data.contains_key(glyph) {
                        let j = choose|j: int|
                            0 <= j < i && source_glyphs((#[trigger] self.sources.values()[j])@).contains(
                                glyph,
                            );
                        assert(source_glyphs(self.sources.values()[j]@).contains(glyph));
                    }
                    if drawn@.contains(glyph) {
                        assert(source_glyphs(self.sources.values()[i as int]@).contains(glyph));
                    }
                }
            }
            i += 1;
        }
        proof {
            assert forall|glyph: NameView| names@.contains(glyph) <==> coverage(self@).contains(
                glyph,
            ) by {
                if names@.contains(glyph) && !self@.glyph_data.contains_key(glyph) {
                    let j = choose|j: int|
                        0 <= j < n && source_glyphs((#[trigger] self.sources.values()[j])@).contains(glyph);
                    let source = self.sources.keys()[j];
                    assert(self@.sources.contains_key(source));
                    assert(self@.sources[source] == self.sources.values()[j]@);
                    assert(drawn_glyphs(self@).contains(glyph));
                }
                if drawn_glyphs(self@).contains(glyph) {
                    let source = choose|source: NameView| #[trigger]
                        self@.sources.contains_key(source) && source_glyphs(
                            self@.sources[source],
                        ).contains(glyph);
                    assert(self.sources.keys().to_set().contains(source));
                    let j = choose|j: int|
                        0 <= j < self.sources.keys().len() && self.sources.keys()[j] == source;
                    assert(self@.sources[self.sources.keys()[j]] == self.sources.values()[j]@);
                    assert(source_glyphs(self.sources.values()[j]@).contains(glyph));
                }
            }
            assert(names@ =~= coverage(self@));
        }
        names
    }
}

impl GlyphSet {
    /// Whether every source of the set has exactly one default layer.
    pub fn has_sound_sources(&self) -> (r: bool)
        ensures
            r == set_sources_sound(self@),
    {
        let n = self.sources.len();
        let mut i: usize = 0;
        while i < n
            invariant
                i <= n,
                n == self.sources.keys().len(),
                self.sources.wf(),
                forall|j: int| 0 <= j < i ==> has_one_default((#[trigger] self.sources.values()[j])@),
            decreases n - i,
        {
            if !self.sources.value_at(i).has_one_default_layer() {
                proof {
                    assert(self@.sources.contains_key(self.sources.keys()[i as int]));
                    assert(self@.sources[self.sources.keys()[i as int]] == self.sources.values()[i as int]@);
                }
                return false;
            }
            i += 1;
        }
        proof {
            assert forall|source: NameView| #[trigger] self@.sources.contains_key(source) implies has_one_default(
                self@.sources[source],
            ) by {
                assert(self.sources.keys().to_set().contains(source));
                let j = choose|j: int| 0 <= j < self.sources.keys().len() && self.sources.keys()[j] == source;
                assert(self@.sources[self.sources.keys()[j]] == self.sources.values()[j]@);
            }
        }
        true
    }
}

impl Default for GlyphSet {
    fn default() -> (set: GlyphSet)
        ensures
            set@ == empty_set(),
    {
        GlyphSet::new()
    }
}

impl Fontgarden {
    /// A repository without sets.
    pub fn new() -> (garden: Fontgarden)
        ensures
            garden@.sets == Map::<NameView, GlyphSetView>::empty(),
            sources_sound(garden@),
            coverage_disjoint(garden@),
    {
        Fontgarden { sets: NameMap::new() }
    }
}

impl Fontgarden {
    /// Whether every source of every set has exactly one default layer.
    pub fn has_sound_sources(&self) -> (r: bool)
        ensures
            r == sources_sound(self@),
    {
        let n = self.sets.len();
        let mut i: usize = 0;
        while i < n
            invariant
                i <= n,
                n == self.sets.keys().len(),
                self.sets.wf(),
                forall|j: int| 0 <= j < i ==> set_sources_sound((#[trigger] self.sets.values()[j])@),
            decreases n - i,
        {
            if !self.sets.value_at(i).has_sound_sources() {
                proof {
                    assert(self@.sets.contains_key(self.sets.keys()[i as int]));
                    assert(self@.sets[self.sets.keys()[i as int]] == self.sets.values()[i as int]@);
                }
                return false;
            }
            i += 1;
        }
        proof {
            assert forall|set: NameView| #[trigger] self@.sets.contains_key(set) implies set_sources_sound(
                self@.sets[set],
            ) by {
                assert(self.sets.keys().to_set().contains(set));
                let j = choose|j: int| 0 <= j < self.sets.keys().len() && self.sets.keys()[j] == set;
                assert(self@.sets[self.sets.keys()[j]] == self.sets.values()[j]@);
            }
        }
        true
    }
}

/// A source with two layers that are flagged as default does not have
/// exactly one default layer.
pub proof fn lemma_two_defaults(source: SourceView, a: NameView, b: NameView)
    requires
        source.layers.contains_key(a),
        source.layers.contains_key(b),
        source.layers[a].default,
        source.layers[b].default,
        a != b,
    ensures
        !has_one_default(source),
{
    if has_one_default(source) {
        let name = choose|name: NameView| is_default_layer(source, name);
        assert(source.layers.contains_key(a) && source.layers[a].default ==> a == name);
        assert(source.layers.contains_key(b) && source.layers[b].default ==> b == name);
    }
}

impl Default for Fontgarden {
    fn default() -> (garden: Fontgarden)
        ensures
            garden@.sets == Map::<NameView, GlyphSetView>::empty(),
    {
        Fontgarden::new()
    }
}

} // verus!
