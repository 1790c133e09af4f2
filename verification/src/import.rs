//! Importing glyphs from a font document into the repository.
//!
//! The glyphs that are asked for are expanded to their composite closure
//! in the document. A glyph that a set of the repository covers already
//! goes to that set; the others go to the set that the caller names.

use vstd::prelude::*;
use crate::closure::{closure, glyphset_follow_composites};
use crate::document::{
    document_of_font, extract_glyph_data, extracted_records, DocumentLayerView, FontDocument,
    FontDocumentView,
};
use crate::errors::LoadError;
use crate::model::{
    coverage, coverage_disjoint, default_layer_name, empty_set, fresh_source, has_one_default, is_default_layer,
    layer_or_new, merged_layer, restricted_layer, set_sources_sound, sources_sound, Fontgarden,
    FontgardenView, GlyphSet, GlyphSetView, Source, SourceView,
};
use crate::name_set::NameSet;
use crate::names::{compare_names, NameOrder, NameView};

verus! {

/// The glyphs asked for, expanded layer by layer: the closure in the first
/// layer, the closure of that in the second, and so on.
pub open spec fn expanded(layers: Seq<DocumentLayerView>, requested: Set<NameView>) -> Set<NameView>
    decreases layers.len(),
{
    if layers.len() == 0 {
        requested
    } else {
        closure(layers.last().layer.glyphs, expanded(layers.drop_last(), requested))
    }
}

/// Whether a set of the repository covers the glyph.
pub open spec fn claimed(garden: FontgardenView, glyph: NameView) -> bool {
    exists|set: NameView| #[trigger]
        garden.sets.contains_key(set) && coverage(garden.sets[set]).contains(glyph)
}

/// The glyphs among `names` that no set of the repository covers.
pub open spec fn unclaimed(garden: FontgardenView, names: Set<NameView>) -> Set<NameView> {
    Set::new(|glyph: NameView| names.contains(glyph) && !claimed(garden, glyph))
}

/// The glyphs among `names` that go to the set `set`: those that the set
/// covers and, where it is the target, those that no set covers.
pub open spec fn routed(
    garden: FontgardenView,
    names: Set<NameView>,
    target: NameView,
    set: NameView,
) -> Set<NameView> {
    Set::new(
        |glyph: NameView|
            names.contains(glyph) && ((garden.sets.contains_key(set) && coverage(
                garden.sets[set],
            ).contains(glyph)) || (set == target && !claimed(garden, glyph))),
    )
}

/// The source of the given name, or a fresh source where the set has none.
pub open spec fn source_or_new(set: GlyphSetView, source: NameView, default_layer: NameView) -> SourceView {
    if set.sources.contains_key(source) {
        set.sources[source]
    } else {
        fresh_source(default_layer)
    }
}

/// The layer of the source that a layer of a document is merged into: the
/// default layer for the first layer of the document, and else the layer
/// of the same name.
pub open spec fn merge_target(source: SourceView, layer: DocumentLayerView, first: bool) -> NameView {
    if first {
        default_layer_name(source)
    } else {
        layer.name
    }
}

/// `source` after the glyphs `names` of one layer of a document were
/// merged into it. A layer of the document without such glyphs changes
/// nothing.
pub open spec fn merge_one(
    source: SourceView,
    layer: DocumentLayerView,
    names: Set<NameView>,
    first: bool,
) -> SourceView {
    let part = restricted_layer(layer.layer, names);
    if part.glyphs.dom() =~= Set::<NameView>::empty() {
        source
    } else {
        let target = merge_target(source, layer, first);
        SourceView {
            layers: source.layers.insert(target, merged_layer(layer_or_new(source, target), part)),
        }
    }
}

/// `source` after the glyphs `names` of the layers of a document were
/// merged into it, the first layer first.
pub open spec fn merged_source(
    source: SourceView,
    layers: Seq<DocumentLayerView>,
    names: Set<NameView>,
) -> SourceView
    decreases layers.len(),
{
    if layers.len() == 0 {
        source
    } else {
        merge_one(
            merged_source(source, layers.drop_last(), names),
            layers.last(),
            names,
            layers.len() == 1,
        )
    }
}

/// `set` after the glyphs `names` of a document were imported into it for
/// the source `source`: their records are those of the document, and their
/// drawings are merged into the source, which is made where the set has
/// none of that name.
pub open spec fn merged_set(
    set: GlyphSetView,
    doc: FontDocumentView,
    names: Set<NameView>,
    source: NameView,
) -> GlyphSetView {
    GlyphSetView {
        glyph_data: set.glyph_data.union_prefer_right(extracted_records(doc, names)),
        sources: set.sources.insert(
            source,
            merged_source(source_or_new(set, source, doc.layers[0].name), doc.layers, names),
        ),
    }
}

/// The set of the given name, or an empty set where the repository has
/// none.
pub open spec fn set_or_empty(garden: FontgardenView, set: NameView) -> GlyphSetView {
    if garden.sets.contains_key(set) {
        garden.sets[set]
    } else {
        empty_set()
    }
}

/// Whether glyphs among `names` go to the set `set`.
pub open spec fn touched(
    garden: FontgardenView,
    names: Set<NameView>,
    target: NameView,
    set: NameView,
) -> bool {
    !(routed(garden, names, target, set) =~= Set::<NameView>::empty())
}

/// The repository after the import of `names`, which are taken as they
/// are: each set that glyphs go to is merged with them, the target is made
/// where it is new and glyphs go to it, and the other sets stay as they are.
pub open spec fn imported_names(
    garden: FontgardenView,
    doc: FontDocumentView,
    names: Set<NameView>,
    target: NameView,
    source: NameView,
) -> FontgardenView {
    FontgardenView {
        sets: Map::new(
            |set: NameView| garden.sets.contains_key(set) || touched(garden, names, target, set),
            |set: NameView|
                if touched(garden, names, target, set) {
                    merged_set(
                        set_or_empty(garden, set),
                        doc,
                        routed(garden, names, target, set),
                        source,
                    )
                } else {
                    garden.sets[set]
                },
        ),
    }
}

/// The repository after the import of the glyphs `requested`, and of those
/// that they depend on, from a document with at least one layer.
pub open spec fn imported(
    garden: FontgardenView,
    doc: FontDocumentView,
    requested: Set<NameView>,
    target: NameView,
    source: NameView,
) -> FontgardenView {
    imported_names(garden, doc, expanded(doc.layers, requested), target, source)
}

/// Merging a layer of a document into a source leaves the source with the
/// one default layer that it had.
pub proof fn lemma_merge_one_keeps_default(
    source: SourceView,
    layer: DocumentLayerView,
    names: Set<NameView>,
    first: bool,
)
    requires
        has_one_default(source),
    ensures
        has_one_default(merge_one(source, layer, names, first)),
        default_layer_name(merge_one(source, layer, names, first)) == default_layer_name(source),
{
    let after = merge_one(source, layer, names, first);
    let name = default_layer_name(source);
    assert(is_default_layer(source, name));
    let target = merge_target(source, layer, first);
    assert(is_default_layer(after, name)) by {
        assert forall|other: NameView| #[trigger]
            after.layers.contains_key(other) && after.layers[other].default implies other == name by {
            if other == target {
                assert(source.layers.contains_key(other));
            } else {
                assert(source.layers.contains_key(other));
            }
        }
    }
    let chosen = default_layer_name(after);
    assert(is_default_layer(after, chosen));
}

/// Merging the layers of a document into a source leaves the source with
/// the one default layer that it had.
pub proof fn lemma_merged_source_keeps_default(
    source: SourceView,
    layers: Seq<DocumentLayerView>,
    names: Set<NameView>,
)
    requires
        has_one_default(source),
    ensures
        has_one_default(merged_source(source, layers, names)),
        default_layer_name(merged_source(source, layers, names)) == default_layer_name(source),
    decreases layers.len(),
{
    if layers.len() > 0 {
        lemma_merged_source_keeps_default(source, layers.drop_last(), names);
        lemma_merge_one_keeps_default(
            merged_source(source, layers.drop_last(), names),
            layers.last(),
            names,
            layers.len() == 1,
        );
    }
}

/// The glyphs asked for, expanded layer by layer.
fn expand(doc: &FontDocument, glyphs: &NameSet) -> (names: NameSet)
    ensures
        names@ == expanded(doc@.layers, glyphs@),
        names.wf(),
{
    let mut names = glyphs.duplicate();
    let mut i: usize = 0;
    proof {
        assert(doc@.layers.take(0) =~= Seq::<DocumentLayerView>::empty());
    }
    while i < doc.layers.len()
        invariant
            i <= doc.layers.len(),
            names.wf(),
            names@ == expanded(doc@.layers.take(i as int), glyphs@),
        decreases doc.layers.len() - i,
    {
        proof {
            let upto = doc@.layers.take(i as int + 1);
            assert(upto.last() == doc.layers[i as int]@);
            assert(upto.drop_last() =~= doc@.layers.take(i as int));
        }
        names = glyphset_follow_composites(&names, &doc.layers[i].layer.glyphs);
        i += 1;
    }
    proof {
        assert(doc@.layers.take(i as int) =~= doc@.layers);
    }
    names
}

/// Merges the glyphs `names` of the layers of a document into a source.
fn merge_source(source: &mut Source, doc: &FontDocument, names: &NameSet)
    requires
        has_one_default(old(source)@),
    ensures
        final(source)@ == merged_source(old(source)@, doc@.layers, names@),
        has_one_default(final(source)@),
{
    let mut i: usize = 0;
    proof {
        assert(doc@.layers.take(0) =~= Seq::<DocumentLayerView>::empty());
    }
    while i < doc.layers.len()
        invariant
            i <= doc.layers.len(),
            has_one_default(source@),
            source@ == merged_source(old(source)@, doc@.layers.take(i as int), names@),
        decreases doc.layers.len() - i,
    {
        let ghost before = source@;
        proof {
            let upto = doc@.layers.take(i as int + 1);
            assert(upto.last() == doc.layers[i as int]@);
            assert(upto.drop_last() =~= doc@.layers.take(i as int));
            lemma_merge_one_keeps_default(before, doc.layers[i as int]@, names@, i == 0);
        }
        let part = doc.layers[i].layer.restricted(names);
        if !part.glyphs.is_empty() {
            if i == 0 {
                let target = source.get_default_layer_mut();
                target.absorb(part);
            } else {
                let target = source.get_or_create_layer(doc.layers[i].name.clone());
                target.absorb(part);
            }
        }
        proof {
            assert(source@ == merge_one(before, doc.layers[i as int]@, names@, i == 0));
        }
        i += 1;
    }
    proof {
        assert(doc@.layers.take(i as int) =~= doc@.layers);
    }
}

/// Imports the glyphs `names` of a document into a set, for the source
/// `source_name`.
fn merge_set(set: &mut GlyphSet, doc: &FontDocument, names: &NameSet, source_name: &str)
    requires
        set_sources_sound(old(set)@),
        doc.layers.len() > 0,
    ensures
        final(set)@ == merged_set(old(set)@, doc@, names@, source_name@),
        set_sources_sound(final(set)@),
{
    let records = extract_glyph_data(doc, names);
    set.glyph_data.absorb(records);
    let ghost sources_before = set.sources@;
    let at = match set.sources.position(source_name) {
        Some(at) => at,
        None => {
            let fresh = Source::new_with_default_layer_name(doc.layers[0].name.clone());
            set.sources.insert(source_name.to_string(), fresh);
            set.sources.position(source_name).unwrap()
        },
    };
    let ghost middle = set.sources@;
    proof {
        assert(set.sources.wf());
        assert(middle[set.sources.keys()[at as int]] == set.sources.values()[at as int]@);
        assert(middle[source_name@] == source_or_new(old(set)@, source_name@, doc@.layers[0].name));
        assert(forall|v: SourceView| #[trigger]
            middle.insert(source_name@, v) =~= sources_before.insert(source_name@, v));
    }
    let source = set.sources.value_at_mut(at);
    merge_source(source, doc, names);
    proof {
        assert(set@.sources =~= sources_before.insert(source_name@, set@.sources[source_name@]));
        assert forall|other: NameView| #[trigger] set@.sources.contains_key(other) implies has_one_default(
            set@.sources[other],
        ) by {
            if other != source_name@ {
                assert(old(set)@.sources.contains_key(other));
            }
        }
    }
}

impl Fontgarden {
    /// Imports glyphs from a font document.
    ///
    /// The glyphs `glyphs` and those that they depend on through components
    /// are imported. A glyph that a set covers already goes to that set, the
    /// others go to the set `set_name`, which is made where it is new. In
    /// each set that glyphs go to, the records of the glyphs are replaced by
    /// those of the document, and their drawings are merged into the source
    /// `source_name`, which is made where the set has none of that name.
    ///
    /// Fails, and changes nothing, where the document has no layer.
    pub fn import_document(
        &mut self,
        doc: &FontDocument,
        glyphs: &NameSet,
        set_name: &str,
        source_name: &str,
    ) -> (r: Result<(), LoadError>)
        requires
            sources_sound(old(self)@),
        ensures
            doc@.layers.len() == 0 ==> (r matches Err(LoadError::NoDefaultLayer)) && final(self)@
                == old(self)@,
            doc@.layers.len() > 0 ==> r is Ok && final(self)@ == imported(
                old(self)@,
                doc@,
                glyphs@,
                set_name@,
                source_name@,
            ),
            sources_sound(final(self)@),
            coverage_disjoint(old(self)@) ==> coverage_disjoint(final(self)@),
    {
        if doc.layers.len() == 0 {
            return Err(LoadError::NoDefaultLayer);
        }
        proof {
            if coverage_disjoint(self@) {
                crate::invariants::lemma_import_keeps_coverage_disjoint(
                    self@,
                    doc@,
                    glyphs@,
                    set_name@,
                    source_name@,
                );
            }
        }
        let ghost garden = self@;
        let names = expand(doc, glyphs);
        let n = self.sets.len();
        let ghost keys = self.sets.keys();
        let ghost at_start = self.sets.values();
        let mut routes: Vec<NameSet> = Vec::new();
        let mut taken = NameSet::new();
        let mut i: usize = 0;
        while i < n
            invariant
                i <= n,
                n == self.sets.keys().len(),
                self.sets.wf(),
                names.wf(),
                routes.len() == i,
                forall|j: int|
                    0 <= j < i ==> (#[trigger] routes[j])@ == coverage(self.sets.values()[j]@).intersect(
                        names@,
                    ),
                forall|glyph: NameView|
                    taken@.contains(glyph) <==> names@.contains(glyph) && exists|j: int|
                        0 <= j < i && coverage((#[trigger] self.sets.values()[j])@).contains(glyph),
            decreases n - i,
        {
            let ghost before = taken@;
            let covered = self.sets.value_at(i).glyph_coverage();
            let part = covered.intersection(&names);
            taken.extend(&part);
            routes.push(part);
            proof {
                assert forall|glyph: NameView|
                    taken@.contains(glyph) <==> names@.contains(glyph) && exists|j: int|
                        0 <= j < i + 1 && coverage((#[trigger] self.sets.values()[j])@).contains(
                            glyph,
                        ) by {
                    if before.contains(glyph) {
                        let j = choose|j: int|
                            0 <= j < i && coverage((#[trigger] self.sets.values()[j])@).contains(glyph);
                        assert(coverage(self.sets.values()[j]@).contains(glyph));
                    }
                    if part@.contains(glyph) {
                        assert(coverage(self.sets.values()[i as int]@).contains(glyph));
                    }
                }
            }
            i += 1;
        }
        let leftover = names.difference(&taken);
        proof {
            assert forall|glyph: NameView| leftover@.contains(glyph) <==> unclaimed(
                garden,
                names@,
            ).contains(glyph) by {
                if names@.contains(glyph) && claimed(garden, glyph) {
                    let set = choose|set: NameView| #[trigger]
                        garden.sets.contains_key(set) && coverage(garden.sets[set]).contains(glyph);
                    assert(keys.to_set().contains(set));
                    let j = choose|j: int| 0 <= j < keys.len() && keys[j] == set;
                    assert(garden.sets[keys[j]] == at_start[j]@);
                    assert(coverage(self.sets.values()[j]@).contains(glyph));
                }
                if taken@.contains(glyph) {
                    let j = choose|j: int|
                        0 <= j < n && coverage((#[trigger] self.sets.values()[j])@).contains(glyph);
                    assert(garden.sets.contains_key(keys[j]));
                    assert(garden.sets[keys[j]] == at_start[j]@);
                }
            }
            assert(leftover@ =~= unclaimed(garden, names@));
        }
        proof {
            assert forall|j: int| 0 <= j < n implies set_sources_sound(
                (#[trigger] self.sets.values()[j])@,
            ) by {
                assert(garden.sets.contains_key(keys[j]));
                assert(garden.sets[keys[j]] == at_start[j]@);
            }
        }
        let mut target_found = false;
        let mut i: usize = 0;
        while i < n
            invariant
                i <= n,
                n == keys.len(),
                doc.layers.len() > 0,
                self.sets.wf(),
                self.sets.keys() == keys,
                at_start.len() == n,
                routes.len() == n,
                garden == old(self)@,
                garden.sets.dom() =~= keys.to_set(),
                forall|j: int| 0 <= j < n ==> garden.sets[#[trigger] keys[j]] == at_start[j]@,
                forall|j: int| 0 <= j < n ==> (#[trigger] routes[j])@ == coverage(at_start[j]@).intersect(names@),
                leftover@ == unclaimed(garden, names@),
                forall|j: int| i <= j < n ==> #[trigger] self.sets.values()[j] == at_start[j],
                forall|j: int|
                    0 <= j < i ==> (#[trigger] self.sets.values()[j])@ == imported_names(
                        garden,
                        doc@,
                        names@,
                        set_name@,
                        source_name@,
                    ).sets[keys[j]],
                forall|j: int| 0 <= j < n ==> set_sources_sound((#[trigger] self.sets.values()[j])@),
                target_found <==> exists|j: int| 0 <= j < i && #[trigger] keys[j] == set_name@,
            decreases n - i,
        {
            let is_target = match compare_names(self.sets.key_at(i).as_str(), set_name) {
                NameOrder::Same => true,
                _ => false,
            };
            let mut part = routes[i].duplicate();
            let ghost own = part@;
            if is_target {
                part.extend(&leftover);
                target_found = true;
            }
            proof {
                assert(is_target <==> keys[i as int] == set_name@);
                assert(garden.sets.contains_key(keys[i as int])) by {
                    assert(keys.to_set().contains(keys[i as int]));
                }
                assert(garden.sets[keys[i as int]] == at_start[i as int]@);
                assert(routes[i as int]@ == coverage(at_start[i as int]@).intersect(names@));
                assert(own == coverage(at_start[i as int]@).intersect(names@));
                assert(part@ == if is_target {
                    own.union(leftover@)
                } else {
                    own
                });
                assert forall|glyph: NameView| part@.contains(glyph) <==> routed(
                    garden,
                    names@,
                    set_name@,
                    keys[i as int],
                ).contains(glyph) by {
                }
                assert(part@ =~= routed(garden, names@, set_name@, keys[i as int]));
            }
            let ghost values_before = self.sets.values();
            if !part.is_empty() {
                let set = self.sets.value_at_mut(i);
                merge_set(set, doc, &part, source_name);
            }
            proof {
                assert(set_or_empty(garden, keys[i as int]) == at_start[i as int]@);
                assert forall|j: int| 0 <= j < n implies set_sources_sound(
                    (#[trigger] self.sets.values()[j])@,
                ) by {
                    if j != i {
                        assert(self.sets.values()[j] == values_before[j]);
                    }
                }
            }
            i += 1;
        }
        if !target_found && !leftover.is_empty() {
            let mut set = GlyphSet::new();
            proof {
                assert(leftover@ =~= routed(garden, names@, set_name@, set_name@)) by {
                    if garden.sets.contains_key(set_name@) {
                        assert(keys.to_set().contains(set_name@));
                        let j = choose|j: int| 0 <= j < keys.len() && keys[j] == set_name@;
                        assert(keys[j] == set_name@);
                    }
                }
                assert(!garden.sets.contains_key(set_name@)) by {
                    if garden.sets.contains_key(set_name@) {
                        assert(keys.to_set().contains(set_name@));
                        let j = choose|j: int| 0 <= j < keys.len() && keys[j] == set_name@;
                        assert(keys[j] == set_name@);
                    }
                }
            }
            merge_set(&mut set, doc, &leftover, source_name);
            let ghost sets_before = self.sets@;
            let ghost values_done = self.sets.values();
            self.sets.insert(set_name.to_string(), set);
            proof {
                let goal = imported_names(garden, doc@, names@, set_name@, source_name@);
                assert forall|set: NameView| self@.sets.contains_key(set) <==> goal.sets.contains_key(
                    set,
                ) by {
                    if touched(garden, names@, set_name@, set) && !garden.sets.contains_key(set) {
                        let glyph = choose|glyph: NameView|
                            routed(garden, names@, set_name@, set).contains(glyph);
                        assert(routed(garden, names@, set_name@, set).contains(glyph));
                    }
                    if sets_before.contains_key(set) {
                        assert(keys.to_set().contains(set));
                    }
                }
                assert forall|set: NameView| #[trigger] self@.sets.contains_key(set) implies self@.sets[set]
                    == goal.sets[set] by {
                    if set != set_name@ {
                        assert(keys.to_set().contains(set));
                        let j = choose|j: int| 0 <= j < keys.len() && keys[j] == set;
                        assert(sets_before[keys[j]] == values_done[j]@);
                    }
                }
                assert(self@.sets =~= goal.sets);
                assert forall|set: NameView| #[trigger] self@.sets.contains_key(set) implies set_sources_sound(
                    self@.sets[set],
                ) by {
                    if set != set_name@ {
                        assert(keys.to_set().contains(set));
                        let j = choose|j: int| 0 <= j < keys.len() && keys[j] == set;
                        assert(sets_before[keys[j]] == values_done[j]@);
                    }
                }
            }
        } else {
            proof {
                let goal = imported_names(garden, doc@, names@, set_name@, source_name@);
                assert forall|set: NameView| self@.sets.contains_key(set) <==> goal.sets.contains_key(
                    set,
                ) by {
                    if touched(garden, names@, set_name@, set) && !garden.sets.contains_key(set) {
                        let glyph = choose|glyph: NameView|
                            routed(garden, names@, set_name@, set).contains(glyph);
                        assert(routed(garden, names@, set_name@, set).contains(glyph));
                        assert(leftover@.contains(glyph));
                        assert(set == set_name@);
                        let j = choose|j: int| 0 <= j < n && #[trigger] keys[j] == set_name@;
                        assert(garden.sets.contains_key(keys[j]));
                    }
                    if self@.sets.contains_key(set) {
                        assert(keys.to_set().contains(set));
                    }
                }
                assert forall|set: NameView| #[trigger] self@.sets.contains_key(set) implies self@.sets[set]
                    == goal.sets[set] by {
                    assert(keys.to_set().contains(set));
                    let j = choose|j: int| 0 <= j < keys.len() && keys[j] == set;
                    assert(self@.sets[self.sets.keys()[j]] == self.sets.values()[j]@);
                }
                assert(self@.sets =~= goal.sets);
                assert forall|set: NameView| #[trigger] self@.sets.contains_key(set) implies set_sources_sound(
                    self@.sets[set],
                ) by {
                    assert(keys.to_set().contains(set));
                    let j = choose|j: int| 0 <= j < keys.len() && keys[j] == set;
                    assert(self@.sets[self.sets.keys()[j]] == self.sets.values()[j]@);
                }
            }
        }
        Ok(())
    }

    /// Imports glyphs from a font of the font-object library: reads the
    /// font as a document, and imports from that. A font always has a
    /// default layer, so the import does not fail.
    pub fn import(&mut self, font: &norad::Font, glyphs: &NameSet, set_name: &str, source_name: &str) -> (r:
        Result<(), LoadError>)
        requires
            sources_sound(old(self)@),
        ensures
            r is Ok,
            final(self)@ == imported(
                old(self)@,
                document_of_font(*font),
                glyphs@,
                set_name@,
                source_name@,
            ),
            sources_sound(final(self)@),
            coverage_disjoint(old(self)@) ==> coverage_disjoint(final(self)@),
    {
        let doc = FontDocument::from_font(font);
        self.import_document(&doc, glyphs, set_name, source_name)
    }
}

} // verus!
