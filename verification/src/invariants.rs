//! What holds of the repository whatever is imported into it: no glyph is
//! covered by two sets, every source has its one default layer, color marks
//! stay with their glyphs, and a second import of the same changes nothing.

use vstd::prelude::*;
use crate::document::{layer_sound, DocumentLayerView, FontDocumentView};
use crate::import::{
    claimed, imported, imported_names, merge_one, merge_target, merged_set, merged_source, routed,
    set_or_empty, source_or_new, touched,
};
use crate::import::{expanded, lemma_merge_one_keeps_default, lemma_merged_source_keeps_default};
use crate::model::{
    coverage, coverage_disjoint, default_layer_name, drawn_glyphs, empty_layer, fresh_source,
    has_one_default, is_default_layer, layer_or_new, merged_layer, restricted_layer,
    set_sources_sound, source_glyphs, sources_sound, FontgardenView, GlyphSetView, LayerView,
    SourceView,
};
use crate::names::NameView;

verus! {

/// Merging glyphs of a layer of a document into a source adds no other
/// glyphs to what the source draws.
pub proof fn lemma_merge_one_draws(
    source: SourceView,
    layer: DocumentLayerView,
    names: Set<NameView>,
    first: bool,
)
    ensures
        source_glyphs(merge_one(source, layer, names, first)).subset_of(
            source_glyphs(source).union(names),
        ),
{
    let after = merge_one(source, layer, names, first);
    let target = merge_target(source, layer, first);
    assert forall|glyph: NameView| source_glyphs(after).contains(glyph) implies source_glyphs(
        source,
    ).union(names).contains(glyph) by {
        let at = choose|at: NameView| #[trigger]
            after.layers.contains_key(at) && after.layers[at].glyphs.contains_key(glyph);
        if !names.contains(glyph) {
            if at == target && after != source {
                assert(source.layers.contains_key(at));
                assert(source.layers[at].glyphs.contains_key(glyph));
            } else {
                assert(source.layers.contains_key(at));
                assert(source.layers[at].glyphs.contains_key(glyph));
            }
        }
    }
}

/// Merging glyphs of the layers of a document into a source adds no other
/// glyphs to what the source draws.
pub proof fn lemma_merged_source_draws(
    source: SourceView,
    layers: Seq<DocumentLayerView>,
    names: Set<NameView>,
)
    ensures
        source_glyphs(merged_source(source, layers, names)).subset_of(
            source_glyphs(source).union(names),
        ),
    decreases layers.len(),
{
    if layers.len() > 0 {
        lemma_merged_source_draws(source, layers.drop_last(), names);
        lemma_merge_one_draws(
            merged_source(source, layers.drop_last(), names),
            layers.last(),
            names,
            layers.len() == 1,
        );
    }
}

/// A set into which glyphs were imported covers what it covered before and
/// these glyphs, and nothing else.
pub proof fn lemma_merged_set_covers(
    set: GlyphSetView,
    doc: FontDocumentView,
    names: Set<NameView>,
    source: NameView,
)
    ensures
        coverage(merged_set(set, doc, names, source)) =~= coverage(set).union(names),
{
    let after = merged_set(set, doc, names, source);
    let start = source_or_new(set, source, doc.layers[0].name);
    lemma_merged_source_draws(start, doc.layers, names);
    assert(source_glyphs(fresh_source(doc.layers[0].name)) =~= Set::<NameView>::empty()) by {
        assert forall|glyph: NameView| !source_glyphs(fresh_source(doc.layers[0].name)).contains(
            glyph,
        ) by {
            if source_glyphs(fresh_source(doc.layers[0].name)).contains(glyph) {
                let layer = choose|layer: NameView| #[trigger]
                    fresh_source(doc.layers[0].name).layers.contains_key(layer) && fresh_source(
                        doc.layers[0].name,
                    ).layers[layer].glyphs.contains_key(glyph);
            }
        }
    }
    assert forall|glyph: NameView| coverage(after).contains(glyph) implies coverage(set).union(
        names,
    ).contains(glyph) by {
        if !after.glyph_data.contains_key(glyph) {
            let via = choose|via: NameView| #[trigger]
                after.sources.contains_key(via) && source_glyphs(after.sources[via]).contains(glyph);
            if via == source {
                if !names.contains(glyph) {
                    assert(source_glyphs(start).contains(glyph));
                    assert(set.sources.contains_key(source));
                    assert(drawn_glyphs(set).contains(glyph));
                }
            } else {
                assert(set.sources.contains_key(via));
                assert(drawn_glyphs(set).contains(glyph));
            }
        }
    }
    assert forall|glyph: NameView| coverage(set).union(names).contains(glyph) implies coverage(
        after,
    ).contains(glyph) by {
        if !names.contains(glyph) && !set.glyph_data.contains_key(glyph) {
            let via = choose|via: NameView| #[trigger]
                set.sources.contains_key(via) && source_glyphs(set.sources[via]).contains(glyph);
            if via == source {
                lemma_merged_source_keeps(start, doc.layers, names, glyph);
                assert(after.sources.contains_key(source));
                assert(source_glyphs(after.sources[source]).contains(glyph));
            } else {
                assert(after.sources.contains_key(via));
                assert(source_glyphs(after.sources[via]).contains(glyph));
            }
            assert(drawn_glyphs(after).contains(glyph));
        }
    }
}

/// A source into which glyphs were merged still draws what it drew.
pub proof fn lemma_merged_source_keeps(
    source: SourceView,
    layers: Seq<DocumentLayerView>,
    names: Set<NameView>,
    glyph: NameView,
)
    requires
        source_glyphs(source).contains(glyph),
    ensures
        source_glyphs(merged_source(source, layers, names)).contains(glyph),
    decreases layers.len(),
{
    if layers.len() > 0 {
        lemma_merged_source_keeps(source, layers.drop_last(), names, glyph);
        let before = merged_source(source, layers.drop_last(), names);
        let after = merge_one(before, layers.last(), names, layers.len() == 1);
        let at = choose|at: NameView| #[trigger]
            before.layers.contains_key(at) && before.layers[at].glyphs.contains_key(glyph);
        assert(after.layers.contains_key(at) && after.layers[at].glyphs.contains_key(glyph));
    }
}

/// After an import each set covers what it covered before and the glyphs
/// that went to it.
pub proof fn lemma_imported_coverage(
    garden: FontgardenView,
    doc: FontDocumentView,
    names: Set<NameView>,
    target: NameView,
    source: NameView,
    set: NameView,
)
    requires
        imported_names(garden, doc, names, target, source).sets.contains_key(set),
    ensures
        coverage(imported_names(garden, doc, names, target, source).sets[set]) =~= coverage(
            set_or_empty(garden, set),
        ).union(routed(garden, names, target, set)),
{
    if touched(garden, names, target, set) {
        lemma_merged_set_covers(
            set_or_empty(garden, set),
            doc,
            routed(garden, names, target, set),
            source,
        );
    } else {
        assert(routed(garden, names, target, set) =~= Set::<NameView>::empty());
    }
}

/// An empty set covers nothing.
pub proof fn lemma_empty_set_covers_nothing()
    ensures
        coverage(crate::model::empty_set()) =~= Set::<NameView>::empty(),
{
    let set = crate::model::empty_set();
    assert forall|glyph: NameView| !coverage(set).contains(glyph) by {
        if drawn_glyphs(set).contains(glyph) {
            let via = choose|via: NameView| #[trigger]
                set.sources.contains_key(via) && source_glyphs(set.sources[via]).contains(glyph);
        }
    }
}

/// Coverage stays disjoint: where no glyph is covered by two sets of a
/// repository, none is after an import, whatever is imported.
pub proof fn lemma_import_keeps_coverage_disjoint(
    garden: FontgardenView,
    doc: FontDocumentView,
    requested: Set<NameView>,
    target: NameView,
    source: NameView,
)
    requires
        coverage_disjoint(garden),
    ensures
        coverage_disjoint(imported(garden, doc, requested, target, source)),
{
    let names = crate::import::expanded(doc.layers, requested);
    let after = imported_names(garden, doc, names, target, source);
    lemma_empty_set_covers_nothing();
    assert forall|a: NameView, b: NameView|
        #![trigger after.sets.contains_key(a), after.sets.contains_key(b)]
        after.sets.contains_key(a) && after.sets.contains_key(b) && a != b implies coverage(
        after.sets[a],
    ).disjoint(coverage(after.sets[b])) by {
        lemma_imported_coverage(garden, doc, names, target, source, a);
        lemma_imported_coverage(garden, doc, names, target, source, b);
        assert forall|glyph: NameView|
            !(coverage(after.sets[a]).contains(glyph) && coverage(after.sets[b]).contains(glyph)) by {
            let in_a = coverage(set_or_empty(garden, a)).contains(glyph);
            let in_b = coverage(set_or_empty(garden, b)).contains(glyph);
            if in_a {
                assert(garden.sets.contains_key(a));
                assert(claimed(garden, glyph));
            }
            if in_b {
                assert(garden.sets.contains_key(b));
                assert(claimed(garden, glyph));
            }
            if in_a && in_b {
                assert(coverage(garden.sets[a]).disjoint(coverage(garden.sets[b])));
            }
        }
    }
}

/// The default layer stays: where every source of a repository has
/// exactly one default layer, every source has after an import, whatever
/// is imported from a document with a layer.
pub proof fn lemma_import_keeps_sources_sound(
    garden: FontgardenView,
    doc: FontDocumentView,
    requested: Set<NameView>,
    target: NameView,
    source: NameView,
)
    requires
        sources_sound(garden),
        doc.layers.len() > 0,
    ensures
        sources_sound(imported(garden, doc, requested, target, source)),
{
    let names = expanded(doc.layers, requested);
    let after = imported_names(garden, doc, names, target, source);
    assert forall|set: NameView| #[trigger] after.sets.contains_key(set) implies set_sources_sound(
        after.sets[set],
    ) by {
        if touched(garden, names, target, set) {
            let start = set_or_empty(garden, set);
            let first = source_or_new(start, source, doc.layers[0].name);
            assert(has_one_default(first)) by {
                if !start.sources.contains_key(source) {
                    assert(is_default_layer(fresh_source(doc.layers[0].name), doc.layers[0].name));
                }
            }
            lemma_merged_source_keeps_default(first, doc.layers, routed(garden, names, target, set));
            assert forall|other: NameView| #[trigger]
                after.sets[set].sources.contains_key(other) implies has_one_default(
                after.sets[set].sources[other],
            ) by {
                if other != source {
                    assert(start.sources.contains_key(other));
                }
            }
        }
    }
}

/// Whether every layer of the repository is sound: each color mark belongs
/// to a glyph of its layer, and each drawing stands under the name of its
/// glyph.
pub open spec fn layers_sound(garden: FontgardenView) -> bool {
    forall|set: NameView, source: NameView, layer: NameView|
        #![trigger garden.sets[set].sources[source].layers[layer]]
        garden.sets.contains_key(set) && garden.sets[set].sources.contains_key(source)
            && garden.sets[set].sources[source].layers.contains_key(layer) ==> layer_sound(
            garden.sets[set].sources[source].layers[layer],
        )
}

/// Whether every layer of the source is sound.
pub open spec fn source_layers_sound(source: SourceView) -> bool {
    forall|layer: NameView| #[trigger]
        source.layers.contains_key(layer) ==> layer_sound(source.layers[layer])
}

/// Whether every layer of the document is sound.
pub open spec fn document_sound(doc: FontDocumentView) -> bool {
    forall|i: int| 0 <= i < doc.layers.len() ==> layer_sound((#[trigger] doc.layers[i]).layer)
}

/// Merging the layers of a sound document into a source with sound layers
/// leaves its layers sound.
pub proof fn lemma_merged_source_stays_sound(
    source: SourceView,
    layers: Seq<DocumentLayerView>,
    names: Set<NameView>,
)
    requires
        source_layers_sound(source),
        forall|i: int| 0 <= i < layers.len() ==> layer_sound((#[trigger] layers[i]).layer),
    ensures
        source_layers_sound(merged_source(source, layers, names)),
    decreases layers.len(),
{
    if layers.len() > 0 {
        let rest = layers.drop_last();
        assert forall|i: int| 0 <= i < rest.len() implies layer_sound((#[trigger] rest[i]).layer) by {
            assert(rest[i] == layers[i]);
        }
        lemma_merged_source_stays_sound(source, rest, names);
        let before = merged_source(source, rest, names);
        let after = merge_one(before, layers.last(), names, layers.len() == 1);
        let last = layers[layers.len() - 1];
        assert(layer_sound(last.layer));
        assert forall|layer: NameView| #[trigger] after.layers.contains_key(layer) implies layer_sound(
            after.layers[layer],
        ) by {
            if before.layers.contains_key(layer) {
                assert(layer_sound(before.layers[layer]));
            }
        }
    }
}

/// Color marks stay with their glyphs: where every layer of a repository
/// and of a document is sound, every layer of the repository is after an
/// import from the document.
pub proof fn lemma_import_keeps_layers_sound(
    garden: FontgardenView,
    doc: FontDocumentView,
    requested: Set<NameView>,
    target: NameView,
    source: NameView,
)
    requires
        layers_sound(garden),
        document_sound(doc),
    ensures
        layers_sound(imported(garden, doc, requested, target, source)),
{
    let names = expanded(doc.layers, requested);
    let after = imported_names(garden, doc, names, target, source);
    assert forall|set: NameView, via: NameView, layer: NameView|
        #![trigger after.sets[set].sources[via].layers[layer]]
        after.sets.contains_key(set) && after.sets[set].sources.contains_key(via)
            && after.sets[set].sources[via].layers.contains_key(layer) implies layer_sound(
        after.sets[set].sources[via].layers[layer],
    ) by {
        if touched(garden, names, target, set) {
            let start = set_or_empty(garden, set);
            if via == source {
                let first = source_or_new(start, source, doc.layers[0].name);
                assert(source_layers_sound(first)) by {
                    assert forall|at: NameView| #[trigger] first.layers.contains_key(at) implies layer_sound(
                        first.layers[at],
                    ) by {
                        if start.sources.contains_key(source) {
                            assert(layer_sound(garden.sets[set].sources[source].layers[at]));
                        }
                    }
                }
                lemma_merged_source_stays_sound(first, doc.layers, routed(garden, names, target, set));
            } else {
                assert(layer_sound(garden.sets[set].sources[via].layers[layer]));
            }
        } else {
            assert(layer_sound(garden.sets[set].sources[via].layers[layer]));
        }
    }
}

/// The layer of a source that the layer at index `i` of a document is
/// merged into, where the default layer of the source is `default_layer`.
pub open spec fn target_at(layers: Seq<DocumentLayerView>, default_layer: NameView, i: int) -> NameView {
    if i == 0 {
        default_layer
    } else {
        layers[i].name
    }
}

/// Whether the layer at index `i` of a document has glyphs among `names`.
pub open spec fn active_at(layers: Seq<DocumentLayerView>, names: Set<NameView>, i: int) -> bool {
    !(restricted_layer(layers[i].layer, names).glyphs.dom() =~= Set::<NameView>::empty())
}

/// Whether one of the first `upto` layers of a document is merged into the
/// layer `target` of a source.
pub open spec fn written_to(
    layers: Seq<DocumentLayerView>,
    names: Set<NameView>,
    default_layer: NameView,
    target: NameView,
    upto: int,
) -> bool {
    exists|i: int|
        0 <= i < upto && #[trigger] active_at(layers, names, i) && target_at(layers, default_layer, i)
            == target
}

/// What the first `upto` layers of a document bring to the layer `target`
/// of a source, all together: of two drawings of a glyph the later.
pub open spec fn written_part(
    layers: Seq<DocumentLayerView>,
    names: Set<NameView>,
    default_layer: NameView,
    target: NameView,
    upto: int,
) -> LayerView
    decreases upto,
{
    if upto <= 0 {
        empty_layer(false)
    } else {
        let before = written_part(layers, names, default_layer, target, upto - 1);
        if active_at(layers, names, upto - 1) && target_at(layers, default_layer, upto - 1) == target {
            merged_layer(before, restricted_layer(layers[upto - 1].layer, names))
        } else {
            before
        }
    }
}

/// A source after the first `upto` layers of a document were merged into
/// it, layer by layer of the source.
pub open spec fn merged_in_one(
    source: SourceView,
    layers: Seq<DocumentLayerView>,
    names: Set<NameView>,
    default_layer: NameView,
    upto: int,
) -> SourceView {
    SourceView {
        layers: Map::new(
            |target: NameView|
                source.layers.contains_key(target) || written_to(layers, names, default_layer, target, upto),
            |target: NameView|
                merged_layer(
                    layer_or_new(source, target),
                    written_part(layers, names, default_layer, target, upto),
                ),
        ),
    }
}

/// Nothing is brought to a layer that no layer of the document is merged
/// into.
pub proof fn lemma_nothing_written(
    layers: Seq<DocumentLayerView>,
    names: Set<NameView>,
    default_layer: NameView,
    target: NameView,
    upto: int,
)
    requires
        !written_to(layers, names, default_layer, target, upto),
    ensures
        written_part(layers, names, default_layer, target, upto) == empty_layer(false),
    decreases upto,
{
    if upto > 0 {
        assert(!written_to(layers, names, default_layer, target, upto - 1)) by {
            if written_to(layers, names, default_layer, target, upto - 1) {
                let i = choose|i: int|
                    0 <= i < upto - 1 && #[trigger] active_at(layers, names, i) && target_at(
                        layers,
                        default_layer,
                        i,
                    ) == target;
                assert(active_at(layers, names, i));
            }
        }
        lemma_nothing_written(layers, names, default_layer, target, upto - 1);
        if active_at(layers, names, upto - 1) && target_at(layers, default_layer, upto - 1) == target {
            assert(written_to(layers, names, default_layer, target, upto));
        }
    }
}

/// Merging the first layers of a document into a source one after the
/// other gives what merging them in one gives.
pub proof fn lemma_merged_in_one(
    source: SourceView,
    layers: Seq<DocumentLayerView>,
    names: Set<NameView>,
    upto: int,
)
    requires
        has_one_default(source),
        0 <= upto <= layers.len(),
    ensures
        merged_source(source, layers.take(upto), names) == merged_in_one(
            source,
            layers,
            names,
            default_layer_name(source),
            upto,
        ),
    decreases upto,
{
    let dl = default_layer_name(source);
    let goal = merged_in_one(source, layers, names, dl, upto);
    if upto == 0 {
        assert(layers.take(0) =~= Seq::<DocumentLayerView>::empty());
        assert forall|target: NameView| #[trigger] goal.layers.contains_key(target) implies goal.layers[target]
            =~~= source.layers[target] by {
            if written_to(layers, names, dl, target, 0) {
                let i = choose|i: int|
                    0 <= i < 0 && #[trigger] active_at(layers, names, i) && target_at(layers, dl, i) == target;
            }
        }
        assert forall|target: NameView| goal.layers.contains_key(target) <==> source.layers.contains_key(
            target,
        ) by {
            if written_to(layers, names, dl, target, 0) {
                let i = choose|i: int|
                    0 <= i < 0 && #[trigger] active_at(layers, names, i) && target_at(layers, dl, i) == target;
            }
        }
        assert(goal =~~= source);
    } else {
        let k = upto - 1;
        lemma_merged_in_one(source, layers, names, k);
        let before = merged_source(source, layers.take(k), names);
        lemma_merged_source_keeps_default(source, layers.take(k), names);
        assert(layers.take(upto).drop_last() =~= layers.take(k));
        assert(layers.take(upto).last() == layers[k]);
        let after = merge_one(before, layers[k], names, upto == 1);
        assert(merged_source(source, layers.take(upto), names) == after);
        let target = target_at(layers, dl, k);
        assert(merge_target(before, layers[k], upto == 1) == target);
        if active_at(layers, names, k) {
            let part = restricted_layer(layers[k].layer, names);
            assert forall|at: NameView| after.layers.contains_key(at) <==> goal.layers.contains_key(at) by {
                if written_to(layers, names, dl, at, k) {
                    let i = choose|i: int|
                        0 <= i < k && #[trigger] active_at(layers, names, i) && target_at(layers, dl, i) == at;
                    assert(active_at(layers, names, i));
                    assert(written_to(layers, names, dl, at, upto));
                }
                if written_to(layers, names, dl, at, upto) && at != target {
                    let i = choose|i: int|
                        0 <= i < upto && #[trigger] active_at(layers, names, i) && target_at(layers, dl, i)
                            == at;
                    assert(active_at(layers, names, i));
                    assert(written_to(layers, names, dl, at, k));
                }
                if at == target {
                    assert(active_at(layers, names, k));
                    assert(written_to(layers, names, dl, at, upto));
                }
            }
            assert forall|at: NameView| #[trigger] after.layers.contains_key(at) implies after.layers[at]
                =~~= goal.layers[at] by {
                if at == target {
                    if !before.layers.contains_key(at) {
                        assert(!written_to(layers, names, dl, at, k));
                        lemma_nothing_written(layers, names, dl, at, k);
                    }
                }
            }
            assert(after =~~= goal);
        } else {
            assert forall|at: NameView| before.layers.contains_key(at) <==> goal.layers.contains_key(at) by {
                if written_to(layers, names, dl, at, k) {
                    let i = choose|i: int|
                        0 <= i < k && #[trigger] active_at(layers, names, i) && target_at(layers, dl, i) == at;
                    assert(active_at(layers, names, i));
                    assert(written_to(layers, names, dl, at, upto));
                }
                if written_to(layers, names, dl, at, upto) {
                    let i = choose|i: int|
                        0 <= i < upto && #[trigger] active_at(layers, names, i) && target_at(layers, dl, i)
                            == at;
                    assert(active_at(layers, names, i));
                    assert(written_to(layers, names, dl, at, k));
                }
            }
            assert(after =~~= goal);
        }
    }
}

/// Merging the layers of a document into a source a second time changes
/// nothing.
pub proof fn lemma_merged_source_twice(
    source: SourceView,
    layers: Seq<DocumentLayerView>,
    names: Set<NameView>,
)
    requires
        has_one_default(source),
    ensures
        merged_source(merged_source(source, layers, names), layers, names) == merged_source(
            source,
            layers,
            names,
        ),
{
    let once = merged_source(source, layers, names);
    let dl = default_layer_name(source);
    let n = layers.len() as int;
    assert(layers.take(n) =~= layers);
    lemma_merged_source_keeps_default(source, layers, names);
    lemma_merged_in_one(source, layers, names, n);
    lemma_merged_in_one(once, layers, names, n);
    let twice = merged_source(once, layers, names);
    assert forall|at: NameView| twice.layers.contains_key(at) <==> once.layers.contains_key(at) by {}
    assert forall|at: NameView| #[trigger] twice.layers.contains_key(at) implies twice.layers[at]
        =~~= once.layers[at] by {}
    assert(twice =~~= once);
}

/// Importing the same glyphs of a document into a set a second time
/// changes nothing.
pub proof fn lemma_merged_set_twice(
    set: GlyphSetView,
    doc: FontDocumentView,
    names: Set<NameView>,
    source: NameView,
)
    requires
        set_sources_sound(set),
    ensures
        merged_set(merged_set(set, doc, names, source), doc, names, source) == merged_set(
            set,
            doc,
            names,
            source,
        ),
{
    let once = merged_set(set, doc, names, source);
    let twice = merged_set(once, doc, names, source);
    let start = source_or_new(set, source, doc.layers[0].name);
    assert(has_one_default(start)) by {
        if !set.sources.contains_key(source) {
            assert(is_default_layer(fresh_source(doc.layers[0].name), doc.layers[0].name));
        }
    }
    lemma_merged_source_twice(start, doc.layers, names);
    assert(source_or_new(once, source, doc.layers[0].name) == merged_source(start, doc.layers, names));
    assert(twice.glyph_data =~= once.glyph_data);
    assert(twice.sources =~= once.sources);
}

/// After an import every glyph that was imported is covered by a set.
pub proof fn lemma_imported_are_claimed(
    garden: FontgardenView,
    doc: FontDocumentView,
    names: Set<NameView>,
    target: NameView,
    source: NameView,
    glyph: NameView,
)
    requires
        names.contains(glyph),
    ensures
        claimed(imported_names(garden, doc, names, target, source), glyph),
{
    let after = imported_names(garden, doc, names, target, source);
    let set = if claimed(garden, glyph) {
        choose|set: NameView| #[trigger]
            garden.sets.contains_key(set) && coverage(garden.sets[set]).contains(glyph)
    } else {
        target
    };
    assert(routed(garden, names, target, set).contains(glyph));
    assert(after.sets.contains_key(set));
    lemma_imported_coverage(garden, doc, names, target, source, set);
    assert(coverage(after.sets[set]).contains(glyph));
}

/// After an import the glyphs that were imported go where they went.
pub proof fn lemma_routed_again(
    garden: FontgardenView,
    doc: FontDocumentView,
    names: Set<NameView>,
    target: NameView,
    source: NameView,
    set: NameView,
)
    ensures
        routed(imported_names(garden, doc, names, target, source), names, target, set) =~= routed(
            garden,
            names,
            target,
            set,
        ),
{
    let after = imported_names(garden, doc, names, target, source);
    lemma_empty_set_covers_nothing();
    assert forall|glyph: NameView| routed(after, names, target, set).contains(glyph) <==> routed(
        garden,
        names,
        target,
        set,
    ).contains(glyph) by {
        if names.contains(glyph) {
            lemma_imported_are_claimed(garden, doc, names, target, source, glyph);
            if after.sets.contains_key(set) {
                lemma_imported_coverage(garden, doc, names, target, source, set);
            }
            if routed(garden, names, target, set).contains(glyph) {
                assert(after.sets.contains_key(set));
            }
        }
    }
}

/// Importing twice is importing once: an import of the same glyphs from
/// the same document, into the same set and for the same source, changes
/// nothing the second time.
pub proof fn lemma_import_twice(
    garden: FontgardenView,
    doc: FontDocumentView,
    requested: Set<NameView>,
    target: NameView,
    source: NameView,
)
    requires
        sources_sound(garden),
    ensures
        imported(imported(garden, doc, requested, target, source), doc, requested, target, source)
            == imported(garden, doc, requested, target, source),
{
    let names = expanded(doc.layers, requested);
    let once = imported_names(garden, doc, names, target, source);
    let twice = imported_names(once, doc, names, target, source);
    assert forall|set: NameView| twice.sets.contains_key(set) <==> once.sets.contains_key(set) by {
        lemma_routed_again(garden, doc, names, target, source, set);
    }
    assert forall|set: NameView| #[trigger] twice.sets.contains_key(set) implies twice.sets[set]
        == once.sets[set] by {
        lemma_routed_again(garden, doc, names, target, source, set);
        if touched(garden, names, target, set) {
            let start = set_or_empty(garden, set);
            assert(set_sources_sound(start));
            lemma_merged_set_twice(start, doc, routed(garden, names, target, set), source);
            assert(routed(once, names, target, set) == routed(garden, names, target, set));
        }
    }
    assert(twice.sets =~= once.sets);
}

} // verus!
