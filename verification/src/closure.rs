//! The composite closure: the glyphs that a set of glyphs depends on
//! through components, directly or through other glyphs.

use vstd::prelude::*;
use crate::glyph::{Drawing, DrawingView};
use crate::name_map::{lemma_ascending_unique, NameMap};
use crate::name_set::NameSet;
use crate::names::NameView;

verus! {

/// The names of the components of the glyph `name` among `glyphs`; none
/// where there is no such glyph.
pub open spec fn components_of(glyphs: Map<NameView, DrawingView>, name: NameView) -> Seq<NameView> {
    if glyphs.contains_key(name) {
        glyphs[name].components
    } else {
        Seq::empty()
    }
}

/// Whether `name` is a component of one of the glyphs `from`.
pub open spec fn is_component_of_one(
    glyphs: Map<NameView, DrawingView>,
    from: Set<NameView>,
    name: NameView,
) -> bool {
    exists|via: NameView| #[trigger] from.contains(via) && components_of(glyphs, via).contains(name)
}

/// The names that are reached from one of `seeds` in at most `steps` steps,
/// each from a glyph to one of its components.
pub open spec fn reached_within(
    glyphs: Map<NameView, DrawingView>,
    seeds: Set<NameView>,
    steps: nat,
) -> Set<NameView>
    decreases steps,
{
    if steps == 0 {
        seeds
    } else {
        let before = reached_within(glyphs, seeds, (steps - 1) as nat);
        Set::new(|name: NameView| before.contains(name) || is_component_of_one(glyphs, before, name))
    }
}

/// The composite closure of `seeds`: every name that is reached from one of
/// them through components.
pub open spec fn closure(glyphs: Map<NameView, DrawingView>, seeds: Set<NameView>) -> Set<NameView> {
    Set::new(|name: NameView| exists|steps: nat| reached_within(glyphs, seeds, steps).contains(name))
}

/// Whether `names` holds, with each glyph, the components of that glyph.
pub open spec fn closed_under_components(glyphs: Map<NameView, DrawingView>, names: Set<NameView>) -> bool {
    forall|name: NameView, i: int|
        names.contains(name) && 0 <= i < components_of(glyphs, name).len() ==> names.contains(
            #[trigger] components_of(glyphs, name)[i],
        )
}

/// The closure holds its seeds.
pub proof fn lemma_closure_holds_seeds(glyphs: Map<NameView, DrawingView>, seeds: Set<NameView>)
    ensures
        seeds.subset_of(closure(glyphs, seeds)),
{
    assert forall|name: NameView| seeds.contains(name) implies closure(glyphs, seeds).contains(
        name,
    ) by {
        assert(reached_within(glyphs, seeds, 0).contains(name));
    }
}

/// The closure holds the components of each glyph that it holds.
pub proof fn lemma_closure_is_closed(glyphs: Map<NameView, DrawingView>, seeds: Set<NameView>)
    ensures
        closed_under_components(glyphs, closure(glyphs, seeds)),
{
    assert forall|name: NameView, i: int|
        closure(glyphs, seeds).contains(name) && 0 <= i < components_of(glyphs, name).len() implies closure(
        glyphs,
        seeds,
    ).contains(#[trigger] components_of(glyphs, name)[i]) by {
        let steps = choose|steps: nat| reached_within(glyphs, seeds, steps).contains(name);
        let component = components_of(glyphs, name)[i];
        assert(components_of(glyphs, name).contains(component));
        assert(is_component_of_one(glyphs, reached_within(glyphs, seeds, steps), component));
        assert(reached_within(glyphs, seeds, (steps + 1) as nat).contains(component));
    }
}

/// The closure is the least set that holds the seeds and is closed under
/// components: every such set holds the closure.
pub proof fn lemma_closure_is_least(
    glyphs: Map<NameView, DrawingView>,
    seeds: Set<NameView>,
    names: Set<NameView>,
)
    requires
        seeds.subset_of(names),
        closed_under_components(glyphs, names),
    ensures
        closure(glyphs, seeds).subset_of(names),
{
    assert forall|name: NameView| closure(glyphs, seeds).contains(name) implies names.contains(
        name,
    ) by {
        let steps = choose|steps: nat| reached_within(glyphs, seeds, steps).contains(name);
        lemma_reached_is_held(glyphs, seeds, names, name, steps);
    }
}

proof fn lemma_reached_is_held(
    glyphs: Map<NameView, DrawingView>,
    seeds: Set<NameView>,
    names: Set<NameView>,
    name: NameView,
    steps: nat,
)
    requires
        seeds.subset_of(names),
        closed_under_components(glyphs, names),
        reached_within(glyphs, seeds, steps).contains(name),
    ensures
        names.contains(name),
    decreases steps,
{
    if steps > 0 {
        let before = reached_within(glyphs, seeds, (steps - 1) as nat);
        if before.contains(name) {
            lemma_reached_is_held(glyphs, seeds, names, name, (steps - 1) as nat);
        } else {
            assert(is_component_of_one(glyphs, before, name));
            let via = choose|via: NameView|
                #[trigger] before.contains(via) && components_of(glyphs, via).contains(name);
            lemma_reached_is_held(glyphs, seeds, names, via, (steps - 1) as nat);
            let i = choose|i: int|
                0 <= i < components_of(glyphs, via).len() && components_of(glyphs, via)[i] == name;
            assert(names.contains(components_of(glyphs, via)[i]));
        }
    }
}

/// The number of the first `upto` names of `keys` that `found` does not
/// hold.
pub open spec fn unfound(keys: Seq<NameView>, found: Set<NameView>, upto: int) -> nat
    decreases upto,
{
    if upto <= 0 {
        0
    } else {
        unfound(keys, found, upto - 1) + if found.contains(keys[upto - 1]) {
            0nat
        } else {
            1nat
        }
    }
}

proof fn lemma_unfound_insert(keys: Seq<NameView>, found: Set<NameView>, name: NameView, upto: int)
    requires
        0 <= upto <= keys.len(),
    ensures
        unfound(keys, found.insert(name), upto) <= unfound(keys, found, upto),
        forall|i: int|
            0 <= i < upto && keys[i] == name && !found.contains(name) ==> unfound(
                keys,
                found.insert(name),
                upto,
            ) < unfound(keys, found, upto),
    decreases upto,
{
    if upto > 0 {
        lemma_unfound_insert(keys, found, name, upto - 1);
    }
}

/// Pushes the names of the components of the glyph `name` onto `stack`.
fn push_components(stack: &mut Vec<String>, glyphs: &NameMap<Drawing>, name: &str)
    ensures
        final(stack).deep_view() == old(stack).deep_view() + components_of(glyphs@, name@),
{
    match glyphs.get(name) {
        Some(drawing) => {
            let mut i: usize = 0;
            while i < drawing.components.len()
                invariant
                    i <= drawing.components.len(),
                    stack.deep_view() =~= old(stack).deep_view() + drawing.components.deep_view().take(
                        i as int,
                    ),
                decreases drawing.components.len() - i,
            {
                let ghost before = stack.deep_view();
                let component = drawing.components[i].clone();
                stack.push(component);
                proof {
                    assert(drawing.components.deep_view()[i as int] == drawing.components[i as int]@);
                    assert(stack.deep_view() =~= before.push(component@));
                }
                i += 1;
            }
            proof {
                assert(drawing.components.deep_view().take(drawing.components.len() as int)
                    =~= drawing.components.deep_view());
            }
        },
        None => {
            proof {
                assert(old(stack).deep_view() + Seq::<NameView>::empty() =~= old(stack).deep_view());
            }
        },
    }
}

/// Whether each component of each glyph in `names` is in `names` or waits
/// on `stack`.
spec fn components_accounted(
    glyphs: Map<NameView, DrawingView>,
    names: Set<NameView>,
    stack: Seq<NameView>,
) -> bool {
    forall|name: NameView, i: int|
        names.contains(name) && 0 <= i < components_of(glyphs, name).len() ==> names.contains(
            #[trigger] components_of(glyphs, name)[i],
        ) || stack.contains(components_of(glyphs, name)[i])
}

/// The composite closure of `import_glyphs` among `glyphs`: the names
/// themselves, the components of the glyphs so named, the components of
/// those, and so on. A component that names no glyph is in the closure and
/// leads no further. A cycle of components is walked once.
pub fn glyphset_follow_composites(import_glyphs: &NameSet, glyphs: &NameMap<Drawing>) -> (found:
    NameSet)
    ensures
        found@ == closure(glyphs@, import_glyphs@),
        found.wf(),
{
    let ghost table = glyphs@;
    let ghost seeds = import_glyphs@;
    let ghost goal = closure(table, seeds);
    let mut found = import_glyphs.duplicate();
    let mut stack: Vec<String> = Vec::new();
    let seed_count = import_glyphs.len();
    let key_count = glyphs.len();
    proof {
        lemma_closure_holds_seeds(table, seeds);
        lemma_closure_is_closed(table, seeds);
    }
    let mut s: usize = 0;
    while s < seed_count
        invariant
            s <= seed_count,
            seed_count == import_glyphs.names().len(),
            import_glyphs.wf(),
            table == glyphs@,
            seeds == import_glyphs@,
            goal == closure(table, seeds),
            closed_under_components(table, goal),
            seeds.subset_of(goal),
            forall|i: int| 0 <= i < stack.len() ==> goal.contains(#[trigger] stack.deep_view()[i]),
            forall|j: int, i: int|
                0 <= j < s && 0 <= i < components_of(table, import_glyphs.names()[j]).len()
                    ==> stack.deep_view().contains(
                    #[trigger] components_of(table, import_glyphs.names()[j])[i],
                ),
        decreases seed_count - s,
    {
        let ghost before = stack.deep_view();
        let seed = import_glyphs.name_at(s);
        push_components(&mut stack, glyphs, seed.as_str());
        proof {
            let added = components_of(table, seed@);
            assert(stack.deep_view().len() == before.len() + added.len());
            assert forall|i: int| 0 <= i < stack.len() implies goal.contains(
                #[trigger] stack.deep_view()[i],
            ) by {
                if i >= before.len() {
                    assert(stack.deep_view()[i] == added[i - before.len()]);
                    assert(goal.contains(components_of(table, seed@)[i - before.len()]));
                } else {
                    assert(stack.deep_view()[i] == before[i]);
                }
            }
            assert forall|j: int, i: int|
                0 <= j < s + 1 && 0 <= i < components_of(
                    table,
                    import_glyphs.names()[j],
                ).len() implies stack.deep_view().contains(
                #[trigger] components_of(table, import_glyphs.names()[j])[i],
            ) by {
                let component = components_of(table, import_glyphs.names()[j])[i];
                if j < s {
                    assert(before.contains(component));
                    let at = choose|at: int| 0 <= at < before.len() && before[at] == component;
                    assert(stack.deep_view()[at] == component);
                } else {
                    assert(stack.deep_view()[before.len() + i] == component);
                }
            }
        }
        s += 1;
    }
    proof {
        assert(components_accounted(table, found@, stack.deep_view())) by {
            assert forall|name: NameView, i: int|
                found@.contains(name) && 0 <= i < components_of(table, name).len() implies found@.contains(
                #[trigger] components_of(table, name)[i],
            ) || stack.deep_view().contains(components_of(table, name)[i]) by {
                let j = choose|j: int|
                    0 <= j < import_glyphs.names().len() && import_glyphs.names()[j] == name;
                assert(stack.deep_view().contains(components_of(table, import_glyphs.names()[j])[i]));
            }
        }
    }
    while stack.len() > 0
        invariant
            table == glyphs@,
            glyphs.wf(),
            key_count == glyphs.keys().len(),
            goal == closure(table, seeds),
            closed_under_components(table, goal),
            seeds.subset_of(found@),
            found@.subset_of(goal),
            found.wf(),
            forall|i: int| 0 <= i < stack.len() ==> goal.contains(#[trigger] stack.deep_view()[i]),
            components_accounted(table, found@, stack.deep_view()),
        decreases unfound(glyphs.keys(), found@, key_count as int), stack.len(),
    {
        let ghost stack_before = stack.deep_view();
        let ghost found_before = found@;
        let name = stack.pop().unwrap();
        let ghost rest = stack.deep_view();
        proof {
            assert(rest =~= stack_before.drop_last());
            assert(stack_before.last() == name@);
            assert(goal.contains(stack_before[stack_before.len() - 1]));
        }
        if found.contains(name.as_str()) {
            proof {
                assert(components_accounted(table, found@, rest)) by {
                    assert forall|g: NameView, i: int|
                        found@.contains(g) && 0 <= i < components_of(table, g).len() implies found@.contains(
                        #[trigger] components_of(table, g)[i],
                    ) || rest.contains(components_of(table, g)[i]) by {
                        let component = components_of(table, g)[i];
                        if !found@.contains(component) {
                            assert(stack_before.contains(component));
                            let at = choose|at: int|
                                0 <= at < stack_before.len() && stack_before[at] == component;
                            assert(rest[at] == component);
                        }
                    }
                }
            }
        } else {
            push_components(&mut stack, glyphs, name.as_str());
            let ghost key = name@;
            found.insert(name);
            proof {
                let added = components_of(table, key);
                let now = stack.deep_view();
                assert(now.len() == rest.len() + added.len());
                assert forall|i: int| 0 <= i < stack.len() implies goal.contains(#[trigger] now[i]) by {
                    if i >= rest.len() {
                        assert(now[i] == added[i - rest.len()]);
                        assert(goal.contains(components_of(table, key)[i - rest.len()]));
                    } else {
                        assert(now[i] == rest[i]);
                        assert(rest[i] == stack_before[i]);
                    }
                }
                assert(components_accounted(table, found@, now)) by {
                    assert forall|g: NameView, i: int|
                        found@.contains(g) && 0 <= i < components_of(table, g).len() implies found@.contains(
                        #[trigger] components_of(table, g)[i],
                    ) || now.contains(components_of(table, g)[i]) by {
                        let component = components_of(table, g)[i];
                        if g == key {
                            assert(now[rest.len() + i] == component);
                        } else if !found_before.contains(component) {
                            assert(stack_before.contains(component));
                            let at = choose|at: int|
                                0 <= at < stack_before.len() && stack_before[at] == component;
                            if at < rest.len() {
                                assert(now[at] == component);
                            }
                        }
                    }
                }
                lemma_unfound_insert(glyphs.keys(), found_before, key, key_count as int);
                if table.contains_key(key) {
                    assert(glyphs@.dom().contains(key));
                    assert(glyphs.keys().to_set().contains(key));
                    assert(glyphs.keys().contains(key));
                } else {
                    assert(added.len() == 0);
                    assert(now =~= rest);
                }
            }
        }
    }
    proof {
        assert(closed_under_components(table, found@));
        lemma_closure_is_least(table, seeds, found@);
        assert(found@ =~= goal);
    }
    found
}

} // verus!
