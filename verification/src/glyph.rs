//! Drawings of glyphs: an outline of the font-object library, with what
//! this library reads of it held beside it as plain values.

use vstd::prelude::*;
use crate::name_map::Duplicate;
use crate::names::NameView;

verus! {

/// A glyph of the font-object library. Nothing inside it is visible here:
/// it is carried through.
#[verifier::external_type_specification]
#[verifier::external_body]
pub struct ExOutline(norad::Glyph);

/// One source's drawing of a glyph: the glyph's name, its code points, the
/// names of the glyphs that it uses as components, and its outline.
#[derive(Debug, PartialEq)]
pub struct Drawing {
    pub name: String,
    pub codepoints: Vec<char>,
    pub components: Vec<String>,
    pub outline: norad::Glyph,
}

/// A drawing as contracts see it.
pub struct DrawingView {
    pub name: NameView,
    pub codepoints: Seq<char>,
    pub components: Seq<NameView>,
    pub outline: norad::Glyph,
}

impl View for Drawing {
    type V = DrawingView;

    open spec fn view(&self) -> DrawingView {
        DrawingView {
            name: self.name@,
            codepoints: self.codepoints@,
            components: self.components.deep_view(),
            outline: self.outline,
        }
    }
}

/// Calls `<norad::Glyph as Clone>::clone`. Trusted: the copy is the value
/// that was copied.
#[verifier::external_body]
fn clone_outline(outline: &norad::Glyph) -> (r: norad::Glyph)
    ensures
        r == *outline,
{
    outline.clone()
}

/// The name that an outline carries, as `norad::Glyph::name` gives it.
pub uninterp spec fn outline_name_of(outline: norad::Glyph) -> Seq<char>;

/// The code points that an outline holds, in the order of
/// `norad::Codepoints::iter`.
pub uninterp spec fn outline_codepoints_of(outline: norad::Glyph) -> Seq<char>;

/// The base names of the components that an outline holds, in their order.
pub uninterp spec fn outline_components_of(outline: norad::Glyph) -> Seq<Seq<char>>;

/// The text that the `lib` of an outline holds under `key`; none where it
/// holds nothing there, or something that is no text.
pub uninterp spec fn outline_entry_of(outline: norad::Glyph, key: Seq<char>) -> Option<Seq<char>>;

/// The outline after `plist::Dictionary::remove` took what its `lib` holds
/// under `key`.
pub uninterp spec fn outline_without(outline: norad::Glyph, key: Seq<char>) -> norad::Glyph;

/// The outline after `plist::Dictionary::insert` put `text` into its `lib`
/// under `key`.
pub uninterp spec fn outline_with(outline: norad::Glyph, key: Seq<char>, text: Seq<char>) -> norad::Glyph;

/// The key under which the `lib` of an outline holds the color that the
/// glyph is marked with.
pub open spec fn mark_key() -> Seq<char> {
    "public.markColor"@
}

/// Reads `norad::Glyph::name`. Trusted: the result is what
/// [`outline_name_of`] names.
#[verifier::external_body]
pub(crate) fn outline_name(outline: &norad::Glyph) -> (name: String)
    ensures
        name@ == outline_name_of(*outline),
{
    outline.name().to_string()
}

/// Reads the field `codepoints` of a `norad::Glyph` through
/// `norad::Codepoints::iter`. Trusted: the result is what
/// [`outline_codepoints_of`] names.
#[verifier::external_body]
fn outline_codepoints(outline: &norad::Glyph) -> (codepoints: Vec<char>)
    ensures
        codepoints@ == outline_codepoints_of(*outline),
{
    outline.codepoints.iter().collect()
}

/// Reads the base name of each entry of the field `components` of a
/// `norad::Glyph`, in their order. Trusted: the result is what
/// [`outline_components_of`] names.
#[verifier::external_body]
fn outline_components(outline: &norad::Glyph) -> (components: Vec<String>)
    ensures
        components.deep_view() == outline_components_of(*outline),
{
    outline.components.iter().map(|component| component.base.to_string()).collect()
}

/// Calls `plist::Dictionary::remove` on the field `lib` of a `norad::Glyph`
/// with `key`, and `plist::Value::into_string` on what was removed.
/// Trusted: the result is what [`outline_entry_of`] names, and the outline
/// is afterwards what [`outline_without`] names.
#[verifier::external_body]
fn take_lib_text(outline: &mut norad::Glyph, key: &str) -> (text: Option<String>)
    ensures
        text.deep_view() == outline_entry_of(*old(outline), key@),
        *final(outline) == outline_without(*old(outline), key@),
{
    outline.lib.remove(key).and_then(|value| value.into_string())
}

/// Calls `plist::Dictionary::insert` on the field `lib` of a `norad::Glyph`
/// with `key` and `text` as a string value. Trusted: the outline is
/// afterwards what [`outline_with`] names.
#[verifier::external_body]
fn put_lib_text(outline: &mut norad::Glyph, key: &str, text: &str)
    ensures
        *final(outline) == outline_with(*old(outline), key@, text@),
{
    outline.lib.insert(key.into(), text.into());
}

/// What an outline gives as a drawing: its name, code points and
/// components, and the outline itself.
pub open spec fn drawing_of(outline: norad::Glyph) -> DrawingView {
    DrawingView {
        name: outline_name_of(outline),
        codepoints: outline_codepoints_of(outline),
        components: outline_components_of(outline),
        outline,
    }
}

/// What an outline gives as a drawing once its mark is taken out of it:
/// its name, code points and components, and the outline without the mark.
pub open spec fn unmarked_drawing_of(outline: norad::Glyph) -> DrawingView {
    DrawingView {
        name: outline_name_of(outline),
        codepoints: outline_codepoints_of(outline),
        components: outline_components_of(outline),
        outline: outline_without(outline, mark_key()),
    }
}

/// The outline of a drawing as it is exported: marked with the color where
/// there is one, and as it is where there is none.
pub open spec fn exported_outline(drawing: DrawingView, color: Option<Seq<char>>) -> norad::Glyph {
    match color {
        Some(text) => outline_with(drawing.outline, mark_key(), text),
        None => drawing.outline,
    }
}

/// A copy of a list of names.
pub fn clone_names(names: &Vec<String>) -> (r: Vec<String>)
    ensures
        r.deep_view() == names.deep_view(),
{
    let mut r: Vec<String> = Vec::new();
    let mut i: usize = 0;
    while i < names.len()
        invariant
            i <= names.len(),
            r.deep_view() =~= names.deep_view().take(i as int),
        decreases names.len() - i,
    {
        let ghost before = r.deep_view();
        let name = names[i].clone();
        r.push(name);
        proof {
            assert(names.deep_view()[i as int] == names[i as int]@);
            assert(r.deep_view() =~= before.push(name@));
        }
        i += 1;
    }
    proof {
        assert(names.deep_view().take(names.len() as int) =~= names.deep_view());
    }
    r
}

/// A copy of a list of characters.
pub fn clone_chars(chars: &Vec<char>) -> (r: Vec<char>)
    ensures
        r@ == chars@,
{
    let mut r: Vec<char> = Vec::new();
    let mut i: usize = 0;
    while i < chars.len()
        invariant
            i <= chars.len(),
            r@ =~= chars@.take(i as int),
        decreases chars.len() - i,
    {
        r.push(chars[i]);
        i += 1;
    }
    proof {
        assert(chars@.take(chars.len() as int) =~= chars@);
    }
    r
}

impl Drawing {
    /// The drawing that an outline gives. The outline is kept as it is.
    pub fn new(outline: norad::Glyph) -> (drawing: Drawing)
        ensures
            drawing@ == drawing_of(outline),
            drawing.outline == outline,
    {
        Drawing {
            name: outline_name(&outline),
            codepoints: outline_codepoints(&outline),
            components: outline_components(&outline),
            outline,
        }
    }

    /// The drawing that an outline gives, and the text that the outline was
    /// marked with as a color. The mark is taken out of the outline: a layer
    /// holds it beside the glyph.
    pub fn from_outline(outline: norad::Glyph) -> (r: (Drawing, Option<String>))
        ensures
            r.0@ == unmarked_drawing_of(outline),
            r.1.deep_view() == outline_entry_of(outline, mark_key()),
    {
        let mut outline = outline;
        let name = outline_name(&outline);
        let codepoints = outline_codepoints(&outline);
        let components = outline_components(&outline);
        let mark = take_lib_text(&mut outline, "public.markColor");
        (Drawing { name, codepoints, components, outline }, mark)
    }

    /// The outline of the drawing as it is exported: marked with `color`
    /// where there is one.
    pub fn to_outline(&self, color: Option<&String>) -> (outline: norad::Glyph)
        ensures
            outline == exported_outline(self@, color.deep_view()),
            color is None ==> outline == self.outline,
    {
        let mut outline = clone_outline(&self.outline);
        match color {
            Some(text) => {
                put_lib_text(&mut outline, "public.markColor", text.as_str());
            },
            None => {},
        }
        outline
    }
}

impl Duplicate for Drawing {
    fn duplicate(&self) -> (copy: Drawing) {
        Drawing {
            name: self.name.clone(),
            codepoints: clone_chars(&self.codepoints),
            components: clone_names(&self.components),
            outline: clone_outline(&self.outline),
        }
    }
}

} // verus!
