//! The calls into the font-object library: reading a font document, and
//! building one.
//!
//! A font document is opaque here. What it holds has names: the names of
//! its layers, the glyphs of a layer, the tables of its `lib`, and the
//! names of files and directories that are taken in it. The functions that
//! call the font-object library are trusted: their bodies are not
//! verified, and their contracts state over these names what the library's
//! source shows. Where the font-object library would give up, the input is
//! left out by `requires`.

use vstd::prelude::*;
use crate::glyph::outline_name_of;
use crate::name_set::NameSet;
use crate::text::{lowercase, to_chars};

verus! {

/// A font document of the font-object library.
#[verifier::external_type_specification]
#[verifier::external_body]
pub struct ExFont(norad::Font);

/// The text of a color in its canonical form, as `norad::Color::from_str`
/// followed by `norad::Color::to_rgba_string` gives it; `None` where the
/// text is no color. The name stands for the two functions one after the
/// other: both depend on their argument alone, so the same text always
/// gives the same result.
pub uninterp spec fn canonical_rgba(text: Seq<char>) -> Option<Seq<char>>;

/// Whether a text may be a name: it is not empty and holds no control
/// character.
pub open spec fn valid_name(text: Seq<char>) -> bool {
    &&& text.len() > 0
    &&& forall|i: int| 0 <= i < text.len() ==> !is_control(#[trigger] text[i])
}

/// The control characters: `0x00` to `0x1F`, `0x7F`, and `0x80` to `0x9F`.
pub open spec fn is_control(c: char) -> bool {
    let u = c as u32;
    u <= 0x1F || u == 0x7F || (0x80 <= u <= 0x9F)
}

/// Whether `c` is a control character.
fn is_control_char(c: char) -> (r: bool)
    ensures
        r == is_control(c),
{
    let u = c as u32;
    u <= 0x1F || u == 0x7F || (0x80 <= u && u <= 0x9F)
}

/// Whether a text may be a name.
pub fn is_valid_name(text: &str) -> (r: bool)
    ensures
        r == valid_name(text@),
{
    let chars = to_chars(text);
    if chars.len() == 0 {
        return false;
    }
    let mut i: usize = 0;
    while i < chars.len()
        invariant
            i <= chars.len(),
            chars@ == text@,
            forall|j: int| 0 <= j < i ==> !is_control(#[trigger] chars@[j]),
        decreases chars.len() - i,
    {
        if is_control_char(chars[i]) {
            return false;
        }
        i += 1;
    }
    true
}

/// Calls `norad::Color::from_str` and, on the color that it gives,
/// `norad::Color::to_rgba_string`. Trusted: the result is what
/// [`canonical_rgba`] names, a function of the text alone.
#[verifier::external_body]
pub(crate) fn canonical_color(text: &str) -> (r: Option<String>)
    ensures
        r.deep_view() == canonical_rgba(text@),
{
    match <norad::Color as std::str::FromStr>::from_str(text) {
        Ok(color) => Some(color.to_rgba_string()),
        Err(_) => None,
    }
}

/// The names of the layers that a font holds, in the order in which
/// `norad::Font::iter_layers` gives them: the default layer first.
pub uninterp spec fn font_layers(font: norad::Font) -> Seq<Seq<char>>;

/// What the `lib` of a font holds in the dictionary under `key`, in the
/// order of `plist::Dictionary::iter`: each key of the dictionary, with its
/// value where that is a string. Nothing where the `lib` holds no
/// dictionary under `key`.
pub uninterp spec fn font_lib_entries(font: norad::Font, key: Seq<char>) -> Seq<
    (Seq<char>, Option<Seq<char>>),
>;

/// What the `lib` of a font holds in the array under `key`, in its order:
/// each item where that is a string. Nothing where the `lib` holds no array
/// under `key`.
pub uninterp spec fn font_lib_items(font: norad::Font, key: Seq<char>) -> Seq<Option<Seq<char>>>;

/// Calls `norad::Font::iter_layers` and reads `norad::Layer::name` of each
/// layer. Trusted: the result is what [`font_layers`] names, and it is not
/// empty, as the layers of a font of the font-object library always
/// include a default layer.
#[verifier::external_body]
pub(crate) fn font_layer_names(font: &norad::Font) -> (names: Vec<String>)
    ensures
        names.deep_view() == font_layers(*font),
        names.len() > 0,
{
    font.iter_layers().map(|layer| layer.name().to_string()).collect()
}

/// The glyphs that the layer at `index` of a font holds, in the order of
/// `norad::Layer::iter`; none where the font has no such layer.
pub uninterp spec fn font_layer_glyphs(font: norad::Font, index: int) -> Seq<norad::Glyph>;

/// Calls `norad::Layer::iter` on the layer at `index` of
/// `norad::Font::iter_layers`, and copies each glyph. Trusted: the result
/// is what [`font_layer_glyphs`] names.
#[verifier::external_body]
pub(crate) fn font_layer_outlines(font: &norad::Font, index: usize) -> (outlines: Vec<norad::Glyph>)
    ensures
        outlines@ == font_layer_glyphs(*font, index as int),
{
    font.iter_layers().nth(index).map(|layer| layer.iter().cloned().collect()).unwrap_or_default()
}

/// Reads the dictionary under `key` in the field `lib` of a `norad::Font`
/// through `plist::Dictionary::get`, `plist::Value::as_dictionary` and
/// `plist::Dictionary::iter`: each key of it, with its value where that is
/// a string. Trusted: the result is what [`font_lib_entries`] names.
#[verifier::external_body]
pub(crate) fn font_lib_table(font: &norad::Font, key: &str) -> (entries: Vec<(String, Option<String>)>)
    ensures
        entries.deep_view() == font_lib_entries(*font, key@),
{
    font.lib.get(key).and_then(|value| value.as_dictionary()).map(
        |table| table.iter().map(|(k, v)| (k.clone(), v.as_string().map(String::from))).collect(),
    ).unwrap_or_default()
}

/// Reads the array under `key` in the field `lib` of a `norad::Font`
/// through `plist::Dictionary::get` and `plist::Value::as_array`: each
/// item of it where that is a string. Trusted: the result is what
/// [`font_lib_items`] names.
#[verifier::external_body]
pub(crate) fn font_lib_list(font: &norad::Font, key: &str) -> (items: Vec<Option<String>>)
    ensures
        items.deep_view() == font_lib_items(*font, key@),
{
    font.lib.get(key).and_then(|value| value.as_array()).map(
        |items| items.iter().map(|item| item.as_string().map(String::from)).collect(),
    ).unwrap_or_default()
}

/// The style name that a font holds in its field `font_info`, if it holds
/// one.
pub uninterp spec fn font_style(font: norad::Font) -> Option<Seq<char>>;

/// Reads the field `style_name` of the field `font_info` of a
/// `norad::Font`. Trusted: the result is what [`font_style`] names.
#[verifier::external_body]
pub(crate) fn font_style_name(font: &norad::Font) -> (style_name: Option<String>)
    ensures
        style_name.deep_view() == font_style(*font),
{
    font.font_info.style_name.clone()
}

/// The file name that the font-object library finds for `name` between
/// `prefix` and `suffix`, as `norad::user_name_to_file_name` gives it when
/// it may take no name whose lowercase form is in `taken`. `None` where the
/// font-object library gives up: the plain name and all the numbered names
/// that it tries are taken.
pub uninterp spec fn library_file_name(
    name: Seq<char>,
    prefix: Seq<char>,
    suffix: Seq<char>,
    taken: Set<Seq<char>>,
) -> Option<Seq<char>>;

/// The lowercase forms of the names of the directories that are taken for
/// the layers of a font. That of the default layer is not among them.
pub uninterp spec fn font_dirs_taken(font: norad::Font) -> Set<Seq<char>>;

/// The lowercase forms of the names of the files that are taken in the
/// layer `layer` of a font.
pub uninterp spec fn font_files_taken(font: norad::Font, layer: Seq<char>) -> Set<Seq<char>>;

/// The names of the glyphs for which the layer `layer` of a font keeps a
/// file name: those that were put into it. None where the font has no such
/// layer.
pub uninterp spec fn font_glyph_names(font: norad::Font, layer: Seq<char>) -> Set<Seq<char>>;

/// The name that the font-object library gives to the default layer of a
/// new font.
pub open spec fn default_layer_name() -> Seq<char> {
    "public.default"@
}

/// Whether the font-object library is asked for the file of a glyph or for
/// the directory of a layer.
pub open spec fn asks_for_file_or_directory(prefix: Seq<char>, suffix: Seq<char>) -> bool {
    (prefix == ""@ && suffix == ".glif"@) || (prefix == "glyphs."@ && suffix == ""@)
}

/// What the font-object library is told when it asks whether it may take a
/// name: the names that are taken, how often it has asked, and whether it
/// was told to take a name that is taken.
pub struct NameProbe {
    pub taken: NameSet,
    pub asked: usize,
    pub forced: bool,
}

impl NameProbe {
    /// Whether the font-object library may take the name `candidate`. It
    /// may take a name that is not taken. At the hundredth time it is told
    /// to take the name even if that is taken, so that it does not give up,
    /// and this is kept in mind.
    pub fn accepts(&mut self, candidate: &str) -> (r: bool)
        ensures
            final(self).taken@ == old(self).taken@,
            final(self).asked == if old(self).asked < 100 {
                old(self).asked + 1
            } else {
                old(self).asked as int
            },
            r == (!old(self).taken@.contains(candidate@) || old(self).asked >= 99),
            final(self).forced == (old(self).forced || (old(self).taken@.contains(candidate@)
                && old(self).asked >= 99)),
    {
        if self.asked < 100 {
            self.asked = self.asked + 1;
        }
        if !self.taken.contains(candidate) {
            true
        } else if self.asked >= 100 {
            self.forced = true;
            true
        } else {
            false
        }
    }

    /// The file name that the font-object library finds for `name`, told
    /// apart from the names that are taken.
    pub fn find(&mut self, name: &str, prefix: &str, suffix: &str) -> (found: Option<String>)
        requires
            asks_for_file_or_directory(prefix@, suffix@),
        ensures
            found.deep_view() == library_file_name(name@, prefix@, suffix@, old(self).taken@),
            final(self).taken@ == old(self).taken@,
    {
        self.asked = 0;
        self.forced = false;
        let text = ask_for_file_name(name, prefix, suffix, self);
        if self.forced {
            None
        } else {
            Some(text)
        }
    }
}

/// Calls `norad::user_name_to_file_name`, which asks `probe` of each name
/// that it tries whether it may take it. Trusted: the font-object library
/// asks at most a hundred times, so it is told to take a name before it
/// gives up; where it was not told so, the result is the name that
/// [`library_file_name`] stands for, and where it was, it would have given
/// up.
#[verifier::external_body]
fn ask_for_file_name(name: &str, prefix: &str, suffix: &str, probe: &mut NameProbe) -> (text: String)
    requires
        asks_for_file_or_directory(prefix@, suffix@),
        old(probe).asked == 0,
        !old(probe).forced,
    ensures
        final(probe).taken@ == old(probe).taken@,
        library_file_name(name@, prefix@, suffix@, old(probe).taken@) == if final(probe).forced {
            None::<Seq<char>>
        } else {
            Some(text@)
        },
{
    let path = norad::user_name_to_file_name(name, prefix, suffix, |candidate| probe.accepts(candidate));
    path.to_string_lossy().to_string()
}

/// Calls `norad::Font::new`. Trusted: the font has one layer, the default
/// layer under the name that the font-object library gives it, without
/// glyphs; no name of a file or of a directory is taken.
#[verifier::external_body]
pub(crate) fn new_font() -> (font: norad::Font)
    ensures
        font_layers(font) == seq![default_layer_name()],
        font_dirs_taken(font) == Set::<Seq<char>>::empty(),
        font_files_taken(font, default_layer_name()) == Set::<Seq<char>>::empty(),
        font_glyph_names(font, default_layer_name()) == Set::<Seq<char>>::empty(),
{
    norad::Font::new()
}

/// Calls `norad::LayerContents::rename_layer` on the default layer, without
/// overwriting, and tells whether it succeeded. Trusted: it succeeds where
/// `name` is a valid name and that of no layer; the default layer then has
/// that name and is else as it was, and no directory name is taken or
/// given up. Where it fails the font is as it was.
#[verifier::external_body]
pub(crate) fn font_rename_default_layer(font: &mut norad::Font, name: &str) -> (renamed: bool)
    ensures
        renamed == (valid_name(name@) && !font_layers(*old(font)).contains(name@)),
        renamed ==> font_layers(*final(font)) == font_layers(*old(font)).update(0, name@),
        renamed ==> font_dirs_taken(*final(font)) == font_dirs_taken(*old(font)),
        renamed ==> font_files_taken(*final(font), name@) == font_files_taken(
            *old(font),
            font_layers(*old(font))[0],
        ),
        renamed ==> font_glyph_names(*final(font), name@) == font_glyph_names(
            *old(font),
            font_layers(*old(font))[0],
        ),
        !renamed ==> *final(font) == *old(font),
{
    let old = font.layers.default_layer().name().clone();
    font.layers.rename_layer(&old, name, false).is_ok()
}

/// Calls `norad::LayerContents::new_layer` and tells whether it succeeded.
/// The font-object library gives up where it finds no name for the
/// directory of the layer: that is left out. Trusted: it succeeds where
/// `name` is a valid name, that of no layer, and not the name that the
/// font-object library keeps for the default layer; the font then has one
/// more layer, the last, of that name and without glyphs, the lowercase
/// form of the name found for its directory is taken, and the other layers
/// hold the glyphs that they held. Where it fails the font is as it was.
#[verifier::external_body]
pub(crate) fn font_add_layer(font: &mut norad::Font, name: &str) -> (added: bool)
    requires
        library_file_name(name@, "glyphs."@, ""@, font_dirs_taken(*old(font))) is Some,
    ensures
        added == (valid_name(name@) && name@ != default_layer_name() && !font_layers(
            *old(font),
        ).contains(name@)),
        added ==> font_layers(*final(font)) == font_layers(*old(font)).push(name@),
        added ==> font_dirs_taken(*final(font)) == font_dirs_taken(*old(font)).insert(
            lowercase(library_file_name(name@, "glyphs."@, ""@, font_dirs_taken(*old(font)))->0),
        ),
        added ==> font_files_taken(*final(font), name@) == Set::<Seq<char>>::empty(),
        added ==> font_glyph_names(*final(font), name@) == Set::<Seq<char>>::empty(),
        added ==> forall|other: Seq<char>|
            other != name@ ==> #[trigger] font_glyph_names(*final(font), other) == font_glyph_names(
                *old(font),
                other,
            ),
        !added ==> *final(font) == *old(font),
{
    font.layers.new_layer(name).is_ok()
}

/// Calls `norad::Layer::insert_glyph` on the layer that
/// `norad::LayerContents::get_mut` gives for `layer`, and tells whether
/// there was such a layer. The font-object library gives up where the layer
/// does not hold a glyph of the name that the outline carries and no file
/// name is found for it: that is left out. Trusted: where there is such a
/// layer, it then holds a glyph of that name, and where it did not before,
/// the lowercase form of the file name found for it is taken; the layers
/// and the directory names of the font are as they were, and the other
/// layers hold the glyphs that they held. Where there is no such layer the
/// font is as it was.
#[verifier::external_body]
pub(crate) fn font_put_glyph(font: &mut norad::Font, layer: &str, outline: norad::Glyph) -> (put: bool)
    requires
        font_glyph_names(*old(font), layer@).contains(outline_name_of(outline)) || library_file_name(
            outline_name_of(outline),
            ""@,
            ".glif"@,
            font_files_taken(*old(font), layer@),
        ) is Some,
    ensures
        put == font_layers(*old(font)).contains(layer@),
        put ==> font_layers(*final(font)) == font_layers(*old(font)),
        put ==> font_dirs_taken(*final(font)) == font_dirs_taken(*old(font)),
        put ==> font_glyph_names(*final(font), layer@) == font_glyph_names(*old(font), layer@).insert(
            outline_name_of(outline),
        ),
        put ==> font_files_taken(*final(font), layer@) == if font_glyph_names(
            *old(font),
            layer@,
        ).contains(outline_name_of(outline)) {
            font_files_taken(*old(font), layer@)
        } else {
            font_files_taken(*old(font), layer@).insert(
                lowercase(
                    library_file_name(
                        outline_name_of(outline),
                        ""@,
                        ".glif"@,
                        font_files_taken(*old(font), layer@),
                    )->0,
                ),
            )
        },
        put ==> forall|other: Seq<char>|
            other != layer@ ==> #[trigger] font_glyph_names(*final(font), other) == font_glyph_names(
                *old(font),
                other,
            ),
        !put ==> *final(font) == *old(font),
{
    font.layers.get_mut(layer).map(|found| found.insert_glyph(outline)).is_some()
}

} // verus!
