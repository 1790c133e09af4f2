//! What can go wrong, by stage. Each error names the set, source, layer or
//! glyph at which it arose, and wraps the error of the stage below. What
//! can go wrong with files is not here: this library touches none.

use vstd::prelude::*;

verus! {

/// Loading a repository, or importing into one, failed.
#[derive(Debug)]
pub enum LoadError {
    /// The path of the repository is no directory.
    NotAFontgarden,
    /// The set named first covers glyphs that a set loaded before it covers
    /// too; they are listed.
    DuplicateGlyphs(String, Vec<String>),
    /// The text is no valid name of a set.
    NamingError(String),
    /// The set of this name could not be loaded.
    LoadSet(String, LoadSetError),
    /// The font document has no default layer.
    NoDefaultLayer,
}

/// Loading a set failed.
#[derive(Debug)]
pub enum LoadSetError {
    /// The text is no valid name of a source.
    NamingError(String),
    /// The table of glyph data could not be loaded.
    LoadGlyphData(LoadGlyphDataError),
    /// The source of this name could not be loaded.
    LoadSource(String, LoadSourceError),
}

/// Loading the table of glyph data failed.
#[derive(Debug)]
pub enum LoadGlyphDataError {
    /// A row has too few or too many fields, or its export flag is neither
    /// `true` nor `false`; the fields of the row are given.
    Csv(Vec<String>),
    /// The text is no valid name of a glyph.
    InvalidGlyphName(String),
    /// The code points of the glyph named first are malformed; the second
    /// text is the field as it was read.
    InvalidCodepoint(String, String),
    /// The category of the glyph named first is unknown; the second text is
    /// the field as it was read.
    InvalidOpenTypeCategory(String, String),
}

/// Loading a source failed.
#[derive(Debug)]
pub enum LoadSourceError {
    /// The directories of the source do not give exactly one default
    /// layer.
    NoDefaultLayer,
    /// The layer in the directory of this name could not be loaded.
    LoadLayer(String, LoadLayerError),
}

/// Loading a layer failed.
#[derive(Debug)]
pub enum LoadLayerError {
    /// The name that the directory records for the layer is no valid name;
    /// the text is that name.
    LoadLayerInfo(String),
    /// A row of the table of color marks is malformed; its fields are
    /// given.
    LoadColorMarks(Vec<String>),
}

/// Saving a repository failed.
#[derive(Debug)]
pub enum SaveError {
    /// The set of this name could not be saved.
    SaveSet(String, SaveSetError),
}

/// Saving a set failed.
#[derive(Debug)]
pub enum SaveSetError {
    /// The source of this name could not be saved.
    SaveSource(String, SaveSourceError),
}

/// Saving a source failed.
#[derive(Debug)]
pub enum SaveSourceError {
    /// The layer of this name could not be saved.
    SaveLayer(String, SaveLayerError),
}

/// Saving a layer failed.
#[derive(Debug)]
pub enum SaveLayerError {
    /// No name is left for the directory of the layer: the plain name and
    /// all numbered names are taken.
    CreateDir,
    /// No name is left for the file of the glyph of this name.
    SaveGlyph(String),
}

/// Exporting font documents failed.
#[derive(Debug)]
pub enum ExportError {
    /// The font-object library refused to build a document; the text says
    /// at which layer.
    Other(String),
}

} // verus!
