//! A repository of glyphs that several fonts contribute to.
//!
//! The repository is divided into named sets, of which no two cover the
//! same glyph. A set holds what is known of each of its glyphs, and the
//! sources that draw them: one source for each font, with the layers of the
//! font. Glyphs are imported from font documents and exported as font
//! documents; a glyph that is made of other glyphs takes these with it both
//! ways.
//!
//! This library computes and touches no file. A repository is saved as a
//! value that says which directories and files are to be written, and
//! loaded from such a value.

pub mod names;
pub mod name_map;
pub mod name_set;
pub mod text;
pub mod filenames;
pub mod glyph;
pub mod closure;
pub mod errors;
pub mod metadata;
pub mod model;
pub mod ufo;
pub mod document;
pub mod import;
pub mod invariants;
pub mod export;
pub mod selection;
pub mod tables;
pub mod storage;
pub mod loading;
pub mod roundtrip;
