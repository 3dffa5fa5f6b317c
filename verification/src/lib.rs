//! Reading and writing GIMP palette (`.gpl`) files.
//!
//! A `.gpl` file is a line-oriented text document: a `GIMP Palette`
//! signature line, a `Name:` line, a `Columns:` line, and then one
//! record line per color, each holding three decimal channel values.
//! This crate decodes such text into a validated [`Palette`] and
//! encodes a [`Palette`] back into byte-exact `.gpl` text; every
//! function is specified and verified with Verus.

pub mod color;
pub mod grammar;
pub mod numeral;
pub mod palette;
pub mod text;

pub use color::create_string_from_colors;
pub use color::Color;
pub use palette::NewPaletteError;
pub use palette::Palette;
