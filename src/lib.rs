//! The logic of a personal web site: colour palettes of photographs, the
//! project catalog and the photo gallery.

pub mod bucket;
pub mod catalog;
pub mod color;
pub mod colorpalette;
pub mod date;
pub mod gallery;
pub mod isqrt;
pub mod median_cut;
pub mod palette_lemmas;
pub mod photo;
pub mod project;
pub mod text;
