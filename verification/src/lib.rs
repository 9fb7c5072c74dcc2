//! Lattice words (ballot sequences): validation, descent/ascent statistics,
//! rectangular-shape promotion and cyclic descents, and enumeration of all
//! lattice words of a fixed content.

pub mod content;
pub mod counts;
pub mod cyclic;
pub mod errors;
pub mod lattice_word;
pub mod lattice_words;
pub mod promotion;
pub mod rectangle;
pub mod slices;

pub use cyclic::TableauCyclicDescentIter;
pub use errors::Error;
pub use lattice_word::{IntoIter, LatticeWord, ScentIter};
pub use lattice_words::{LatticeWords, LatticeWordsIter, LatticeWordsStreamingIter};
pub use slices::{OwnedSlice, SliceIndex, SliceResolution};
