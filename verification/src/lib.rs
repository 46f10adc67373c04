//! Bit access and run lengths over a bitset stored in native words.
//!
//! A bitset is a slice of `usize` words read as one long row of bits. The
//! trait [`RLEBits`] reads and writes single bits and hands out an [`RLE`],
//! which walks a range of the bitset and gives out its runs: the stretches
//! of equal bits, each as an [`RL`].
//!
//! - `word`: the width of a word, and which bit of which word a bit of the
//!   bitset is.
//! - `index`: bit indices, bounds and ranges, and the one error.
//! - `access`: the trait, and its implementation for `[usize]`.
//! - `run`: runs, and the runs of a range of bits.
//! - `iter`: the iterator over runs.
//! - `laws`: what holds of all this, proved once and for all.

pub mod access;
pub mod index;
pub mod iter;
pub mod laws;
pub mod run;
pub mod word;

pub use crate::access::RLEBits;
pub use crate::index::{locate, validate_range, Bound, OutOfRange};
pub use crate::iter::RLE;
pub use crate::run::RL;
pub use crate::word::word_width;
