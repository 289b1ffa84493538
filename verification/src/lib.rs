//! Editor for flat, single-array keyboard layouts of split (two-half)
//! keyboards: splits one flat array per layer into two rectangular per-half
//! matrices, applies row/column edits and mirroring, and joins the halves
//! back into the flat representation.

pub mod key;
pub mod layout;
pub mod matrix;
pub mod views;

pub use key::{Key, Side};
pub use layout::Config;
pub use matrix::{mirror_pair, KeyMatrix};
