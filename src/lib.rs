//! Two small borrowing building blocks: a lazy string splitter whose source and
//! delimiter are borrowed independently, and a single-value cell that can be
//! updated through a shared reference.
pub mod cell;
pub mod strsplit;

pub use cell::Cell;
pub use strsplit::{skip_delims_prefix, StrSplit};
