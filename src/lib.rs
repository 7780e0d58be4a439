//! Classical Greek (milesian) alphabetic numerals with myriad grouping.
pub mod tables;
pub mod numeral;
pub mod laws;

pub use tables::Case;
pub use numeral::{to_greek, to_greek_lowercase, to_greek_uppercase};
