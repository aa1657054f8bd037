//! Descriptive statistics for tabular data: every column is classified as
//! continuous, discrete, free text or empty, and summarised accordingly.

pub mod dataset;
pub mod feature;
pub mod number;
pub mod order;
pub mod source;
pub mod stats;
pub mod table;
pub mod text;
