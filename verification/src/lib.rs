//! HyperList outlines: parsing and writing the HyperList 2.6 text format,
//! syntax coloring of item lines, and the outline view (folding, filtering,
//! navigation) of a terminal viewer.
pub mod text;
pub mod parser;
pub mod highlight;
pub mod display;
pub mod outline;
pub mod keys;
