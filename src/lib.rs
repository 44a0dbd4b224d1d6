//! Enumeration, indexing and digesting of a structured filename space, for
//! building a table from content digest back to plaintext.

pub mod digest;
pub mod grapheme;
pub mod models;
pub mod pipeline;
pub mod rainbow_table;
pub mod space;
pub mod store;

pub use grapheme::build_graphemes;
pub use rainbow_table::validate_permutation_bounds;
