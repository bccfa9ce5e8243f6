//! Expansion of compact brace patterns such as `abc{x,y,z}` or `{0..9}` into
//! every string they denote, one combination at a time.
pub mod builder;
pub mod command;
pub mod model;
pub mod pattern;
pub mod text;
pub mod tokens;
