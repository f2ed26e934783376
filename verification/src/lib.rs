//! Reads outlines written in a small star-marked markup into a tree of sections.
//!
//! A line that begins with one or more `*` followed by whitespace is a heading;
//! the number of stars is its depth. Everything up to the next heading is the
//! section's content, and a deeper heading nests under the nearest shallower one
//! before it.

pub mod builder;
pub mod document;
pub mod finder;
pub mod grammar;
pub mod nesting;
pub mod section;
pub mod text;

pub use builder::Outliner;
pub use document::{Document, HEADING_PATTERN};
pub use grammar::ParseError;
pub use section::{Heading, Section};
