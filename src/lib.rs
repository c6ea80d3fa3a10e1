//! Tromp-style line diagrams for lambda terms: a parser for a small
//! expression language, a layout engine and a boolean canvas.
pub mod term;
pub mod atom;
pub mod parse;
pub mod screen;
pub mod graph;

pub use term::Term;
pub use atom::{Atom, ATree};
pub use parse::{expr, SyntaxError};
pub use screen::{Screen, OutputCtx};
pub use graph::{GraphCtx, Error, layout, layout_fits, max_to};



