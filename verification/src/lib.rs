//! Layout of CoNLL-U dependency treebanks: the tokens of every sentence of a
//! document, its dependency arcs with their nesting levels, and its root
//! markers.

pub mod builder;
pub mod levels;
pub mod metadata;
pub mod model;
pub mod scanner;
pub mod text;

pub use crate::builder::build_sentence;
pub use crate::levels::{assign_levels, ArcCandidate};
pub use crate::metadata::Metadata;
pub use crate::model::{Arc, Root, Sentence, Token};
pub use crate::scanner::{layout_conllu, layout_text, LayoutError, Scanner};
