//! A constructed-language engine: builds a lexicon across one or more related
//! languages from a declarative description of roots, derivational edges and
//! phonological rules.

pub mod errors;
pub mod text;
pub mod lemma;
pub mod transforms;
pub mod word;
pub mod metadata;
pub mod kirum;
pub mod matching;
pub mod lexcreate;
pub mod entries;
pub mod global;
pub mod overrides;
