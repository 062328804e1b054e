//! Error values raised by the engine.

use vstd::prelude::*;

verus! {

/// Raised when a phonetic reference string cannot be parsed: a mixed-case
/// token, or a multi-character token outside the space-separated form.
#[derive(Debug, Clone)]
pub struct PhoneticParsingError {
    pub msg: &'static str,
    pub found: String,
}

/// Raised when a string does not name a known part of speech.
#[derive(Debug, Clone)]
pub struct POSFromError {
    pub found: String,
}

/// Raised when a script returned a value that is neither a string nor an
/// array of strings.
#[derive(Debug, Clone)]
pub struct LemmaFromError {
    pub dyn_type: String,
}

/// Raised by a scripted transform: either the script itself failed to
/// evaluate, or its return value could not be converted into a word.
#[derive(Debug, Clone)]
pub enum TransformError {
    EvalError(String),
    ScriptReturnValueError(LemmaFromError),
}

} // verus!
