//! The raw shape of the global transform file.

use vstd::prelude::*;

use crate::matching::LexisMatch;
use crate::transforms::{GlobalTransform, TransformFunc};

verus! {

/// The content of the global transform file.
#[derive(Debug, Clone)]
pub struct Global {
    /// The global transforms, in file order.
    pub transforms: Option<Vec<RawGlobalTransform>>,
}

/// A global transform as written by the user.
#[derive(Debug, Clone)]
pub struct RawGlobalTransform {
    pub transforms: Vec<TransformFunc>,
    pub conditional: GlobalConditionals,
}

/// The two guards of a global transform: one on the word under
/// transform, and an optional one on its etymons.
#[derive(Debug, Clone)]
pub struct GlobalConditionals {
    pub etymon: Option<LexisMatch>,
    pub lexis: LexisMatch,
}

impl RawGlobalTransform {
    /// The global transform this raw entry stands for.
    pub fn to_global(self) -> (r: GlobalTransform)
        ensures
            r.lex_match == self.conditional.lexis,
            r.etymon_match == self.conditional.etymon,
            r.transforms == self.transforms,
    {
        GlobalTransform {
            lex_match: self.conditional.lexis,
            etymon_match: self.conditional.etymon,
            transforms: self.transforms,
        }
    }
}

} // verus!
