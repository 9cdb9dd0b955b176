//! What a rule line says.

use vstd::prelude::*;

verus! {

/// One rule: the non-terminal on the left and the symbols on the right, quotes kept.
#[derive(Debug)]
pub struct Rule {
    pub lhs: String,
    pub rhs: Vec<String>,
}

} // verus!
