use vstd::prelude::*;

verus! {

/// The type of an argument of a rule.
#[derive(Debug, Clone, Copy, PartialEq, Eq, Structural)]
pub enum RuleArgumentType {
    Str,
    Float,
    Int,
    Bool,
}

} // verus!
