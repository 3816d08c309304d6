use vstd::prelude::*;

verus! {

/// Abstract syntax of propositional expressions, built by a grammar layer
/// from the values that the parsers return.
#[derive(Debug)]
pub enum PropExpr {
    And(Box<PropExpr>, Box<PropExpr>),
    Or(Box<PropExpr>, Box<PropExpr>),
    Not(Box<PropExpr>),
    Lit(Box<str>),
}

} // verus!
