//! Code that goes into a plan together with what it means.
use crate::compile::ir::DebugExpr;
use vstd::prelude::*;

verus! {

/// A value, most often a closure, with the source text that stands for it in the plan.
pub struct Quoted<F> {
    pub code: DebugExpr,
    pub value: F,
}

impl<F> Quoted<F> {
    pub fn new(code: &str, value: F) -> (r: Self)
        ensures
            r.code.code@ == code@,
            r.value == value,
    {
        Quoted { code: DebugExpr { code: code.to_owned() }, value }
    }
}

} // verus!
