use vstd::prelude::*;
use crate::rational::Rational;

verus! {

/// Whether the objective is to be made as large or as small as possible.
#[derive(Debug, Clone, Copy, PartialEq, Eq, Structural)]
pub enum Goal {
    Maximize,
    Minimize,
}

/// The relation of a restriction: `==`, `<=` or `>=`.
#[derive(Debug, Clone, Copy, PartialEq, Eq, Structural)]
pub enum Relation {
    Equal,
    Less,
    Greater,
}

/// `coef * x<index>`, with indices counted from one.
#[derive(Debug, Clone, Copy)]
pub struct Term {
    pub coef: Rational,
    pub index: u64,
}

/// The objective `z = terms + value -> goal`.
#[derive(Debug, Clone)]
pub struct TargetFn {
    pub goal: Goal,
    pub terms: Vec<Term>,
    pub value: Rational,
}

/// A restriction `terms relation value`.
#[derive(Debug, Clone)]
pub struct Restriction {
    pub relation: Relation,
    pub terms: Vec<Term>,
    pub value: Rational,
}

/// A linear program as it is written down: restrictions and one objective.
#[derive(Debug, Clone)]
pub struct Task {
    pub restrictions: Vec<Restriction>,
    pub target_fn: TargetFn,
}

pub open spec fn terms_wf(terms: Seq<Term>) -> bool {
    forall|k: int| 0 <= k < terms.len() ==> (#[trigger] terms[k]).coef.wf()
}

impl Task {
    /// Every number of the task is a well-formed fraction.
    pub open spec fn wf(&self) -> bool {
        &&& forall|i: int|
            0 <= i < self.restrictions@.len() ==> {
                &&& terms_wf((#[trigger] self.restrictions@[i]).terms@)
                &&& self.restrictions@[i].value.wf()
            }
        &&& terms_wf(self.target_fn.terms@)
        &&& self.target_fn.value.wf()
    }
}

} // verus!
