//! The parsed form of a pipeline.
use vstd::prelude::*;
use crate::decimal::{Decimal, DecimalView};

verus! {

/// A stage as plain values: its name and its arguments.
pub type TermView = (Seq<char>, Seq<DecimalView>);

/// One stage of a pipeline: a name and its numeric arguments.
#[derive(Debug, Clone, PartialEq)]
pub struct Term(pub String, pub Vec<Decimal>);

/// A whole pipeline, its stages from left to right.
#[derive(Debug, Clone, PartialEq)]
pub struct Expr {
    pub code: Vec<Term>,
}

pub open spec fn decimals_view(xs: Seq<Decimal>) -> Seq<DecimalView> {
    xs.map_values(|d: Decimal| d@)
}

impl View for Term {
    type V = TermView;

    open spec fn view(&self) -> TermView {
        (self.0@, decimals_view(self.1@))
    }
}

impl View for Expr {
    type V = Seq<TermView>;

    open spec fn view(&self) -> Seq<TermView> {
        self.code@.map_values(|t: Term| t@)
    }
}

impl Expr {
    /// Every argument of every stage is made of decimal digits.
    pub open spec fn wf(&self) -> bool {
        forall|i: int, j: int|
            0 <= i < self.code@.len() && 0 <= j < self.code@[i].1@.len() ==> (
            #[trigger] self.code@[i].1@[j]).wf()
    }
}

/// Why a pipeline gave no value. Each evaluation error carries the index of
/// the stage that caused it; a parse error carries the character position
/// where the input stops matching the grammar.
#[derive(Debug, Clone, Copy, PartialEq, Eq, Structural)]
pub enum CalcError {
    Parse(usize),
    Arity(usize),
    Domain(usize),
    UnknownOperation(usize),
}

} // verus!
