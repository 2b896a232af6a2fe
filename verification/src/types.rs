//! The parts of a parsed planning task that the grounding and metric logic
//! of this library read: the type hierarchy, the typed objects, and the
//! metric.

use vstd::prelude::*;

verus! {

/// A symbol: a type, object, predicate or function name.
pub type Sym = String;

/// A term: a `?variable` or a constant.
#[derive(Clone, Debug, PartialEq, Eq)]
pub enum Term {
    Var(Sym),
    Const(Sym),
}

/// The direction of a `(:metric ...)`.
#[derive(Clone, Copy, Debug, PartialEq, Eq)]
pub enum MetricDir {
    Minimize,
    Maximize,
}

/// A metric expression, as far as the metric logic reads it: a (possibly
/// lifted) fluent, or any other expression (a number or an arithmetic
/// combination).
#[derive(Clone, Debug, PartialEq, Eq)]
pub enum Expr {
    Fluent(Sym, Vec<Term>),
    Compound,
}

/// The domain's type hierarchy and constants.
#[derive(Clone, Debug)]
pub struct Domain {
    /// `(type, parent)` pairs; a later pair for the same type overrides an
    /// earlier one.
    pub type_parent: Vec<(Sym, Sym)>,
    /// `(constant, type)` pairs.
    pub constants: Vec<(Sym, Sym)>,
}

/// The problem's objects and metric.
#[derive(Clone, Debug)]
pub struct Problem {
    /// `(object, type)` pairs.
    pub objects: Vec<(Sym, Sym)>,
    pub metric: Option<(MetricDir, Expr)>,
}

} // verus!
