//! Variables, literals and three-valued logic.
//!
//! A variable is identified by its index.  A literal pairs a variable with a
//! polarity and is stored as the code `2 * var + sign`, where `sign` is 1 for
//! a negated literal.  The code doubles as the dense watcher-list index of
//! the literal.

use vstd::prelude::*;

verus! {

/// Three-valued logic: a variable is unassigned, true or false.
#[derive(Clone, Copy, PartialEq, Eq, Structural, Debug)]
pub enum Value {
    Undet,
    True,
    False,
}

impl Value {
    /// Logical negation at the specification level; `Undet` is its own negation.
    pub open spec fn spec_negate(self) -> Value {
        match self {
            Value::Undet => Value::Undet,
            Value::True => Value::False,
            Value::False => Value::True,
        }
    }

    /// Logical negation: swaps `True` and `False`, keeps `Undet`.
    pub fn negate(self) -> (r: Value)
        ensures
            r == self.spec_negate(),
    {
        match self {
            Value::Undet => Value::Undet,
            Value::True => Value::False,
            Value::False => Value::True,
        }
    }
}

/// A propositional variable, identified by its index in the solver.
#[derive(Clone, Copy, PartialEq, Eq, Structural, Debug)]
pub struct Var(pub usize);

/// A literal: a variable together with a polarity, stored as the code
/// `2 * var + sign` (`sign` is 1 when the literal is negated).  The code is
/// also the index of the literal's watcher list.
#[derive(Clone, Copy, PartialEq, Eq, Structural, Debug)]
pub struct Literal(pub usize);

impl Var {
    /// The positive literal of this variable.
    pub fn literal(self) -> (r: Literal)
        requires
            self.0 < usize::MAX / 2,
        ensures
            r.var_idx() == self.0,
            !r.neg(),
    {
        Literal::new(self, false)
    }
}

impl Literal {
    /// The variable the literal speaks about, as a specification-level index.
    pub open spec fn var_idx(self) -> int {
        self.0 as int / 2
    }

    /// Whether the literal is the negation of its variable.
    pub open spec fn neg(self) -> bool {
        self.0 as int % 2 == 1
    }

    /// The literal's code is below `bound` exactly when its variable index is
    /// below `nv` with `bound == 2 * nv`; clause and trail well-formedness use
    /// this form.
    pub open spec fn ok(self, nv: int) -> bool {
        self.0 < 2 * nv
    }

    /// Builds the literal of `v`, negated when `negated` is set.
    pub fn new(v: Var, negated: bool) -> (r: Literal)
        requires
            v.0 < usize::MAX / 2,
        ensures
            r.var_idx() == v.0,
            r.neg() == negated,
            r.0 == 2 * v.0 + if negated { 1int } else { 0int },
    {
        if negated {
            Literal(2 * v.0 + 1)
        } else {
            Literal(2 * v.0)
        }
    }

    /// The literal's variable.
    pub fn var(self) -> (r: Var)
        ensures
            r.0 == self.var_idx(),
    {
        Var(self.0 / 2)
    }

    /// The literal's variable index.
    pub fn var_id(self) -> (r: usize)
        ensures
            r == self.var_idx(),
    {
        self.0 / 2
    }

    /// Whether the literal is negated.
    pub fn is_negated(self) -> (r: bool)
        ensures
            r == self.neg(),
    {
        self.0 % 2 == 1
    }

    /// The value a variable must take for this literal to hold: `False` for a
    /// negated literal, `True` otherwise.
    pub fn value(self) -> (r: Value)
        ensures
            r == if self.neg() { Value::False } else { Value::True },
            r != Value::Undet,
    {
        if self.0 % 2 == 1 {
            Value::False
        } else {
            Value::True
        }
    }

    /// The opposite literal of the same variable, at the specification level.
    pub open spec fn spec_negate(self) -> Literal {
        if self.0 as int % 2 == 0 {
            Literal((self.0 + 1) as usize)
        } else {
            Literal((self.0 - 1) as usize)
        }
    }

    /// The opposite literal of the same variable.  Negation is an involution.
    pub fn negate(self) -> (r: Literal)
        requires
            self.0 < usize::MAX,
        ensures
            r == self.spec_negate(),
            r.var_idx() == self.var_idx(),
            r.neg() == !self.neg(),
            r.spec_negate() == self,
    {
        if self.0 % 2 == 0 {
            Literal(self.0 + 1)
        } else {
            Literal(self.0 - 1)
        }
    }
}

/// The value of literal `l` under the per-variable assignment `asg`: the
/// variable's value, negated when the literal is negative.
pub open spec fn lit_value(asg: Seq<Value>, l: Literal) -> Value {
    if l.neg() {
        asg[l.var_idx()].spec_negate()
    } else {
        asg[l.var_idx()]
    }
}

/// A clause is satisfied by `asg` when at least one of its literals is true.
pub open spec fn clause_sat(asg: Seq<Value>, cl: Seq<Literal>) -> bool {
    exists|j: int| 0 <= j < cl.len() && lit_value(asg, cl[j]) == Value::True
}

} // verus!
