//! What a calculation means: an expression tree over constants and values.

use vstd::prelude::*;
use super::operation::{BinaryOp, UnaryOp};
use super::ValueId;

verus! {

/// An expression over the values of a character.
pub enum Expr {
    /// A constant.
    Const(i32),
    /// The current value behind an id.
    Value(ValueId),
    /// An operator applied to one operand.
    Unary(UnaryOp, Box<Expr>),
    /// An operator applied to two operands.
    Binary(BinaryOp, Box<Expr>, Box<Expr>),
    /// An input that is not bound yet.
    Placeholder,
}

/// Assigns each value id its current value.
pub type Env = spec_fn(ValueId) -> i32;

impl Expr {
    /// The operator `op` applied to `a`.
    pub open spec fn unary(op: UnaryOp, a: Expr) -> Expr {
        Expr::Unary(op, Box::new(a))
    }

    /// The operator `op` applied to `a` and `b`.
    pub open spec fn binary(op: BinaryOp, a: Expr, b: Expr) -> Expr {
        Expr::Binary(op, Box::new(a), Box::new(b))
    }

    /// No placeholder is left anywhere in the expression.
    pub open spec fn is_bound(self) -> bool
        decreases self,
    {
        match self {
            Expr::Const(_) => true,
            Expr::Value(_) => true,
            Expr::Unary(_, a) => a.is_bound(),
            Expr::Binary(_, a, b) => a.is_bound() && b.is_bound(),
            Expr::Placeholder => false,
        }
    }

    /// The value `id` occurs in the expression.
    pub open spec fn reads(self, id: ValueId) -> bool
        decreases self,
    {
        match self {
            Expr::Const(_) => false,
            Expr::Value(v) => v == id,
            Expr::Unary(_, a) => a.reads(id),
            Expr::Binary(_, a, b) => a.reads(id) || b.reads(id),
            Expr::Placeholder => false,
        }
    }

    /// The result of the expression under `env`. Both operands of an operator
    /// are always evaluated. A placeholder counts as 0; `Calculation::get`
    /// refuses expressions that hold one.
    pub open spec fn eval(self, env: Env) -> i32
        decreases self,
    {
        match self {
            Expr::Const(c) => c,
            Expr::Value(id) => env(id),
            Expr::Unary(op, a) => op.apply(a.eval(env)),
            Expr::Binary(op, a, b) => op.apply(a.eval(env), b.eval(env)),
            Expr::Placeholder => 0,
        }
    }

    /// The expression with every placeholder replaced by `with`.
    pub open spec fn bind(self, with: Expr) -> Expr
        decreases self,
    {
        match self {
            Expr::Const(c) => Expr::Const(c),
            Expr::Value(id) => Expr::Value(id),
            Expr::Unary(op, a) => Expr::Unary(op, Box::new(a.bind(with))),
            Expr::Binary(op, a, b) => Expr::Binary(
                op,
                Box::new(a.bind(with)),
                Box::new(b.bind(with)),
            ),
            Expr::Placeholder => with,
        }
    }

    /// The result depends on the environment only through the values that the
    /// expression reads.
    pub proof fn lemma_eval_agrees(self, env1: Env, env2: Env)
        requires
            forall|id: ValueId| #[trigger] self.reads(id) ==> env1(id) == env2(id),
        ensures
            self.eval(env1) == self.eval(env2),
        decreases self,
    {
        match self {
            Expr::Value(id) => {
                assert(self.reads(id));
            },
            Expr::Unary(_, a) => {
                assert forall|id: ValueId| #[trigger] a.reads(id) implies env1(id) == env2(id) by {
                    assert(self.reads(id));
                }
                a.lemma_eval_agrees(env1, env2);
            },
            Expr::Binary(_, a, b) => {
                assert forall|id: ValueId| #[trigger] a.reads(id) implies env1(id) == env2(id) by {
                    assert(self.reads(id));
                }
                assert forall|id: ValueId| #[trigger] b.reads(id) implies env1(id) == env2(id) by {
                    assert(self.reads(id));
                }
                a.lemma_eval_agrees(env1, env2);
                b.lemma_eval_agrees(env1, env2);
            },
            _ => {},
        }
    }

    /// Binding with a bound expression leaves no placeholder, and the result
    /// reads what the expression read and, if a placeholder stood in it, what
    /// `with` reads.
    pub proof fn lemma_bind(self, with: Expr)
        ensures
            with.is_bound() ==> self.bind(with).is_bound(),
            self.is_bound() ==> self.bind(with) == self,
            forall|id: ValueId| #[trigger]
                self.bind(with).reads(id) ==> self.reads(id) || with.reads(id),
            forall|id: ValueId| self.reads(id) ==> #[trigger] self.bind(with).reads(id),
            forall|id: ValueId|
                !self.is_bound() && with.reads(id) ==> #[trigger] self.bind(with).reads(id),
        decreases self,
    {
        match self {
            Expr::Unary(_, a) => {
                a.lemma_bind(with);
                assert forall|id: ValueId| #[trigger]
                    self.bind(with).reads(id) implies self.reads(id) || with.reads(id) by {
                    assert(a.bind(with).reads(id));
                }
                assert forall|id: ValueId| self.reads(id) implies #[trigger] self.bind(
                    with,
                ).reads(id) by {
                    assert(a.bind(with).reads(id));
                }
                assert forall|id: ValueId| !self.is_bound() && with.reads(id) implies #[trigger] self.bind(
                    with,
                ).reads(id) by {
                    assert(a.bind(with).reads(id));
                }
            },
            Expr::Binary(_, a, b) => {
                a.lemma_bind(with);
                b.lemma_bind(with);
                assert forall|id: ValueId| #[trigger]
                    self.bind(with).reads(id) implies self.reads(id) || with.reads(id) by {
                    assert(a.bind(with).reads(id) || b.bind(with).reads(id));
                }
                assert forall|id: ValueId| self.reads(id) implies #[trigger] self.bind(
                    with,
                ).reads(id) by {
                    if a.reads(id) {
                        assert(a.bind(with).reads(id));
                    } else {
                        assert(b.bind(with).reads(id));
                    }
                }
                assert forall|id: ValueId| !self.is_bound() && with.reads(id) implies #[trigger] self.bind(
                    with,
                ).reads(id) by {
                    if !a.is_bound() {
                        assert(a.bind(with).reads(id));
                    } else {
                        assert(b.bind(with).reads(id));
                    }
                }
            },
            _ => {},
        }
    }

    /// Evaluating a bound expression is evaluating the expression with the
    /// placeholder standing for the result of `with`.
    pub proof fn law_bind_eval(self, with: Expr, env: Env)
        ensures
            self.bind(with).eval(env) == self.bind(Expr::Const(with.eval(env))).eval(env),
        decreases self,
    {
        match self {
            Expr::Unary(_, a) => {
                a.law_bind_eval(with, env);
            },
            Expr::Binary(_, a, b) => {
                a.law_bind_eval(with, env);
                b.law_bind_eval(with, env);
            },
            _ => {},
        }
    }
}

} // verus!
