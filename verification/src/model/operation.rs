//! The arithmetic of calculations: what each operator computes on two's
//! complement 32-bit integers.

use vstd::prelude::*;
use vstd::arithmetic::div_mod::lemma_fundamental_div_mod_converse;

verus! {

/// Rounding procedure after division.
#[derive(Clone, Copy, Debug, PartialEq, Eq, Hash, Structural)]
pub enum Rounding {
    /// Round to the next integer that is smaller than the result.
    Floor,
    /// Round to the nearest integer from the result.
    Nearest,
    /// Round to the next integer that is larger than the result.
    Ceil,
}

/// Operators with one operand.
#[derive(Clone, Copy, Debug, PartialEq, Eq, Hash, Structural)]
pub enum UnaryOp {
    /// Absolute value.
    Abs,
    /// Arithmetic negation.
    Neg,
    /// 1 if the operand is 0, else 0.
    Not,
}

/// Operators with two operands.
#[derive(Clone, Copy, Debug, PartialEq, Eq, Hash, Structural)]
pub enum BinaryOp {
    /// Sum.
    Add,
    /// Difference.
    Sub,
    /// Product.
    Mul,
    /// Quotient, rounded as stated.
    Div(Rounding),
    /// Remainder with the sign of the left operand.
    Rem,
    /// The smaller operand.
    Min,
    /// The bigger operand.
    Max,
    /// 1 if `a == b` else 0.
    Eq,
    /// 1 if `a != b` else 0.
    Ne,
    /// 1 if `a > b` else 0.
    Gt,
    /// 1 if `a >= b` else 0.
    Ge,
    /// 1 if `a < b` else 0.
    Lt,
    /// 1 if `a <= b` else 0.
    Le,
    /// 1 if `a != 0 && b != 0` else 0.
    And,
    /// 1 if `a != 0 || b != 0` else 0.
    Or,
}

/// Absolute value of an integer.
pub open spec fn magnitude(x: int) -> int {
    if x < 0 {
        -x
    } else {
        x
    }
}

/// The largest integer that is not above `a / b`.
pub open spec fn floor_div(a: int, b: int) -> int
    recommends
        b != 0,
{
    if b > 0 {
        a / b
    } else {
        (-a) / (-b)
    }
}

/// The smallest integer that is not below `a / b`.
pub open spec fn ceil_div(a: int, b: int) -> int
    recommends
        b != 0,
{
    -floor_div(-a, b)
}

/// The integer nearest to `a / b`; a quotient half-way between two integers
/// goes to the one further from zero.
pub open spec fn nearest_div(a: int, b: int) -> int
    recommends
        b != 0,
{
    let half_up = (2 * magnitude(a) + magnitude(b)) / (2 * magnitude(b));
    if (a < 0) != (b < 0) {
        -half_up
    } else {
        half_up
    }
}

/// The 32-bit integer closest to `x`.
pub open spec fn saturate(x: int) -> i32 {
    if x > i32::MAX {
        i32::MAX
    } else if x < i32::MIN {
        i32::MIN
    } else {
        x as i32
    }
}

/// 1 for true, 0 for false.
pub open spec fn truth(b: bool) -> i32 {
    if b {
        1
    } else {
        0
    }
}

/// Remainder of `a / b` with the sign of `a`; 0 where `b` is 0.
pub open spec fn truncated_rem(a: int, b: int) -> int {
    if b == 0 {
        0
    } else if a >= 0 {
        a % magnitude(b)
    } else {
        -((-a) % magnitude(b))
    }
}

/// `floor_div` is the floor of the exact quotient: it is the one integer `q`
/// with `q * b <= a < (q + 1) * b` for a positive divisor.
pub proof fn law_floor_div(a: int, b: int)
    requires
        b > 0,
    ensures
        floor_div(a, b) * b <= a < (floor_div(a, b) + 1) * b,
{
    vstd::arithmetic::div_mod::lemma_fundamental_div_mod(a, b);
    vstd::arithmetic::div_mod::lemma_mod_bound(a, b);
    let q = a / b;
    assert(q * b == b * q && (q + 1) * b == b * q + b) by (nonlinear_arith);
}

/// `ceil_div` is the ceiling of the exact quotient: it is the one integer `q`
/// with `(q - 1) * b < a <= q * b` for a positive divisor.
pub proof fn law_ceil_div(a: int, b: int)
    requires
        b > 0,
    ensures
        (ceil_div(a, b) - 1) * b < a <= ceil_div(a, b) * b,
{
    law_floor_div(-a, b);
    let f = floor_div(-a, b);
    assert((-f - 1) * b == -((f + 1) * b) && (-f) * b == -(f * b)) by (nonlinear_arith);
}

/// `nearest_div` is the exact quotient rounded to the nearest integer: twice
/// the dividend lies within one divisor of twice the product, and a quotient
/// half-way between two integers goes away from zero.
pub proof fn law_nearest_div(a: int, b: int)
    requires
        b > 0,
    ensures
        a >= 0 ==> 2 * (nearest_div(a, b) * b) - b <= 2 * a < 2 * (nearest_div(a, b) * b) + b,
        a < 0 ==> 2 * (nearest_div(a, b) * b) - b < 2 * a <= 2 * (nearest_div(a, b) * b) + b,
        nearest_div(-a, b) == -nearest_div(a, b),
{
    let n = magnitude(a);
    let m = (2 * n + b) / (2 * b);
    vstd::arithmetic::div_mod::lemma_fundamental_div_mod(2 * n + b, 2 * b);
    vstd::arithmetic::div_mod::lemma_mod_bound(2 * n + b, 2 * b);
    assert((2 * b) * m == 2 * (m * b) && 2 * ((-m) * b) == -(2 * (m * b))) by (nonlinear_arith);
    if a == 0 {
        let rest = (2 * n + b) % (2 * b);
        assert(m == 0) by (nonlinear_arith)
            requires
                b == (2 * b) * m + rest,
                0 <= rest < 2 * b,
                b > 0,
        ;
    }
}

/// Euclidean quotient and remainder of a negated dividend, from quotient and
/// remainder of the dividend itself.
pub proof fn lemma_div_of_negated(n: int, d: int)
    requires
        n >= 0,
        d > 0,
    ensures
        (-n) / d == if n % d == 0 {
            -(n / d)
        } else {
            -(n / d) - 1
        },
        (-n) % d == if n % d == 0 {
            0
        } else {
            d - n % d
        },
{
    let q = n / d;
    let r = n % d;
    vstd::arithmetic::div_mod::lemma_fundamental_div_mod(n, d);
    vstd::arithmetic::div_mod::lemma_mod_bound(n, d);
    if r == 0 {
        assert(-n == (-q) * d + 0) by (nonlinear_arith)
            requires
                n == d * q + r,
                r == 0,
        ;
        lemma_fundamental_div_mod_converse(-n, d, -q, 0);
    } else {
        assert(-n == (-q - 1) * d + (d - r)) by (nonlinear_arith)
            requires
                n == d * q + r,
        ;
        lemma_fundamental_div_mod_converse(-n, d, -q - 1, d - r);
    }
}

impl Rounding {
    /// The quotient `a / b`, rounded according to `self` and brought into the
    /// 32-bit range. Division by zero gives the largest value for a positive
    /// dividend, the smallest for a negative one and 0 for 0. For 32-bit
    /// operands this is what rounding the double precision quotient gives.
    pub open spec fn quotient(self, a: i32, b: i32) -> i32 {
        if b == 0 {
            if a > 0 {
                i32::MAX
            } else if a < 0 {
                i32::MIN
            } else {
                0
            }
        } else {
            saturate(
                match self {
                    Rounding::Floor => floor_div(a as int, b as int),
                    Rounding::Nearest => nearest_div(a as int, b as int),
                    Rounding::Ceil => ceil_div(a as int, b as int),
                },
            )
        }
    }

    /// Divide `a` by `b` and round the quotient.
    pub fn divide(&self, a: i32, b: i32) -> (r: i32)
        ensures
            r == self.quotient(a, b),
    {
        if b == 0 {
            return if a > 0 {
                i32::MAX
            } else if a < 0 {
                i32::MIN
            } else {
                0
            };
        }
        let n: i64 = if a < 0 {
            -(a as i64)
        } else {
            a as i64
        };
        let d: i64 = if b < 0 {
            -(b as i64)
        } else {
            b as i64
        };
        let negative = (a < 0) != (b < 0);
        let q: i64 = n / d;
        let rest: i64 = n % d;
        proof {
            vstd::arithmetic::div_mod::lemma_fundamental_div_mod(n as int, d as int);
            vstd::arithmetic::div_mod::lemma_mod_bound(n as int, d as int);
            vstd::arithmetic::div_mod::lemma_div_pos_is_pos(n as int, d as int);
            assert(q <= n) by (nonlinear_arith)
                requires
                    n == d * q + rest,
                    d >= 1,
                    rest >= 0,
                    q >= 0,
            ;
            lemma_div_of_negated(n as int, d as int);
        }
        let exact: i64 = match self {
            Rounding::Floor => {
                if !negative {
                    q
                } else if rest == 0 {
                    -q
                } else {
                    -q - 1
                }
            },
            Rounding::Ceil => {
                if negative {
                    -q
                } else if rest == 0 {
                    q
                } else {
                    q + 1
                }
            },
            Rounding::Nearest => {
                let half_up: i64 = (2 * n + d) / (2 * d);
                proof {
                    vstd::arithmetic::div_mod::lemma_fundamental_div_mod(
                        2 * n + d,
                        2 * d,
                    );
                    vstd::arithmetic::div_mod::lemma_mod_bound(2 * n + d, 2 * d);
                    vstd::arithmetic::div_mod::lemma_div_pos_is_pos(2 * n + d, 2 * d);
                    assert(half_up <= 2 * n + d) by (nonlinear_arith)
                        requires
                            2 * n + d == (2 * d) * half_up + ((2 * n + d) % (2 * d)),
                            d >= 1,
                            (2 * n + d) % (2 * d) >= 0,
                            half_up >= 0,
                    ;
                }
                if negative {
                    -half_up
                } else {
                    half_up
                }
            },
        };
        if exact > 0x7fff_ffff {
            i32::MAX
        } else if exact < -0x8000_0000 {
            i32::MIN
        } else {
            exact as i32
        }
    }
}

impl UnaryOp {
    /// What the operator computes. Negation and absolute value wrap around:
    /// the smallest value is its own negation.
    pub open spec fn apply(self, val: i32) -> i32 {
        match self {
            UnaryOp::Abs => if val < 0 {
                0i32.wrapping_sub(val)
            } else {
                val
            },
            UnaryOp::Neg => 0i32.wrapping_sub(val),
            UnaryOp::Not => truth(val == 0),
        }
    }

    /// Apply the operator to `val`.
    pub fn exec(&self, val: i32) -> (r: i32)
        ensures
            r == self.apply(val),
    {
        match self {
            UnaryOp::Abs => if val < 0 {
                0i32.wrapping_sub(val)
            } else {
                val
            },
            UnaryOp::Neg => 0i32.wrapping_sub(val),
            UnaryOp::Not => if val == 0 {
                1
            } else {
                0
            },
        }
    }
}

impl BinaryOp {
    /// What the operator computes. Sum, difference and product wrap around;
    /// quotients follow `Rounding::quotient`; comparisons and the boolean
    /// operators give 1 for true and 0 for false.
    pub open spec fn apply(self, a: i32, b: i32) -> i32 {
        match self {
            BinaryOp::Add => a.wrapping_add(b),
            BinaryOp::Sub => a.wrapping_sub(b),
            BinaryOp::Mul => a.wrapping_mul(b),
            BinaryOp::Div(r) => r.quotient(a, b),
            BinaryOp::Rem => truncated_rem(a as int, b as int) as i32,
            BinaryOp::Min => if a <= b {
                a
            } else {
                b
            },
            BinaryOp::Max => if a >= b {
                a
            } else {
                b
            },
            BinaryOp::Eq => truth(a == b),
            BinaryOp::Ne => truth(a != b),
            BinaryOp::Gt => truth(a > b),
            BinaryOp::Ge => truth(a >= b),
            BinaryOp::Lt => truth(a < b),
            BinaryOp::Le => truth(a <= b),
            BinaryOp::And => truth(a != 0 && b != 0),
            BinaryOp::Or => truth(a != 0 || b != 0),
        }
    }

    /// Apply the operator to `a` and `b`.
    pub fn exec(&self, a: i32, b: i32) -> (r: i32)
        ensures
            r == self.apply(a, b),
    {
        match self {
            BinaryOp::Add => a.wrapping_add(b),
            BinaryOp::Sub => a.wrapping_sub(b),
            BinaryOp::Mul => a.wrapping_mul(b),
            BinaryOp::Div(r) => r.divide(a, b),
            BinaryOp::Rem => {
                if b == 0 {
                    0
                } else {
                    let n: i64 = if a < 0 {
                        -(a as i64)
                    } else {
                        a as i64
                    };
                    let d: i64 = if b < 0 {
                        -(b as i64)
                    } else {
                        b as i64
                    };
                    let rest: i64 = n % d;
                    proof {
                        vstd::arithmetic::div_mod::lemma_mod_bound(n as int, d as int);
                    }
                    if a < 0 {
                        (-rest) as i32
                    } else {
                        rest as i32
                    }
                }
            },
            BinaryOp::Min => if a <= b {
                a
            } else {
                b
            },
            BinaryOp::Max => if a >= b {
                a
            } else {
                b
            },
            BinaryOp::Eq => if a == b {
                1
            } else {
                0
            },
            BinaryOp::Ne => if a != b {
                1
            } else {
                0
            },
            BinaryOp::Gt => if a > b {
                1
            } else {
                0
            },
            BinaryOp::Ge => if a >= b {
                1
            } else {
                0
            },
            BinaryOp::Lt => if a < b {
                1
            } else {
                0
            },
            BinaryOp::Le => if a <= b {
                1
            } else {
                0
            },
            BinaryOp::And => if a != 0 && b != 0 {
                1
            } else {
                0
            },
            BinaryOp::Or => if a != 0 || b != 0 {
                1
            } else {
                0
            },
        }
    }
}

} // verus!
