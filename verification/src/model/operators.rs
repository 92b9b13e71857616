//! Calculations written with the operators of the language.
//!
//! A calculation is divided by `Calculation::div`, which takes the rounding;
//! the operator `/` on values and constants rounds down.

use vstd::prelude::*;
use std::ops::{Add, Div, Mul, Neg, Not, Rem, Sub};
use vstd::std_specs::convert::FromSpecImpl;
use vstd::std_specs::ops::{
    AddSpecImpl, DivSpecImpl, MulSpecImpl, NegSpecImpl, NotSpecImpl, RemSpecImpl, SubSpecImpl,
};
use super::calculation::{merge_inputs, Calculation};
use super::expression::Expr;
use super::operation::{BinaryOp, Rounding, UnaryOp};
use super::ValueId;

verus! {

impl Add<Calculation> for Calculation {
    type Output = Calculation;

    /// The sum of a calculation and a calculation.
    fn add(self, rhs: Calculation) -> (r: Calculation)
        ensures
            r.wf(),
            r@ == Expr::binary(BinaryOp::Add, self@, rhs@),
            r.inputs() == merge_inputs(self.inputs(), rhs.inputs()),
    {
        self.binary(rhs, BinaryOp::Add)
    }
}

impl AddSpecImpl<Calculation> for Calculation {
    open spec fn obeys_add_spec() -> bool {
        false
    }

    open spec fn add_req(self, rhs: Calculation) -> bool {
        self.wf() && rhs.wf()
    }

    open spec fn add_spec(self, rhs: Calculation) -> Calculation {
        arbitrary()
    }
}

impl Add<i32> for Calculation {
    type Output = Calculation;

    /// The sum of a calculation and a constant.
    fn add(self, rhs: i32) -> (r: Calculation)
        ensures
            r.wf(),
            r@ == Expr::binary(BinaryOp::Add, self@, Expr::Const(rhs)),
            r.inputs() == merge_inputs(self.inputs(), Seq::<ValueId>::empty()),
    {
        self.binary(Calculation::constant(rhs), BinaryOp::Add)
    }
}

impl AddSpecImpl<i32> for Calculation {
    open spec fn obeys_add_spec() -> bool {
        false
    }

    open spec fn add_req(self, rhs: i32) -> bool {
        self.wf()
    }

    open spec fn add_spec(self, rhs: i32) -> Calculation {
        arbitrary()
    }
}

impl Add<ValueId> for Calculation {
    type Output = Calculation;

    /// The sum of a calculation and a value.
    fn add(self, rhs: ValueId) -> (r: Calculation)
        ensures
            r.wf(),
            r@ == Expr::binary(BinaryOp::Add, self@, Expr::Value(rhs)),
            r.inputs() == merge_inputs(self.inputs(), seq![rhs]),
    {
        self.binary(Calculation::value(rhs), BinaryOp::Add)
    }
}

impl AddSpecImpl<ValueId> for Calculation {
    open spec fn obeys_add_spec() -> bool {
        false
    }

    open spec fn add_req(self, rhs: ValueId) -> bool {
        self.wf()
    }

    open spec fn add_spec(self, rhs: ValueId) -> Calculation {
        arbitrary()
    }
}

impl Add<ValueId> for ValueId {
    type Output = Calculation;

    /// The sum of a value and a value.
    fn add(self, rhs: ValueId) -> (r: Calculation)
        ensures
            r.wf(),
            r@ == Expr::binary(BinaryOp::Add, Expr::Value(self), Expr::Value(rhs)),
            r.inputs() == merge_inputs(seq![self], seq![rhs]),
    {
        Calculation::value(self).binary(Calculation::value(rhs), BinaryOp::Add)
    }
}

impl AddSpecImpl<ValueId> for ValueId {
    open spec fn obeys_add_spec() -> bool {
        false
    }

    open spec fn add_req(self, rhs: ValueId) -> bool {
        true
    }

    open spec fn add_spec(self, rhs: ValueId) -> Calculation {
        arbitrary()
    }
}

impl Add<i32> for ValueId {
    type Output = Calculation;

    /// The sum of a value and a constant.
    fn add(self, rhs: i32) -> (r: Calculation)
        ensures
            r.wf(),
            r@ == Expr::binary(BinaryOp::Add, Expr::Value(self), Expr::Const(rhs)),
            r.inputs() == merge_inputs(seq![self], Seq::<ValueId>::empty()),
    {
        Calculation::value(self).binary(Calculation::constant(rhs), BinaryOp::Add)
    }
}

impl AddSpecImpl<i32> for ValueId {
    open spec fn obeys_add_spec() -> bool {
        false
    }

    open spec fn add_req(self, rhs: i32) -> bool {
        true
    }

    open spec fn add_spec(self, rhs: i32) -> Calculation {
        arbitrary()
    }
}

impl Add<ValueId> for i32 {
    type Output = Calculation;

    /// The sum of a constant and a value.
    fn add(self, rhs: ValueId) -> (r: Calculation)
        ensures
            r.wf(),
            r@ == Expr::binary(BinaryOp::Add, Expr::Const(self), Expr::Value(rhs)),
            r.inputs() == merge_inputs(Seq::<ValueId>::empty(), seq![rhs]),
    {
        Calculation::constant(self).binary(Calculation::value(rhs), BinaryOp::Add)
    }
}

impl AddSpecImpl<ValueId> for i32 {
    open spec fn obeys_add_spec() -> bool {
        false
    }

    open spec fn add_req(self, rhs: ValueId) -> bool {
        true
    }

    open spec fn add_spec(self, rhs: ValueId) -> Calculation {
        arbitrary()
    }
}

impl Add<Calculation> for i32 {
    type Output = Calculation;

    /// The sum of a constant and a calculation.
    fn add(self, rhs: Calculation) -> (r: Calculation)
        ensures
            r.wf(),
            r@ == Expr::binary(BinaryOp::Add, Expr::Const(self), rhs@),
            r.inputs() == merge_inputs(Seq::<ValueId>::empty(), rhs.inputs()),
    {
        Calculation::constant(self).binary(rhs, BinaryOp::Add)
    }
}

impl AddSpecImpl<Calculation> for i32 {
    open spec fn obeys_add_spec() -> bool {
        false
    }

    open spec fn add_req(self, rhs: Calculation) -> bool {
        rhs.wf()
    }

    open spec fn add_spec(self, rhs: Calculation) -> Calculation {
        arbitrary()
    }
}

impl Sub<Calculation> for Calculation {
    type Output = Calculation;

    /// The difference of a calculation and a calculation.
    fn sub(self, rhs: Calculation) -> (r: Calculation)
        ensures
            r.wf(),
            r@ == Expr::binary(BinaryOp::Sub, self@, rhs@),
            r.inputs() == merge_inputs(self.inputs(), rhs.inputs()),
    {
        self.binary(rhs, BinaryOp::Sub)
    }
}

impl SubSpecImpl<Calculation> for Calculation {
    open spec fn obeys_sub_spec() -> bool {
        false
    }

    open spec fn sub_req(self, rhs: Calculation) -> bool {
        self.wf() && rhs.wf()
    }

    open spec fn sub_spec(self, rhs: Calculation) -> Calculation {
        arbitrary()
    }
}

impl Sub<i32> for Calculation {
    type Output = Calculation;

    /// The difference of a calculation and a constant.
    fn sub(self, rhs: i32) -> (r: Calculation)
        ensures
            r.wf(),
            r@ == Expr::binary(BinaryOp::Sub, self@, Expr::Const(rhs)),
            r.inputs() == merge_inputs(self.inputs(), Seq::<ValueId>::empty()),
    {
        self.binary(Calculation::constant(rhs), BinaryOp::Sub)
    }
}

impl SubSpecImpl<i32> for Calculation {
    open spec fn obeys_sub_spec() -> bool {
        false
    }

    open spec fn sub_req(self, rhs: i32) -> bool {
        self.wf()
    }

    open spec fn sub_spec(self, rhs: i32) -> Calculation {
        arbitrary()
    }
}

impl Sub<ValueId> for Calculation {
    type Output = Calculation;

    /// The difference of a calculation and a value.
    fn sub(self, rhs: ValueId) -> (r: Calculation)
        ensures
            r.wf(),
            r@ == Expr::binary(BinaryOp::Sub, self@, Expr::Value(rhs)),
            r.inputs() == merge_inputs(self.inputs(), seq![rhs]),
    {
        self.binary(Calculation::value(rhs), BinaryOp::Sub)
    }
}

impl SubSpecImpl<ValueId> for Calculation {
    open spec fn obeys_sub_spec() -> bool {
        false
    }

    open spec fn sub_req(self, rhs: ValueId) -> bool {
        self.wf()
    }

    open spec fn sub_spec(self, rhs: ValueId) -> Calculation {
        arbitrary()
    }
}

impl Sub<ValueId> for ValueId {
    type Output = Calculation;

    /// The difference of a value and a value.
    fn sub(self, rhs: ValueId) -> (r: Calculation)
        ensures
            r.wf(),
            r@ == Expr::binary(BinaryOp::Sub, Expr::Value(self), Expr::Value(rhs)),
            r.inputs() == merge_inputs(seq![self], seq![rhs]),
    {
        Calculation::value(self).binary(Calculation::value(rhs), BinaryOp::Sub)
    }
}

impl SubSpecImpl<ValueId> for ValueId {
    open spec fn obeys_sub_spec() -> bool {
        false
    }

    open spec fn sub_req(self, rhs: ValueId) -> bool {
        true
    }

    open spec fn sub_spec(self, rhs: ValueId) -> Calculation {
        arbitrary()
    }
}

impl Sub<i32> for ValueId {
    type Output = Calculation;

    /// The difference of a value and a constant.
    fn sub(self, rhs: i32) -> (r: Calculation)
        ensures
            r.wf(),
            r@ == Expr::binary(BinaryOp::Sub, Expr::Value(self), Expr::Const(rhs)),
            r.inputs() == merge_inputs(seq![self], Seq::<ValueId>::empty()),
    {
        Calculation::value(self).binary(Calculation::constant(rhs), BinaryOp::Sub)
    }
}

impl SubSpecImpl<i32> for ValueId {
    open spec fn obeys_sub_spec() -> bool {
        false
    }

    open spec fn sub_req(self, rhs: i32) -> bool {
        true
    }

    open spec fn sub_spec(self, rhs: i32) -> Calculation {
        arbitrary()
    }
}

impl Sub<ValueId> for i32 {
    type Output = Calculation;

    /// The difference of a constant and a value.
    fn sub(self, rhs: ValueId) -> (r: Calculation)
        ensures
            r.wf(),
            r@ == Expr::binary(BinaryOp::Sub, Expr::Const(self), Expr::Value(rhs)),
            r.inputs() == merge_inputs(Seq::<ValueId>::empty(), seq![rhs]),
    {
        Calculation::constant(self).binary(Calculation::value(rhs), BinaryOp::Sub)
    }
}

impl SubSpecImpl<ValueId> for i32 {
    open spec fn obeys_sub_spec() -> bool {
        false
    }

    open spec fn sub_req(self, rhs: ValueId) -> bool {
        true
    }

    open spec fn sub_spec(self, rhs: ValueId) -> Calculation {
        arbitrary()
    }
}

impl Sub<Calculation> for i32 {
    type Output = Calculation;

    /// The difference of a constant and a calculation.
    fn sub(self, rhs: Calculation) -> (r: Calculation)
        ensures
            r.wf(),
            r@ == Expr::binary(BinaryOp::Sub, Expr::Const(self), rhs@),
            r.inputs() == merge_inputs(Seq::<ValueId>::empty(), rhs.inputs()),
    {
        Calculation::constant(self).binary(rhs, BinaryOp::Sub)
    }
}

impl SubSpecImpl<Calculation> for i32 {
    open spec fn obeys_sub_spec() -> bool {
        false
    }

    open spec fn sub_req(self, rhs: Calculation) -> bool {
        rhs.wf()
    }

    open spec fn sub_spec(self, rhs: Calculation) -> Calculation {
        arbitrary()
    }
}

impl Mul<Calculation> for Calculation {
    type Output = Calculation;

    /// The product of a calculation and a calculation.
    fn mul(self, rhs: Calculation) -> (r: Calculation)
        ensures
            r.wf(),
            r@ == Expr::binary(BinaryOp::Mul, self@, rhs@),
            r.inputs() == merge_inputs(self.inputs(), rhs.inputs()),
    {
        self.binary(rhs, BinaryOp::Mul)
    }
}

impl MulSpecImpl<Calculation> for Calculation {
    open spec fn obeys_mul_spec() -> bool {
        false
    }

    open spec fn mul_req(self, rhs: Calculation) -> bool {
        self.wf() && rhs.wf()
    }

    open spec fn mul_spec(self, rhs: Calculation) -> Calculation {
        arbitrary()
    }
}

impl Mul<i32> for Calculation {
    type Output = Calculation;

    /// The product of a calculation and a constant.
    fn mul(self, rhs: i32) -> (r: Calculation)
        ensures
            r.wf(),
            r@ == Expr::binary(BinaryOp::Mul, self@, Expr::Const(rhs)),
            r.inputs() == merge_inputs(self.inputs(), Seq::<ValueId>::empty()),
    {
        self.binary(Calculation::constant(rhs), BinaryOp::Mul)
    }
}

impl MulSpecImpl<i32> for Calculation {
    open spec fn obeys_mul_spec() -> bool {
        false
    }

    open spec fn mul_req(self, rhs: i32) -> bool {
        self.wf()
    }

    open spec fn mul_spec(self, rhs: i32) -> Calculation {
        arbitrary()
    }
}

impl Mul<ValueId> for Calculation {
    type Output = Calculation;

    /// The product of a calculation and a value.
    fn mul(self, rhs: ValueId) -> (r: Calculation)
        ensures
            r.wf(),
            r@ == Expr::binary(BinaryOp::Mul, self@, Expr::Value(rhs)),
            r.inputs() == merge_inputs(self.inputs(), seq![rhs]),
    {
        self.binary(Calculation::value(rhs), BinaryOp::Mul)
    }
}

impl MulSpecImpl<ValueId> for Calculation {
    open spec fn obeys_mul_spec() -> bool {
        false
    }

    open spec fn mul_req(self, rhs: ValueId) -> bool {
        self.wf()
    }

    open spec fn mul_spec(self, rhs: ValueId) -> Calculation {
        arbitrary()
    }
}

impl Mul<ValueId> for ValueId {
    type Output = Calculation;

    /// The product of a value and a value.
    fn mul(self, rhs: ValueId) -> (r: Calculation)
        ensures
            r.wf(),
            r@ == Expr::binary(BinaryOp::Mul, Expr::Value(self), Expr::Value(rhs)),
            r.inputs() == merge_inputs(seq![self], seq![rhs]),
    {
        Calculation::value(self).binary(Calculation::value(rhs), BinaryOp::Mul)
    }
}

impl MulSpecImpl<ValueId> for ValueId {
    open spec fn obeys_mul_spec() -> bool {
        false
    }

    open spec fn mul_req(self, rhs: ValueId) -> bool {
        true
    }

    open spec fn mul_spec(self, rhs: ValueId) -> Calculation {
        arbitrary()
    }
}

impl Mul<i32> for ValueId {
    type Output = Calculation;

    /// The product of a value and a constant.
    fn mul(self, rhs: i32) -> (r: Calculation)
        ensures
            r.wf(),
            r@ == Expr::binary(BinaryOp::Mul, Expr::Value(self), Expr::Const(rhs)),
            r.inputs() == merge_inputs(seq![self], Seq::<ValueId>::empty()),
    {
        Calculation::value(self).binary(Calculation::constant(rhs), BinaryOp::Mul)
    }
}

impl MulSpecImpl<i32> for ValueId {
    open spec fn obeys_mul_spec() -> bool {
        false
    }

    open spec fn mul_req(self, rhs: i32) -> bool {
        true
    }

    open spec fn mul_spec(self, rhs: i32) -> Calculation {
        arbitrary()
    }
}

impl Mul<ValueId> for i32 {
    type Output = Calculation;

    /// The product of a constant and a value.
    fn mul(self, rhs: ValueId) -> (r: Calculation)
        ensures
            r.wf(),
            r@ == Expr::binary(BinaryOp::Mul, Expr::Const(self), Expr::Value(rhs)),
            r.inputs() == merge_inputs(Seq::<ValueId>::empty(), seq![rhs]),
    {
        Calculation::constant(self).binary(Calculation::value(rhs), BinaryOp::Mul)
    }
}

impl MulSpecImpl<ValueId> for i32 {
    open spec fn obeys_mul_spec() -> bool {
        false
    }

    open spec fn mul_req(self, rhs: ValueId) -> bool {
        true
    }

    open spec fn mul_spec(self, rhs: ValueId) -> Calculation {
        arbitrary()
    }
}

impl Mul<Calculation> for i32 {
    type Output = Calculation;

    /// The product of a constant and a calculation.
    fn mul(self, rhs: Calculation) -> (r: Calculation)
        ensures
            r.wf(),
            r@ == Expr::binary(BinaryOp::Mul, Expr::Const(self), rhs@),
            r.inputs() == merge_inputs(Seq::<ValueId>::empty(), rhs.inputs()),
    {
        Calculation::constant(self).binary(rhs, BinaryOp::Mul)
    }
}

impl MulSpecImpl<Calculation> for i32 {
    open spec fn obeys_mul_spec() -> bool {
        false
    }

    open spec fn mul_req(self, rhs: Calculation) -> bool {
        rhs.wf()
    }

    open spec fn mul_spec(self, rhs: Calculation) -> Calculation {
        arbitrary()
    }
}

impl Div<ValueId> for ValueId {
    type Output = Calculation;

    /// The quotient, rounded down, of a value and a value.
    fn div(self, rhs: ValueId) -> (r: Calculation)
        ensures
            r.wf(),
            r@ == Expr::binary(BinaryOp::Div(Rounding::Floor), Expr::Value(self), Expr::Value(rhs)),
            r.inputs() == merge_inputs(seq![self], seq![rhs]),
    {
        Calculation::value(self).binary(Calculation::value(rhs), BinaryOp::Div(Rounding::Floor))
    }
}

impl DivSpecImpl<ValueId> for ValueId {
    open spec fn obeys_div_spec() -> bool {
        false
    }

    open spec fn div_req(self, rhs: ValueId) -> bool {
        true
    }

    open spec fn div_spec(self, rhs: ValueId) -> Calculation {
        arbitrary()
    }
}

impl Div<i32> for ValueId {
    type Output = Calculation;

    /// The quotient, rounded down, of a value and a constant.
    fn div(self, rhs: i32) -> (r: Calculation)
        ensures
            r.wf(),
            r@ == Expr::binary(BinaryOp::Div(Rounding::Floor), Expr::Value(self), Expr::Const(rhs)),
            r.inputs() == merge_inputs(seq![self], Seq::<ValueId>::empty()),
    {
        Calculation::value(self).binary(Calculation::constant(rhs), BinaryOp::Div(Rounding::Floor))
    }
}

impl DivSpecImpl<i32> for ValueId {
    open spec fn obeys_div_spec() -> bool {
        false
    }

    open spec fn div_req(self, rhs: i32) -> bool {
        true
    }

    open spec fn div_spec(self, rhs: i32) -> Calculation {
        arbitrary()
    }
}

impl Div<ValueId> for i32 {
    type Output = Calculation;

    /// The quotient, rounded down, of a constant and a value.
    fn div(self, rhs: ValueId) -> (r: Calculation)
        ensures
            r.wf(),
            r@ == Expr::binary(BinaryOp::Div(Rounding::Floor), Expr::Const(self), Expr::Value(rhs)),
            r.inputs() == merge_inputs(Seq::<ValueId>::empty(), seq![rhs]),
    {
        Calculation::constant(self).binary(Calculation::value(rhs), BinaryOp::Div(Rounding::Floor))
    }
}

impl DivSpecImpl<ValueId> for i32 {
    open spec fn obeys_div_spec() -> bool {
        false
    }

    open spec fn div_req(self, rhs: ValueId) -> bool {
        true
    }

    open spec fn div_spec(self, rhs: ValueId) -> Calculation {
        arbitrary()
    }
}

impl Div<Calculation> for i32 {
    type Output = Calculation;

    /// The quotient, rounded down, of a constant and a calculation.
    fn div(self, rhs: Calculation) -> (r: Calculation)
        ensures
            r.wf(),
            r@ == Expr::binary(BinaryOp::Div(Rounding::Floor), Expr::Const(self), rhs@),
            r.inputs() == merge_inputs(Seq::<ValueId>::empty(), rhs.inputs()),
    {
        Calculation::constant(self).binary(rhs, BinaryOp::Div(Rounding::Floor))
    }
}

impl DivSpecImpl<Calculation> for i32 {
    open spec fn obeys_div_spec() -> bool {
        false
    }

    open spec fn div_req(self, rhs: Calculation) -> bool {
        rhs.wf()
    }

    open spec fn div_spec(self, rhs: Calculation) -> Calculation {
        arbitrary()
    }
}

impl Rem<Calculation> for Calculation {
    type Output = Calculation;

    /// The remainder of a calculation and a calculation.
    fn rem(self, rhs: Calculation) -> (r: Calculation)
        ensures
            r.wf(),
            r@ == Expr::binary(BinaryOp::Rem, self@, rhs@),
            r.inputs() == merge_inputs(self.inputs(), rhs.inputs()),
    {
        self.binary(rhs, BinaryOp::Rem)
    }
}

impl RemSpecImpl<Calculation> for Calculation {
    open spec fn obeys_rem_spec() -> bool {
        false
    }

    open spec fn rem_req(self, rhs: Calculation) -> bool {
        self.wf() && rhs.wf()
    }

    open spec fn rem_spec(self, rhs: Calculation) -> Calculation {
        arbitrary()
    }
}

impl Rem<i32> for Calculation {
    type Output = Calculation;

    /// The remainder of a calculation and a constant.
    fn rem(self, rhs: i32) -> (r: Calculation)
        ensures
            r.wf(),
            r@ == Expr::binary(BinaryOp::Rem, self@, Expr::Const(rhs)),
            r.inputs() == merge_inputs(self.inputs(), Seq::<ValueId>::empty()),
    {
        self.binary(Calculation::constant(rhs), BinaryOp::Rem)
    }
}

impl RemSpecImpl<i32> for Calculation {
    open spec fn obeys_rem_spec() -> bool {
        false
    }

    open spec fn rem_req(self, rhs: i32) -> bool {
        self.wf()
    }

    open spec fn rem_spec(self, rhs: i32) -> Calculation {
        arbitrary()
    }
}

impl Rem<ValueId> for Calculation {
    type Output = Calculation;

    /// The remainder of a calculation and a value.
    fn rem(self, rhs: ValueId) -> (r: Calculation)
        ensures
            r.wf(),
            r@ == Expr::binary(BinaryOp::Rem, self@, Expr::Value(rhs)),
            r.inputs() == merge_inputs(self.inputs(), seq![rhs]),
    {
        self.binary(Calculation::value(rhs), BinaryOp::Rem)
    }
}

impl RemSpecImpl<ValueId> for Calculation {
    open spec fn obeys_rem_spec() -> bool {
        false
    }

    open spec fn rem_req(self, rhs: ValueId) -> bool {
        self.wf()
    }

    open spec fn rem_spec(self, rhs: ValueId) -> Calculation {
        arbitrary()
    }
}

impl Rem<ValueId> for ValueId {
    type Output = Calculation;

    /// The remainder of a value and a value.
    fn rem(self, rhs: ValueId) -> (r: Calculation)
        ensures
            r.wf(),
            r@ == Expr::binary(BinaryOp::Rem, Expr::Value(self), Expr::Value(rhs)),
            r.inputs() == merge_inputs(seq![self], seq![rhs]),
    {
        Calculation::value(self).binary(Calculation::value(rhs), BinaryOp::Rem)
    }
}

impl RemSpecImpl<ValueId> for ValueId {
    open spec fn obeys_rem_spec() -> bool {
        false
    }

    open spec fn rem_req(self, rhs: ValueId) -> bool {
        true
    }

    open spec fn rem_spec(self, rhs: ValueId) -> Calculation {
        arbitrary()
    }
}

impl Rem<i32> for ValueId {
    type Output = Calculation;

    /// The remainder of a value and a constant.
    fn rem(self, rhs: i32) -> (r: Calculation)
        ensures
            r.wf(),
            r@ == Expr::binary(BinaryOp::Rem, Expr::Value(self), Expr::Const(rhs)),
            r.inputs() == merge_inputs(seq![self], Seq::<ValueId>::empty()),
    {
        Calculation::value(self).binary(Calculation::constant(rhs), BinaryOp::Rem)
    }
}

impl RemSpecImpl<i32> for ValueId {
    open spec fn obeys_rem_spec() -> bool {
        false
    }

    open spec fn rem_req(self, rhs: i32) -> bool {
        true
    }

    open spec fn rem_spec(self, rhs: i32) -> Calculation {
        arbitrary()
    }
}

impl Rem<ValueId> for i32 {
    type Output = Calculation;

    /// The remainder of a constant and a value.
    fn rem(self, rhs: ValueId) -> (r: Calculation)
        ensures
            r.wf(),
            r@ == Expr::binary(BinaryOp::Rem, Expr::Const(self), Expr::Value(rhs)),
            r.inputs() == merge_inputs(Seq::<ValueId>::empty(), seq![rhs]),
    {
        Calculation::constant(self).binary(Calculation::value(rhs), BinaryOp::Rem)
    }
}

impl RemSpecImpl<ValueId> for i32 {
    open spec fn obeys_rem_spec() -> bool {
        false
    }

    open spec fn rem_req(self, rhs: ValueId) -> bool {
        true
    }

    open spec fn rem_spec(self, rhs: ValueId) -> Calculation {
        arbitrary()
    }
}

impl Rem<Calculation> for i32 {
    type Output = Calculation;

    /// The remainder of a constant and a calculation.
    fn rem(self, rhs: Calculation) -> (r: Calculation)
        ensures
            r.wf(),
            r@ == Expr::binary(BinaryOp::Rem, Expr::Const(self), rhs@),
            r.inputs() == merge_inputs(Seq::<ValueId>::empty(), rhs.inputs()),
    {
        Calculation::constant(self).binary(rhs, BinaryOp::Rem)
    }
}

impl RemSpecImpl<Calculation> for i32 {
    open spec fn obeys_rem_spec() -> bool {
        false
    }

    open spec fn rem_req(self, rhs: Calculation) -> bool {
        rhs.wf()
    }

    open spec fn rem_spec(self, rhs: Calculation) -> Calculation {
        arbitrary()
    }
}

impl Neg for Calculation {
    type Output = Calculation;

    /// The negated value.
    fn neg(self) -> (r: Calculation)
        ensures
            r.wf(),
            r@ == Expr::unary(UnaryOp::Neg, self@),
            r.inputs() == self.inputs(),
    {
        self.negate()
    }
}

impl NegSpecImpl for Calculation {
    open spec fn obeys_neg_spec() -> bool {
        false
    }

    open spec fn neg_req(self) -> bool {
        self.wf()
    }

    open spec fn neg_spec(self) -> Calculation {
        arbitrary()
    }
}

impl Neg for ValueId {
    type Output = Calculation;

    /// The negated value.
    fn neg(self) -> (r: Calculation)
        ensures
            r.wf(),
            r@ == Expr::unary(UnaryOp::Neg, Expr::Value(self)),
            r.inputs() == seq![self],
    {
        Calculation::value(self).negate()
    }
}

impl NegSpecImpl for ValueId {
    open spec fn obeys_neg_spec() -> bool {
        false
    }

    open spec fn neg_req(self) -> bool {
        true
    }

    open spec fn neg_spec(self) -> Calculation {
        arbitrary()
    }
}

impl Not for Calculation {
    type Output = Calculation;

    /// 1 if the value is 0, else 0.
    fn not(self) -> (r: Calculation)
        ensures
            r.wf(),
            r@ == Expr::unary(UnaryOp::Not, self@),
            r.inputs() == self.inputs(),
    {
        self.invert()
    }
}

impl NotSpecImpl for Calculation {
    open spec fn obeys_not_spec() -> bool {
        false
    }

    open spec fn not_req(self) -> bool {
        self.wf()
    }

    open spec fn not_spec(self) -> Calculation {
        arbitrary()
    }
}

impl Not for ValueId {
    type Output = Calculation;

    /// 1 if the value is 0, else 0.
    fn not(self) -> (r: Calculation)
        ensures
            r.wf(),
            r@ == Expr::unary(UnaryOp::Not, Expr::Value(self)),
            r.inputs() == seq![self],
    {
        Calculation::value(self).invert()
    }
}

impl NotSpecImpl for ValueId {
    open spec fn obeys_not_spec() -> bool {
        false
    }

    open spec fn not_req(self) -> bool {
        true
    }

    open spec fn not_spec(self) -> Calculation {
        arbitrary()
    }
}

impl From<ValueId> for Calculation {
    /// The current value behind `id`.
    fn from(id: ValueId) -> (r: Self)
        ensures
            r.wf(),
            r@ == Expr::Value(id),
            r.inputs() == seq![id],
    {
        Calculation::value(id)
    }
}

impl FromSpecImpl<ValueId> for Calculation {
    open spec fn obeys_from_spec() -> bool {
        false
    }

    open spec fn from_spec(id: ValueId) -> Calculation {
        arbitrary()
    }
}

impl From<i32> for Calculation {
    /// The constant `c`.
    fn from(c: i32) -> (r: Self)
        ensures
            r.wf(),
            r@ == Expr::Const(c),
            r.inputs() == Seq::<ValueId>::empty(),
    {
        Calculation::constant(c)
    }
}

impl FromSpecImpl<i32> for Calculation {
    open spec fn obeys_from_spec() -> bool {
        false
    }

    open spec fn from_spec(c: i32) -> Calculation {
        arbitrary()
    }
}

} // verus!
