//! Kinds of inventories.

use vstd::prelude::*;
use super::calculation::{Calculation, IntoCalculation};
use super::expression::Expr;

verus! {

/// Represents an inventory type.
#[derive(Debug, Hash)]
pub struct Inventory {
    pub(crate) capacity: Option<Calculation>,
    pub(crate) slots: Option<Calculation>,
}

/// What a model knows of an inventory type.
pub struct InventoryView {
    /// The room that the stored items may take up together, if it is limited.
    pub capacity: Option<Expr>,
    /// The number of stacks that may be stored, if it is limited.
    pub slots: Option<Expr>,
}

impl View for Inventory {
    type V = InventoryView;

    open(crate) spec fn view(&self) -> InventoryView {
        InventoryView {
            capacity: match self.capacity {
                Some(calc) => Some(calc@),
                None => None,
            },
            slots: match self.slots {
                Some(calc) => Some(calc@),
                None => None,
            },
        }
    }
}

impl Inventory {
    /// Both calculations are consistent.
    pub open(crate) spec fn wf(&self) -> bool {
        &&& self.capacity matches Some(calc) ==> calc.wf()
        &&& self.slots matches Some(calc) ==> calc.wf()
    }

    /// Create a new inventory type.
    pub fn new() -> (r: Self)
        ensures
            r.wf(),
            r@ == (InventoryView { capacity: None, slots: None }),
    {
        Inventory { capacity: None, slots: None }
    }

    /// Limit capacity to the result of the supplied calculation.
    pub fn capacity<C: IntoCalculation>(self, calc: C) -> (r: Self)
        requires
            calc.convertible(),
        ensures
            r@ == (InventoryView { capacity: Some(calc.expr()), ..self@ }),
            self.wf() ==> r.wf(),
    {
        let mut r = self;
        r.capacity = Some(calc.into_calc());
        r
    }

    /// Limit slots to the result of the supplied calculation.
    pub fn slots<C: IntoCalculation>(self, calc: C) -> (r: Self)
        requires
            calc.convertible(),
        ensures
            r@ == (InventoryView { slots: Some(calc.expr()), ..self@ }),
            self.wf() ==> r.wf(),
    {
        let mut r = self;
        r.slots = Some(calc.into_calc());
        r
    }
}

impl Inventory {
    /// The calculation that limits the capacity, if there is one.
    pub fn capacity_limit(&self) -> (r: Option<&Calculation>)
        ensures
            match r {
                Some(calc) => self@.capacity == Some(calc@) && (self.wf() ==> calc.wf()),
                None => self@.capacity is None,
            },
    {
        match &self.capacity {
            Some(calc) => Some(calc),
            None => None,
        }
    }

    /// The calculation that limits the slots, if there is one.
    pub fn slot_limit(&self) -> (r: Option<&Calculation>)
        ensures
            match r {
                Some(calc) => self@.slots == Some(calc@) && (self.wf() ==> calc.wf()),
                None => self@.slots is None,
            },
    {
        match &self.slots {
            Some(calc) => Some(calc),
            None => None,
        }
    }
}

impl Default for Inventory {
    fn default() -> (r: Self)
        ensures
            r.wf(),
            r@ == (InventoryView { capacity: None, slots: None }),
    {
        Inventory::new()
    }
}

} // verus!
