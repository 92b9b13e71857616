//! Items that a character can equip or store.

use vstd::prelude::*;
use super::calculation::{Calculation, IntoCalculation};
use super::expression::Expr;
use super::front_end::FrontEnd;
use super::modification::{
    list_view, list_wf, put, put_modification, targets, Modification, ModificationList,
};
use super::{InventoryId, ValueId};

verus! {

/// How an item takes up room in an inventory.
#[derive(Clone, Copy, Debug, PartialEq, Eq, Hash, Structural)]
pub struct Physical {
    /// Capacity that one unit takes up.
    pub size: u16,
    /// Number of units that share one slot; never 0.
    pub stack_size: u16,
}

/// "Equippable" item. Can be used to represent actual items, learnable skills, traits or other
/// conditionals.
#[derive(Debug, Hash)]
pub struct Item {
    /// Front end data
    pub front_end: Option<FrontEnd>,
    pub(crate) physical: Option<Physical>,
    pub(crate) has_inventory: Option<InventoryId>,
    pub(crate) condition: Option<Calculation>,
    pub(crate) modifications: Vec<(ValueId, Modification)>,
}

/// What a model knows of an item.
pub struct ItemView {
    /// Front end data, if the item is front-end visible.
    pub front_end: Option<FrontEnd>,
    /// Set if the item can be put into inventories.
    pub physical: Option<Physical>,
    /// Set if the item holds an inventory of its own.
    pub has_inventory: Option<InventoryId>,
    /// Set if the number of active copies follows from the values.
    pub condition: Option<Expr>,
    /// The modifications that each active copy applies, one per target.
    pub modifications: ModificationList,
}

impl ItemView {
    /// An item without front end data that cannot be stored, holds no
    /// inventory, has no condition and modifies nothing.
    pub open spec fn fresh() -> ItemView {
        ItemView {
            front_end: None,
            physical: None,
            has_inventory: None,
            condition: None,
            modifications: Seq::empty(),
        }
    }
}

impl View for Item {
    type V = ItemView;

    open(crate) spec fn view(&self) -> ItemView {
        ItemView {
            front_end: self.front_end,
            physical: self.physical,
            has_inventory: self.has_inventory,
            condition: match self.condition {
                Some(calc) => Some(calc@),
                None => None,
            },
            modifications: list_view(self.modifications@),
        }
    }
}

impl Item {
    /// The calculations are consistent, no target is modified twice and a
    /// stack holds at least one unit.
    pub open(crate) spec fn wf(&self) -> bool {
        &&& self.condition matches Some(calc) ==> calc.wf()
        &&& list_wf(self.modifications@)
        &&& self.physical matches Some(physical) ==> physical.stack_size > 0
    }

    /// Create a new item.
    pub fn new() -> (r: Self)
        ensures
            r.wf(),
            r@ == ItemView::fresh(),
    {
        let r = Item {
            front_end: None,
            physical: None,
            has_inventory: None,
            condition: None,
            modifications: Vec::new(),
        };
        assert(r@.modifications =~= Seq::empty());
        r
    }

    /// Allow this item to be front-end visible.
    pub fn frontend(self, front_end: FrontEnd) -> (r: Self)
        ensures
            r@ == (ItemView { front_end: Some(front_end), ..self@ }),
            self.wf() ==> r.wf(),
    {
        let mut r = self;
        r.front_end = Some(front_end);
        r
    }

    /// The item will be automatically applied based on the given condition.
    pub fn set_condition<C: IntoCalculation>(self, condition: C) -> (r: Self)
        requires
            condition.convertible(),
        ensures
            r@ == (ItemView { condition: Some(condition.expr()), ..self@ }),
            self.wf() ==> r.wf(),
    {
        let mut r = self;
        r.condition = Some(condition.into_calc());
        r
    }

    /// Declare this to be a physical item that can be put into inventories.
    pub fn set_physical(self, size: u16, stack_size: u16) -> (r: Self)
        requires
            stack_size > 0,
        ensures
            r@ == (ItemView { physical: Some(Physical { size, stack_size }), ..self@ }),
            self.wf() ==> r.wf(),
    {
        let mut r = self;
        r.physical = Some(Physical { size, stack_size });
        r
    }

    /// Change the inventory type to use with this item.
    pub fn set_inventory(self, id: InventoryId) -> (r: Self)
        ensures
            r@ == (ItemView { has_inventory: Some(id), ..self@ }),
            self.wf() ==> r.wf(),
    {
        let mut r = self;
        r.has_inventory = Some(id);
        r
    }
}

impl Item {
    /// The condition on which the item is applied, if it has one.
    pub fn condition(&self) -> (r: Option<&Calculation>)
        ensures
            match r {
                Some(calc) => self@.condition == Some(calc@) && (self.wf() ==> calc.wf()),
                None => self@.condition is None,
            },
    {
        match &self.condition {
            Some(calc) => Some(calc),
            None => None,
        }
    }

    /// How the item takes up room in an inventory, if it can be stored.
    pub fn physical(&self) -> (r: Option<Physical>)
        ensures
            r == self@.physical,
    {
        self.physical
    }

    /// The inventory type that the item holds, if it holds one.
    pub fn inventory(&self) -> (r: Option<InventoryId>)
        ensures
            r == self@.has_inventory,
    {
        self.has_inventory
    }

    /// The modifications of the item, each with the value that it modifies.
    pub fn modifications(&self) -> (r: &Vec<(ValueId, Modification)>)
        ensures
            list_view(r@) == self@.modifications,
            self.wf() ==> list_wf(r@),
    {
        &self.modifications
    }

    /// Make `modification` the modification of `to` by this item. The result
    /// says whether the item did not modify `to` before.
    pub(crate) fn put(&mut self, to: ValueId, modification: Modification) -> (added: bool)
        requires
            old(self).wf(),
            modification.wf(),
        ensures
            final(self).wf(),
            final(self)@ == (ItemView {
                modifications: put(old(self)@.modifications, to, modification@),
                ..old(self)@
            }),
            added == !targets(old(self)@.modifications).contains(to),
    {
        put_modification(&mut self.modifications, to, modification)
    }
}

impl Default for Item {
    fn default() -> (r: Self)
        ensures
            r.wf(),
            r@ == ItemView::fresh(),
    {
        Item::new()
    }
}

} // verus!
