//! The state of one item of a character, or of one stack in an inventory.

use vstd::prelude::*;
use crate::model::InventoryId;

verus! {

/// Points to the inventory of an item.
#[derive(Clone, Copy, Debug, PartialEq, Eq, PartialOrd, Ord, Hash, Structural)]
pub struct ItemInventory(pub usize);

/// How often an item is equipped, or how many units a stack holds. An item
/// that holds inventories has a list of them instead of a count of its own.
pub struct CharacterItem {
    inventories: Option<Vec<ItemInventory>>,
    count: u16,
}

/// What is known of a character's item.
pub struct CharacterItemView {
    /// Number of active copies, or of units in a stack.
    pub count: u16,
    /// The inventories that the item holds, if it is of such a kind.
    pub inventories: Option<Seq<ItemInventory>>,
}

impl CharacterItemView {
    /// An item without inventories that counts `count`.
    pub open spec fn counting(count: u16) -> CharacterItemView {
        CharacterItemView { count, inventories: None }
    }
}

impl View for CharacterItem {
    type V = CharacterItemView;

    closed spec fn view(&self) -> CharacterItemView {
        CharacterItemView {
            count: self.count,
            inventories: match self.inventories {
                Some(list) => Some(list@),
                None => None,
            },
        }
    }
}

impl CharacterItem {
    /// An item that is not equipped. It can hold inventories if
    /// `has_inventory` is set.
    pub fn new(has_inventory: Option<InventoryId>) -> (r: Self)
        ensures
            r@ == (CharacterItemView {
                count: 0,
                inventories: if has_inventory is Some {
                    Some(Seq::empty())
                } else {
                    None
                },
            }),
    {
        match has_inventory {
            Some(_) => CharacterItem { inventories: Some(Vec::new()), count: 0 },
            None => CharacterItem { inventories: None, count: 0 },
        }
    }

    /// An item without inventories that counts `count`.
    pub fn with_count(count: u16) -> (r: Self)
        ensures
            r@ == CharacterItemView::counting(count),
    {
        CharacterItem { inventories: None, count }
    }

    /// Number of active copies, or of units in the stack.
    pub fn count(&self) -> (r: u16)
        ensures
            r == self@.count,
    {
        self.count
    }

    /// Access to the count of an item that holds no inventories.
    pub fn count_mut(&mut self) -> (r: &mut u16)
        requires
            old(self)@.inventories is None,
        ensures
            *r == old(self)@.count,
            final(self)@ == CharacterItemView::counting(*final(r)),
    {
        &mut self.count
    }
}

} // verus!
