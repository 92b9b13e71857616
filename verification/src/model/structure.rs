//! The mathematical content of a model: what it declares and when those
//! declarations are consistent.

use vstd::prelude::*;
use super::choice::ChoiceView;
use super::container::Id;
use super::expression::Expr;
use super::inventory::InventoryView;
use super::item::ItemView;
use super::modification::{targets, ModificationList};
use super::value::ValueView;
use super::{ChoiceId, InventoryId, ItemId, ValueId};

verus! {

/// What a model declares.
pub struct ModelView {
    /// The values, by id.
    pub values: Seq<ValueView>,
    /// The items, by id.
    pub items: Seq<ItemView>,
    /// The inventory types, by id.
    pub inventories: Seq<InventoryView>,
    /// The choices, by id.
    pub choices: Seq<ChoiceView>,
    /// The type of a character's main inventory, if it has one.
    pub main_inventory: Option<InventoryId>,
}

/// The id of the value at position `v`.
pub open spec fn value_id(v: int) -> ValueId {
    Id(v as usize, std::marker::PhantomData)
}

/// The id of the item at position `i`.
pub open spec fn item_id(i: int) -> ItemId {
    Id(i as usize, std::marker::PhantomData)
}

/// The id of the choice at position `c`.
pub open spec fn choice_id(c: int) -> ChoiceId {
    Id(c as usize, std::marker::PhantomData)
}

/// The expression reads no value but `id`.
pub open spec fn reads_only(e: Expr, id: ValueId) -> bool {
    forall|other: ValueId| #[trigger] e.reads(other) ==> other == id
}

/// Every modification of the list reads no value but its target.
pub open spec fn list_self_contained(list: ModificationList) -> bool {
    forall|k: int| 0 <= k < list.len() ==> reads_only((#[trigger] list[k]).1.calculation, list[k].0)
}

/// The highest of the ranks; 0 if there is none.
pub open spec fn top(ranks: Seq<nat>) -> nat
    decreases ranks.len(),
{
    if ranks.len() == 0 {
        0
    } else if top(ranks.drop_last()) >= ranks.last() {
        top(ranks.drop_last())
    } else {
        ranks.last()
    }
}

/// No rank is above the highest.
pub proof fn lemma_top(ranks: Seq<nat>, i: int)
    requires
        0 <= i < ranks.len(),
    ensures
        ranks[i] <= top(ranks),
    decreases ranks.len(),
{
    if i < ranks.len() - 1 {
        lemma_top(ranks.drop_last(), i);
    }
}

impl ModelView {
    /// A model without any declaration.
    pub open spec fn empty() -> ModelView {
        ModelView {
            values: Seq::empty(),
            items: Seq::empty(),
            inventories: Seq::empty(),
            choices: Seq::empty(),
            main_inventory: None,
        }
    }

    /// `id` points to a value of this model.
    pub open spec fn has_value(self, id: ValueId) -> bool {
        id.0 < self.values.len()
    }

    /// `id` points to an item of this model.
    pub open spec fn has_item(self, id: ItemId) -> bool {
        id.0 < self.items.len()
    }

    /// `id` points to an inventory type of this model.
    pub open spec fn has_inventory(self, id: InventoryId) -> bool {
        id.0 < self.inventories.len()
    }

    /// `id` points to a choice of this model.
    pub open spec fn has_choice(self, id: ChoiceId) -> bool {
        id.0 < self.choices.len()
    }

    /// The value behind `id`.
    pub open spec fn value(self, id: ValueId) -> ValueView {
        self.values[id.0 as int]
    }

    /// The item behind `id`.
    pub open spec fn item(self, id: ItemId) -> ItemView {
        self.items[id.0 as int]
    }

    /// The expression reads only values of this model.
    pub open spec fn knows(self, e: Expr) -> bool {
        forall|id: ValueId| #[trigger] e.reads(id) ==> self.has_value(id)
    }

    /// The expression can be evaluated on a character of this model: it holds
    /// no placeholder and reads only values of this model.
    pub open spec fn expr_ok(self, e: Expr) -> bool {
        &&& e.is_bound()
        &&& self.knows(e)
    }

    /// The expression, if there is one, can be evaluated on a character of
    /// this model.
    pub open spec fn takes(self, e: Option<Expr>) -> bool {
        e matches Some(e) ==> self.expr_ok(e)
    }

    /// The modifications have distinct targets in this model and can be
    /// evaluated.
    pub open spec fn list_ok(self, list: ModificationList) -> bool {
        &&& targets(list).no_duplicates()
        &&& forall|k: int|
            0 <= k < list.len() ==> self.has_value((#[trigger] list[k]).0) && self.expr_ok(
                list[k].1.calculation,
            )
    }

    /// What the value at `v` refers to exists, and what it says of others is
    /// true of them.
    pub open spec fn value_wf(self, v: int) -> bool {
        let value = self.values[v];
        &&& forall|j: int|
            0 <= j < value.dependencies.len() ==> self.expr_ok(#[trigger] value.dependencies[j])
        &&& forall|j: int|
            0 <= j < value.dependents.len() ==> self.has_value(#[trigger] value.dependents[j])
        &&& forall|j: int|
            0 <= j < value.modifying_items.len() ==> self.has_item(
                #[trigger] value.modifying_items[j],
            ) && targets(self.item(value.modifying_items[j]).modifications).contains(value_id(v))
        &&& value.modifying_items.no_duplicates()
        &&& forall|j: int|
            0 <= j < value.modifying_choices.len() ==> self.has_choice(
                #[trigger] value.modifying_choices[j],
            )
        &&& value.modifying_choices.no_duplicates()
        &&& forall|j: int|
            0 <= j < value.conditions.len() ==> self.has_item(#[trigger] value.conditions[j])
                && self.item(value.conditions[j]).condition is Some
    }

    /// What the item at `i` refers to exists, and the values it concerns know
    /// of it.
    pub open spec fn item_wf(self, i: int) -> bool {
        let item = self.items[i];
        &&& item.condition matches Some(e) ==> {
            &&& self.expr_ok(e)
            &&& item.has_inventory is None
            &&& forall|id: ValueId| #[trigger]
                e.reads(id) ==> self.value(id).conditions.contains(item_id(i))
        }
        &&& self.list_ok(item.modifications)
        &&& forall|k: int|
            0 <= k < item.modifications.len() ==> self.value(
                (#[trigger] item.modifications[k]).0,
            ).modifying_items.contains(item_id(i))
        &&& item.physical matches Some(physical) ==> physical.stack_size > 0
        &&& item.has_inventory matches Some(inventory) ==> self.has_inventory(inventory)
    }

    /// The limits of the inventory type at `i` can be evaluated.
    pub open spec fn inventory_wf(self, i: int) -> bool {
        let inventory = self.inventories[i];
        &&& inventory.capacity matches Some(e) ==> self.expr_ok(e)
        &&& inventory.slots matches Some(e) ==> self.expr_ok(e)
    }

    /// The selections of the choice at `c` can be evaluated and the values
    /// they modify know of the choice.
    pub open spec fn choice_wf(self, c: int) -> bool {
        let choice = self.choices[c];
        forall|k: int|
            0 <= k < choice.options.len() ==> {
                &&& self.list_ok((#[trigger] choice.options[k]).modifications)
                &&& forall|j: int|
                    0 <= j < choice.options[k].modifications.len() ==> self.value(
                        (#[trigger] choice.options[k].modifications[j]).0,
                    ).modifying_choices.contains(choice_id(c))
            }
    }

    /// Every value that a dependency of the value at `v` reads lists that
    /// value as a dependent.
    pub open spec fn dependents_known(self, v: int) -> bool {
        forall|j: int, id: ValueId|
            0 <= j < self.values[v].dependencies.len() && #[trigger] self.values[v].dependencies[j].reads(
                id,
            ) ==> self.value(id).dependents.contains(value_id(v))
    }

    /// The ranks `value_rank` and `item_rank` fall along every edge on which a
    /// change travels: from a value to its dependents and to the items whose
    /// condition reads it, and from an item to the values that it modifies.
    pub open spec fn ranked(self, value_rank: Seq<nat>, item_rank: Seq<nat>) -> bool {
        &&& value_rank.len() == self.values.len()
        &&& item_rank.len() == self.items.len()
        &&& forall|v: int, j: int|
            0 <= v < self.values.len() && 0 <= j < self.values[v].dependents.len()
                ==> value_rank[(#[trigger] self.values[v].dependents[j]).0 as int] < value_rank[v]
        &&& forall|v: int, j: int|
            0 <= v < self.values.len() && 0 <= j < self.values[v].conditions.len()
                ==> item_rank[(#[trigger] self.values[v].conditions[j]).0 as int] < value_rank[v]
        &&& forall|i: int, k: int|
            0 <= i < self.items.len() && 0 <= k < self.items[i].modifications.len()
                ==> value_rank[(#[trigger] self.items[i].modifications[k]).0.0 as int]
                < item_rank[i]
    }

    /// No change can travel in a circle.
    pub open spec fn acyclic(self) -> bool {
        exists|value_rank: Seq<nat>, item_rank: Seq<nat>| self.ranked(value_rank, item_rank)
    }

    /// The model is consistent.
    pub open spec fn wf(self) -> bool {
        &&& self.values.len() <= usize::MAX
        &&& self.items.len() <= usize::MAX
        &&& self.choices.len() <= usize::MAX
        &&& forall|v: int| 0 <= v < self.values.len() ==> #[trigger] self.value_wf(v)
        &&& forall|v: int| 0 <= v < self.values.len() ==> #[trigger] self.dependents_known(v)
        &&& forall|i: int| 0 <= i < self.items.len() ==> #[trigger] self.item_wf(i)
        &&& forall|i: int| 0 <= i < self.inventories.len() ==> #[trigger] self.inventory_wf(i)
        &&& forall|c: int| 0 <= c < self.choices.len() ==> #[trigger] self.choice_wf(c)
        &&& self.main_inventory matches Some(inventory) ==> self.has_inventory(inventory)
        &&& self.acyclic()
    }

    /// Every modification, of an item or of a selection, reads no value but
    /// the one that it modifies.
    pub open spec fn self_contained(self) -> bool {
        &&& forall|i: int|
            0 <= i < self.items.len() ==> list_self_contained(
                (#[trigger] self.items[i]).modifications,
            )
        &&& forall|c: int, o: int|
            0 <= c < self.choices.len() && 0 <= o < self.choices[c].options.len()
                ==> list_self_contained((#[trigger] self.choices[c].options[o]).modifications)
    }

    /// The ranks of the values under one ranking of the model.
    pub closed spec fn value_ranks(self) -> Seq<nat> {
        (choose|ranks: (Seq<nat>, Seq<nat>)| self.ranked(ranks.0, ranks.1)).0
    }

    /// The ranks of the items under the same ranking.
    pub closed spec fn item_ranks(self) -> Seq<nat> {
        (choose|ranks: (Seq<nat>, Seq<nat>)| self.ranked(ranks.0, ranks.1)).1
    }

    /// An acyclic model is ranked by `value_ranks` and `item_ranks`.
    pub proof fn lemma_ranks(self)
        requires
            self.acyclic(),
        ensures
            self.ranked(self.value_ranks(), self.item_ranks()),
    {
        let (value_rank, item_rank) = choose|value_rank: Seq<nat>, item_rank: Seq<nat>|
            self.ranked(value_rank, item_rank);
        assert(self.ranked((value_rank, item_rank).0, (value_rank, item_rank).1));
    }
}

} // verus!
