//! How a model grows: what each declaration adds, and that a consistent
//! model stays consistent.

use vstd::prelude::*;
use super::choice::{ChoiceView, SelectionView};
use super::expression::Expr;
use super::inventory::InventoryView;
use super::item::ItemView;
use super::modification::{put, targets, ModificationView};
use super::structure::{choice_id, item_id, value_id, ModelView};
use super::value::ValueView;
use super::{ChoiceId, InventoryId, ItemId, ValueId};

verus! {

impl ModelView {
    /// The model with one more value.
    pub open spec fn with_value(self, value: ValueView) -> ModelView {
        ModelView { values: self.values.push(value), ..self }
    }

    /// The model with one more inventory type.
    pub open spec fn with_inventory(self, inventory: InventoryView) -> ModelView {
        ModelView { inventories: self.inventories.push(inventory), ..self }
    }

    /// The model with one more choice.
    pub open spec fn with_choice(self, choice: ChoiceView) -> ModelView {
        ModelView { choices: self.choices.push(choice), ..self }
    }

    /// The model with `id` as the type of the main inventory.
    pub open spec fn with_main_inventory(self, id: InventoryId) -> ModelView {
        ModelView { main_inventory: Some(id), ..self }
    }

    /// The model with one more item. Every value that the condition of the
    /// item reads lists the item among its conditions.
    pub open spec fn with_item(self, item: ItemView) -> ModelView {
        ModelView {
            items: self.items.push(item),
            values: Seq::new(
                self.values.len(),
                |v: int|
                    if item.condition matches Some(e) && e.reads(value_id(v)) {
                        ValueView {
                            conditions: self.values[v].conditions.push(
                                item_id(self.items.len() as int),
                            ),
                            ..self.values[v]
                        }
                    } else {
                        self.values[v]
                    },
            ),
            ..self
        }
    }

    /// The model with `e` as one more dependency of `id`. Every value that
    /// the dependency reads lists `id` as a dependent.
    pub open spec fn with_dependency(self, id: ValueId, e: Expr) -> ModelView {
        ModelView {
            values: Seq::new(
                self.values.len(),
                |v: int|
                    {
                        let value = self.values[v];
                        ValueView {
                            dependents: if e.reads(value_id(v)) {
                                value.dependents.push(id)
                            } else {
                                value.dependents
                            },
                            dependencies: if v == id.0 {
                                value.dependencies.push(e)
                            } else {
                                value.dependencies
                            },
                            ..value
                        }
                    },
            ),
            ..self
        }
    }

    /// The model with `modification` as the modification of `to` by the item
    /// `from`. If the item did not modify `to` before, `to` lists it as a
    /// modifying item.
    pub open spec fn with_modification(
        self,
        from: ItemId,
        to: ValueId,
        modification: ModificationView,
    ) -> ModelView {
        let item = self.item(from);
        let value = self.value(to);
        ModelView {
            items: self.items.update(
                from.0 as int,
                ItemView { modifications: put(item.modifications, to, modification), ..item },
            ),
            values: if targets(item.modifications).contains(to) {
                self.values
            } else {
                self.values.update(
                    to.0 as int,
                    ValueView { modifying_items: value.modifying_items.push(from), ..value },
                )
            },
            ..self
        }
    }

    /// The model with `selection` as one more selection of `id`. Every value
    /// that the selection modifies lists the choice as a modifying choice.
    pub open spec fn with_selection(self, id: ChoiceId, selection: SelectionView) -> ModelView {
        ModelView {
            choices: self.choices.update(
                id.0 as int,
                ChoiceView {
                    options: self.choices[id.0 as int].options.push(selection),
                    ..self.choices[id.0 as int]
                },
            ),
            values: Seq::new(
                self.values.len(),
                |v: int|
                    {
                        let value = self.values[v];
                        if targets(selection.modifications).contains(value_id(v))
                            && !value.modifying_choices.contains(id) {
                            ValueView {
                                modifying_choices: value.modifying_choices.push(id),
                                ..value
                            }
                        } else {
                            value
                        }
                    },
            ),
            ..self
        }
    }

    /// A consistent model with one more value that nothing refers to is
    /// consistent.
    pub proof fn lemma_with_value(self, value: ValueView)
        requires
            self.wf(),
            self.values.len() < usize::MAX,
            value.unconnected(),
        ensures
            self.with_value(value).wf(),
    {
        let after = self.with_value(value);
        let n = self.values.len() as int;
        assert forall|v: int| 0 <= v < after.values.len() implies #[trigger] after.value_wf(v) by {
            if v < n {
                assert(self.value_wf(v));
                assert(after.values[v] == self.values[v]);
                assert forall|j: int| 0 <= j < after.values[v].dependencies.len() implies after.expr_ok(
                    #[trigger] after.values[v].dependencies[j],
                ) by {
                    assert(self.expr_ok(self.values[v].dependencies[j]));
                }
            }
        }
        assert forall|v: int| 0 <= v < after.values.len() implies #[trigger] after.dependents_known(
            v,
        ) by {
            if v < n {
                assert(self.dependents_known(v));
                assert(self.value_wf(v));
                assert forall|j: int, id: ValueId|
                    0 <= j < after.values[v].dependencies.len()
                        && #[trigger] after.values[v].dependencies[j].reads(id) implies after.value(
                    id,
                ).dependents.contains(value_id(v)) by {
                    assert(self.expr_ok(self.values[v].dependencies[j]));
                    assert(self.has_value(id));
                }
            }
        }
        assert forall|i: int| 0 <= i < after.items.len() implies #[trigger] after.item_wf(i) by {
            assert(self.item_wf(i));
            let item = self.items[i];
            if item.condition is Some {
                let e = item.condition.unwrap();
                assert forall|id: ValueId| #[trigger] e.reads(id) implies after.value(
                    id,
                ).conditions.contains(item_id(i)) by {
                    assert(self.has_value(id));
                }
            }
            assert forall|k: int| 0 <= k < item.modifications.len() implies after.has_value(
                (#[trigger] item.modifications[k]).0,
            ) && after.expr_ok(item.modifications[k].1.calculation) by {
                assert(self.expr_ok(item.modifications[k].1.calculation));
            }
        }
        assert forall|i: int| 0 <= i < after.inventories.len() implies #[trigger] after.inventory_wf(
            i,
        ) by {
            assert(self.inventory_wf(i));
        }
        assert forall|c: int| 0 <= c < after.choices.len() implies #[trigger] after.choice_wf(c) by {
            assert(self.choice_wf(c));
            let choice = self.choices[c];
            assert forall|k: int| 0 <= k < choice.options.len() implies {
                &&& after.list_ok((#[trigger] choice.options[k]).modifications)
                &&& forall|j: int|
                    0 <= j < choice.options[k].modifications.len() ==> after.value(
                        (#[trigger] choice.options[k].modifications[j]).0,
                    ).modifying_choices.contains(choice_id(c))
            } by {
                let list = choice.options[k].modifications;
                assert(self.list_ok(list));
                assert forall|j: int| 0 <= j < list.len() implies after.has_value(
                    (#[trigger] list[j]).0,
                ) && after.expr_ok(list[j].1.calculation) by {
                    assert(self.expr_ok(list[j].1.calculation));
                }
            }
        }
        let (value_rank, item_rank) = choose|value_rank: Seq<nat>, item_rank: Seq<nat>|
            self.ranked(value_rank, item_rank);
        assert(after.ranked(value_rank.push(0), item_rank)) by {
            assert forall|v: int, j: int|
                0 <= v < after.values.len() && 0 <= j < after.values[v].dependents.len() implies value_rank.push(
                0,
            )[(#[trigger] after.values[v].dependents[j]).0 as int] < value_rank.push(0)[v] by {
                assert(self.value_wf(v));
                assert(self.has_value(self.values[v].dependents[j]));
            }
            assert forall|i: int, k: int|
                0 <= i < after.items.len() && 0 <= k < after.items[i].modifications.len() implies value_rank.push(
                0,
            )[(#[trigger] after.items[i].modifications[k]).0.0 as int] < item_rank[i] by {
                assert(self.item_wf(i));
                assert(self.has_value(self.items[i].modifications[k].0));
            }
        }
    }

    /// The same values and items have the same ranking.
    pub proof fn lemma_same_graph(self, after: ModelView)
        requires
            self.acyclic(),
            after.values == self.values,
            after.items == self.items,
        ensures
            after.acyclic(),
    {
        let (value_rank, item_rank) = choose|value_rank: Seq<nat>, item_rank: Seq<nat>|
            self.ranked(value_rank, item_rank);
        assert(after.ranked(value_rank, item_rank));
    }

    /// A consistent model with one more inventory type whose limits can be
    /// evaluated is consistent.
    pub proof fn lemma_with_inventory(self, inventory: InventoryView)
        requires
            self.wf(),
            self.takes(inventory.capacity),
            self.takes(inventory.slots),
        ensures
            self.with_inventory(inventory).wf(),
    {
        let after = self.with_inventory(inventory);
        assert forall|v: int| 0 <= v < after.values.len() implies #[trigger] after.value_wf(v) by {
            assert(self.value_wf(v));
        }
        assert forall|v: int| 0 <= v < after.values.len() implies #[trigger] after.dependents_known(
            v,
        ) by {
            assert(self.dependents_known(v));
        }
        assert forall|i: int| 0 <= i < after.items.len() implies #[trigger] after.item_wf(i) by {
            assert(self.item_wf(i));
        }
        assert forall|i: int| 0 <= i < after.inventories.len() implies #[trigger] after.inventory_wf(
            i,
        ) by {
            if i < self.inventories.len() {
                assert(self.inventory_wf(i));
            }
        }
        assert forall|c: int| 0 <= c < after.choices.len() implies #[trigger] after.choice_wf(c) by {
            assert(self.choice_wf(c));
        }
        self.lemma_same_graph(after);
    }

    /// A consistent model with one more choice without selections is
    /// consistent.
    pub proof fn lemma_with_choice(self, choice: ChoiceView)
        requires
            self.wf(),
            self.choices.len() < usize::MAX,
            choice.options.len() == 0,
        ensures
            self.with_choice(choice).wf(),
    {
        let after = self.with_choice(choice);
        assert forall|v: int| 0 <= v < after.values.len() implies #[trigger] after.value_wf(v) by {
            assert(self.value_wf(v));
        }
        assert forall|v: int| 0 <= v < after.values.len() implies #[trigger] after.dependents_known(
            v,
        ) by {
            assert(self.dependents_known(v));
        }
        assert forall|i: int| 0 <= i < after.items.len() implies #[trigger] after.item_wf(i) by {
            assert(self.item_wf(i));
        }
        assert forall|i: int| 0 <= i < after.inventories.len() implies #[trigger] after.inventory_wf(
            i,
        ) by {
            assert(self.inventory_wf(i));
        }
        assert forall|c: int| 0 <= c < after.choices.len() implies #[trigger] after.choice_wf(c) by {
            if c < self.choices.len() {
                assert(self.choice_wf(c));
            }
        }
        self.lemma_same_graph(after);
    }

    /// A consistent model stays consistent when one of its inventory types
    /// becomes the type of the main inventory.
    pub proof fn lemma_with_main_inventory(self, id: InventoryId)
        requires
            self.wf(),
            self.has_inventory(id),
        ensures
            self.with_main_inventory(id).wf(),
    {
        let after = self.with_main_inventory(id);
        assert forall|v: int| 0 <= v < after.values.len() implies #[trigger] after.value_wf(v) by {
            assert(self.value_wf(v));
        }
        assert forall|v: int| 0 <= v < after.values.len() implies #[trigger] after.dependents_known(
            v,
        ) by {
            assert(self.dependents_known(v));
        }
        assert forall|i: int| 0 <= i < after.items.len() implies #[trigger] after.item_wf(i) by {
            assert(self.item_wf(i));
        }
        assert forall|i: int| 0 <= i < after.inventories.len() implies #[trigger] after.inventory_wf(
            i,
        ) by {
            assert(self.inventory_wf(i));
        }
        assert forall|c: int| 0 <= c < after.choices.len() implies #[trigger] after.choice_wf(c) by {
            assert(self.choice_wf(c));
        }
        self.lemma_same_graph(after);
    }

    /// A consistent model with one more item that modifies nothing yet is
    /// consistent, if the item is: its condition can be evaluated, an item
    /// with a condition holds no inventory, and a stack holds a unit.
    pub proof fn lemma_with_item(self, item: ItemView)
        requires
            self.wf(),
            self.items.len() < usize::MAX,
            item.modifications.len() == 0,
            self.takes(item.condition),
            item.condition is Some ==> item.has_inventory is None,
            item.has_inventory matches Some(inventory) ==> self.has_inventory(inventory),
            item.physical matches Some(physical) ==> physical.stack_size > 0,
        ensures
            self.with_item(item).wf(),
    {
        let after = self.with_item(item);
        let new = self.items.len() as int;
        assert forall|v: int| 0 <= v < after.values.len() implies #[trigger] after.value_wf(v) by {
            assert(self.value_wf(v));
            let before = self.values[v];
            let value = after.values[v];
            assert forall|j: int| 0 <= j < value.modifying_items.len() implies after.has_item(
                #[trigger] value.modifying_items[j],
            ) && targets(after.item(value.modifying_items[j]).modifications).contains(
                value_id(v),
            ) by {
                assert(self.has_item(before.modifying_items[j]));
                assert(after.item(value.modifying_items[j]) == self.item(before.modifying_items[j]));
            }
            assert forall|j: int| 0 <= j < value.conditions.len() implies after.has_item(
                #[trigger] value.conditions[j],
            ) && after.item(value.conditions[j]).condition is Some by {
                if j < before.conditions.len() {
                    assert(self.has_item(before.conditions[j]));
                    assert(value.conditions[j] == before.conditions[j]);
                }
            }
        }
        assert forall|v: int| 0 <= v < after.values.len() implies #[trigger] after.dependents_known(
            v,
        ) by {
            assert(self.dependents_known(v));
            assert(self.value_wf(v));
            assert forall|j: int, id: ValueId|
                0 <= j < after.values[v].dependencies.len()
                    && #[trigger] after.values[v].dependencies[j].reads(id) implies after.value(
                id,
            ).dependents.contains(value_id(v)) by {
                assert(self.expr_ok(self.values[v].dependencies[j]));
                assert(self.has_value(id));
            }
        }
        assert forall|i: int| 0 <= i < after.items.len() implies #[trigger] after.item_wf(i) by {
            if i < new {
                assert(self.item_wf(i));
                let old_item = self.items[i];
                if old_item.condition is Some {
                    let e = old_item.condition.unwrap();
                    assert forall|id: ValueId| #[trigger] e.reads(id) implies after.value(
                        id,
                    ).conditions.contains(item_id(i)) by {
                        assert(self.has_value(id));
                        let listed = self.value(id).conditions;
                        assert(listed.contains(item_id(i)));
                        let at = choose|at: int| 0 <= at < listed.len() && listed[at] == item_id(i);
                        assert(after.value(id).conditions[at] == item_id(i));
                    }
                }
                assert forall|k: int| 0 <= k < old_item.modifications.len() implies after.value(
                    (#[trigger] old_item.modifications[k]).0,
                ).modifying_items.contains(item_id(i)) by {
                    assert(self.has_value(old_item.modifications[k].0));
                }
            } else {
                if item.condition is Some {
                    let e = item.condition.unwrap();
                    assert forall|id: ValueId| #[trigger] e.reads(id) implies after.value(
                        id,
                    ).conditions.contains(item_id(new)) by {
                        assert(self.has_value(id));
                        assert(value_id(id.0 as int) == id);
                        let listed = after.value(id).conditions;
                        assert(listed[listed.len() - 1] == item_id(new));
                    }
                }
                assert(targets(item.modifications) =~= Seq::empty());
            }
        }
        assert forall|i: int| 0 <= i < after.inventories.len() implies #[trigger] after.inventory_wf(
            i,
        ) by {
            assert(self.inventory_wf(i));
        }
        assert forall|c: int| 0 <= c < after.choices.len() implies #[trigger] after.choice_wf(c) by {
            assert(self.choice_wf(c));
            let choice = self.choices[c];
            assert forall|k: int| 0 <= k < choice.options.len() implies {
                &&& after.list_ok((#[trigger] choice.options[k]).modifications)
                &&& forall|j: int|
                    0 <= j < choice.options[k].modifications.len() ==> after.value(
                        (#[trigger] choice.options[k].modifications[j]).0,
                    ).modifying_choices.contains(choice_id(c))
            } by {
                let list = choice.options[k].modifications;
                assert(self.list_ok(list));
                assert forall|j: int| 0 <= j < list.len() implies after.value(
                    (#[trigger] list[j]).0,
                ).modifying_choices.contains(choice_id(c)) by {
                    assert(self.has_value(list[j].0));
                }
            }
        }
        let (value_rank, item_rank) = choose|value_rank: Seq<nat>, item_rank: Seq<nat>|
            self.ranked(value_rank, item_rank);
        let value_rank2 = Seq::new(value_rank.len(), |v: int| (value_rank[v] + 1) as nat);
        let item_rank2 = Seq::new(item_rank.len(), |i: int| (item_rank[i] + 1) as nat).push(0);
        assert(after.ranked(value_rank2, item_rank2)) by {
            assert forall|v: int, j: int|
                0 <= v < after.values.len() && 0 <= j < after.values[v].dependents.len() implies value_rank2[(
            #[trigger] after.values[v].dependents[j]).0 as int] < value_rank2[v] by {
                assert(self.value_wf(v));
                assert(self.has_value(self.values[v].dependents[j]));
            }
            assert forall|v: int, j: int|
                0 <= v < after.values.len() && 0 <= j < after.values[v].conditions.len() implies item_rank2[(
            #[trigger] after.values[v].conditions[j]).0 as int] < value_rank2[v] by {
                assert(self.value_wf(v));
                if j < self.values[v].conditions.len() {
                    assert(self.has_item(self.values[v].conditions[j]));
                    assert(after.values[v].conditions[j] == self.values[v].conditions[j]);
                }
            }
            assert forall|i: int, k: int|
                0 <= i < after.items.len() && 0 <= k < after.items[i].modifications.len() implies value_rank2[(
            #[trigger] after.items[i].modifications[k]).0.0 as int] < item_rank2[i] by {
                assert(self.item_wf(i));
                assert(self.has_value(self.items[i].modifications[k].0));
            }
        }
    }

    /// A consistent model with one more selection of a choice is consistent,
    /// if the modifications of the selection have distinct targets in the
    /// model and can be evaluated.
    pub proof fn lemma_with_selection(self, id: ChoiceId, selection: SelectionView)
        requires
            self.wf(),
            self.has_choice(id),
            self.list_ok(selection.modifications),
        ensures
            self.with_selection(id, selection).wf(),
    {
        let after = self.with_selection(id, selection);
        assert(choice_id(id.0 as int) == id);
        assert forall|v: int| 0 <= v < after.values.len() implies #[trigger] after.value_wf(v) by {
            assert(self.value_wf(v));
            let before = self.values[v];
            let value = after.values[v];
            assert forall|j: int| 0 <= j < value.modifying_items.len() implies after.has_item(
                #[trigger] value.modifying_items[j],
            ) && targets(after.item(value.modifying_items[j]).modifications).contains(
                value_id(v),
            ) by {
                assert(self.has_item(before.modifying_items[j]));
            }
            assert forall|j: int| 0 <= j < value.modifying_choices.len() implies after.has_choice(
                #[trigger] value.modifying_choices[j],
            ) by {
                if j < before.modifying_choices.len() {
                    assert(self.has_choice(before.modifying_choices[j]));
                    assert(value.modifying_choices[j] == before.modifying_choices[j]);
                }
            }
            assert forall|a: int, b: int|
                0 <= a < b < value.modifying_choices.len() implies value.modifying_choices[a]
                != value.modifying_choices[b] by {
                if b == before.modifying_choices.len() {
                    assert(before.modifying_choices[a] == value.modifying_choices[a]);
                }
            }
            assert forall|j: int| 0 <= j < value.conditions.len() implies after.has_item(
                #[trigger] value.conditions[j],
            ) && after.item(value.conditions[j]).condition is Some by {
                assert(self.has_item(before.conditions[j]));
            }
        }
        assert forall|v: int| 0 <= v < after.values.len() implies #[trigger] after.dependents_known(
            v,
        ) by {
            assert(self.dependents_known(v));
            assert(self.value_wf(v));
            assert forall|j: int, read: ValueId|
                0 <= j < after.values[v].dependencies.len()
                    && #[trigger] after.values[v].dependencies[j].reads(
                    read,
                ) implies after.value(read).dependents.contains(value_id(v)) by {
                assert(self.expr_ok(self.values[v].dependencies[j]));
                assert(self.has_value(read));
            }
        }
        assert forall|i: int| 0 <= i < after.items.len() implies #[trigger] after.item_wf(i) by {
            assert(self.item_wf(i));
            let item = self.items[i];
            if item.condition is Some {
                let c = item.condition.unwrap();
                assert forall|read: ValueId| #[trigger] c.reads(read) implies after.value(
                    read,
                ).conditions.contains(item_id(i)) by {
                    assert(self.has_value(read));
                }
            }
            assert forall|k: int| 0 <= k < item.modifications.len() implies after.value(
                (#[trigger] item.modifications[k]).0,
            ).modifying_items.contains(item_id(i)) by {
                assert(self.has_value(item.modifications[k].0));
            }
        }
        assert forall|i: int| 0 <= i < after.inventories.len() implies #[trigger] after.inventory_wf(
            i,
        ) by {
            assert(self.inventory_wf(i));
        }
        assert forall|c: int| 0 <= c < after.choices.len() implies #[trigger] after.choice_wf(c) by {
            assert(self.choice_wf(c));
            let choice = after.choices[c];
            assert forall|k: int| 0 <= k < choice.options.len() implies {
                &&& after.list_ok((#[trigger] choice.options[k]).modifications)
                &&& forall|j: int|
                    0 <= j < choice.options[k].modifications.len() ==> after.value(
                        (#[trigger] choice.options[k].modifications[j]).0,
                    ).modifying_choices.contains(choice_id(c))
            } by {
                let list = choice.options[k].modifications;
                if k < self.choices[c].options.len() {
                    assert(choice.options[k] == self.choices[c].options[k]);
                    assert(self.list_ok(list));
                    assert forall|j: int| 0 <= j < list.len() implies after.value(
                        (#[trigger] list[j]).0,
                    ).modifying_choices.contains(choice_id(c)) by {
                        assert(self.has_value(list[j].0));
                        let listed = self.value(list[j].0).modifying_choices;
                        assert(listed.contains(choice_id(c)));
                        let at = choose|at: int| 0 <= at < listed.len() && listed[at] == choice_id(c);
                        assert(after.value(list[j].0).modifying_choices[at] == choice_id(c));
                    }
                } else {
                    assert(c == id.0);
                    assert(list == selection.modifications);
                    assert forall|j: int| 0 <= j < list.len() implies after.value(
                        (#[trigger] list[j]).0,
                    ).modifying_choices.contains(choice_id(c)) by {
                        let t = list[j].0;
                        assert(self.has_value(t));
                        assert(value_id(t.0 as int) == t);
                        assert(targets(list)[j] == t);
                        let old_list = self.value(t).modifying_choices;
                        let new_list = after.value(t).modifying_choices;
                        if !old_list.contains(id) {
                            assert(new_list[new_list.len() - 1] == id);
                        }
                    }
                }
            }
        }
        let (value_rank, item_rank) = choose|value_rank: Seq<nat>, item_rank: Seq<nat>|
            self.ranked(value_rank, item_rank);
        assert(after.ranked(value_rank, item_rank)) by {
            assert forall|v: int, j: int|
                0 <= v < after.values.len() && 0 <= j < after.values[v].dependents.len() implies value_rank[(
            #[trigger] after.values[v].dependents[j]).0 as int] < value_rank[v] by {
                assert(after.values[v].dependents[j] == self.values[v].dependents[j]);
            }
            assert forall|v: int, j: int|
                0 <= v < after.values.len() && 0 <= j < after.values[v].conditions.len() implies item_rank[(
            #[trigger] after.values[v].conditions[j]).0 as int] < value_rank[v] by {
                assert(after.values[v].conditions[j] == self.values[v].conditions[j]);
            }
        }
    }
}

} // verus!
