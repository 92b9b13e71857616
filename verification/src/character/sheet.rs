//! The mathematical content of a character and the rules by which a change
//! of one value reaches the others.

use vstd::prelude::*;
use super::character_inventory::CharacterInventoryView;
use super::character_item::CharacterItemView;
use super::character_value::CharacterValue;
use crate::model::expression::{Env, Expr};
use crate::model::modification::{targets, ModificationList};
use crate::model::structure::ModelView;
use crate::model::{ChoiceId, ItemId, ValueId};

verus! {

/// The state of a character.
pub struct CharacterView {
    /// For each choice the active selection: 0 for none, `k` for the `k`-th.
    pub choices: Seq<u16>,
    /// For each item how often it is equipped.
    pub items: Seq<CharacterItemView>,
    /// For each value its base and its actual value.
    pub values: Seq<CharacterValue>,
    /// The inventories.
    pub inventories: Seq<CharacterInventoryView>,
}

/// A modification that is in force: the number of times it applies, its
/// place in the order of application and the new value of the target.
pub struct ActiveModifier {
    /// How often the modification applies.
    pub weight: u16,
    /// Modifications with a lower priority apply first.
    pub priority: u16,
    /// The new value of the target as an expression over the current values.
    pub calculation: Expr,
}

/// The count that a condition's result stands for. A result from 0 to the
/// largest count is the count. A larger result stands for the largest count.
/// A negative result is true, but no number of copies: it stands for 1.
pub open spec fn count_of(result: i32) -> u16 {
    if result < 0 {
        1
    } else if result > u16::MAX {
        u16::MAX
    } else {
        result as u16
    }
}

/// A limit that a calculation gives: its result, or 0 if that is negative.
pub open spec fn limit_of(result: i32) -> int {
    if result < 0 {
        0
    } else {
        result as int
    }
}

/// `base` plus the results of `dependencies` under `env`, wrapping around.
pub open spec fn dependency_total(base: i32, dependencies: Seq<Expr>, env: Env) -> i32
    decreases dependencies.len(),
{
    if dependencies.len() == 0 {
        base
    } else {
        dependency_total(base, dependencies.drop_last(), env).wrapping_add(
            dependencies.last().eval(env),
        )
    }
}

/// Two environments that agree on the values that the dependencies read
/// give the same total.
pub proof fn lemma_total_agrees(base: i32, dependencies: Seq<Expr>, env1: Env, env2: Env)
    requires
        forall|j: int, id: ValueId|
            0 <= j < dependencies.len() && #[trigger] dependencies[j].reads(id) ==> env1(id)
                == env2(id),
    ensures
        dependency_total(base, dependencies, env1) == dependency_total(base, dependencies, env2),
    decreases dependencies.len(),
{
    if dependencies.len() > 0 {
        let rest = dependencies.drop_last();
        assert forall|j: int, id: ValueId|
            0 <= j < rest.len() && #[trigger] rest[j].reads(id) implies env1(id) == env2(id) by {
            assert(dependencies[j].reads(id));
        }
        lemma_total_agrees(base, rest, env1, env2);
        let last = dependencies.last();
        assert forall|id: ValueId| #[trigger] last.reads(id) implies env1(id) == env2(id) by {
            assert(dependencies[dependencies.len() - 1].reads(id));
        }
        last.lemma_eval_agrees(env1, env2);
    }
}

/// The modification for `id` in `list`, if there is one.
pub open spec fn modification_for(list: ModificationList, id: ValueId) -> Option<Expr> {
    if targets(list).contains(id) {
        Some(list[targets(list).index_of(id)].1.calculation)
    } else {
        None
    }
}

/// The priority of the modification for `id` in `list`; 0 if there is none.
pub open spec fn priority_for(list: ModificationList, id: ValueId) -> u16 {
    if targets(list).contains(id) {
        list[targets(list).index_of(id)].1.priority
    } else {
        0
    }
}

/// `modifiers` with `modifier` behind the last one of the same or a lower
/// priority. `modifiers` is meant to be in order already.
pub open spec fn insert_by_priority(
    modifiers: Seq<ActiveModifier>,
    modifier: ActiveModifier,
) -> Seq<ActiveModifier>
    decreases modifiers.len(),
{
    if modifiers.len() == 0 || modifiers.last().priority <= modifier.priority {
        modifiers.push(modifier)
    } else {
        insert_by_priority(modifiers.drop_last(), modifier).push(modifiers.last())
    }
}

/// `modifiers` in ascending order of priority; modifiers of one priority
/// keep their order.
pub open spec fn sort_by_priority(modifiers: Seq<ActiveModifier>) -> Seq<ActiveModifier>
    decreases modifiers.len(),
{
    if modifiers.len() == 0 {
        modifiers
    } else {
        insert_by_priority(sort_by_priority(modifiers.drop_last()), modifiers.last())
    }
}

impl CharacterView {
    /// The character has one entry for each value, item and choice of the
    /// model, its selections exist, and exactly its items of a kind that
    /// holds inventories have a list of them.
    pub open spec fn fits(self, model: ModelView) -> bool {
        &&& self.values.len() == model.values.len()
        &&& self.items.len() == model.items.len()
        &&& self.choices.len() == model.choices.len()
        &&& forall|c: int|
            0 <= c < self.choices.len() ==> (#[trigger] self.choices[c])
                <= model.choices[c].options.len()
        &&& forall|i: int|
            0 <= i < self.items.len() ==> ((#[trigger] self.items[i]).inventories is Some
                <==> model.items[i].has_inventory is Some)
        &&& forall|k: int|
            0 <= k < self.inventories.len() ==> model.has_inventory(
                (#[trigger] self.inventories[k]).id,
            )
    }

    /// Every value is its base plus the results of its dependencies.
    pub open spec fn settled(self, model: ModelView) -> bool {
        forall|v: int|
            0 <= v < self.values.len() ==> (#[trigger] self.values[v]).actual == dependency_total(
                self.values[v].base,
                model.values[v].dependencies,
                self.env(),
            )
    }

    /// The state of a new character of `model`: nothing is equipped,
    /// selected or stored, every base is the default of its value, and every
    /// value is its base plus the results of its dependencies.
    pub open spec fn starts(self, model: ModelView) -> bool {
        &&& self.fits(model)
        &&& forall|c: int| 0 <= c < self.choices.len() ==> #[trigger] self.choices[c] == 0
        &&& forall|i: int|
            0 <= i < self.items.len() ==> #[trigger] self.items[i] == (CharacterItemView {
                count: 0,
                inventories: if model.items[i].has_inventory is Some {
                    Some(Seq::empty())
                } else {
                    None
                },
            })
        &&& forall|v: int|
            0 <= v < self.values.len() ==> (#[trigger] self.values[v]).base
                == model.values[v].default
        &&& self.inventories == match model.main_inventory {
            Some(id) => seq![CharacterInventoryView { id, content: Seq::empty(), fill: 0 }],
            None => Seq::empty(),
        }
        &&& self.settled(model)
    }

    /// The character after the base of `id` was set to `new`: nothing changes
    /// if that is the base already, else the value is updated.
    pub open spec fn set_base(self, model: ModelView, id: ValueId, new: i32) -> CharacterView {
        if new == self.base(id) {
            self
        } else {
            self.with_base(id, new).update_value(model, id)
        }
    }

    /// The character after `id` was equipped once more: the values that the
    /// item modifies are updated in the order in which the modifications were
    /// added.
    pub open spec fn equip(self, model: ModelView, id: ItemId) -> CharacterView {
        self.with_count(id, (self.count(id) + 1) as u16).update_targets(
            model,
            id,
            model.item(id).modifications.len(),
        )
    }

    /// The character after `selection` became the active selection of
    /// `choice`: nothing changes if it is active already, else the values
    /// that the selection before modified are updated, then those that the
    /// new one modifies.
    pub open spec fn select(self, model: ModelView, choice: ChoiceId, selection: u16) -> CharacterView {
        let before = self.choices[choice.0 as int];
        if selection == before {
            self
        } else {
            self.with_choice(choice, selection).update_all(
                model,
                Self::selected_targets(model, choice, before),
            ).update_all(model, Self::selected_targets(model, choice, selection))
        }
    }

    /// The largest number of units that the inventory at `index` may hold by
    /// its type, if that is limited. A negative limit counts as 0.
    pub open spec fn capacity(self, model: ModelView, index: int) -> Option<u32> {
        match model.inventories[self.inventories[index].id.0 as int].capacity {
            Some(e) => Some(limit_of(e.eval(self.env())) as u32),
            None => None,
        }
    }

    /// The largest number of stacks that the inventory at `index` may hold by
    /// its type, if that is limited. A negative limit counts as 0.
    pub open spec fn slots(self, model: ModelView, index: int) -> Option<usize> {
        match model.inventories[self.inventories[index].id.0 as int].slots {
            Some(e) => Some(limit_of(e.eval(self.env())) as usize),
            None => None,
        }
    }

    /// The character after `amount` units of `item` were put into the
    /// inventory at `index`.
    pub open spec fn stored(
        self,
        model: ModelView,
        index: int,
        item: ItemId,
        amount: u16,
    ) -> CharacterView {
        let physical = model.item(item).physical.unwrap();
        let capacity = self.capacity(model, index);
        let slots = self.slots(model, index);
        let inventory = self.inventories[index];
        CharacterView {
            inventories: self.inventories.update(
                index,
                CharacterInventoryView {
                    id: inventory.id,
                    content: inventory.packed(item, physical, amount, capacity, slots).0,
                    fill: inventory.packed_fill(item, physical, amount, capacity, slots) as u32,
                },
            ),
            ..self
        }
    }

    /// The character after the values `ids` were updated one after the other.
    pub open spec fn update_all(self, model: ModelView, ids: Seq<ValueId>) -> CharacterView
        decreases ids.len(),
    {
        if ids.len() == 0 {
            self
        } else {
            self.update_all(model, ids.drop_last()).update_value(model, ids.last())
        }
    }

    /// The values that the selection `selection` of `choice` modifies; none
    /// for selection 0.
    pub open spec fn selected_targets(model: ModelView, choice: ChoiceId, selection: u16) -> Seq<
        ValueId,
    > {
        if selection == 0 {
            Seq::empty()
        } else {
            targets(model.choices[choice.0 as int].options[selection - 1].modifications)
        }
    }

    /// The current value of every value of the character.
    pub open spec fn env(self) -> Env {
        |id: ValueId| self.values[id.0 as int].actual
    }

    /// The base that the user set for `id`.
    pub open spec fn base(self, id: ValueId) -> i32 {
        self.values[id.0 as int].base
    }

    /// The current value of `id`.
    pub open spec fn actual(self, id: ValueId) -> i32 {
        self.values[id.0 as int].actual
    }

    /// How often `id` is equipped.
    pub open spec fn count(self, id: ItemId) -> u16 {
        self.items[id.0 as int].count
    }

    /// The character with `actual` as the current value of `id`.
    pub open spec fn with_actual(self, id: ValueId, actual: i32) -> CharacterView {
        CharacterView {
            values: self.values.update(
                id.0 as int,
                CharacterValue { base: self.values[id.0 as int].base, actual },
            ),
            ..self
        }
    }

    /// The character with `base` as the base of `id`.
    pub open spec fn with_base(self, id: ValueId, base: i32) -> CharacterView {
        CharacterView {
            values: self.values.update(
                id.0 as int,
                CharacterValue { base, actual: self.values[id.0 as int].actual },
            ),
            ..self
        }
    }

    /// The character with `id` equipped `count` times.
    pub open spec fn with_count(self, id: ItemId, count: u16) -> CharacterView {
        CharacterView {
            items: self.items.update(id.0 as int, CharacterItemView::counting(count)),
            ..self
        }
    }

    /// The character with `selection` as the active selection of `id`.
    pub open spec fn with_choice(self, id: ChoiceId, selection: u16) -> CharacterView {
        CharacterView { choices: self.choices.update(id.0 as int, selection), ..self }
    }

    /// The modifier of `id` that `item` puts in force: its modification of
    /// `id`, weighted by its count, if it is equipped.
    pub open spec fn item_modifier(self, model: ModelView, id: ValueId, item: ItemId) -> Option<
        ActiveModifier,
    > {
        if self.count(item) > 0 {
            Some(
                ActiveModifier {
                    weight: self.count(item),
                    priority: priority_for(model.item(item).modifications, id),
                    calculation: modification_for(model.item(item).modifications, id).unwrap(),
                },
            )
        } else {
            None
        }
    }

    /// The modifier of `id` that `choice` puts in force: the modification of
    /// `id` by its active selection, if there is one.
    pub open spec fn choice_modifier(self, model: ModelView, id: ValueId, choice: ChoiceId) -> Option<
        ActiveModifier,
    > {
        let selection = self.choices[choice.0 as int];
        if selection > 0 {
            let list = model.choices[choice.0 as int].options[selection - 1].modifications;
            match modification_for(list, id) {
                Some(calculation) => Some(
                    ActiveModifier { weight: 1, priority: priority_for(list, id), calculation },
                ),
                None => None,
            }
        } else {
            None
        }
    }

    /// The modifiers of `id` that the first `n` items that modify it put in
    /// force.
    pub open spec fn item_modifiers(self, model: ModelView, id: ValueId, n: int) -> Seq<
        ActiveModifier,
    >
        decreases n,
    {
        if n <= 0 {
            Seq::empty()
        } else {
            let before = self.item_modifiers(model, id, n - 1);
            match self.item_modifier(model, id, model.value(id).modifying_items[n - 1]) {
                Some(modifier) => before.push(modifier),
                None => before,
            }
        }
    }

    /// The modifiers of `id` that the first `n` choices that modify it put in
    /// force.
    pub open spec fn choice_modifiers(self, model: ModelView, id: ValueId, n: int) -> Seq<
        ActiveModifier,
    >
        decreases n,
    {
        if n <= 0 {
            Seq::empty()
        } else {
            let before = self.choice_modifiers(model, id, n - 1);
            match self.choice_modifier(model, id, model.value(id).modifying_choices[n - 1]) {
                Some(modifier) => before.push(modifier),
                None => before,
            }
        }
    }

    /// The modifiers of `id` that are in force, those of items before those
    /// of choices, each group in the order of registration.
    pub open spec fn active_modifiers(self, model: ModelView, id: ValueId) -> Seq<ActiveModifier> {
        self.item_modifiers(model, id, model.value(id).modifying_items.len() as int)
            + self.choice_modifiers(model, id, model.value(id).modifying_choices.len() as int)
    }

    /// The character after `calculation` became the current value of `id`
    /// `times` times in a row, each time evaluated on the result of the time
    /// before.
    pub open spec fn repeated(self, id: ValueId, calculation: Expr, times: nat) -> CharacterView
        decreases times,
    {
        if times == 0 {
            self
        } else {
            let before = self.repeated(id, calculation, (times - 1) as nat);
            before.with_actual(id, calculation.eval(before.env()))
        }
    }

    /// The character after the modifiers were applied to `id` one after the
    /// other, each as often as its weight says.
    pub open spec fn modified(self, id: ValueId, modifiers: Seq<ActiveModifier>) -> CharacterView
        decreases modifiers.len(),
    {
        if modifiers.len() == 0 {
            self
        } else {
            self.modified(id, modifiers.drop_last()).repeated(
                id,
                modifiers.last().calculation,
                modifiers.last().weight as nat,
            )
        }
    }

    /// The character after the value `id` was set to its base plus the
    /// results of its dependencies.
    pub open spec fn apply_dependencies(self, model: ModelView, id: ValueId) -> CharacterView {
        self.with_actual(
            id,
            dependency_total(self.base(id), model.value(id).dependencies, self.env()),
        )
    }

    /// The character after the modifications of `id` that are in force were
    /// applied in ascending order of priority.
    pub open spec fn apply_modifications(self, model: ModelView, id: ValueId) -> CharacterView {
        self.modified(id, sort_by_priority(self.active_modifiers(model, id)))
    }

    /// The character after `id` was computed anew from its base, its
    /// dependencies and its modifications.
    pub open spec fn recomputed(self, model: ModelView, id: ValueId) -> CharacterView {
        self.apply_dependencies(model, id).apply_modifications(model, id)
    }

    /// The character after `id` was computed anew and the change was carried
    /// on: to its dependents in their order, then to the items whose
    /// condition reads it.
    pub open spec fn update_value(self, model: ModelView, id: ValueId) -> CharacterView
        decreases model.value_ranks()[id.0 as int], 3nat, 0nat,
        when model.wf() && model.has_value(id)
        via Self::update_value_decreases
    {
        let fresh = self.recomputed(model, id);
        let carried = fresh.update_dependents(
            model,
            id,
            model.value(id).dependents.len(),
        );
        carried.update_conditions(model, id, model.value(id).conditions.len())
    }

    /// The character after the first `n` dependents of `id` were updated.
    pub open spec fn update_dependents(self, model: ModelView, id: ValueId, n: nat) -> CharacterView
        decreases model.value_ranks()[id.0 as int], 2nat, n,
        when model.wf() && model.has_value(id) && n <= model.value(id).dependents.len()
        via Self::update_dependents_decreases
    {
        if n == 0 {
            self
        } else {
            self.update_dependents(model, id, (n - 1) as nat).update_value(
                model,
                model.value(id).dependents[n - 1],
            )
        }
    }

    /// The character after the first `n` items whose condition reads `id`
    /// were updated.
    pub open spec fn update_conditions(self, model: ModelView, id: ValueId, n: nat) -> CharacterView
        decreases model.value_ranks()[id.0 as int], 2nat, n,
        when model.wf() && model.has_value(id) && n <= model.value(id).conditions.len()
        via Self::update_conditions_decreases
    {
        if n == 0 {
            self
        } else {
            self.update_conditions(model, id, (n - 1) as nat).update_condition(
                model,
                model.value(id).conditions[n - 1],
            )
        }
    }

    /// The character after the count of `item` was set to what its condition
    /// gives and the values that it modifies were updated.
    pub open spec fn update_condition(self, model: ModelView, item: ItemId) -> CharacterView
        decreases model.item_ranks()[item.0 as int], 1nat, 0nat,
        when model.wf() && model.has_item(item) && model.item(item).condition is Some
        via Self::update_condition_decreases
    {
        let count = count_of(model.item(item).condition.unwrap().eval(self.env()));
        self.with_count(item, count).update_targets(
            model,
            item,
            model.item(item).modifications.len(),
        )
    }

    /// The character after the first `n` values that `item` modifies were
    /// updated.
    pub open spec fn update_targets(self, model: ModelView, item: ItemId, n: nat) -> CharacterView
        decreases model.item_ranks()[item.0 as int], 0nat, n,
        when model.wf() && model.has_item(item) && n <= model.item(item).modifications.len()
        via Self::update_targets_decreases
    {
        if n == 0 {
            self
        } else {
            self.update_targets(model, item, (n - 1) as nat).update_value(
                model,
                model.item(item).modifications[n - 1].0,
            )
        }
    }

    #[via_fn]
    proof fn update_value_decreases(self, model: ModelView, id: ValueId) {
    }

    #[via_fn]
    proof fn update_dependents_decreases(self, model: ModelView, id: ValueId, n: nat) {
        model.lemma_ranks();
        if n > 0 {
            assert(model.value_wf(id.0 as int));
            let next = model.values[id.0 as int].dependents[n - 1];
            assert(model.has_value(next));
        }
    }

    #[via_fn]
    proof fn update_conditions_decreases(self, model: ModelView, id: ValueId, n: nat) {
        model.lemma_ranks();
        if n > 0 {
            assert(model.value_wf(id.0 as int));
            let next = model.values[id.0 as int].conditions[n - 1];
            assert(model.has_item(next));
        }
    }

    #[via_fn]
    proof fn update_condition_decreases(self, model: ModelView, item: ItemId) {
    }

    #[via_fn]
    proof fn update_targets_decreases(self, model: ModelView, item: ItemId, n: nat) {
        model.lemma_ranks();
        if n > 0 {
            assert(model.item_wf(item.0 as int));
            let next = model.items[item.0 as int].modifications[n - 1];
            assert(model.has_value(next.0));
        }
    }
}

} // verus!
