//! The state of one character.

pub mod character_inventory;
pub mod character_item;
pub mod character_value;
pub mod consistency;
pub mod laws;
pub mod order;
pub mod sheet;

pub use character_inventory::{CharacterInventory, CharacterInventoryView};
pub use character_item::{CharacterItem, CharacterItemView, ItemInventory};
pub use character_value::CharacterValue;
pub use sheet::{ActiveModifier, CharacterView};

use vstd::prelude::*;
use crate::model::modification::{position, targets, Modification, ModificationList};
use crate::model::structure::{lemma_top, top, value_id, ModelView};
use crate::model::{Calculation, ChoiceId, Id, InventoryId, ItemId, Model, ValueId};
use sheet::{
    count_of, dependency_total, insert_by_priority, lemma_total_agrees, modification_for,
    priority_for, sort_by_priority,
};

verus! {

/// Contains actual values and equipped items.
pub struct Character<'a> {
    model: &'a Model,
    choices: Vec<u16>,
    inventories: Vec<CharacterInventory>,
    items: Vec<CharacterItem>,
    values: Vec<CharacterValue>,
}

impl<'a> View for Character<'a> {
    type V = CharacterView;

    closed spec fn view(&self) -> CharacterView {
        CharacterView {
            choices: self.choices@,
            items: self.items@.map_values(|item: CharacterItem| item@),
            values: self.values@,
            inventories: self.inventories@.map_values(|inventory: CharacterInventory| inventory@),
        }
    }
}

/// A modification that is in force, and how often it applies.
#[derive(Clone, Copy)]
struct Applied<'m> {
    weight: u16,
    modification: &'m Modification,
}

/// What an entry of the list of modifications in force stands for.
spec fn applied_view(entry: Applied) -> ActiveModifier {
    ActiveModifier {
        weight: entry.weight,
        priority: entry.modification@.priority,
        calculation: entry.modification@.calculation,
    }
}

/// What a list of modifications in force stands for.
spec fn applied_views(list: Seq<Applied>) -> Seq<ActiveModifier> {
    list.map_values(|entry: Applied| applied_view(entry))
}

/// The calculation of the entry can be evaluated on a character of `model`.
spec fn applied_ok(model: &Model, entry: Applied) -> bool {
    &&& entry.modification.calculation.wf()
    &&& model@.expr_ok(entry.modification.calculation@)
}

/// In a list without duplicate targets, the modification for the target of
/// the `k`-th entry is the `k`-th entry.
pub proof fn lemma_modification_at(list: ModificationList, k: int)
    requires
        0 <= k < list.len(),
        targets(list).no_duplicates(),
    ensures
        modification_for(list, list[k].0) == Some(list[k].1.calculation),
        priority_for(list, list[k].0) == list[k].1.priority,
{
    let id = list[k].0;
    let keys = targets(list);
    assert(keys[k] == id);
    assert(keys.contains(id));
    let found = keys.index_of(id);
    assert(keys[found] == id);
    assert(found == k);
}

/// Inserting by priority puts the modifier at the position behind which
/// every modifier has a higher priority and before which the next one has
/// not.
proof fn lemma_insert_position(modifiers: Seq<ActiveModifier>, modifier: ActiveModifier, p: int)
    requires
        0 <= p <= modifiers.len(),
        forall|j: int| p <= j < modifiers.len() ==> modifiers[j].priority > modifier.priority,
        p > 0 ==> modifiers[p - 1].priority <= modifier.priority,
    ensures
        insert_by_priority(modifiers, modifier) == modifiers.insert(p, modifier),
    decreases modifiers.len(),
{
    if p == modifiers.len() {
        assert(modifiers.insert(p, modifier) =~= modifiers.push(modifier));
    } else {
        lemma_insert_position(modifiers.drop_last(), modifier, p);
        assert(modifiers.insert(p, modifier) =~= modifiers.drop_last().insert(p, modifier).push(
            modifiers.last(),
        ));
    }
}

/// Of the values marked in `done`, each is its base plus the results of its
/// dependencies, and these read only values that are marked too.
spec fn settled_where(state: CharacterView, model: ModelView, done: Seq<bool>) -> bool {
    forall|w: int|
        0 <= w < done.len() && #[trigger] done[w] ==> {
            &&& state.values[w].actual == dependency_total(
                state.values[w].base,
                model.values[w].dependencies,
                state.env(),
            )
            &&& forall|j: int, id: ValueId|
                0 <= j < model.values[w].dependencies.len()
                    && #[trigger] model.values[w].dependencies[j].reads(id) ==> done[id.0 as int]
        }
}

/// The second state differs from the first at most in the current values.
spec fn same_but_actuals(first: CharacterView, second: CharacterView) -> bool {
    &&& second.choices == first.choices
    &&& second.items == first.items
    &&& second.inventories == first.inventories
    &&& second.values.len() == first.values.len()
    &&& forall|v: int|
        0 <= v < first.values.len() ==> (#[trigger] second.values[v]).base == first.values[v].base
}

/// Every value that was marked in `first` is marked in `second`.
spec fn marks_kept(first: Seq<bool>, second: Seq<bool>) -> bool {
    &&& second.len() == first.len()
    &&& forall|w: int| 0 <= w < first.len() && first[w] ==> #[trigger] second[w]
}

impl<'a> Character<'a> {
    /// The model that the character belongs to.
    pub closed spec fn model(&self) -> &Model {
        self.model
    }

    /// The character fits its model, which is consistent.
    pub closed spec fn wf(&self) -> bool {
        &&& self.model.wf()
        &&& self@.fits(self.model@)
        &&& forall|k: int| 0 <= k < self.inventories@.len() ==> (#[trigger] self.inventories@[k]).wf()
    }

    /// A consistent character fits its model, which is consistent, so the
    /// laws of `CharacterView` hold of it.
    pub proof fn law_fits(&self)
        requires
            self.wf(),
        ensures
            self.model().wf(),
            self.model()@.wf(),
            self@.fits(self.model()@),
    {
    }

    /// Evaluate `calc` on the current values.
    fn eval_calc(&self, calc: &Calculation) -> (r: i32)
        requires
            self.wf(),
            calc.wf(),
            self.model@.expr_ok(calc@),
        ensures
            r == calc@.eval(self@.env()),
    {
        let inputs = calc.values();
        let mut current: Vec<i32> = Vec::new();
        let mut k: usize = 0;
        while k < inputs.len()
            invariant
                k <= inputs@.len(),
                inputs@ == calc.inputs(),
                current@.len() == k,
                self.wf(),
                calc.wf(),
                self.model@.expr_ok(calc@),
                forall|j: int|
                    0 <= j < k ==> current@[j] == self.values@[(#[trigger] inputs@[j]).0 as int].actual,
            decreases inputs@.len() - k,
        {
            proof {
                calc.lemma_inputs();
                assert(calc.inputs().contains(inputs@[k as int]));
                assert(calc@.reads(inputs@[k as int]));
            }
            current.push(self.values[inputs[k].0].actual);
            k += 1;
        }
        proof {
            calc.lemma_inputs();
            let given = calc.env(current@);
            let actual = self@.env();
            assert forall|id: ValueId| #[trigger] calc@.reads(id) implies given(id) == actual(id) by {
                assert(calc.inputs().contains(id));
                let slot = calc.inputs().index_of(id);
                assert(calc.inputs()[slot] == id);
            }
            calc@.lemma_eval_agrees(given, actual);
        }
        match calc.get(current.as_slice()) {
            Ok(v) => v,
            Err(_) => unreached(),
        }
    }

    /// The number of values of the character, which is that of its model.
    pub fn value_count(&self) -> (r: usize)
        ensures
            r == self@.values.len(),
    {
        self.values.len()
    }

    /// The number of items of the character, which is that of its model.
    pub fn item_count(&self) -> (r: usize)
        ensures
            r == self@.items.len(),
    {
        self.items.len()
    }

    /// The number of choices of the character, which is that of its model.
    pub fn choice_count(&self) -> (r: usize)
        ensures
            r == self@.choices.len(),
    {
        self.choices.len()
    }

    /// The number of inventories of the character.
    pub fn inventory_count(&self) -> (r: usize)
        ensures
            r == self@.inventories.len(),
    {
        self.inventories.len()
    }

    /// The inventory at `index`.
    pub fn inventory(&self, index: usize) -> (r: &CharacterInventory)
        requires
            self.wf(),
            index < self@.inventories.len(),
        ensures
            r.wf(),
            r@ == self@.inventories[index as int],
    {
        &self.inventories[index]
    }

    /// How often the item `id` is equipped.
    pub fn count(&self, id: ItemId) -> (r: u16)
        requires
            self.wf(),
            self.model()@.has_item(id),
        ensures
            r == self@.count(id),
    {
        self.items[id.0].count()
    }

    /// The active selection of `choice`: 0 for none, `k` for the `k`-th.
    pub fn selection(&self, choice: ChoiceId) -> (r: u16)
        requires
            self.wf(),
            self.model()@.has_choice(choice),
        ensures
            r == self@.choices[choice.0 as int],
    {
        self.choices[choice.0]
    }

    /// The base of a value.
    pub fn base(&self, id: ValueId) -> (r: i32)
        requires
            self.wf(),
            self.model()@.has_value(id),
        ensures
            r == self@.base(id),
    {
        self.values[id.0].base
    }

    /// Get a value
    pub fn get(&self, id: ValueId) -> (r: i32)
        requires
            self.wf(),
            self.model()@.has_value(id),
        ensures
            r == self@.actual(id),
    {
        self.values[id.0].actual
    }

    /// Set the value to its base plus the results of its dependencies.
    fn apply_dependencies(&mut self, id: ValueId)
        requires
            old(self).wf(),
            old(self).model()@.has_value(id),
        ensures
            final(self).wf(),
            final(self).model() == old(self).model(),
            final(self)@ == old(self)@.apply_dependencies(old(self).model()@, id),
    {
        let model = self.model;
        let value = model.values.get(id);
        let mut actual = self.values[id.0].base;
        let ghost dependencies = model@.value(id).dependencies;
        assert(model.values@[id.0 as int].wf());
        assert(model@.value_wf(id.0 as int));
        assert(dependencies.take(0) =~= Seq::empty());
        let mut j: usize = 0;
        while j < value.dependencies.len()
            invariant
                j <= value.dependencies@.len(),
                self.wf(),
                self.model == model,
                model@.has_value(id),
                self@ == old(self)@,
                *value == model.values@[id.0 as int],
                dependencies == model@.value(id).dependencies,
                value.wf(),
                model@.value_wf(id.0 as int),
                actual == dependency_total(
                    self@.base(id),
                    dependencies.take(j as int),
                    self@.env(),
                ),
            decreases value.dependencies@.len() - j,
        {
            let calc = &value.dependencies[j];
            assert(dependencies[j as int] == calc@);
            assert(model@.expr_ok(dependencies[j as int]));
            let result = self.eval_calc(calc);
            actual = actual.wrapping_add(result);
            proof {
                assert(dependencies.take(j + 1).drop_last() =~= dependencies.take(j as int));
            }
            j += 1;
        }
        assert(dependencies.take(j as int) =~= dependencies);
        self.values[id.0].actual = actual;
        proof {
            assert(self@.values =~= old(self)@.apply_dependencies(model@, id).values);
        }
    }

    /// The modifications of `id` that are in force, in the order of their
    /// registration.
    fn active_modifications(&self, id: ValueId) -> (mods: Vec<Applied<'a>>)
        requires
            self.wf(),
            self.model()@.has_value(id),
        ensures
            applied_views(mods@) == self@.active_modifiers(self.model()@, id),
            forall|k: int| 0 <= k < mods@.len() ==> applied_ok(self.model(), #[trigger] mods@[k]),
    {
        let model = self.model;
        let value = model.values.get(id);
        let mut mods: Vec<Applied<'a>> = Vec::new();
        assert(model@.value_wf(id.0 as int));
        assert(applied_views(mods@) =~= Seq::empty());
        let mut n: usize = 0;
        while n < value.modifying_items.len()
            invariant
                n <= value.modifying_items@.len(),
                self.wf(),
                self.model == model,
                model@.has_value(id),
                *value == model.values@[id.0 as int],
                model@.value_wf(id.0 as int),
                applied_views(mods@) == self@.item_modifiers(model@, id, n as int),
                forall|k: int| 0 <= k < mods@.len() ==> applied_ok(model, #[trigger] mods@[k]),
            decreases value.modifying_items@.len() - n,
        {
            let item = value.modifying_items[n];
            assert(model@.value(id).modifying_items[n as int] == item);
            assert(model@.has_item(item));
            assert(model@.item_wf(item.0 as int));
            assert(model.items@[item.0 as int].wf());
            let count = self.items[item.0].count();
            let ghost before = mods@;
            if count > 0 {
                let list = &model.items.get(item).modifications;
                match position(list, id) {
                    Some(k) => {
                        proof {
                            lemma_modification_at(model@.item(item).modifications, k as int);
                            assert(model@.item(item).modifications[k as int].1 == list@[k as int].1@);
                            assert(model@.expr_ok(
                                model@.item(item).modifications[k as int].1.calculation,
                            ));
                        }
                        mods.push(Applied { weight: count, modification: &list[k].1 });
                        proof {
                            assert(applied_views(mods@) =~= applied_views(before).push(
                                applied_view(mods@[before.len() as int]),
                            ));
                        }
                    },
                    None => unreached(),
                }
            }
            n += 1;
        }
        let ghost from_items = applied_views(mods@);
        assert(from_items + Seq::<ActiveModifier>::empty() =~= from_items);
        let mut n: usize = 0;
        while n < value.modifying_choices.len()
            invariant
                n <= value.modifying_choices@.len(),
                self.wf(),
                self.model == model,
                model@.has_value(id),
                *value == model.values@[id.0 as int],
                model@.value_wf(id.0 as int),
                from_items == self@.item_modifiers(
                    model@,
                    id,
                    model@.value(id).modifying_items.len() as int,
                ),
                applied_views(mods@) == from_items + self@.choice_modifiers(model@, id, n as int),
                forall|k: int| 0 <= k < mods@.len() ==> applied_ok(model, #[trigger] mods@[k]),
            decreases value.modifying_choices@.len() - n,
        {
            let choice = value.modifying_choices[n];
            assert(model@.value(id).modifying_choices[n as int] == choice);
            assert(model@.has_choice(choice));
            assert(model@.choice_wf(choice.0 as int));
            assert(model.choices@[choice.0 as int].wf());
            let selection = self.choices[choice.0];
            let ghost before = mods@;
            if selection > 0 {
                assert(self@.choices[choice.0 as int] <= model@.choices[choice.0 as int].options.len());
                let option = &model.choices.get(choice).options[(selection - 1) as usize];
                let list = &option.modifications;
                let ghost shown = model@.choices[choice.0 as int].options[selection - 1].modifications;
                assert(shown == crate::model::modification::list_view(list@));
                assert(model@.list_ok(shown));
                assert(option.wf());
                match position(list, id) {
                    Some(k) => {
                        proof {
                            lemma_modification_at(shown, k as int);
                            assert(shown[k as int].1 == list@[k as int].1@);
                            assert(model@.expr_ok(shown[k as int].1.calculation));
                        }
                        mods.push(Applied { weight: 1, modification: &list[k].1 });
                        proof {
                            assert(applied_views(mods@) =~= applied_views(before).push(
                                applied_view(mods@[before.len() as int]),
                            ));
                            assert(applied_views(mods@) =~= from_items + self@.choice_modifiers(
                                model@,
                                id,
                                n + 1,
                            ));
                        }
                    },
                    None => {},
                }
            }
            n += 1;
        }
        mods
    }

    /// Put the modifications in ascending order of priority; those of one
    /// priority keep their order.
    fn sort_modifications(mods: Vec<Applied<'a>>, Ghost(model): Ghost<&Model>) -> (sorted: Vec<
        Applied<'a>,
    >)
        requires
            forall|k: int| 0 <= k < mods@.len() ==> applied_ok(model, #[trigger] mods@[k]),
        ensures
            applied_views(sorted@) == sort_by_priority(applied_views(mods@)),
            forall|k: int| 0 <= k < sorted@.len() ==> applied_ok(model, #[trigger] sorted@[k]),
    {
        let mut sorted: Vec<Applied<'a>> = Vec::new();
        let ghost all = applied_views(mods@);
        assert(applied_views(sorted@) =~= Seq::empty());
        assert(all.take(0) =~= Seq::empty());
        let mut i: usize = 0;
        while i < mods.len()
            invariant
                i <= mods@.len(),
                all == applied_views(mods@),
                applied_views(sorted@) == sort_by_priority(all.take(i as int)),
                forall|k: int| 0 <= k < mods@.len() ==> applied_ok(model, #[trigger] mods@[k]),
                forall|k: int| 0 <= k < sorted@.len() ==> applied_ok(model, #[trigger] sorted@[k]),
            decreases mods@.len() - i,
        {
            let entry = mods[i];
            let mut p: usize = sorted.len();
            while p > 0 && sorted[p - 1].modification.priority() > entry.modification.priority()
                invariant
                    p <= sorted@.len(),
                    forall|j: int|
                        p <= j < sorted@.len() ==> applied_views(sorted@)[j].priority
                            > entry.modification@.priority,
                decreases p,
            {
                p -= 1;
            }
            let ghost before = sorted@;
            proof {
                if p > 0 {
                    assert(applied_views(before)[p - 1].priority <= entry.modification@.priority);
                }
                lemma_insert_position(applied_views(before), applied_view(entry), p as int);
                assert(all.take(i + 1).drop_last() =~= all.take(i as int));
                assert(all.take(i + 1).last() == applied_view(entry));
            }
            sorted.insert(p, entry);
            proof {
                assert(applied_views(sorted@) =~= applied_views(before).insert(
                    p as int,
                    applied_view(entry),
                ));
                assert forall|k: int| 0 <= k < sorted@.len() implies applied_ok(
                    model,
                    #[trigger] sorted@[k],
                ) by {
                    if k < p {
                        assert(sorted@[k] == before[k]);
                    } else if k > p {
                        assert(sorted@[k] == before[k - 1]);
                    }
                }
            }
            i += 1;
        }
        assert(all.take(i as int) =~= all);
        sorted
    }

    /// Apply the modifications of `id` that are in force, in ascending order
    /// of priority, each to the result of the one before.
    fn apply_modifications(&mut self, id: ValueId)
        requires
            old(self).wf(),
            old(self).model()@.has_value(id),
        ensures
            final(self).wf(),
            final(self).model() == old(self).model(),
            final(self)@ == old(self)@.apply_modifications(old(self).model()@, id),
    {
        let model = self.model;
        let mods = self.active_modifications(id);
        let sorted = Self::sort_modifications(mods, Ghost(model));
        let ghost all = applied_views(sorted@);
        assert(all.take(0) =~= Seq::empty());
        let mut i: usize = 0;
        while i < sorted.len()
            invariant
                i <= sorted@.len(),
                self.wf(),
                self.model == model,
                model@.has_value(id),
                all == applied_views(sorted@),
                forall|k: int| 0 <= k < sorted@.len() ==> applied_ok(model, #[trigger] sorted@[k]),
                self@ == old(self)@.modified(id, all.take(i as int)),
            decreases sorted@.len() - i,
        {
            let entry = sorted[i];
            assert(applied_ok(model, sorted@[i as int]));
            let calc = &entry.modification.calculation;
            let ghost start = self@;
            let mut times: u16 = 0;
            while times < entry.weight
                invariant
                    times <= entry.weight,
                    self.wf(),
                    self.model == model,
                    model@.has_value(id),
                    calc.wf(),
                    model@.expr_ok(calc@),
                    self@ == start.repeated(id, calc@, times as nat),
                decreases entry.weight - times,
            {
                let result = self.eval_calc(calc);
                let ghost before = self@;
                self.values[id.0].actual = result;
                proof {
                    assert(self@.values =~= before.with_actual(id, result).values);
                    assert(self@ == before.with_actual(id, result));
                }
                times += 1;
            }
            proof {
                assert(all.take(i + 1).drop_last() =~= all.take(i as int));
                assert(all.take(i + 1).last() == applied_view(entry));
            }
            i += 1;
        }
        assert(all.take(i as int) =~= all);
    }

    /// The count that the result of a condition stands for.
    fn count_from(result: i32) -> (count: u16)
        ensures
            count == count_of(result),
    {
        if result < 0 {
            1
        } else if result > 0xffff {
            u16::MAX
        } else {
            result as u16
        }
    }

    /// Compute `id` anew and carry the change on: to the dependents of `id`,
    /// then to the items whose condition reads it.
    fn update_value(&mut self, id: ValueId)
        requires
            old(self).wf(),
            old(self).model()@.has_value(id),
        ensures
            final(self).wf(),
            final(self).model() == old(self).model(),
            final(self)@ == old(self)@.update_value(old(self).model()@, id),
        decreases old(self).model()@.value_ranks()[id.0 as int], 3nat, 0nat,
    {
        let model = self.model;
        self.apply_dependencies(id);
        self.apply_modifications(id);
        let value = model.values.get(id);
        let ghost fresh = self@;
        proof {
            model@.lemma_ranks();
            assert(model@.value_wf(id.0 as int));
        }
        let mut n: usize = 0;
        while n < value.dependents.len()
            invariant
                n <= value.dependents@.len(),
                self.wf(),
                self.model == model,
                model == old(self).model,
                model@.has_value(id),
                *value == model.values@[id.0 as int],
                model@.value_wf(id.0 as int),
                model@.ranked(model@.value_ranks(), model@.item_ranks()),
                self@ == fresh.update_dependents(model@, id, n as nat),
            decreases value.dependents@.len() - n,
        {
            let dependent = value.dependents[n];
            assert(model@.value(id).dependents[n as int] == dependent);
            assert(model@.has_value(dependent));
            self.update_value(dependent);
            n += 1;
        }
        let ghost carried = self@;
        let mut n: usize = 0;
        while n < value.conditions.len()
            invariant
                n <= value.conditions@.len(),
                self.wf(),
                self.model == model,
                model == old(self).model,
                model@.has_value(id),
                *value == model.values@[id.0 as int],
                model@.value_wf(id.0 as int),
                model@.ranked(model@.value_ranks(), model@.item_ranks()),
                self@ == carried.update_conditions(model@, id, n as nat),
            decreases value.conditions@.len() - n,
        {
            let item = value.conditions[n];
            assert(model@.value(id).conditions[n as int] == item);
            assert(model@.has_item(item));
            self.update_condition(item);
            n += 1;
        }
    }

    /// Set the count of `id` to what its condition gives and update the
    /// values that the item modifies.
    fn update_condition(&mut self, id: ItemId)
        requires
            old(self).wf(),
            old(self).model()@.has_item(id),
            old(self).model()@.item(id).condition is Some,
        ensures
            final(self).wf(),
            final(self).model() == old(self).model(),
            final(self)@ == old(self)@.update_condition(old(self).model()@, id),
        decreases old(self).model()@.item_ranks()[id.0 as int], 1nat, 0nat,
    {
        let model = self.model;
        let item = model.items.get(id);
        proof {
            model@.lemma_ranks();
            assert(model@.item_wf(id.0 as int));
            assert(model.items@[id.0 as int].wf());
        }
        let count = match &item.condition {
            Some(calc) => Self::count_from(self.eval_calc(calc)),
            None => unreached(),
        };
        self.set_count(id, count);
        self.update_targets(id);
    }

    /// Make `count` the count of the item `id`, which holds no inventories.
    fn set_count(&mut self, id: ItemId, count: u16)
        requires
            old(self).wf(),
            old(self).model()@.has_item(id),
            old(self).model()@.item(id).has_inventory is None,
        ensures
            final(self).wf(),
            final(self).model() == old(self).model(),
            final(self)@ == old(self)@.with_count(id, count),
    {
        let ghost before = self@;
        assert(before.items[id.0 as int].inventories is None);
        let slot = self.items[id.0].count_mut();
        *slot = count;
        proof {
            assert(self@.items =~= before.with_count(id, count).items);
        }
    }

    /// Update the values that the item `id` modifies, in the order in which
    /// the modifications were added.
    fn update_targets(&mut self, id: ItemId)
        requires
            old(self).wf(),
            old(self).model()@.has_item(id),
        ensures
            final(self).wf(),
            final(self).model() == old(self).model(),
            final(self)@ == old(self)@.update_targets(
                old(self).model()@,
                id,
                old(self).model()@.item(id).modifications.len(),
            ),
        decreases old(self).model()@.item_ranks()[id.0 as int], 0nat, 1nat,
    {
        let model = self.model;
        let item = model.items.get(id);
        proof {
            model@.lemma_ranks();
            assert(model@.item_wf(id.0 as int));
        }
        let mut n: usize = 0;
        while n < item.modifications.len()
            invariant
                n <= item.modifications@.len(),
                self.wf(),
                self.model == model,
                model == old(self).model,
                model@.has_item(id),
                *item == model.items@[id.0 as int],
                model@.item_wf(id.0 as int),
                model@.ranked(model@.value_ranks(), model@.item_ranks()),
                self@ == old(self)@.update_targets(model@, id, n as nat),
            decreases item.modifications@.len() - n,
        {
            let target = item.modifications[n].0;
            assert(model@.item(id).modifications[n as int].0 == target);
            assert(model@.has_value(target));
            self.update_value(target);
            n += 1;
        }
    }

    /// Change a base value
    pub fn set_base(&mut self, id: ValueId, new: i32)
        requires
            old(self).wf(),
            old(self).model()@.has_value(id),
        ensures
            final(self).wf(),
            final(self).model() == old(self).model(),
            final(self)@ == old(self)@.set_base(old(self).model()@, id, new),
    {
        let old_base = self.values[id.0].base;
        if new == old_base {
            return ;
        }
        let ghost before = self@;
        self.values[id.0].base = new;
        proof {
            assert(self@.values =~= before.with_base(id, new).values);
        }
        self.update_value(id);
    }

    /// Add an item to the character.
    pub fn equip(&mut self, id: ItemId)
        requires
            old(self).wf(),
            old(self).model()@.has_item(id),
            old(self).model()@.item(id).has_inventory is None,
            old(self)@.count(id) < u16::MAX,
        ensures
            final(self).wf(),
            final(self).model() == old(self).model(),
            final(self)@ == old(self)@.equip(old(self).model()@, id),
    {
        let count = self.items[id.0].count();
        self.set_count(id, count + 1);
        self.update_targets(id);
    }

    /// Update the values that `list` modifies, in its order.
    fn update_list(&mut self, list: &Vec<(ValueId, Modification)>)
        requires
            old(self).wf(),
            forall|k: int|
                0 <= k < list@.len() ==> old(self).model()@.has_value((#[trigger] list@[k]).0),
        ensures
            final(self).wf(),
            final(self).model() == old(self).model(),
            final(self)@ == old(self)@.update_all(
                old(self).model()@,
                targets(crate::model::modification::list_view(list@)),
            ),
    {
        let ghost ids = targets(crate::model::modification::list_view(list@));
        let ghost model = self.model;
        assert(ids.take(0) =~= Seq::empty());
        let mut n: usize = 0;
        while n < list.len()
            invariant
                n <= list@.len(),
                ids == targets(crate::model::modification::list_view(list@)),
                self.wf(),
                self.model == model,
                forall|k: int| 0 <= k < list@.len() ==> model@.has_value((#[trigger] list@[k]).0),
                self@ == old(self)@.update_all(model@, ids.take(n as int)),
            decreases list@.len() - n,
        {
            let target = list[n].0;
            assert(model@.has_value(list@[n as int].0));
            self.update_value(target);
            proof {
                assert(ids.take(n + 1).drop_last() =~= ids.take(n as int));
                assert(ids.take(n + 1).last() == target);
            }
            n += 1;
        }
        assert(ids.take(n as int) =~= ids);
    }

    /// Make `selection` the active selection of `choice`; 0 stands for none,
    /// `k` for the `k`-th selection. The values that the selection before
    /// modified are updated, then those that the new one modifies. Nothing
    /// happens if the selection is active already.
    pub fn select(&mut self, choice: ChoiceId, selection: u16)
        requires
            old(self).wf(),
            old(self).model()@.has_choice(choice),
            selection <= old(self).model()@.choices[choice.0 as int].options.len(),
        ensures
            final(self).wf(),
            final(self).model() == old(self).model(),
            final(self)@ == old(self)@.select(old(self).model()@, choice, selection),
    {
        let model = self.model;
        let before = self.choices[choice.0];
        if selection == before {
            return ;
        }
        let ghost start = self@;
        self.choices[choice.0] = selection;
        proof {
            assert(self@.choices =~= start.with_choice(choice, selection).choices);
            assert(model@.choice_wf(choice.0 as int));
        }
        let options = &model.choices.get(choice).options;
        if before > 0 {
            let list = &options[(before - 1) as usize].modifications;
            assert(model@.list_ok(model@.choices[choice.0 as int].options[before - 1].modifications));
            assert forall|k: int| 0 <= k < list@.len() implies model@.has_value(
                (#[trigger] list@[k]).0,
            ) by {
                assert(model@.choices[choice.0 as int].options[before - 1].modifications[k].0
                    == list@[k].0);
            }
            self.update_list(list);
        }
        if selection > 0 {
            let list = &options[(selection - 1) as usize].modifications;
            assert(model@.list_ok(
                model@.choices[choice.0 as int].options[selection - 1].modifications,
            ));
            assert forall|k: int| 0 <= k < list@.len() implies model@.has_value(
                (#[trigger] list@[k]).0,
            ) by {
                assert(model@.choices[choice.0 as int].options[selection - 1].modifications[k].0
                    == list@[k].0);
            }
            self.update_list(list);
        }
    }

    /// Store an item into an inventory. Returns the amount that could not fit.
    ///
    /// `inventory` is the position of the inventory among those of the
    /// character; without it the first one is meant.
    pub fn store(&mut self, inventory: Option<InventoryId>, item: ItemId, amount: u16) -> (remainder:
        u16)
        requires
            old(self).wf(),
            old(self).model()@.has_item(item),
            old(self).model()@.item(item).physical is Some,
            Self::position_of(inventory) < old(self)@.inventories.len(),
            old(self)@.inventories[Self::position_of(inventory)].packed_fill(
                item,
                old(self).model()@.item(item).physical.unwrap(),
                amount,
                old(self)@.capacity(old(self).model()@, Self::position_of(inventory)),
                old(self)@.slots(old(self).model()@, Self::position_of(inventory)),
            ) <= u32::MAX,
        ensures
            final(self).wf(),
            final(self).model() == old(self).model(),
            final(self)@ == old(self)@.stored(
                old(self).model()@,
                Self::position_of(inventory),
                item,
                amount,
            ),
            remainder == old(self)@.inventories[Self::position_of(inventory)].packed(
                item,
                old(self).model()@.item(item).physical.unwrap(),
                amount,
                old(self)@.capacity(old(self).model()@, Self::position_of(inventory)),
                old(self)@.slots(old(self).model()@, Self::position_of(inventory)),
            ).1,
    {
        let model = self.model;
        let index = match inventory {
            Some(id) => id.0,
            None => 0,
        };
        let ghost start = self@;
        let (capacity, slots) = self.limits(index);
        let physical = match model.items.get(item).physical {
            Some(physical) => physical,
            None => unreached(),
        };
        let ghost whole = self.inventories@;
        let remainder = self.inventories[index].put(item, &physical, amount, capacity, slots);
        proof {
            assert forall|k: int| 0 <= k < self.inventories@.len() implies (
            #[trigger] self.inventories@[k]).wf() by {
                if k != index {
                    assert(self.inventories@[k] == whole[k]);
                }
            }
            assert(self@.inventories =~= start.stored(model@, index as int, item, amount).inventories);
        }
        remainder
    }

    /// The capacity and the number of slots that the type of the inventory at
    /// `index` allows on the current values.
    fn limits(&self, index: usize) -> (r: (Option<u32>, Option<usize>))
        requires
            self.wf(),
            index < self@.inventories.len(),
        ensures
            r.0 == self@.capacity(self.model()@, index as int),
            r.1 == self@.slots(self.model()@, index as int),
    {
        let model = self.model;
        let ghost start = self@;
        let kind = model.inventories.get(self.inventories[index].id());
        proof {
            assert(model@.has_inventory(start.inventories[index as int].id));
            assert(model@.inventory_wf(start.inventories[index as int].id.0 as int));
            assert(model.inventories@[start.inventories[index as int].id.0 as int].wf());
        }
        let capacity: Option<u32> = match &kind.capacity {
            Some(calc) => {
                let result = self.eval_calc(calc);
                Some(
                    if result < 0 {
                        0
                    } else {
                        result as u32
                    },
                )
            },
            None => None,
        };
        let slots: Option<usize> = match &kind.slots {
            Some(calc) => {
                let result = self.eval_calc(calc);
                Some(
                    if result < 0 {
                        0
                    } else {
                        result as usize
                    },
                )
            },
            None => None,
        };
        (capacity, slots)
    }

    /// Whether `store` can record what it places: whether the fill of the
    /// inventory stays in its range. `store` asks for this.
    pub fn can_store(&self, inventory: Option<InventoryId>, item: ItemId, amount: u16) -> (r: bool)
        requires
            self.wf(),
            self.model()@.has_item(item),
            self.model()@.item(item).physical is Some,
            Self::position_of(inventory) < self@.inventories.len(),
        ensures
            r == (self@.inventories[Self::position_of(inventory)].packed_fill(
                item,
                self.model()@.item(item).physical.unwrap(),
                amount,
                self@.capacity(self.model()@, Self::position_of(inventory)),
                self@.slots(self.model()@, Self::position_of(inventory)),
            ) <= u32::MAX),
    {
        let model = self.model;
        let index = match inventory {
            Some(id) => id.0,
            None => 0,
        };
        let (capacity, slots) = self.limits(index);
        let physical = match model.items.get(item).physical {
            Some(physical) => physical,
            None => unreached(),
        };
        self.inventories[index].put_fits(item, &physical, amount, capacity, slots)
    }

    /// The position among the inventories of a character that `inventory`
    /// stands for.
    pub open spec fn position_of(inventory: Option<InventoryId>) -> int {
        match inventory {
            Some(id) => id.0 as int,
            None => 0,
        }
    }

    /// Compute the value `id` from its base and its dependencies, after the
    /// values that these take.
    fn settle(&mut self, id: ValueId, done: &mut Vec<bool>)
        requires
            old(self).wf(),
            old(self).model()@.has_value(id),
            old(done)@.len() == old(self)@.values.len(),
            settled_where(old(self)@, old(self).model()@, old(done)@),
        ensures
            final(self).wf(),
            final(self).model() == old(self).model(),
            same_but_actuals(old(self)@, final(self)@),
            marks_kept(old(done)@, final(done)@),
            final(done)@[id.0 as int],
            settled_where(final(self)@, final(self).model()@, final(done)@),
        decreases top(old(self).model()@.value_ranks()) - old(self).model()@.value_ranks()[id.0 as int],
    {
        if done[id.0] {
            return ;
        }
        let model = self.model;
        let value = model.values.get(id);
        proof {
            model@.lemma_ranks();
            lemma_top(model@.value_ranks(), id.0 as int);
            assert(model.values@[id.0 as int].wf());
            assert(model@.value_wf(id.0 as int));
            assert(model@.dependents_known(id.0 as int));
        }
        let mut j: usize = 0;
        while j < value.dependencies.len()
            invariant
                j <= value.dependencies@.len(),
                self.wf(),
                self.model == model,
                model == old(self).model,
                model@.has_value(id),
                *value == model.values@[id.0 as int],
                value.wf(),
                model@.value_wf(id.0 as int),
                model@.dependents_known(id.0 as int),
                model@.ranked(model@.value_ranks(), model@.item_ranks()),
                done@.len() == self@.values.len(),
                same_but_actuals(old(self)@, self@),
                marks_kept(old(done)@, done@),
                settled_where(self@, model@, done@),
                forall|i: int, other: ValueId|
                    0 <= i < j && #[trigger] model@.values[id.0 as int].dependencies[i].reads(other)
                        ==> other.0 < done@.len() && done@[other.0 as int],
            decreases value.dependencies@.len() - j,
        {
            let inputs = value.dependencies[j].values();
            assert(value.dependencies@[j as int].wf());
            let mut k: usize = 0;
            while k < inputs.len()
                invariant
                    k <= inputs@.len(),
                    j < value.dependencies@.len(),
                    inputs@ == value.dependencies@[j as int].inputs(),
                    self.wf(),
                    self.model == model,
                    model == old(self).model,
                    model@.has_value(id),
                    *value == model.values@[id.0 as int],
                    value.wf(),
                    model@.value_wf(id.0 as int),
                    model@.dependents_known(id.0 as int),
                    value.dependencies@[j as int].wf(),
                    model@.ranked(model@.value_ranks(), model@.item_ranks()),
                    done@.len() == self@.values.len(),
                    same_but_actuals(old(self)@, self@),
                    marks_kept(old(done)@, done@),
                    settled_where(self@, model@, done@),
                    forall|i: int, other: ValueId|
                        0 <= i < j && #[trigger] model@.values[id.0 as int].dependencies[i].reads(
                            other,
                        ) ==> other.0 < done@.len() && done@[other.0 as int],
                    forall|i: int|
                        0 <= i < k ==> (#[trigger] inputs@[i]).0 < done@.len() && done@[inputs@[i].0 as int],
                decreases inputs@.len() - k,
            {
                let input = inputs[k];
                let ghost marks = done@;
                proof {
                    let calc = value.dependencies@[j as int];
                    assert(input == calc.inputs()[k as int]);
                    calc.lemma_inputs();
                    assert(calc.inputs().contains(input));
                    assert(model@.values[id.0 as int].dependencies[j as int] == calc@);
                    assert(model@.expr_ok(calc@));
                    assert(model@.has_value(input));
                    let listed = model@.value(input).dependents;
                    assert(listed.contains(value_id(id.0 as int)));
                    let at = choose|at: int| 0 <= at < listed.len() && listed[at] == value_id(id.0 as int);
                    assert(model@.values[input.0 as int].dependents[at] == id);
                    lemma_top(model@.value_ranks(), input.0 as int);
                }
                self.settle(input, done);
                k += 1;
            }
            proof {
                let calc = value.dependencies@[j as int];
                calc.lemma_inputs();
                assert(model@.values[id.0 as int].dependencies[j as int] == calc@);
                assert forall|other: ValueId|
                    model@.values[id.0 as int].dependencies[j as int].reads(
                        other,
                    ) implies other.0 < done@.len() && done@[other.0 as int] by {
                    assert(calc.inputs().contains(other));
                    let slot = choose|slot: int| 0 <= slot < inputs@.len() && inputs@[slot] == other;
                    assert(done@[inputs@[slot].0 as int]);
                }
            }
            j += 1;
        }
        if !done[id.0] {
            let ghost before = self@;
            let ghost marks = done@;
            self.apply_dependencies(id);
            done[id.0] = true;
            proof {
                let after = self@;
                assert(after == before.apply_dependencies(model@, id));
                assert(model@.value_wf(id.0 as int));
                assert(model@.dependents_known(id.0 as int));
                let n = done@.len() as int;
                // What the value reads is marked, and the value is not among it.
                assert forall|j: int, other: ValueId|
                    0 <= j < model@.values[id.0 as int].dependencies.len()
                        && #[trigger] model@.values[id.0 as int].dependencies[j].reads(
                        other,
                    ) implies other.0 != id.0 && marks[other.0 as int] by {
                    assert(marks[other.0 as int]);
                }
                assert forall|w: int| 0 <= w < n && #[trigger] done@[w] implies {
                    &&& after.values[w].actual == dependency_total(
                        after.values[w].base,
                        model@.values[w].dependencies,
                        after.env(),
                    )
                    &&& forall|j: int, other: ValueId|
                        0 <= j < model@.values[w].dependencies.len()
                            && #[trigger] model@.values[w].dependencies[j].reads(other)
                            ==> done@[other.0 as int]
                } by {
                    assert(model@.value_wf(w));
                    assert forall|j: int, other: ValueId|
                        0 <= j < model@.values[w].dependencies.len()
                            && #[trigger] model@.values[w].dependencies[j].reads(
                            other,
                        ) implies other.0 < n && other.0 != id.0 && marks[other.0 as int] by {
                        assert(model@.expr_ok(model@.values[w].dependencies[j]));
                        assert(model@.has_value(other));
                        if w != id.0 {
                            assert(marks[w]);
                        }
                    }
                    assert forall|j: int, other: ValueId|
                        0 <= j < model@.values[w].dependencies.len()
                            && #[trigger] model@.values[w].dependencies[j].reads(
                            other,
                        ) implies before.env()(other) == after.env()(other) by {
                        assert(other.0 < n && other.0 != id.0);
                    }
                    lemma_total_agrees(
                        after.values[w].base,
                        model@.values[w].dependencies,
                        before.env(),
                        after.env(),
                    );
                    if w != id.0 {
                        assert(marks[w]);
                        assert(after.values[w] == before.values[w]);
                    }
                }
            }
        }
    }

    /// Compute every value from its base and its dependencies.
    fn update_all_values(&mut self)
        requires
            old(self).wf(),
        ensures
            final(self).wf(),
            final(self).model() == old(self).model(),
            same_but_actuals(old(self)@, final(self)@),
            final(self)@.settled(final(self).model()@),
    {
        let n = self.values.len();
        let mut done: Vec<bool> = Vec::new();
        let mut v: usize = 0;
        while v < n
            invariant
                v <= n,
                done@.len() == v,
                forall|w: int| 0 <= w < v ==> !#[trigger] done@[w],
            decreases n - v,
        {
            done.push(false);
            v += 1;
        }
        let mut v: usize = 0;
        while v < n
            invariant
                v <= n,
                n == self@.values.len(),
                done@.len() == n,
                self.wf(),
                self.model == old(self).model,
                same_but_actuals(old(self)@, self@),
                settled_where(self@, self.model@, done@),
                forall|w: int| 0 <= w < v ==> #[trigger] done@[w],
            decreases n - v,
        {
            let ghost marks = done@;
            self.settle(Id::new(v), &mut done);
            proof {
                assert forall|w: int| 0 <= w < v + 1 implies #[trigger] done@[w] by {
                    if w < v {
                        assert(marks[w]);
                    }
                }
            }
            v += 1;
        }
        proof {
            assert forall|w: int| 0 <= w < self@.values.len() implies (
            #[trigger] self@.values[w]).actual == dependency_total(
                self@.values[w].base,
                self.model@.values[w].dependencies,
                self@.env(),
            ) by {
                assert(done@[w]);
            }
        }
    }

    /// Create a new character with a model.
    pub fn new(model: &'a Model) -> (r: Character<'a>)
        requires
            model.wf(),
        ensures
            r.wf(),
            r.model() == model,
            r@.starts(model@),
    {
        let mut choices: Vec<u16> = Vec::new();
        let mut c: usize = 0;
        while c < model.choices.len()
            invariant
                c <= model.choices@.len(),
                choices@.len() == c,
                forall|k: int| 0 <= k < c ==> #[trigger] choices@[k] == 0,
            decreases model.choices@.len() - c,
        {
            choices.push(0);
            c += 1;
        }
        let mut values: Vec<CharacterValue> = Vec::new();
        let mut v: usize = 0;
        while v < model.values.len()
            invariant
                v <= model.values@.len(),
                values@.len() == v,
                forall|k: int|
                    0 <= k < v ==> #[trigger] values@[k] == (CharacterValue {
                        base: model@.values[k].default,
                        actual: model@.values[k].default,
                    }),
            decreases model.values@.len() - v,
        {
            values.push(CharacterValue::new(model.values.get(Id::new(v)).default));
            v += 1;
        }
        let mut inventories: Vec<CharacterInventory> = Vec::new();
        match model.main_inventory() {
            Some(id) => {
                inventories.push(CharacterInventory::new(id));
            },
            None => {},
        }
        let mut items: Vec<CharacterItem> = Vec::new();
        let mut i: usize = 0;
        while i < model.items.len()
            invariant
                i <= model.items@.len(),
                items@.len() == i,
                forall|k: int|
                    0 <= k < i ==> (#[trigger] items@[k])@ == (CharacterItemView {
                        count: 0,
                        inventories: if model@.items[k].has_inventory is Some {
                            Some(Seq::empty())
                        } else {
                            None
                        },
                    }),
            decreases model.items@.len() - i,
        {
            items.push(CharacterItem::new(model.items.get(Id::new(i)).has_inventory));
            i += 1;
        }
        let mut result = Character { model, choices, inventories, items, values };
        proof {
            assert(result@.inventories =~= match model@.main_inventory {
                Some(id) => seq![CharacterInventoryView { id, content: Seq::empty(), fill: 0 }],
                None => Seq::empty(),
            });
        }
        result.update_all_values();
        result
    }
}

} // verus!
