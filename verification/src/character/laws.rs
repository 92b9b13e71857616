//! What holds of every character: what an update leaves alone, and that
//! updates keep the values in line with their dependencies.

use vstd::prelude::*;
use super::sheet::{
    count_of, insert_by_priority, sort_by_priority, ActiveModifier, CharacterView,
};
use crate::model::expression::Expr;
use crate::model::structure::ModelView;
use crate::model::{ItemId, ValueId};

verus! {

impl CharacterView {
    /// The character is `before` with, at most, another current value of
    /// `id`.
    pub open spec fn differs_at(self, before: CharacterView, id: ValueId) -> bool {
        &&& self.choices == before.choices
        &&& self.items == before.items
        &&& self.inventories == before.inventories
        &&& self.values.len() == before.values.len()
        &&& self.base(id) == before.base(id)
        &&& forall|v: int|
            0 <= v < self.values.len() && v != id.0 ==> #[trigger] self.values[v]
                == before.values[v]
    }

    /// The character has the bases, the selections and the inventories of
    /// `before`, and as many values and items, of which the same ones hold
    /// inventories. Current values and counts may differ.
    pub open spec fn same_frame(self, before: CharacterView) -> bool {
        &&& self.choices == before.choices
        &&& self.inventories == before.inventories
        &&& self.values.len() == before.values.len()
        &&& self.items.len() == before.items.len()
        &&& forall|v: int|
            0 <= v < self.values.len() ==> (#[trigger] self.values[v]).base
                == before.values[v].base
        &&& forall|i: int|
            0 <= i < self.items.len() ==> (#[trigger] self.items[i]).inventories
                == before.items[i].inventories
    }

    /// Every item without a condition is as in `before`.
    pub open spec fn keeps_unconditional(self, before: CharacterView, model: ModelView) -> bool {
        forall|i: int|
            0 <= i < self.items.len() && model.items[i].condition is None
                ==> #[trigger] self.items[i] == before.items[i]
    }

    /// Applying a calculation to a value again and again changes nothing but
    /// the current value of that value.
    pub proof fn lemma_repeated_frame(self, id: ValueId, calculation: Expr, times: nat)
        requires
            id.0 < self.values.len(),
        ensures
            self.repeated(id, calculation, times).differs_at(self, id),
        decreases times,
    {
        if times > 0 {
            self.lemma_repeated_frame(id, calculation, (times - 1) as nat);
        }
    }

    /// Applying modifiers to a value changes nothing but the current value of
    /// that value.
    pub proof fn lemma_modified_frame(self, id: ValueId, modifiers: Seq<ActiveModifier>)
        requires
            id.0 < self.values.len(),
        ensures
            self.modified(id, modifiers).differs_at(self, id),
        decreases modifiers.len(),
    {
        if modifiers.len() > 0 {
            self.lemma_modified_frame(id, modifiers.drop_last());
            self.modified(id, modifiers.drop_last()).lemma_repeated_frame(
                id,
                modifiers.last().calculation,
                modifiers.last().weight as nat,
            );
        }
    }

    /// Computing a value anew changes nothing but the current value of that
    /// value.
    pub proof fn lemma_recomputed_frame(self, model: ModelView, id: ValueId)
        requires
            id.0 < self.values.len(),
        ensures
            self.recomputed(model, id).differs_at(self, id),
    {
        let first = self.apply_dependencies(model, id);
        first.lemma_modified_frame(id, sort_by_priority(first.active_modifiers(model, id)));
    }

    /// An update of a value keeps the frame of the character.
    pub proof fn lemma_update_value_frame(self, model: ModelView, id: ValueId)
        requires
            model.wf(),
            self.fits(model),
            model.has_value(id),
        ensures
            self.update_value(model, id).same_frame(self),
            self.update_value(model, id).fits(model),
            self.update_value(model, id).keeps_unconditional(self, model),
        decreases model.value_ranks()[id.0 as int], 3nat, 0nat,
    {
        let fresh = self.recomputed(model, id);
        self.lemma_recomputed_frame(model, id);
        assert(fresh.same_frame(self));
        fresh.lemma_update_dependents_frame(model, id, model.value(id).dependents.len());
        let carried = fresh.update_dependents(model, id, model.value(id).dependents.len());
        carried.lemma_update_conditions_frame(model, id, model.value(id).conditions.len());
    }

    /// Updates of dependents keep the frame of the character.
    pub proof fn lemma_update_dependents_frame(self, model: ModelView, id: ValueId, n: nat)
        requires
            model.wf(),
            self.fits(model),
            model.has_value(id),
            n <= model.value(id).dependents.len(),
        ensures
            self.update_dependents(model, id, n).same_frame(self),
            self.update_dependents(model, id, n).fits(model),
            self.update_dependents(model, id, n).keeps_unconditional(self, model),
        decreases model.value_ranks()[id.0 as int], 2nat, n,
    {
        if n > 0 {
            model.lemma_ranks();
            assert(model.value_wf(id.0 as int));
            let next = model.values[id.0 as int].dependents[n - 1];
            assert(model.has_value(next));
            self.lemma_update_dependents_frame(model, id, (n - 1) as nat);
            self.update_dependents(model, id, (n - 1) as nat).lemma_update_value_frame(model, next);
        }
    }

    /// Updates of conditions keep the frame of the character.
    pub proof fn lemma_update_conditions_frame(self, model: ModelView, id: ValueId, n: nat)
        requires
            model.wf(),
            self.fits(model),
            model.has_value(id),
            n <= model.value(id).conditions.len(),
        ensures
            self.update_conditions(model, id, n).same_frame(self),
            self.update_conditions(model, id, n).fits(model),
            self.update_conditions(model, id, n).keeps_unconditional(self, model),
        decreases model.value_ranks()[id.0 as int], 2nat, n,
    {
        if n > 0 {
            model.lemma_ranks();
            assert(model.value_wf(id.0 as int));
            let next = model.values[id.0 as int].conditions[n - 1];
            assert(model.has_item(next));
            self.lemma_update_conditions_frame(model, id, (n - 1) as nat);
            self.update_conditions(model, id, (n - 1) as nat).lemma_update_condition_frame(
                model,
                next,
            );
        }
    }

    /// An update of a condition keeps the frame of the character.
    pub proof fn lemma_update_condition_frame(self, model: ModelView, item: ItemId)
        requires
            model.wf(),
            self.fits(model),
            model.has_item(item),
            model.item(item).condition is Some,
        ensures
            self.update_condition(model, item).same_frame(self),
            self.update_condition(model, item).fits(model),
            self.update_condition(model, item).keeps_unconditional(self, model),
        decreases model.item_ranks()[item.0 as int], 1nat, 0nat,
    {
        let count = count_of(model.item(item).condition.unwrap().eval(self.env()));
        let counted = self.with_count(item, count);
        assert(model.item_wf(item.0 as int));
        assert(self.items[item.0 as int].inventories is None);
        assert(counted.same_frame(self));
        counted.lemma_update_targets_frame(model, item, model.item(item).modifications.len());
    }

    /// Updates of the values that an item modifies keep the frame of the
    /// character.
    pub proof fn lemma_update_targets_frame(self, model: ModelView, item: ItemId, n: nat)
        requires
            model.wf(),
            self.fits(model),
            model.has_item(item),
            n <= model.item(item).modifications.len(),
        ensures
            self.update_targets(model, item, n).same_frame(self),
            self.update_targets(model, item, n).fits(model),
            self.update_targets(model, item, n).keeps_unconditional(self, model),
        decreases model.item_ranks()[item.0 as int], 0nat, n,
    {
        if n > 0 {
            model.lemma_ranks();
            assert(model.item_wf(item.0 as int));
            let next = model.items[item.0 as int].modifications[n - 1].0;
            assert(model.has_value(next));
            self.lemma_update_targets_frame(model, item, (n - 1) as nat);
            self.update_targets(model, item, (n - 1) as nat).lemma_update_value_frame(model, next);
        }
    }

    /// Setting a base twice to the same number is setting it once: the second
    /// time nothing is computed.
    pub proof fn law_set_base_idempotent(self, model: ModelView, id: ValueId, new: i32)
        requires
            model.wf(),
            self.fits(model),
            model.has_value(id),
        ensures
            self.set_base(model, id, new).base(id) == new,
            self.set_base(model, id, new).set_base(model, id, new) == self.set_base(
                model,
                id,
                new,
            ),
    {
        if new != self.base(id) {
            let based = self.with_base(id, new);
            assert(based.fits(model));
            based.lemma_update_value_frame(model, id);
        }
    }

    /// Equipping an item without a condition raises its count by one,
    /// whatever the update of the values that it modifies brings about.
    pub proof fn law_equip_counts(self, model: ModelView, id: ItemId)
        requires
            model.wf(),
            self.fits(model),
            model.has_item(id),
            model.item(id).condition is None,
            model.item(id).has_inventory is None,
            self.count(id) < u16::MAX,
        ensures
            self.equip(model, id).count(id) == self.count(id) + 1,
    {
        let counted = self.with_count(id, (self.count(id) + 1) as u16);
        assert(self.items[id.0 as int].inventories is None);
        assert(counted.same_frame(self));
        counted.lemma_update_targets_frame(model, id, model.item(id).modifications.len());
    }

    /// Applying a calculation `first + second` times in a row is applying it
    /// `first` times and then `second` times: each application works on the
    /// result of the one before.
    pub proof fn law_repeated_in_sequence(
        self,
        id: ValueId,
        calculation: Expr,
        first: nat,
        second: nat,
    )
        ensures
            self.repeated(id, calculation, first + second) == self.repeated(
                id,
                calculation,
                first,
            ).repeated(id, calculation, second),
        decreases second,
    {
        if second > 0 {
            self.law_repeated_in_sequence(id, calculation, first, (second - 1) as nat);
            assert((first + second - 1) as nat == first + (second - 1) as nat);
        }
    }

    /// An item that is the only one to modify a value and is equipped
    /// `weight` times has its modification applied `weight` times in a row.
    pub proof fn law_single_modifier(self, model: ModelView, id: ValueId, modifier: ActiveModifier)
        requires
            self.active_modifiers(model, id) == seq![modifier],
        ensures
            self.apply_modifications(model, id) == self.repeated(
                id,
                modifier.calculation,
                modifier.weight as nat,
            ),
    {
        let one = seq![modifier];
        assert(one.drop_last() =~= Seq::empty());
        assert(sort_by_priority(one.drop_last()) =~= Seq::empty());
        assert(sort_by_priority(one) =~= one) by {
            assert(insert_by_priority(Seq::empty(), modifier) =~= one);
        }
        assert(self.modified(id, one.drop_last()) == self);
    }
}

/// The priorities of the modifiers do not fall from the first to the last.
pub open spec fn ascending(modifiers: Seq<ActiveModifier>) -> bool {
    forall|i: int, j: int|
        0 <= i < j < modifiers.len() ==> modifiers[i].priority <= modifiers[j].priority
}

/// Inserting by priority into modifiers in ascending order keeps the order
/// and adds the modifier to those that were there.
pub proof fn lemma_insert_by_priority(modifiers: Seq<ActiveModifier>, modifier: ActiveModifier)
    requires
        ascending(modifiers),
    ensures
        ascending(insert_by_priority(modifiers, modifier)),
        insert_by_priority(modifiers, modifier).len() == modifiers.len() + 1,
        insert_by_priority(modifiers, modifier).to_multiset() == modifiers.to_multiset().insert(
            modifier,
        ),
        forall|k: int|
            0 <= k < insert_by_priority(modifiers, modifier).len() ==> #[trigger] insert_by_priority(
                modifiers,
                modifier,
            )[k] == modifier || modifiers.contains(insert_by_priority(modifiers, modifier)[k]),
    decreases modifiers.len(),
{
    let result = insert_by_priority(modifiers, modifier);
    if modifiers.len() == 0 || modifiers.last().priority <= modifier.priority {
        vstd::seq_lib::to_multiset_build(modifiers, modifier);
        assert forall|i: int, j: int| 0 <= i < j < result.len() implies result[i].priority
            <= result[j].priority by {
            if j == modifiers.len() {
                assert(modifiers[i].priority <= modifiers[modifiers.len() - 1].priority);
            }
        }
        assert forall|k: int| 0 <= k < result.len() implies #[trigger] result[k] == modifier
            || modifiers.contains(result[k]) by {
            if k < modifiers.len() {
                assert(modifiers[k] == result[k]);
            }
        }
    } else {
        let rest = modifiers.drop_last();
        let last = modifiers.last();
        assert(ascending(rest));
        lemma_insert_by_priority(rest, modifier);
        let inner = insert_by_priority(rest, modifier);
        vstd::seq_lib::to_multiset_build(inner, last);
        vstd::seq_lib::to_multiset_build(rest, last);
        assert(rest.push(last) =~= modifiers);
        assert(rest.to_multiset().insert(modifier).insert(last) =~= rest.to_multiset().insert(
            last,
        ).insert(modifier));
        assert forall|i: int, j: int| 0 <= i < j < result.len() implies result[i].priority
            <= result[j].priority by {
            if j == inner.len() {
                if inner[i] != modifier {
                    assert(rest.contains(inner[i]));
                    let at = choose|at: int| 0 <= at < rest.len() && rest[at] == inner[i];
                    assert(modifiers[at].priority <= modifiers[modifiers.len() - 1].priority);
                }
            }
        }
        assert forall|k: int| 0 <= k < result.len() implies #[trigger] result[k] == modifier
            || modifiers.contains(result[k]) by {
            if k < inner.len() {
                if inner[k] != modifier {
                    let at = choose|at: int| 0 <= at < rest.len() && rest[at] == inner[k];
                    assert(modifiers[at] == inner[k]);
                }
            } else {
                assert(modifiers[modifiers.len() - 1] == result[k]);
            }
        }
    }
}

/// The modifiers are applied in ascending order of priority, and each of them
/// is applied: putting them in order keeps them all.
pub proof fn law_sorted_by_priority(modifiers: Seq<ActiveModifier>)
    ensures
        ascending(sort_by_priority(modifiers)),
        sort_by_priority(modifiers).len() == modifiers.len(),
        sort_by_priority(modifiers).to_multiset() == modifiers.to_multiset(),
    decreases modifiers.len(),
{
    if modifiers.len() == 0 {
    } else {
        let rest = modifiers.drop_last();
        law_sorted_by_priority(rest);
        lemma_insert_by_priority(sort_by_priority(rest), modifiers.last());
        vstd::seq_lib::to_multiset_build(rest, modifiers.last());
        assert(rest.push(modifiers.last()) =~= modifiers);
    }
}

/// Tells whether a modifier has the priority `priority`.
pub open spec fn of_priority(priority: u16) -> spec_fn(ActiveModifier) -> bool {
    |modifier: ActiveModifier| modifier.priority == priority
}

/// A pushed modifier is the last of those of its priority.
proof fn lemma_filter_push(modifiers: Seq<ActiveModifier>, modifier: ActiveModifier, priority: u16)
    ensures
        modifiers.push(modifier).filter(of_priority(priority)) == if modifier.priority
            == priority {
            modifiers.filter(of_priority(priority)).push(modifier)
        } else {
            modifiers.filter(of_priority(priority))
        },
{
    reveal(Seq::filter);
    assert(modifiers.push(modifier).drop_last() =~= modifiers);
}

/// An inserted modifier goes behind those of its priority, and the others
/// stay as they are among those of theirs.
proof fn lemma_insert_stable(modifiers: Seq<ActiveModifier>, modifier: ActiveModifier, priority: u16)
    ensures
        insert_by_priority(modifiers, modifier).filter(of_priority(priority))
            == if modifier.priority == priority {
            modifiers.filter(of_priority(priority)).push(modifier)
        } else {
            modifiers.filter(of_priority(priority))
        },
    decreases modifiers.len(),
{
    if modifiers.len() == 0 || modifiers.last().priority <= modifier.priority {
        lemma_filter_push(modifiers, modifier, priority);
    } else {
        let rest = modifiers.drop_last();
        let last = modifiers.last();
        lemma_insert_stable(rest, modifier, priority);
        lemma_filter_push(insert_by_priority(rest, modifier), last, priority);
        lemma_filter_push(rest, last, priority);
        assert(rest.push(last) =~= modifiers);
    }
}

/// Modifiers of one priority are applied in the order of their
/// registration: among them, putting all modifiers in order changes nothing.
pub proof fn law_sort_stable(modifiers: Seq<ActiveModifier>, priority: u16)
    ensures
        sort_by_priority(modifiers).filter(of_priority(priority)) == modifiers.filter(
            of_priority(priority),
        ),
    decreases modifiers.len(),
{
    if modifiers.len() > 0 {
        let rest = modifiers.drop_last();
        law_sort_stable(rest, priority);
        lemma_insert_stable(sort_by_priority(rest), modifiers.last(), priority);
        lemma_filter_push(rest, modifiers.last(), priority);
        assert(rest.push(modifiers.last()) =~= modifiers);
    }
}

/// Of two modifiers the one with the lower priority is applied first,
/// whichever was registered first, and the other one works on its result.
/// Modifiers of the same priority are applied in the order of registration.
pub proof fn law_priority_order(
    state: CharacterView,
    id: ValueId,
    low: ActiveModifier,
    high: ActiveModifier,
)
    requires
        low.priority <= high.priority,
    ensures
        sort_by_priority(seq![low, high]) == seq![low, high],
        low.priority < high.priority ==> sort_by_priority(seq![high, low]) == seq![low, high],
        state.modified(id, seq![low, high]) == state.repeated(
            id,
            low.calculation,
            low.weight as nat,
        ).repeated(id, high.calculation, high.weight as nat),
{
    let empty = Seq::<ActiveModifier>::empty();
    assert(seq![low, high].drop_last() =~= seq![low]);
    assert(seq![high, low].drop_last() =~= seq![high]);
    assert(seq![low].drop_last() =~= empty);
    assert(seq![high].drop_last() =~= empty);
    assert(sort_by_priority(empty) =~= empty);
    assert(insert_by_priority(empty, low) =~= seq![low]);
    assert(insert_by_priority(empty, high) =~= seq![high]);
    assert(sort_by_priority(seq![low]) =~= seq![low]);
    assert(sort_by_priority(seq![high]) =~= seq![high]);
    assert(insert_by_priority(seq![low], high) =~= seq![low, high]);
    if low.priority < high.priority {
        assert(insert_by_priority(seq![high], low) =~= seq![low, high]) by {
            assert(insert_by_priority(seq![high].drop_last(), low) =~= seq![low]);
            assert(seq![low].push(high) =~= seq![low, high]);
        }
    }
    assert(state.modified(id, empty) == state);
    assert(state.modified(id, seq![low]) == state.repeated(
        id,
        low.calculation,
        low.weight as nat,
    ));
}

} // verus!
