//! Updates keep a character in line with its model: every value is what
//! computing it anew would give, as long as the modifiers in force for it
//! read no other value, and every item with a condition counts what its
//! condition gives.

use vstd::prelude::*;
use super::sheet::{
    count_of, dependency_total, insert_by_priority, lemma_total_agrees, sort_by_priority,
    ActiveModifier, CharacterView,
};
use crate::model::expression::Expr;
use crate::model::modification::targets;
use crate::model::structure::{
    item_id, lemma_top, list_self_contained, reads_only, top, value_id, ModelView,
};
use crate::model::{ChoiceId, ItemId, ValueId};

verus! {

/// Every modifier reads no value but `id`.
pub open spec fn all_read_only(modifiers: Seq<ActiveModifier>, id: ValueId) -> bool {
    forall|k: int| 0 <= k < modifiers.len() ==> reads_only((#[trigger] modifiers[k]).calculation, id)
}

impl CharacterView {
    /// The current value of the value at `v` is what computing it anew
    /// gives. This is said of a value only while every modifier in force for
    /// it reads no other value, as is the case while none is in force: a
    /// modifier that reads another value is not applied again when that
    /// value changes.
    pub open spec fn value_in_line(self, model: ModelView, v: int) -> bool {
        all_read_only(self.active_modifiers(model, value_id(v)), value_id(v))
            ==> self.recomputed(model, value_id(v)).actual(value_id(v))
            == self.values[v].actual
    }

    /// If the item at `i` has a condition, its count is what the condition
    /// gives.
    pub open spec fn item_in_line(self, model: ModelView, i: int) -> bool {
        model.items[i].condition matches Some(e) ==> self.items[i].count == count_of(
            e.eval(self.env()),
        )
    }

    /// Every value is in line.
    pub open spec fn values_in_line(self, model: ModelView) -> bool {
        forall|v: int| 0 <= v < self.values.len() ==> #[trigger] self.value_in_line(model, v)
    }

    /// Every item with a condition is in line.
    pub open spec fn items_in_line(self, model: ModelView) -> bool {
        forall|i: int| 0 <= i < self.items.len() ==> #[trigger] self.item_in_line(model, i)
    }

    /// The two characters agree in all that the value at `v` is computed
    /// from: its base, the values that its dependencies read, the counts of
    /// the items that modify it and what the choices put in force for it.
    pub open spec fn agrees_for(self, other: CharacterView, model: ModelView, v: int) -> bool {
        &&& self.values.len() == other.values.len()
        &&& self.values[v].base == other.values[v].base
        &&& forall|j: int, id: ValueId|
            0 <= j < model.values[v].dependencies.len()
                && #[trigger] model.values[v].dependencies[j].reads(id) ==> self.actual(id)
                == other.actual(id)
        &&& forall|j: int|
            0 <= j < model.values[v].modifying_items.len() ==> self.count(
                #[trigger] model.values[v].modifying_items[j],
            ) == other.count(model.values[v].modifying_items[j])
        &&& forall|j: int|
            0 <= j < model.values[v].modifying_choices.len() ==> self.choice_modifier(
                model,
                value_id(v),
                #[trigger] model.values[v].modifying_choices[j],
            ) == other.choice_modifier(model, value_id(v), model.values[v].modifying_choices[j])
    }

    /// Characters with the same counts have the same modifiers of items in
    /// force.
    proof fn lemma_item_modifiers_agree(
        self,
        other: CharacterView,
        model: ModelView,
        id: ValueId,
        n: int,
    )
        requires
            n <= model.value(id).modifying_items.len(),
            forall|j: int|
                0 <= j < n ==> self.count(#[trigger] model.value(id).modifying_items[j])
                    == other.count(model.value(id).modifying_items[j]),
        ensures
            self.item_modifiers(model, id, n) == other.item_modifiers(model, id, n),
        decreases n,
    {
        if n > 0 {
            self.lemma_item_modifiers_agree(other, model, id, n - 1);
            assert(self.count(model.value(id).modifying_items[n - 1]) == other.count(
                model.value(id).modifying_items[n - 1],
            ));
        }
    }

    /// Characters with the same selections have the same modifiers of
    /// choices in force.
    proof fn lemma_choice_modifiers_agree(
        self,
        other: CharacterView,
        model: ModelView,
        id: ValueId,
        n: int,
    )
        requires
            n <= model.value(id).modifying_choices.len(),
            forall|j: int|
                0 <= j < n ==> self.choice_modifier(
                    model,
                    id,
                    #[trigger] model.value(id).modifying_choices[j],
                ) == other.choice_modifier(model, id, model.value(id).modifying_choices[j]),
        ensures
            self.choice_modifiers(model, id, n) == other.choice_modifiers(model, id, n),
        decreases n,
    {
        if n > 0 {
            self.lemma_choice_modifiers_agree(other, model, id, n - 1);
            let choice = model.value(id).modifying_choices[n - 1];
            assert(self.choice_modifier(model, id, choice) == other.choice_modifier(
                model,
                id,
                choice,
            ));
        }
    }

    /// In a model whose modifications read only their targets, the modifiers
    /// of items that are in force for `id` read only `id`.
    proof fn lemma_item_modifiers_contained(self, model: ModelView, id: ValueId, n: int)
        requires
            model.wf(),
            model.self_contained(),
            model.has_value(id),
            n <= model.value(id).modifying_items.len(),
        ensures
            all_read_only(self.item_modifiers(model, id, n), id),
        decreases n,
    {
        if n > 0 {
            self.lemma_item_modifiers_contained(model, id, n - 1);
            let before = self.item_modifiers(model, id, n - 1);
            let item = model.value(id).modifying_items[n - 1];
            assert(model.value_wf(id.0 as int));
            assert(model.has_item(item));
            assert(value_id(id.0 as int) == id);
            let list = model.item(item).modifications;
            assert(targets(list).contains(id));
            let at = targets(list).index_of(id);
            assert(targets(list)[at] == id);
            assert(list_self_contained(model.items[item.0 as int].modifications));
            assert(reads_only(list[at].1.calculation, list[at].0));
            let now = self.item_modifiers(model, id, n);
            assert forall|k: int| 0 <= k < now.len() implies reads_only(
                (#[trigger] now[k]).calculation,
                id,
            ) by {
                if k < before.len() {
                    assert(now[k] == before[k]);
                }
            }
        }
    }

    /// In a model whose modifications read only their targets, the modifiers
    /// of choices that are in force for `id` read only `id`.
    proof fn lemma_choice_modifiers_contained(self, model: ModelView, id: ValueId, n: int)
        requires
            model.wf(),
            model.self_contained(),
            self.fits(model),
            model.has_value(id),
            n <= model.value(id).modifying_choices.len(),
        ensures
            all_read_only(self.choice_modifiers(model, id, n), id),
        decreases n,
    {
        if n > 0 {
            self.lemma_choice_modifiers_contained(model, id, n - 1);
            let before = self.choice_modifiers(model, id, n - 1);
            let choice = model.value(id).modifying_choices[n - 1];
            assert(model.value_wf(id.0 as int));
            assert(model.has_choice(choice));
            let selection = self.choices[choice.0 as int];
            let now = self.choice_modifiers(model, id, n);
            if selection > 0 {
                let option = model.choices[choice.0 as int].options[selection - 1];
                let list = option.modifications;
                assert(list_self_contained(option.modifications));
                if targets(list).contains(id) {
                    let at = targets(list).index_of(id);
                    assert(targets(list)[at] == id);
                    assert(reads_only(list[at].1.calculation, list[at].0));
                }
            }
            assert forall|k: int| 0 <= k < now.len() implies reads_only(
                (#[trigger] now[k]).calculation,
                id,
            ) by {
                if k < before.len() {
                    assert(now[k] == before[k]);
                }
            }
        }
    }

    /// Applying a calculation that reads only `id` again and again gives the
    /// same current value of `id` on characters that start with the same one.
    proof fn lemma_repeated_agrees(
        self,
        other: CharacterView,
        id: ValueId,
        calculation: Expr,
        times: nat,
    )
        requires
            id.0 < self.values.len(),
            self.values.len() == other.values.len(),
            self.actual(id) == other.actual(id),
            reads_only(calculation, id),
        ensures
            self.repeated(id, calculation, times).actual(id) == other.repeated(
                id,
                calculation,
                times,
            ).actual(id),
        decreases times,
    {
        if times > 0 {
            let a = self.repeated(id, calculation, (times - 1) as nat);
            let b = other.repeated(id, calculation, (times - 1) as nat);
            self.lemma_repeated_agrees(other, id, calculation, (times - 1) as nat);
            self.lemma_repeated_frame(id, calculation, (times - 1) as nat);
            other.lemma_repeated_frame(id, calculation, (times - 1) as nat);
            assert forall|read: ValueId| #[trigger] calculation.reads(read) implies a.env()(read)
                == b.env()(read) by {}
            calculation.lemma_eval_agrees(a.env(), b.env());
        }
    }

    /// Applying modifiers that read only `id` gives the same current value of
    /// `id` on characters that start with the same one.
    proof fn lemma_modified_agrees(
        self,
        other: CharacterView,
        id: ValueId,
        modifiers: Seq<ActiveModifier>,
    )
        requires
            id.0 < self.values.len(),
            self.values.len() == other.values.len(),
            self.actual(id) == other.actual(id),
            all_read_only(modifiers, id),
        ensures
            self.modified(id, modifiers).actual(id) == other.modified(id, modifiers).actual(id),
        decreases modifiers.len(),
    {
        if modifiers.len() > 0 {
            let rest = modifiers.drop_last();
            assert forall|k: int| 0 <= k < rest.len() implies reads_only(
                (#[trigger] rest[k]).calculation,
                id,
            ) by {
                assert(rest[k] == modifiers[k]);
            }
            self.lemma_modified_agrees(other, id, rest);
            self.lemma_modified_frame(id, rest);
            other.lemma_modified_frame(id, rest);
            assert(reads_only(modifiers[modifiers.len() - 1].calculation, id));
            self.modified(id, rest).lemma_repeated_agrees(
                other.modified(id, rest),
                id,
                modifiers.last().calculation,
                modifiers.last().weight as nat,
            );
        }
    }

    /// Characters that agree in what the items and choices put in force for
    /// a value have the same modifiers in force for it.
    pub proof fn lemma_active_agrees(self, other: CharacterView, model: ModelView, v: int)
        requires
            forall|j: int|
                0 <= j < model.values[v].modifying_items.len() ==> self.count(
                    #[trigger] model.values[v].modifying_items[j],
                ) == other.count(model.values[v].modifying_items[j]),
            forall|j: int|
                0 <= j < model.values[v].modifying_choices.len() ==> self.choice_modifier(
                    model,
                    value_id(v),
                    #[trigger] model.values[v].modifying_choices[j],
                ) == other.choice_modifier(model, value_id(v), model.values[v].modifying_choices[j]),
            value_id(v).0 == v,
        ensures
            self.active_modifiers(model, value_id(v)) == other.active_modifiers(
                model,
                value_id(v),
            ),
    {
        let id = value_id(v);
        assert forall|j: int|
            0 <= j < model.value(id).modifying_items.len() implies self.count(
            #[trigger] model.value(id).modifying_items[j],
        ) == other.count(model.value(id).modifying_items[j]) by {
            assert(self.count(model.values[v].modifying_items[j]) == other.count(
                model.values[v].modifying_items[j],
            ));
        }
        self.lemma_item_modifiers_agree(
            other,
            model,
            id,
            model.value(id).modifying_items.len() as int,
        );
        assert forall|j: int|
            0 <= j < model.value(id).modifying_choices.len() implies self.choice_modifier(
            model,
            id,
            #[trigger] model.value(id).modifying_choices[j],
        ) == other.choice_modifier(model, id, model.value(id).modifying_choices[j]) by {
            let choice = model.values[v].modifying_choices[j];
            assert(self.choice_modifier(model, id, choice) == other.choice_modifier(
                model,
                id,
                choice,
            ));
        }
        self.lemma_choice_modifiers_agree(
            other,
            model,
            id,
            model.value(id).modifying_choices.len() as int,
        );
    }

    /// Characters that agree in all that a value is computed from get the
    /// same value when it is computed anew, if the modifiers in force for it
    /// read no other value.
    pub proof fn lemma_recomputed_agrees(self, other: CharacterView, model: ModelView, v: int)
        requires
            model.wf(),
            all_read_only(self.active_modifiers(model, value_id(v)), value_id(v)),
            self.fits(model),
            other.fits(model),
            0 <= v < model.values.len(),
            self.agrees_for(other, model, v),
        ensures
            self.recomputed(model, value_id(v)).actual(value_id(v)) == other.recomputed(
                model,
                value_id(v),
            ).actual(value_id(v)),
    {
        let id = value_id(v);
        assert(model.has_value(id));
        assert forall|j: int, read: ValueId|
            0 <= j < model.values[v].dependencies.len()
                && #[trigger] model.values[v].dependencies[j].reads(read) implies self.env()(read)
            == other.env()(read) by {
            assert(self.actual(read) == other.actual(read));
        }
        lemma_total_agrees(
            self.base(id),
            model.values[v].dependencies,
            self.env(),
            other.env(),
        );
        let a = self.apply_dependencies(model, id);
        let b = other.apply_dependencies(model, id);
        assert(a.actual(id) == b.actual(id));
        assert forall|j: int|
            0 <= j < model.value(id).modifying_items.len() implies a.count(
            #[trigger] model.value(id).modifying_items[j],
        ) == b.count(model.value(id).modifying_items[j]) by {
            assert(self.count(model.values[v].modifying_items[j]) == other.count(
                model.values[v].modifying_items[j],
            ));
        }
        a.lemma_item_modifiers_agree(b, model, id, model.value(id).modifying_items.len() as int);
        assert forall|j: int|
            0 <= j < model.value(id).modifying_choices.len() implies a.choice_modifier(
            model,
            id,
            #[trigger] model.value(id).modifying_choices[j],
        ) == b.choice_modifier(model, id, model.value(id).modifying_choices[j]) by {
            let choice = model.values[v].modifying_choices[j];
            assert(self.choice_modifier(model, id, choice) == other.choice_modifier(
                model,
                id,
                choice,
            ));
        }
        a.lemma_choice_modifiers_agree(
            b,
            model,
            id,
            model.value(id).modifying_choices.len() as int,
        );
        let active = a.active_modifiers(model, id);
        assert(active == b.active_modifiers(model, id));
        a.lemma_active_agrees(self, model, v);
        lemma_sorted_all_read_only(active, id);
        a.lemma_modified_agrees(b, id, sort_by_priority(active));
    }
}

impl CharacterView {
    /// Every value that is in line in `self` is in line in `after`.
    pub open spec fn values_kept(self, after: CharacterView, model: ModelView) -> bool {
        forall|v: int|
            0 <= v < self.values.len() && self.value_in_line(model, v)
                ==> #[trigger] after.value_in_line(model, v)
    }

    /// Every item that is in line in `self` is in line in `after`.
    pub open spec fn items_kept(self, after: CharacterView, model: ModelView) -> bool {
        forall|i: int|
            0 <= i < self.items.len() && self.item_in_line(model, i)
                ==> #[trigger] after.item_in_line(model, i)
    }

    /// A value that keeps its current value and all that it is computed from
    /// stays in line.
    proof fn lemma_value_stays(self, before: CharacterView, model: ModelView, v: int)
        requires
            model.wf(),
            self.fits(model),
            before.fits(model),
            0 <= v < model.values.len(),
            self.agrees_for(before, model, v),
            self.values[v].actual == before.values[v].actual,
            before.value_in_line(model, v),
        ensures
            self.value_in_line(model, v),
    {
        self.lemma_active_agrees(before, model, v);
        if all_read_only(self.active_modifiers(model, value_id(v)), value_id(v)) {
            self.lemma_recomputed_agrees(before, model, v);
        }
    }

    /// An item stays in line if its count and the values that its condition
    /// reads stay as they are.
    proof fn lemma_item_stays(self, before: CharacterView, model: ModelView, i: int)
        requires
            model.wf(),
            0 <= i < model.items.len(),
            self.items[i].count == before.items[i].count,
            model.items[i].condition matches Some(e) ==> forall|read: ValueId| #[trigger]
                e.reads(read) ==> self.actual(read) == before.actual(read),
            before.item_in_line(model, i),
        ensures
            self.item_in_line(model, i),
    {
        if model.items[i].condition is Some {
            let e = model.items[i].condition.unwrap();
            assert forall|read: ValueId| #[trigger] e.reads(read) implies self.env()(read)
                == before.env()(read) by {
                assert(self.actual(read) == before.actual(read));
            }
            e.lemma_eval_agrees(self.env(), before.env());
        }
    }

    /// An update of a value brings it in line and leaves in line what was.
    pub proof fn lemma_update_value_in_line(self, model: ModelView, id: ValueId)
        requires
            model.wf(),
            self.fits(model),
            model.has_value(id),
        ensures
            self.update_value(model, id).value_in_line(model, id.0 as int),
            self.values_kept(self.update_value(model, id), model),
            self.items_kept(self.update_value(model, id), model),
        decreases model.value_ranks()[id.0 as int], 3nat, 0nat,
    {
        let n = self.values.len() as int;
        let fresh = self.recomputed(model, id);
        self.lemma_recomputed_frame(model, id);
        assert(fresh.same_frame(self));
        model.lemma_ranks();
        assert(model.value_wf(id.0 as int));
        assert(model.dependents_known(id.0 as int));
        assert(value_id(id.0 as int) == id);
        let dependents = model.value(id).dependents;
        let conditions = model.value(id).conditions;
        // The value itself is in line once it is computed.
        assert(fresh.agrees_for(self, model, id.0 as int)) by {
            assert forall|j: int, read: ValueId|
                0 <= j < model.values[id.0 as int].dependencies.len()
                    && #[trigger] model.values[id.0 as int].dependencies[j].reads(
                    read,
                ) implies fresh.actual(read) == self.actual(read) by {
                assert(model.expr_ok(model.values[id.0 as int].dependencies[j]));
                assert(model.has_value(read));
                if read.0 == id.0 {
                    assert(read == id);
                    assert(dependents.contains(id));
                    let at = choose|at: int| 0 <= at < dependents.len() && dependents[at] == id;
                    assert(model.values[id.0 as int].dependents[at] == id);
                }
            }
        }
        if all_read_only(fresh.active_modifiers(model, id), id) {
            fresh.lemma_recomputed_agrees(self, model, id.0 as int);
        }
        assert(fresh.value_in_line(model, id.0 as int));
        // What does not read the value stays in line.
        assert forall|v: int|
            0 <= v < n && self.value_in_line(model, v) && v != id.0 && !dependents.contains(
                value_id(v),
            ) implies fresh.value_in_line(model, v) by {
            assert(model.value_wf(v));
            assert(model.dependents_known(v));
            assert(fresh.agrees_for(self, model, v)) by {
                assert forall|j: int, read: ValueId|
                    0 <= j < model.values[v].dependencies.len()
                        && #[trigger] model.values[v].dependencies[j].reads(
                        read,
                    ) implies fresh.actual(read) == self.actual(read) by {
                    assert(model.expr_ok(model.values[v].dependencies[j]));
                    assert(model.has_value(read));
                    if read.0 == id.0 {
                        assert(read == id);
                        assert(model.value(read).dependents.contains(value_id(v)));
                    }
                }
            }
            fresh.lemma_value_stays(self, model, v);
        }
        assert forall|i: int|
            0 <= i < self.items.len() && self.item_in_line(model, i) && !conditions.contains(
                item_id(i),
            ) implies fresh.item_in_line(model, i) by {
            assert(model.item_wf(i));
            if model.items[i].condition is Some {
                let e = model.items[i].condition.unwrap();
                assert forall|read: ValueId| #[trigger] e.reads(read) implies fresh.actual(read)
                    == self.actual(read) by {
                    assert(model.has_value(read));
                    if read.0 == id.0 {
                        assert(read == id);
                        assert(model.value(read).conditions.contains(item_id(i)));
                    }
                }
            }
            fresh.lemma_item_stays(self, model, i);
        }
        // The change is carried on.
        fresh.lemma_update_dependents_in_line(model, id, dependents.len());
        fresh.lemma_update_dependents_frame(model, id, dependents.len());
        let carried = fresh.update_dependents(model, id, dependents.len());
        carried.lemma_update_conditions_in_line(model, id, conditions.len());
        let last = carried.update_conditions(model, id, conditions.len());
        assert(last == self.update_value(model, id));
        assert(carried.value_in_line(model, id.0 as int));
        assert(last.value_in_line(model, id.0 as int));
        assert forall|v: int| 0 <= v < n && self.value_in_line(model, v) implies #[trigger] last.value_in_line(
            model,
            v,
        ) by {
            if v == id.0 {
            } else if dependents.contains(value_id(v)) {
                let at = choose|at: int| 0 <= at < dependents.len() && dependents[at] == value_id(
                    v,
                );
                assert(carried.value_in_line(model, dependents[at].0 as int));
                assert(carried.value_in_line(model, v));
            } else {
                assert(fresh.value_in_line(model, v));
                assert(carried.value_in_line(model, v));
            }
        }
        assert forall|i: int|
            0 <= i < self.items.len() && self.item_in_line(model, i) implies #[trigger] last.item_in_line(
            model,
            i,
        ) by {
            if conditions.contains(item_id(i)) {
                let at = choose|at: int| 0 <= at < conditions.len() && conditions[at] == item_id(
                    i,
                );
                assert(last.item_in_line(model, conditions[at].0 as int));
            } else {
                assert(fresh.item_in_line(model, i));
                assert(carried.item_in_line(model, i));
            }
        }
    }

    /// Updates of dependents bring them in line and leave in line what was.
    pub proof fn lemma_update_dependents_in_line(self, model: ModelView, id: ValueId, n: nat)
        requires
            model.wf(),
            self.fits(model),
            model.has_value(id),
            n <= model.value(id).dependents.len(),
        ensures
            self.values_kept(self.update_dependents(model, id, n), model),
            self.items_kept(self.update_dependents(model, id, n), model),
            forall|j: int|
                0 <= j < n ==> self.update_dependents(model, id, n).value_in_line(
                    model,
                    (#[trigger] model.value(id).dependents[j]).0 as int,
                ),
        decreases model.value_ranks()[id.0 as int], 2nat, n,
    {
        if n > 0 {
            model.lemma_ranks();
            assert(model.value_wf(id.0 as int));
            let next = model.values[id.0 as int].dependents[n - 1];
            assert(model.has_value(next));
            let before = self.update_dependents(model, id, (n - 1) as nat);
            self.lemma_update_dependents_in_line(model, id, (n - 1) as nat);
            self.lemma_update_dependents_frame(model, id, (n - 1) as nat);
            before.lemma_update_value_in_line(model, next);
            let after = before.update_value(model, next);
            assert(after == self.update_dependents(model, id, n));
            assert forall|v: int|
                0 <= v < self.values.len() && self.value_in_line(model, v) implies #[trigger] after.value_in_line(
                model,
                v,
            ) by {
                assert(before.value_in_line(model, v));
            }
            assert forall|i: int|
                0 <= i < self.items.len() && self.item_in_line(model, i) implies #[trigger] after.item_in_line(
                model,
                i,
            ) by {
                assert(before.item_in_line(model, i));
            }
            assert forall|j: int| 0 <= j < n implies after.value_in_line(
                model,
                (#[trigger] model.value(id).dependents[j]).0 as int,
            ) by {
                let d = model.value(id).dependents[j];
                assert(model.has_value(d));
                if j < n - 1 {
                    assert(before.value_in_line(model, d.0 as int));
                }
            }
        }
    }

    /// Updates of conditions bring the items in line and leave in line what
    /// was.
    pub proof fn lemma_update_conditions_in_line(self, model: ModelView, id: ValueId, n: nat)
        requires
            model.wf(),
            self.fits(model),
            model.has_value(id),
            n <= model.value(id).conditions.len(),
        ensures
            self.values_kept(self.update_conditions(model, id, n), model),
            self.items_kept(self.update_conditions(model, id, n), model),
            forall|j: int|
                0 <= j < n ==> self.update_conditions(model, id, n).item_in_line(
                    model,
                    (#[trigger] model.value(id).conditions[j]).0 as int,
                ),
        decreases model.value_ranks()[id.0 as int], 2nat, n,
    {
        if n > 0 {
            model.lemma_ranks();
            assert(model.value_wf(id.0 as int));
            let next = model.values[id.0 as int].conditions[n - 1];
            assert(model.has_item(next));
            let before = self.update_conditions(model, id, (n - 1) as nat);
            self.lemma_update_conditions_in_line(model, id, (n - 1) as nat);
            self.lemma_update_conditions_frame(model, id, (n - 1) as nat);
            before.lemma_update_condition_in_line(model, next);
            let after = before.update_condition(model, next);
            assert(after == self.update_conditions(model, id, n));
            assert forall|v: int|
                0 <= v < self.values.len() && self.value_in_line(model, v) implies #[trigger] after.value_in_line(
                model,
                v,
            ) by {
                assert(before.value_in_line(model, v));
            }
            assert forall|i: int|
                0 <= i < self.items.len() && self.item_in_line(model, i) implies #[trigger] after.item_in_line(
                model,
                i,
            ) by {
                assert(before.item_in_line(model, i));
            }
            assert forall|j: int| 0 <= j < n implies after.item_in_line(
                model,
                (#[trigger] model.value(id).conditions[j]).0 as int,
            ) by {
                let c = model.value(id).conditions[j];
                assert(model.has_item(c));
                if j < n - 1 {
                    assert(before.item_in_line(model, c.0 as int));
                }
            }
        }
    }

    /// An update of a condition brings the item in line and leaves in line
    /// what was.
    pub proof fn lemma_update_condition_in_line(self, model: ModelView, item: ItemId)
        requires
            model.wf(),
            self.fits(model),
            model.has_item(item),
            model.item(item).condition is Some,
        ensures
            self.update_condition(model, item).item_in_line(model, item.0 as int),
            self.values_kept(self.update_condition(model, item), model),
            self.items_kept(self.update_condition(model, item), model),
            forall|k: int|
                0 <= k < model.item(item).modifications.len() ==> self.update_condition(
                    model,
                    item,
                ).value_in_line(model, (#[trigger] model.item(item).modifications[k]).0.0 as int),
        decreases model.item_ranks()[item.0 as int], 1nat, 0nat,
    {
        let e = model.item(item).condition.unwrap();
        let count = count_of(e.eval(self.env()));
        let counted = self.with_count(item, count);
        assert(model.item_wf(item.0 as int));
        assert(self.items[item.0 as int].inventories is None);
        assert(counted.same_frame(self));
        assert(counted.item_in_line(model, item.0 as int));
        self.lemma_counted_in_line(model, item, count);
        let list = model.item(item).modifications;
        counted.lemma_update_targets_in_line(model, item, list.len());
        let last = counted.update_targets(model, item, list.len());
        assert(last == self.update_condition(model, item));
        assert forall|v: int|
            0 <= v < self.values.len() && self.value_in_line(model, v) implies #[trigger] last.value_in_line(
            model,
            v,
        ) by {
            if targets(list).contains(value_id(v)) {
                let at = choose|at: int| 0 <= at < list.len() && targets(list)[at] == value_id(v);
                assert(last.value_in_line(model, list[at].0.0 as int));
            } else {
                assert(counted.value_in_line(model, v));
            }
        }
        assert forall|i: int|
            0 <= i < self.items.len() && self.item_in_line(model, i) implies #[trigger] last.item_in_line(
            model,
            i,
        ) by {
            assert(counted.item_in_line(model, i));
        }
    }

    /// Another count of an item leaves in line the items and the values that
    /// the item does not modify.
    pub proof fn lemma_counted_in_line(self, model: ModelView, item: ItemId, count: u16)
        requires
            model.wf(),
            self.fits(model),
            model.has_item(item),
            self.items[item.0 as int].inventories is None,
        ensures
            forall|i: int|
                0 <= i < self.items.len() && i != item.0 && self.item_in_line(model, i)
                    ==> #[trigger] self.with_count(item, count).item_in_line(model, i),
            forall|v: int|
                0 <= v < self.values.len() && self.value_in_line(model, v) && !targets(
                    model.item(item).modifications,
                ).contains(value_id(v)) ==> #[trigger] self.with_count(item, count).value_in_line(
                    model,
                    v,
                ),
    {
        let counted = self.with_count(item, count);
        assert(counted.same_frame(self));
        assert forall|i: int|
            0 <= i < self.items.len() && i != item.0 && self.item_in_line(
                model,
                i,
            ) implies #[trigger] counted.item_in_line(model, i) by {
            counted.lemma_item_stays(self, model, i);
        }
        assert forall|v: int|
            0 <= v < self.values.len() && self.value_in_line(model, v) && !targets(
                model.item(item).modifications,
            ).contains(value_id(v)) implies #[trigger] counted.value_in_line(model, v) by {
            assert(model.value_wf(v));
            assert(counted.agrees_for(self, model, v)) by {
                assert forall|j: int|
                    0 <= j < model.values[v].modifying_items.len() implies counted.count(
                    #[trigger] model.values[v].modifying_items[j],
                ) == self.count(model.values[v].modifying_items[j]) by {
                    let other = model.values[v].modifying_items[j];
                    assert(model.has_item(other));
                    if other.0 == item.0 {
                        assert(other == item);
                    }
                }
            }
            counted.lemma_value_stays(self, model, v);
        }
    }

    /// Updates of the values that an item modifies bring them in line and
    /// leave in line what was.
    pub proof fn lemma_update_targets_in_line(self, model: ModelView, item: ItemId, n: nat)
        requires
            model.wf(),
            self.fits(model),
            model.has_item(item),
            n <= model.item(item).modifications.len(),
        ensures
            self.values_kept(self.update_targets(model, item, n), model),
            self.items_kept(self.update_targets(model, item, n), model),
            forall|k: int|
                0 <= k < n ==> self.update_targets(model, item, n).value_in_line(
                    model,
                    (#[trigger] model.item(item).modifications[k]).0.0 as int,
                ),
        decreases model.item_ranks()[item.0 as int], 0nat, n,
    {
        if n > 0 {
            model.lemma_ranks();
            assert(model.item_wf(item.0 as int));
            let next = model.items[item.0 as int].modifications[n - 1].0;
            assert(model.has_value(next));
            let before = self.update_targets(model, item, (n - 1) as nat);
            self.lemma_update_targets_in_line(model, item, (n - 1) as nat);
            self.lemma_update_targets_frame(model, item, (n - 1) as nat);
            before.lemma_update_value_in_line(model, next);
            let after = before.update_value(model, next);
            assert(after == self.update_targets(model, item, n));
            assert forall|v: int|
                0 <= v < self.values.len() && self.value_in_line(model, v) implies #[trigger] after.value_in_line(
                model,
                v,
            ) by {
                assert(before.value_in_line(model, v));
            }
            assert forall|i: int|
                0 <= i < self.items.len() && self.item_in_line(model, i) implies #[trigger] after.item_in_line(
                model,
                i,
            ) by {
                assert(before.item_in_line(model, i));
            }
            assert forall|k: int| 0 <= k < n implies after.value_in_line(
                model,
                (#[trigger] model.item(item).modifications[k]).0.0 as int,
            ) by {
                let t = model.item(item).modifications[k].0;
                assert(model.has_value(t));
                if k < n - 1 {
                    assert(before.value_in_line(model, t.0 as int));
                }
            }
        }
    }

    /// Setting a base keeps a character in line with its model: if every
    /// value was what computing it anew from the current values gives, every
    /// value is so afterwards, and the items with a condition that counted
    /// what their condition gives do so afterwards.
    pub proof fn law_set_base_in_line(self, model: ModelView, id: ValueId, new: i32)
        requires
            model.wf(),
            self.fits(model),
            model.has_value(id),
        ensures
            self.set_base(model, id, new).fits(model),
            self.values_in_line(model) ==> self.set_base(model, id, new).values_in_line(model),
            self.items_in_line(model) ==> self.set_base(model, id, new).items_in_line(model),
    {
        if new != self.base(id) {
            let based = self.with_base(id, new);
            assert(based.fits(model));
            assert forall|v: int|
                0 <= v < self.values.len() && v != id.0 && self.value_in_line(
                    model,
                    v,
                ) implies #[trigger] based.value_in_line(model, v) by {
                assert(model.value_wf(v));
                assert(based.agrees_for(self, model, v)) by {
                    assert forall|j: int, read: ValueId|
                        0 <= j < model.values[v].dependencies.len()
                            && #[trigger] model.values[v].dependencies[j].reads(
                            read,
                        ) implies based.actual(read) == self.actual(read) by {
                        assert(model.expr_ok(model.values[v].dependencies[j]));
                        assert(model.has_value(read));
                    }
                }
                based.lemma_value_stays(self, model, v);
            }
            assert forall|i: int|
                0 <= i < self.items.len() && self.item_in_line(
                    model,
                    i,
                ) implies #[trigger] based.item_in_line(model, i) by {
                assert(model.item_wf(i));
                if model.items[i].condition is Some {
                    let e = model.items[i].condition.unwrap();
                    assert forall|read: ValueId| #[trigger] e.reads(read) implies based.actual(read)
                        == self.actual(read) by {
                        assert(model.has_value(read));
                    }
                }
                based.lemma_item_stays(self, model, i);
            }
            based.lemma_update_value_in_line(model, id);
            based.lemma_update_value_frame(model, id);
            let last = based.update_value(model, id);
            if self.values_in_line(model) {
                assert forall|v: int| 0 <= v < last.values.len() implies #[trigger] last.value_in_line(
                    model,
                    v,
                ) by {
                    if v != id.0 {
                        assert(self.value_in_line(model, v));
                        assert(based.value_in_line(model, v));
                    }
                }
            }
            if self.items_in_line(model) {
                assert forall|i: int| 0 <= i < last.items.len() implies #[trigger] last.item_in_line(
                    model,
                    i,
                ) by {
                    assert(self.item_in_line(model, i));
                    assert(based.item_in_line(model, i));
                }
            }
        }
    }

    /// Equipping an item without a condition once more keeps a character in
    /// line with its model.
    pub proof fn law_equip_in_line(self, model: ModelView, id: ItemId)
        requires
            model.wf(),
            self.fits(model),
            model.has_item(id),
            model.item(id).condition is None,
            model.item(id).has_inventory is None,
        ensures
            self.equip(model, id).fits(model),
            self.values_in_line(model) ==> self.equip(model, id).values_in_line(model),
            self.items_in_line(model) ==> self.equip(model, id).items_in_line(model),
    {
        let count = (self.count(id) + 1) as u16;
        let counted = self.with_count(id, count);
        assert(self.items[id.0 as int].inventories is None);
        assert(counted.same_frame(self));
        self.lemma_counted_in_line(model, id, count);
        let list = model.item(id).modifications;
        counted.lemma_update_targets_in_line(model, id, list.len());
        counted.lemma_update_targets_frame(model, id, list.len());
        let last = counted.update_targets(model, id, list.len());
        if self.values_in_line(model) {
            assert forall|v: int| 0 <= v < last.values.len() implies #[trigger] last.value_in_line(
                model,
                v,
            ) by {
                assert(self.value_in_line(model, v));
                if targets(list).contains(value_id(v)) {
                    let at = choose|at: int|
                        0 <= at < list.len() && targets(list)[at] == value_id(v);
                    assert(last.value_in_line(model, list[at].0.0 as int));
                } else {
                    assert(counted.value_in_line(model, v));
                }
            }
        }
        if self.items_in_line(model) {
            assert forall|i: int| 0 <= i < last.items.len() implies #[trigger] last.item_in_line(
                model,
                i,
            ) by {
                assert(self.item_in_line(model, i));
                assert(counted.item_in_line(model, i));
            }
        }
    }

    /// Updates of values one after the other bring them in line and leave in
    /// line what was.
    pub proof fn lemma_update_all_in_line(self, model: ModelView, ids: Seq<ValueId>)
        requires
            model.wf(),
            self.fits(model),
            forall|k: int| 0 <= k < ids.len() ==> model.has_value(#[trigger] ids[k]),
        ensures
            self.update_all(model, ids).fits(model),
            self.update_all(model, ids).same_frame(self),
            self.values_kept(self.update_all(model, ids), model),
            self.items_kept(self.update_all(model, ids), model),
            forall|k: int|
                0 <= k < ids.len() ==> self.update_all(model, ids).value_in_line(
                    model,
                    (#[trigger] ids[k]).0 as int,
                ),
        decreases ids.len(),
    {
        if ids.len() > 0 {
            let rest = ids.drop_last();
            assert forall|k: int| 0 <= k < rest.len() implies model.has_value(
                #[trigger] rest[k],
            ) by {
                assert(rest[k] == ids[k]);
            }
            self.lemma_update_all_in_line(model, rest);
            let before = self.update_all(model, rest);
            assert(model.has_value(ids[ids.len() - 1]));
            before.lemma_update_value_in_line(model, ids.last());
            before.lemma_update_value_frame(model, ids.last());
            let after = before.update_value(model, ids.last());
            assert forall|v: int|
                0 <= v < self.values.len() && self.value_in_line(model, v) implies #[trigger] after.value_in_line(
                model,
                v,
            ) by {
                assert(before.value_in_line(model, v));
            }
            assert forall|i: int|
                0 <= i < self.items.len() && self.item_in_line(model, i) implies #[trigger] after.item_in_line(
                model,
                i,
            ) by {
                assert(before.item_in_line(model, i));
            }
            assert forall|k: int| 0 <= k < ids.len() implies after.value_in_line(
                model,
                (#[trigger] ids[k]).0 as int,
            ) by {
                if k < ids.len() - 1 {
                    assert(rest[k] == ids[k]);
                    assert(before.value_in_line(model, rest[k].0 as int));
                    assert(model.has_value(ids[k]));
                }
            }
        }
    }

    /// Making another selection of a choice active keeps a character in line
    /// with its model.
    pub proof fn law_select_in_line(self, model: ModelView, choice: ChoiceId, selection: u16)
        requires
            model.wf(),
            self.fits(model),
            model.has_choice(choice),
            selection <= model.choices[choice.0 as int].options.len(),
        ensures
            self.select(model, choice, selection).fits(model),
            self.values_in_line(model) ==> self.select(model, choice, selection).values_in_line(
                model,
            ),
            self.items_in_line(model) ==> self.select(model, choice, selection).items_in_line(
                model,
            ),
    {
        let before = self.choices[choice.0 as int];
        if selection != before {
            let chosen = self.with_choice(choice, selection);
            let left = Self::selected_targets(model, choice, before);
            let entered = Self::selected_targets(model, choice, selection);
            assert(chosen.fits(model));
            assert(model.choice_wf(choice.0 as int));
            assert forall|k: int| 0 <= k < left.len() implies model.has_value(
                #[trigger] left[k],
            ) by {
                let list = model.choices[choice.0 as int].options[before - 1].modifications;
                assert(model.list_ok(list));
                assert(model.has_value(list[k].0));
            }
            assert forall|k: int| 0 <= k < entered.len() implies model.has_value(
                #[trigger] entered[k],
            ) by {
                let list = model.choices[choice.0 as int].options[selection - 1].modifications;
                assert(model.list_ok(list));
                assert(model.has_value(list[k].0));
            }
            assert forall|v: int|
                0 <= v < self.values.len() && self.value_in_line(model, v) && !left.contains(
                    value_id(v),
                ) && !entered.contains(value_id(v)) implies #[trigger] chosen.value_in_line(
                model,
                v,
            ) by {
                assert(model.value_wf(v));
                assert(chosen.agrees_for(self, model, v)) by {
                    assert forall|j: int|
                        0 <= j < model.values[v].modifying_choices.len() implies chosen.choice_modifier(
                        model,
                        value_id(v),
                        #[trigger] model.values[v].modifying_choices[j],
                    ) == self.choice_modifier(
                        model,
                        value_id(v),
                        model.values[v].modifying_choices[j],
                    ) by {
                        let other = model.values[v].modifying_choices[j];
                        assert(model.has_choice(other));
                        if other.0 == choice.0 {
                            assert(other == choice);
                        }
                    }
                }
                chosen.lemma_value_stays(self, model, v);
            }
            assert forall|i: int|
                0 <= i < self.items.len() && self.item_in_line(
                    model,
                    i,
                ) implies #[trigger] chosen.item_in_line(model, i) by {
                chosen.lemma_item_stays(self, model, i);
            }
            chosen.lemma_update_all_in_line(model, left);
            let first = chosen.update_all(model, left);
            first.lemma_update_all_in_line(model, entered);
            let last = first.update_all(model, entered);
            if self.values_in_line(model) {
                assert forall|v: int| 0 <= v < last.values.len() implies #[trigger] last.value_in_line(
                    model,
                    v,
                ) by {
                    assert(self.value_in_line(model, v));
                    if entered.contains(value_id(v)) {
                        let at = choose|at: int| 0 <= at < entered.len() && entered[at] == value_id(
                            v,
                        );
                        assert(last.value_in_line(model, entered[at].0 as int));
                    } else if left.contains(value_id(v)) {
                        let at = choose|at: int| 0 <= at < left.len() && left[at] == value_id(v);
                        assert(first.value_in_line(model, left[at].0 as int));
                        assert(first.value_in_line(model, v));
                    } else {
                        assert(chosen.value_in_line(model, v));
                        assert(first.value_in_line(model, v));
                    }
                }
            }
            if self.items_in_line(model) {
                assert forall|i: int| 0 <= i < last.items.len() implies #[trigger] last.item_in_line(
                    model,
                    i,
                ) by {
                    assert(self.item_in_line(model, i));
                    assert(chosen.item_in_line(model, i));
                    assert(first.item_in_line(model, i));
                }
            }
        }
    }

    /// A new character has every value in line with its model: each is its
    /// base plus the results of its dependencies.
    pub proof fn law_start_in_line(self, model: ModelView, v: int)
        requires
            model.wf(),
            self.starts(model),
            0 <= v < model.values.len(),
        ensures
            self.value_in_line(model, v),
            self.values[v].actual == dependency_total(
                model.values[v].default,
                model.values[v].dependencies,
                self.env(),
            ),
    {
        let id = value_id(v);
        let first = self.apply_dependencies(model, id);
        assert(first.values =~= self.values);
        assert(first == self);
        self.lemma_nothing_in_force(model, id);
        assert(sort_by_priority(Seq::<ActiveModifier>::empty()) =~= Seq::empty());
    }

    /// The two characters have the same bases and selections, and the same
    /// counts of the items without a condition: they were given the same.
    pub open spec fn same_inputs(self, other: CharacterView, model: ModelView) -> bool {
        &&& self.choices == other.choices
        &&& forall|v: int|
            0 <= v < self.values.len() ==> (#[trigger] self.values[v]).base
                == other.values[v].base
        &&& forall|i: int|
            0 <= i < self.items.len() && model.items[i].condition is None ==> (
            #[trigger] self.items[i]).count == other.items[i].count
    }

    /// Every value is in line in both characters or has the same current
    /// value in both, and every item with a condition is in line in both or
    /// has the same count in both.
    pub open spec fn alike_or_in_line(self, other: CharacterView, model: ModelView) -> bool {
        &&& forall|v: int|
            0 <= v < self.values.len() ==> (#[trigger] self.value_in_line(model, v)
                && other.value_in_line(model, v)) || self.values[v].actual
                == other.values[v].actual
        &&& forall|i: int|
            0 <= i < self.items.len() ==> (#[trigger] self.item_in_line(model, i)
                && other.item_in_line(model, i)) || self.items[i].count == other.items[i].count
    }

    /// Two characters in line that were given the same have the same current
    /// value of the value at `v`.
    proof fn lemma_unique_value(self, other: CharacterView, model: ModelView, v: int)
        requires
            model.wf(),
            model.self_contained(),
            self.fits(model),
            other.fits(model),
            self.alike_or_in_line(other, model),
            self.same_inputs(other, model),
            0 <= v < model.values.len(),
        ensures
            self.values[v] == other.values[v],
        decreases top(model.value_ranks()) + top(model.item_ranks()) - model.value_ranks()[v],
    {
        model.lemma_ranks();
        lemma_top(model.value_ranks(), v);
        assert(model.value_wf(v));
        assert(model.dependents_known(v));
        assert(self.agrees_for(other, model, v)) by {
            assert forall|j: int, read: ValueId|
                0 <= j < model.values[v].dependencies.len()
                    && #[trigger] model.values[v].dependencies[j].reads(
                    read,
                ) implies self.actual(read) == other.actual(read) by {
                assert(model.expr_ok(model.values[v].dependencies[j]));
                assert(model.has_value(read));
                let listed = model.value(read).dependents;
                assert(listed.contains(value_id(v)));
                let at = choose|at: int| 0 <= at < listed.len() && listed[at] == value_id(v);
                assert(model.values[read.0 as int].dependents[at] == value_id(v));
                lemma_top(model.value_ranks(), read.0 as int);
                self.lemma_unique_value(other, model, read.0 as int);
            }
            assert forall|j: int|
                0 <= j < model.values[v].modifying_items.len() implies self.count(
                #[trigger] model.values[v].modifying_items[j],
            ) == other.count(model.values[v].modifying_items[j]) by {
                let item = model.values[v].modifying_items[j];
                assert(model.has_item(item));
                let list = model.item(item).modifications;
                assert(targets(list).contains(value_id(v)));
                let at = choose|at: int| 0 <= at < list.len() && targets(list)[at] == value_id(v);
                assert(model.items[item.0 as int].modifications[at].0 == value_id(v));
                lemma_top(model.item_ranks(), item.0 as int);
                self.lemma_unique_count(other, model, item.0 as int);
            }
            assert forall|j: int|
                0 <= j < model.values[v].modifying_choices.len() implies self.choice_modifier(
                model,
                value_id(v),
                #[trigger] model.values[v].modifying_choices[j],
            ) == other.choice_modifier(
                model,
                value_id(v),
                model.values[v].modifying_choices[j],
            ) by {}
        }
        let id = value_id(v);
        self.lemma_item_modifiers_contained(
            model,
            id,
            model.value(id).modifying_items.len() as int,
        );
        self.lemma_choice_modifiers_contained(
            model,
            id,
            model.value(id).modifying_choices.len() as int,
        );
        lemma_joined_all_read_only(
            self.item_modifiers(model, id, model.value(id).modifying_items.len() as int),
            self.choice_modifiers(model, id, model.value(id).modifying_choices.len() as int),
            id,
        );
        self.lemma_active_agrees(other, model, v);
        self.lemma_recomputed_agrees(other, model, v);
        assert((self.value_in_line(model, v) && other.value_in_line(model, v))
            || self.values[v].actual == other.values[v].actual);
        assert(self.values[v].base == other.values[v].base);
    }

    /// Two characters in line that were given the same have the same count
    /// of the item at `i`.
    proof fn lemma_unique_count(self, other: CharacterView, model: ModelView, i: int)
        requires
            model.wf(),
            model.self_contained(),
            self.fits(model),
            other.fits(model),
            self.alike_or_in_line(other, model),
            self.same_inputs(other, model),
            0 <= i < model.items.len(),
        ensures
            self.items[i].count == other.items[i].count,
        decreases top(model.value_ranks()) + top(model.item_ranks()) - model.item_ranks()[i],
    {
        model.lemma_ranks();
        lemma_top(model.item_ranks(), i);
        assert(model.item_wf(i));
        if model.items[i].condition is Some {
            let e = model.items[i].condition.unwrap();
            assert forall|read: ValueId| #[trigger] e.reads(read) implies self.env()(read)
                == other.env()(read) by {
                assert(model.has_value(read));
                let listed = model.value(read).conditions;
                assert(listed.contains(item_id(i)));
                let at = choose|at: int| 0 <= at < listed.len() && listed[at] == item_id(i);
                assert(model.values[read.0 as int].conditions[at] == item_id(i));
                lemma_top(model.value_ranks(), read.0 as int);
                self.lemma_unique_value(other, model, read.0 as int);
            }
            e.lemma_eval_agrees(self.env(), other.env());
            assert((self.item_in_line(model, i) && other.item_in_line(model, i))
                || self.items[i].count == other.items[i].count);
        }
    }

    /// A character in line is all that its bases, its selections and the
    /// counts of its items without a condition make of it: two characters in
    /// line that were given the same have the same current values and the
    /// same counts. So the values that updates keep up are those that
    /// computing everything from scratch gives.
    pub proof fn law_in_line_unique(self, other: CharacterView, model: ModelView)
        requires
            model.wf(),
            model.self_contained(),
            self.fits(model),
            other.fits(model),
            self.values_in_line(model),
            self.items_in_line(model),
            other.values_in_line(model),
            other.items_in_line(model),
            self.same_inputs(other, model),
        ensures
            self.values == other.values,
            forall|i: int|
                0 <= i < self.items.len() ==> (#[trigger] self.items[i]).count
                    == other.items[i].count,
    {
        assert(self.alike_or_in_line(other, model)) by {
            assert forall|v: int| 0 <= v < self.values.len() implies (
            #[trigger] self.value_in_line(model, v) && other.value_in_line(model, v))
                || self.values[v].actual == other.values[v].actual by {
                assert(other.value_in_line(model, v));
            }
            assert forall|i: int| 0 <= i < self.items.len() implies (
            #[trigger] self.item_in_line(model, i) && other.item_in_line(model, i))
                || self.items[i].count == other.items[i].count by {
                assert(other.item_in_line(model, i));
            }
        }
        self.law_unique(other, model);
    }

    /// Two characters that were given the same have the same current values
    /// and the same counts, if each value and each item with a condition is
    /// in line in both of them or the same in both of them.
    pub proof fn law_unique(self, other: CharacterView, model: ModelView)
        requires
            model.wf(),
            model.self_contained(),
            self.fits(model),
            other.fits(model),
            self.alike_or_in_line(other, model),
            self.same_inputs(other, model),
        ensures
            self.values == other.values,
            forall|i: int|
                0 <= i < self.items.len() ==> (#[trigger] self.items[i]).count
                    == other.items[i].count,
    {
        assert forall|v: int| 0 <= v < self.values.len() implies self.values[v]
            == other.values[v] by {
            self.lemma_unique_value(other, model, v);
        }
        assert(self.values =~= other.values);
        assert forall|i: int| 0 <= i < self.items.len() implies (#[trigger] self.items[i]).count
            == other.items[i].count by {
            self.lemma_unique_count(other, model, i);
        }
    }

    /// Two new characters of one model have the same current value of every
    /// value.
    proof fn lemma_start_unique_at(self, other: CharacterView, model: ModelView, v: int)
        requires
            model.wf(),
            self.starts(model),
            other.starts(model),
            0 <= v < model.values.len(),
        ensures
            self.values[v] == other.values[v],
        decreases top(model.value_ranks()) - model.value_ranks()[v],
    {
        model.lemma_ranks();
        lemma_top(model.value_ranks(), v);
        assert(model.value_wf(v));
        assert(model.dependents_known(v));
        assert forall|j: int, read: ValueId|
            0 <= j < model.values[v].dependencies.len()
                && #[trigger] model.values[v].dependencies[j].reads(read) implies self.env()(read)
            == other.env()(read) by {
            assert(model.expr_ok(model.values[v].dependencies[j]));
            assert(model.has_value(read));
            let listed = model.value(read).dependents;
            assert(listed.contains(value_id(v)));
            let at = choose|at: int| 0 <= at < listed.len() && listed[at] == value_id(v);
            assert(model.values[read.0 as int].dependents[at] == value_id(v));
            lemma_top(model.value_ranks(), read.0 as int);
            self.lemma_start_unique_at(other, model, read.0 as int);
        }
        lemma_total_agrees(
            self.values[v].base,
            model.values[v].dependencies,
            self.env(),
            other.env(),
        );
    }

    /// A model has one start state: what is said of a new character says all
    /// of it.
    pub proof fn law_start_unique(self, other: CharacterView, model: ModelView)
        requires
            model.wf(),
            self.starts(model),
            other.starts(model),
        ensures
            self == other,
    {
        assert forall|v: int| 0 <= v < self.values.len() implies self.values[v]
            == other.values[v] by {
            self.lemma_start_unique_at(other, model, v);
        }
        assert(self.values =~= other.values);
        assert(self.items =~= other.items);
        assert(self.choices =~= other.choices);
    }

    /// No modifier is in force on a character that has nothing equipped and
    /// nothing selected.
    proof fn lemma_nothing_in_force(self, model: ModelView, id: ValueId)
        requires
            model.wf(),
            self.fits(model),
            model.has_value(id),
            forall|c: int| 0 <= c < self.choices.len() ==> #[trigger] self.choices[c] == 0,
            forall|i: int| 0 <= i < self.items.len() ==> (#[trigger] self.items[i]).count == 0,
        ensures
            self.active_modifiers(model, id) == Seq::<ActiveModifier>::empty(),
    {
        self.lemma_no_item_modifiers(model, id, model.value(id).modifying_items.len() as int);
        self.lemma_no_choice_modifiers(model, id, model.value(id).modifying_choices.len() as int);
        assert(Seq::<ActiveModifier>::empty() + Seq::<ActiveModifier>::empty() =~= Seq::empty());
    }

    /// No modifier of an item is in force while nothing is equipped.
    proof fn lemma_no_item_modifiers(self, model: ModelView, id: ValueId, n: int)
        requires
            model.wf(),
            self.fits(model),
            model.has_value(id),
            n <= model.value(id).modifying_items.len(),
            forall|i: int| 0 <= i < self.items.len() ==> (#[trigger] self.items[i]).count == 0,
        ensures
            self.item_modifiers(model, id, n) == Seq::<ActiveModifier>::empty(),
        decreases n,
    {
        if n > 0 {
            self.lemma_no_item_modifiers(model, id, n - 1);
            assert(model.value_wf(id.0 as int));
            let item = model.value(id).modifying_items[n - 1];
            assert(model.has_item(item));
            assert(self.items[item.0 as int].count == 0);
        }
    }

    /// No modifier of a choice is in force while nothing is selected.
    proof fn lemma_no_choice_modifiers(self, model: ModelView, id: ValueId, n: int)
        requires
            model.wf(),
            self.fits(model),
            model.has_value(id),
            n <= model.value(id).modifying_choices.len(),
            forall|c: int| 0 <= c < self.choices.len() ==> #[trigger] self.choices[c] == 0,
        ensures
            self.choice_modifiers(model, id, n) == Seq::<ActiveModifier>::empty(),
        decreases n,
    {
        if n > 0 {
            self.lemma_no_choice_modifiers(model, id, n - 1);
            assert(model.value_wf(id.0 as int));
            let choice = model.value(id).modifying_choices[n - 1];
            assert(model.has_choice(choice));
            assert(self.choices[choice.0 as int] == 0);
        }
    }

    /// A value that is in line and that no modifier is in force for is its
    /// base plus the results of its dependencies on the current values.
    pub proof fn law_unmodified_value(self, model: ModelView, id: ValueId)
        requires
            model.has_value(id),
            self.values.len() == model.values.len(),
            self.value_in_line(model, id.0 as int),
            self.active_modifiers(model, id) =~= Seq::<ActiveModifier>::empty(),
        ensures
            self.actual(id) == dependency_total(
                self.base(id),
                model.value(id).dependencies,
                self.env(),
            ),
    {
        assert(value_id(id.0 as int) == id);
        let first = self.apply_dependencies(model, id);
        first.lemma_item_modifiers_agree(
            self,
            model,
            id,
            model.value(id).modifying_items.len() as int,
        );
        first.lemma_choice_modifiers_agree(
            self,
            model,
            id,
            model.value(id).modifying_choices.len() as int,
        );
        assert(first.active_modifiers(model, id) =~= Seq::<ActiveModifier>::empty());
        assert(sort_by_priority(Seq::<ActiveModifier>::empty()) =~= Seq::empty());
    }

    /// After the update of a condition the item is active exactly if the
    /// condition is true of the values as they then are, and every value that
    /// the item modifies is what computing it anew with that count gives.
    pub proof fn law_update_condition(self, model: ModelView, item: ItemId)
        requires
            model.wf(),
            self.fits(model),
            model.has_item(item),
            model.item(item).condition is Some,
        ensures
            self.update_condition(model, item).count(item) != 0 <==> model.item(
                item,
            ).condition.unwrap().eval(self.update_condition(model, item).env()) != 0,
            forall|k: int|
                0 <= k < model.item(item).modifications.len() ==> self.update_condition(
                    model,
                    item,
                ).value_in_line(model, (#[trigger] model.item(item).modifications[k]).0.0 as int),
    {
        self.lemma_update_condition_in_line(model, item);
    }

    /// The character after the bases were set one after the other as `steps`
    /// say.
    pub open spec fn after_bases(self, model: ModelView, steps: Seq<(ValueId, i32)>) -> CharacterView
        decreases steps.len(),
    {
        if steps.len() == 0 {
            self
        } else {
            self.after_bases(model, steps.drop_last()).set_base(
                model,
                steps.last().0,
                steps.last().1,
            )
        }
    }

    /// Setting bases one after the other keeps every value in line, and the
    /// base of each value is the one that was set last, else the one that it
    /// had.
    pub proof fn lemma_after_bases(self, model: ModelView, steps: Seq<(ValueId, i32)>)
        requires
            model.wf(),
            self.fits(model),
            self.values_in_line(model),
            forall|k: int| 0 <= k < steps.len() ==> model.has_value((#[trigger] steps[k]).0),
        ensures
            self.after_bases(model, steps).fits(model),
            self.after_bases(model, steps).values_in_line(model),
            forall|v: int|
                0 <= v < self.values.len() ==> (#[trigger] self.after_bases(
                    model,
                    steps,
                ).values[v]).base == last_base(steps, value_id(v), self.values[v].base),
        decreases steps.len(),
    {
        if steps.len() > 0 {
            let rest = steps.drop_last();
            let (id, new) = steps.last();
            assert forall|k: int| 0 <= k < rest.len() implies model.has_value(
                (#[trigger] rest[k]).0,
            ) by {
                assert(rest[k] == steps[k]);
            }
            self.lemma_after_bases(model, rest);
            let before = self.after_bases(model, rest);
            assert(model.has_value(steps[steps.len() - 1].0));
            before.law_set_base_in_line(model, id, new);
            let after = before.set_base(model, id, new);
            if new != before.base(id) {
                let based = before.with_base(id, new);
                assert(based.fits(model));
                based.lemma_update_value_frame(model, id);
            }
            assert forall|v: int| 0 <= v < self.values.len() implies (#[trigger] after.values[v]).base
                == last_base(steps, value_id(v), self.values[v].base) by {
                assert(before.values[v].base == last_base(rest, value_id(v), self.values[v].base));
                if value_id(v) == id {
                    assert(v == id.0);
                }
            }
        }
    }

    /// From a new character on, after bases were set in any order and any
    /// number of times, a value for which no modifier is in force is its base
    /// plus the results of its dependencies on the current values. Its base is
    /// the one that was set last, else the default. So the value that the
    /// updates keep is the one that computing it from scratch gives.
    pub proof fn law_dependency_correctness(
        self,
        model: ModelView,
        steps: Seq<(ValueId, i32)>,
        id: ValueId,
    )
        requires
            model.wf(),
            self.starts(model),
            forall|k: int| 0 <= k < steps.len() ==> model.has_value((#[trigger] steps[k]).0),
            model.has_value(id),
            self.after_bases(model, steps).active_modifiers(model, id) =~= Seq::<
                ActiveModifier,
            >::empty(),
        ensures
            self.after_bases(model, steps).actual(id) == dependency_total(
                last_base(steps, id, model.value(id).default),
                model.value(id).dependencies,
                self.after_bases(model, steps).env(),
            ),
    {
        assert forall|v: int| 0 <= v < self.values.len() implies #[trigger] self.value_in_line(
            model,
            v,
        ) by {
            self.law_start_in_line(model, v);
        }
        self.lemma_after_bases(model, steps);
        let last = self.after_bases(model, steps);
        assert(value_id(id.0 as int) == id);
        assert(last.value_in_line(model, id.0 as int));
        assert(last.values[id.0 as int].base == last_base(
            steps,
            value_id(id.0 as int),
            self.values[id.0 as int].base,
        ));
        last.law_unmodified_value(model, id);
    }

    /// Equipping an item without a condition changes the count of no other
    /// item without a condition, raises its own by one, and keeps the frame.
    pub proof fn lemma_equip_frame(self, model: ModelView, id: ItemId)
        requires
            model.wf(),
            self.fits(model),
            model.has_item(id),
            model.item(id).condition is None,
            model.item(id).has_inventory is None,
            self.count(id) < u16::MAX,
        ensures
            self.equip(model, id).fits(model),
            self.equip(model, id).same_frame(self),
            self.equip(model, id).count(id) == self.count(id) + 1,
            forall|i: int|
                0 <= i < self.items.len() && i != id.0 && model.items[i].condition is None ==> (
                #[trigger] self.equip(model, id).items[i]) == self.items[i],
    {
        let counted = self.with_count(id, (self.count(id) + 1) as u16);
        assert(self.items[id.0 as int].inventories is None);
        assert(counted.same_frame(self));
        counted.lemma_update_targets_frame(model, id, model.item(id).modifications.len());
        let last = self.equip(model, id);
        assert forall|i: int|
            0 <= i < self.items.len() && i != id.0
                && model.items[i].condition is None implies (#[trigger] last.items[i])
            == self.items[i] by {
            assert(counted.items[i] == self.items[i]);
        }
    }

    /// Equip stacking: an item without a condition that is equipped once
    /// more counts one more; the other items stay as they are, but for those
    /// with a condition that reads a value that the change reaches; and a
    /// value that only this item modifies, by a
    /// calculation of the value alone, is that calculation applied as often
    /// as the item is then equipped, each time to the result of the time
    /// before, starting from the base plus the results of the dependencies.
    pub proof fn law_equip_stacking(
        self,
        model: ModelView,
        item: ItemId,
        id: ValueId,
        priority: u16,
        calculation: Expr,
    )
        requires
            model.wf(),
            self.fits(model),
            model.has_item(item),
            model.item(item).condition is None,
            model.item(item).has_inventory is None,
            self.count(item) < u16::MAX,
            model.has_value(id),
            targets(model.item(item).modifications).contains(id),
            reads_only(calculation, id),
            self.equip(model, item).active_modifiers(model, id) =~= seq![
                ActiveModifier { weight: (self.count(item) + 1) as u16, priority, calculation },
            ],
        ensures
            self.equip(model, item).count(item) == self.count(item) + 1,
            forall|i: int|
                0 <= i < self.items.len() && i != item.0 && (model.items[i].condition is None
                    || !model.item_reaches_item(
                    item,
                    model.item(item).modifications.len() as int,
                    item_id(i),
                )) ==> (#[trigger] self.equip(model, item).items[i]) == self.items[i],
            self.equip(model, item).actual(id) == self.equip(model, item).apply_dependencies(
                model,
                id,
            ).repeated(id, calculation, (self.count(item) + 1) as nat).actual(id),
    {
        self.lemma_equip_frame(model, item);
        self.lemma_equip_reach(model, item);
        let count = (self.count(item) + 1) as u16;
        let counted = self.with_count(item, count);
        assert(self.items[item.0 as int].inventories is None);
        assert(counted.same_frame(self));
        let list = model.item(item).modifications;
        counted.lemma_update_targets_in_line(model, item, list.len());
        let last = self.equip(model, item);
        let at = choose|at: int| 0 <= at < list.len() && targets(list)[at] == id;
        assert(last.value_in_line(model, list[at].0.0 as int));
        assert(value_id(id.0 as int) == id);
        let modifier = ActiveModifier { weight: count, priority, calculation };
        assert(last.active_modifiers(model, id) == seq![modifier]);
        assert(all_read_only(seq![modifier], id));
        let first = last.apply_dependencies(model, id);
        first.lemma_active_agrees(last, model, id.0 as int);
        first.law_single_modifier(model, id, modifier);
    }

    /// An item that is in line is active exactly if its condition is true of
    /// the current values: its count is not 0 exactly if the result of the
    /// condition is not 0. The count is what `count_of` makes of the result.
    pub proof fn law_condition_count(self, model: ModelView, item: ItemId)
        requires
            model.has_item(item),
            model.item(item).condition is Some,
            self.item_in_line(model, item.0 as int),
        ensures
            self.count(item) == count_of(model.item(item).condition.unwrap().eval(self.env())),
            self.count(item) != 0 <==> model.item(item).condition.unwrap().eval(self.env()) != 0,
    {
    }
}

/// The base that was set last for `id` in `steps`; `default` if none was.
pub open spec fn last_base(steps: Seq<(ValueId, i32)>, id: ValueId, default: i32) -> i32
    decreases steps.len(),
{
    if steps.len() == 0 {
        default
    } else if steps.last().0 == id {
        steps.last().1
    } else {
        last_base(steps.drop_last(), id, default)
    }
}

/// Two lists of modifiers that read only `id` make one such list.
proof fn lemma_joined_all_read_only(
    first: Seq<ActiveModifier>,
    second: Seq<ActiveModifier>,
    id: ValueId,
)
    requires
        all_read_only(first, id),
        all_read_only(second, id),
    ensures
        all_read_only(first + second, id),
{
    let both = first + second;
    assert forall|k: int| 0 <= k < both.len() implies reads_only(
        (#[trigger] both[k]).calculation,
        id,
    ) by {
        if k < first.len() {
            assert(both[k] == first[k]);
        } else {
            assert(both[k] == second[k - first.len()]);
        }
    }
}

/// Inserting a modifier that reads only `id` among such modifiers leaves
/// only such modifiers.
proof fn lemma_inserted_all_read_only(
    modifiers: Seq<ActiveModifier>,
    modifier: ActiveModifier,
    id: ValueId,
)
    requires
        all_read_only(modifiers, id),
        reads_only(modifier.calculation, id),
    ensures
        all_read_only(insert_by_priority(modifiers, modifier), id),
    decreases modifiers.len(),
{
    let result = insert_by_priority(modifiers, modifier);
    if modifiers.len() == 0 || modifiers.last().priority <= modifier.priority {
        assert forall|k: int| 0 <= k < result.len() implies reads_only(
            (#[trigger] result[k]).calculation,
            id,
        ) by {
            if k < modifiers.len() {
                assert(result[k] == modifiers[k]);
            }
        }
    } else {
        let rest = modifiers.drop_last();
        assert forall|k: int| 0 <= k < rest.len() implies reads_only(
            (#[trigger] rest[k]).calculation,
            id,
        ) by {
            assert(rest[k] == modifiers[k]);
        }
        lemma_inserted_all_read_only(rest, modifier, id);
        let inner = insert_by_priority(rest, modifier);
        assert forall|k: int| 0 <= k < result.len() implies reads_only(
            (#[trigger] result[k]).calculation,
            id,
        ) by {
            if k < inner.len() {
                assert(result[k] == inner[k]);
            } else {
                assert(result[k] == modifiers[modifiers.len() - 1]);
            }
        }
    }
}

/// Putting modifiers that read only `id` in order leaves only such
/// modifiers.
proof fn lemma_sorted_all_read_only(modifiers: Seq<ActiveModifier>, id: ValueId)
    requires
        all_read_only(modifiers, id),
    ensures
        all_read_only(sort_by_priority(modifiers), id),
    decreases modifiers.len(),
{
    if modifiers.len() > 0 {
        let rest = modifiers.drop_last();
        assert forall|k: int| 0 <= k < rest.len() implies reads_only(
            (#[trigger] rest[k]).calculation,
            id,
        ) by {
            assert(rest[k] == modifiers[k]);
        }
        lemma_sorted_all_read_only(rest, id);
        assert(reads_only(modifiers[modifiers.len() - 1].calculation, id));
        lemma_inserted_all_read_only(sort_by_priority(rest), modifiers.last(), id);
    }
}

} // verus!
