//! What an update reaches: the values and items to which a route leads are
//! in line afterwards, and everything else is as it was. So the order in
//! which items are equipped does not matter.

use vstd::prelude::*;
use super::sheet::{count_of, CharacterView};
use crate::model::modification::targets;
use crate::model::structure::{item_id, value_id, ModelView};
use crate::model::{ItemId, ValueId};

verus! {

impl ModelView {
    /// A route leads from one of the first `n` of `ids` to `to`.
    pub open spec fn some_reaches(self, ids: Seq<ValueId>, n: int, to: ValueId) -> bool {
        exists|j: int| 0 <= j < n && #[trigger] self.reaches(ids[j], to)
    }

    /// A route leads from one of the first `n` of `ids` to a value that the
    /// condition of `item` reads.
    pub open spec fn some_reaches_item(self, ids: Seq<ValueId>, n: int, item: ItemId) -> bool {
        exists|j: int| 0 <= j < n && #[trigger] self.reaches_item(ids[j], item)
    }

    /// A route leads to `to` from one of the first `n` values that `item`
    /// modifies.
    pub open spec fn item_reaches(self, item: ItemId, n: int, to: ValueId) -> bool {
        self.some_reaches(targets(self.item(item).modifications), n, to)
    }

    /// A route leads from one of the first `n` values that `item` modifies
    /// to a value that the condition of `other` reads.
    pub open spec fn item_reaches_item(self, item: ItemId, n: int, other: ItemId) -> bool {
        self.some_reaches_item(targets(self.item(item).modifications), n, other)
    }

    /// A route leads to `to` from a value that one of the first `n` items
    /// whose condition reads `id` modifies.
    pub open spec fn conditions_reach(self, id: ValueId, n: int, to: ValueId) -> bool {
        exists|j: int|
            0 <= j < n && #[trigger] self.item_reaches(
                self.value(id).conditions[j],
                self.item(self.value(id).conditions[j]).modifications.len() as int,
                to,
            )
    }

    /// `item` is one of the first `n` items whose condition reads `id`, or a
    /// route leads from a value that one of them modifies to a value that its
    /// condition reads.
    pub open spec fn conditions_reach_item(self, id: ValueId, n: int, item: ItemId) -> bool {
        exists|j: int|
            0 <= j < n && (#[trigger] self.value(id).conditions[j] == item
                || self.item_reaches_item(
                self.value(id).conditions[j],
                self.item(self.value(id).conditions[j]).modifications.len() as int,
                item,
            ))
    }
}

impl CharacterView {
    /// What an update of a value reaches is in line afterwards, and the rest
    /// is as it was.
    pub proof fn lemma_update_value_reach(self, model: ModelView, id: ValueId)
        requires
            model.wf(),
            self.fits(model),
            model.has_value(id),
        ensures
            forall|v: int|
                0 <= v < self.values.len() && model.reaches(id, value_id(v))
                    ==> #[trigger] self.update_value(model, id).value_in_line(model, v),
            forall|v: int|
                0 <= v < self.values.len() && !model.reaches(id, value_id(v))
                    ==> #[trigger] self.update_value(model, id).values[v] == self.values[v],
            forall|i: int|
                0 <= i < self.items.len() && model.reaches_item(id, item_id(i))
                    ==> #[trigger] self.update_value(model, id).item_in_line(model, i),
            forall|i: int|
                0 <= i < self.items.len() && !model.reaches_item(id, item_id(i))
                    ==> #[trigger] self.update_value(model, id).items[i] == self.items[i],
        decreases model.value_ranks()[id.0 as int], 3nat, 0nat,
    {
        let values = self.values.len() as int;
        let fresh = self.recomputed(model, id);
        self.lemma_recomputed_frame(model, id);
        assert(fresh.same_frame(self));
        assert(model.value_wf(id.0 as int));
        assert(value_id(id.0 as int) == id);
        let dependents = model.value(id).dependents;
        let conditions = model.value(id).conditions;
        let carried = fresh.update_dependents(model, id, dependents.len());
        fresh.lemma_update_dependents_reach(model, id, dependents.len());
        fresh.lemma_update_dependents_frame(model, id, dependents.len());
        let last = carried.update_conditions(model, id, conditions.len());
        carried.lemma_update_conditions_reach(model, id, conditions.len());
        carried.lemma_update_conditions_in_line(model, id, conditions.len());
        self.lemma_update_value_in_line(model, id);
        assert(last == self.update_value(model, id));
        model.lemma_reaches_itself(id);
        // Steps from the value lead on to what its dependents and the items
        // whose condition reads it reach.
        assert forall|j: int, to: ValueId|
            0 <= j < dependents.len() && #[trigger] model.reaches(
                dependents[j],
                to,
            ) implies model.reaches(id, to) by {
            assert(dependents.contains(dependents[j]));
            model.lemma_reaches_after_step(id, dependents[j], to);
        }
        assert forall|j: int, k: int, to: ValueId|
            0 <= j < conditions.len() && 0 <= k < model.item(conditions[j]).modifications.len()
                && #[trigger] model.reaches(
                targets(model.item(conditions[j]).modifications)[k],
                to,
            ) implies model.reaches(id, to) by {
            let list = targets(model.item(conditions[j]).modifications);
            assert(conditions.contains(conditions[j]));
            assert(list.contains(list[k]));
            assert(model.carries(id, list[k]));
            model.lemma_reaches_after_step(id, list[k], to);
        }
        assert forall|v: int|
            0 <= v < values && model.reaches(id, value_id(v)) implies #[trigger] last.value_in_line(
            model,
            v,
        ) by {
            if v != id.0 {
                let next = model.lemma_reaches_first(id, value_id(v));
                if dependents.contains(next) {
                    let j = choose|j: int| 0 <= j < dependents.len() && dependents[j] == next;
                    assert(model.reaches(dependents[j], value_id(v)));
                    assert(model.some_reaches(dependents, dependents.len() as int, value_id(v)));
                    assert(carried.value_in_line(model, v));
                } else {
                    let item = choose|item: ItemId|
                        conditions.contains(item) && #[trigger] targets(
                            model.item(item).modifications,
                        ).contains(next);
                    let j = choose|j: int| 0 <= j < conditions.len() && conditions[j] == item;
                    let list = targets(model.item(item).modifications);
                    let k = choose|k: int| 0 <= k < list.len() && list[k] == next;
                    assert(model.reaches(list[k], value_id(v)));
                    assert(model.item_reaches(
                        conditions[j],
                        model.item(conditions[j]).modifications.len() as int,
                        value_id(v),
                    ));
                    assert(model.conditions_reach(id, conditions.len() as int, value_id(v)));
                }
            }
        }
        assert forall|v: int|
            0 <= v < values && !model.reaches(id, value_id(v)) implies #[trigger] last.values[v]
            == self.values[v] by {
            assert(v != id.0);
            if model.some_reaches(dependents, dependents.len() as int, value_id(v)) {
                let j = choose|j: int|
                    0 <= j < dependents.len() && #[trigger] model.reaches(
                        dependents[j],
                        value_id(v),
                    );
                assert(model.reaches(id, value_id(v)));
            }
            if model.conditions_reach(id, conditions.len() as int, value_id(v)) {
                let j = choose|j: int|
                    0 <= j < conditions.len() && #[trigger] model.item_reaches(
                        conditions[j],
                        model.item(conditions[j]).modifications.len() as int,
                        value_id(v),
                    );
                let list = targets(model.item(conditions[j]).modifications);
                let k = choose|k: int|
                    0 <= k < list.len() && #[trigger] model.reaches(list[k], value_id(v));
                assert(model.reaches(id, value_id(v)));
            }
            assert(carried.values[v] == fresh.values[v]);
            assert(last.values[v] == carried.values[v]);
        }
        assert forall|i: int|
            0 <= i < self.items.len() && model.reaches_item(
                id,
                item_id(i),
            ) implies #[trigger] last.item_in_line(model, i) by {
            let read = choose|read: ValueId|
                #[trigger] model.reaches(id, read) && model.has_value(read) && model.value(
                    read,
                ).conditions.contains(item_id(i));
            if read == id {
                let j = choose|j: int| 0 <= j < conditions.len() && conditions[j] == item_id(i);
                assert(model.conditions_reach_item(id, conditions.len() as int, item_id(i)));
            } else {
                let next = model.lemma_reaches_first(id, read);
                assert(model.reaches_item(next, item_id(i)));
                if dependents.contains(next) {
                    let j = choose|j: int| 0 <= j < dependents.len() && dependents[j] == next;
                    assert(model.reaches_item(dependents[j], item_id(i)));
                    assert(model.some_reaches_item(dependents, dependents.len() as int, item_id(i)));
                    assert(carried.item_in_line(model, i));
                } else {
                    let item = choose|item: ItemId|
                        conditions.contains(item) && #[trigger] targets(
                            model.item(item).modifications,
                        ).contains(next);
                    let j = choose|j: int| 0 <= j < conditions.len() && conditions[j] == item;
                    let list = targets(model.item(item).modifications);
                    let k = choose|k: int| 0 <= k < list.len() && list[k] == next;
                    assert(model.reaches_item(list[k], item_id(i)));
                    assert(model.item_reaches_item(
                        conditions[j],
                        model.item(conditions[j]).modifications.len() as int,
                        item_id(i),
                    ));
                    assert(model.conditions_reach_item(id, conditions.len() as int, item_id(i)));
                }
            }
        }
        assert forall|i: int|
            0 <= i < self.items.len() && !model.reaches_item(
                id,
                item_id(i),
            ) implies #[trigger] last.items[i] == self.items[i] by {
            if model.some_reaches_item(dependents, dependents.len() as int, item_id(i)) {
                let j = choose|j: int|
                    0 <= j < dependents.len() && #[trigger] model.reaches_item(
                        dependents[j],
                        item_id(i),
                    );
                let read = choose|read: ValueId|
                    #[trigger] model.reaches(dependents[j], read) && model.has_value(read)
                        && model.value(read).conditions.contains(item_id(i));
                assert(model.reaches(id, read));
            }
            if model.conditions_reach_item(id, conditions.len() as int, item_id(i)) {
                let j = choose|j: int|
                    0 <= j < conditions.len() && (#[trigger] conditions[j] == item_id(i)
                        || model.item_reaches_item(
                        conditions[j],
                        model.item(conditions[j]).modifications.len() as int,
                        item_id(i),
                    ));
                if conditions[j] == item_id(i) {
                    assert(conditions.contains(item_id(i)));
                    assert(model.reaches(id, id));
                } else {
                    let list = targets(model.item(conditions[j]).modifications);
                    let k = choose|k: int|
                        0 <= k < list.len() && #[trigger] model.reaches_item(list[k], item_id(i));
                    let read = choose|read: ValueId|
                        #[trigger] model.reaches(list[k], read) && model.has_value(read)
                            && model.value(read).conditions.contains(item_id(i));
                    assert(model.reaches(id, read));
                }
            }
            assert(carried.items[i] == fresh.items[i]);
            assert(last.items[i] == carried.items[i]);
        }
    }

    /// What updates of dependents reach is in line afterwards, and the rest
    /// is as it was.
    pub proof fn lemma_update_dependents_reach(self, model: ModelView, id: ValueId, n: nat)
        requires
            model.wf(),
            self.fits(model),
            model.has_value(id),
            n <= model.value(id).dependents.len(),
        ensures
            forall|v: int|
                0 <= v < self.values.len() && model.some_reaches(
                    model.value(id).dependents,
                    n as int,
                    value_id(v),
                ) ==> #[trigger] self.update_dependents(model, id, n).value_in_line(model, v),
            forall|v: int|
                0 <= v < self.values.len() && !model.some_reaches(
                    model.value(id).dependents,
                    n as int,
                    value_id(v),
                ) ==> #[trigger] self.update_dependents(model, id, n).values[v] == self.values[v],
            forall|i: int|
                0 <= i < self.items.len() && model.some_reaches_item(
                    model.value(id).dependents,
                    n as int,
                    item_id(i),
                ) ==> #[trigger] self.update_dependents(model, id, n).item_in_line(model, i),
            forall|i: int|
                0 <= i < self.items.len() && !model.some_reaches_item(
                    model.value(id).dependents,
                    n as int,
                    item_id(i),
                ) ==> #[trigger] self.update_dependents(model, id, n).items[i] == self.items[i],
        decreases model.value_ranks()[id.0 as int], 2nat, n,
    {
        if n > 0 {
            model.lemma_ranks();
            assert(model.value_wf(id.0 as int));
            let ids = model.value(id).dependents;
            let next = model.values[id.0 as int].dependents[n - 1];
            assert(model.has_value(next));
            let before = self.update_dependents(model, id, (n - 1) as nat);
            self.lemma_update_dependents_reach(model, id, (n - 1) as nat);
            self.lemma_update_dependents_frame(model, id, (n - 1) as nat);
            before.lemma_update_value_reach(model, next);
            before.lemma_update_value_in_line(model, next);
            let after = before.update_value(model, next);
            assert(after == self.update_dependents(model, id, n));
            self.lemma_list_reach(model, before, after, ids, n as int);
        }
    }

    /// What updates of the values that an item modifies reach is in line
    /// afterwards, and the rest is as it was.
    pub proof fn lemma_update_targets_reach(self, model: ModelView, item: ItemId, n: nat)
        requires
            model.wf(),
            self.fits(model),
            model.has_item(item),
            n <= model.item(item).modifications.len(),
        ensures
            forall|v: int|
                0 <= v < self.values.len() && model.item_reaches(item, n as int, value_id(v))
                    ==> #[trigger] self.update_targets(model, item, n).value_in_line(model, v),
            forall|v: int|
                0 <= v < self.values.len() && !model.item_reaches(item, n as int, value_id(v))
                    ==> #[trigger] self.update_targets(model, item, n).values[v] == self.values[v],
            forall|i: int|
                0 <= i < self.items.len() && model.item_reaches_item(item, n as int, item_id(i))
                    ==> #[trigger] self.update_targets(model, item, n).item_in_line(model, i),
            forall|i: int|
                0 <= i < self.items.len() && !model.item_reaches_item(item, n as int, item_id(i))
                    ==> #[trigger] self.update_targets(model, item, n).items[i] == self.items[i],
        decreases model.item_ranks()[item.0 as int], 0nat, n,
    {
        if n > 0 {
            model.lemma_ranks();
            assert(model.item_wf(item.0 as int));
            let ids = targets(model.item(item).modifications);
            let next = model.items[item.0 as int].modifications[n - 1].0;
            assert(ids[n - 1] == next);
            assert(model.has_value(next));
            let before = self.update_targets(model, item, (n - 1) as nat);
            self.lemma_update_targets_reach(model, item, (n - 1) as nat);
            self.lemma_update_targets_frame(model, item, (n - 1) as nat);
            before.lemma_update_value_reach(model, next);
            before.lemma_update_value_in_line(model, next);
            let after = before.update_value(model, next);
            assert(after == self.update_targets(model, item, n));
            self.lemma_list_reach(model, before, after, ids, n as int);
        }
    }

    /// One more update of a list of values: what the first `n` of them reach
    /// is in line, the rest is as it was, if that holds of the first `n - 1`
    /// in `before` and `after` is `before` with the `n`-th updated.
    proof fn lemma_list_reach(
        self,
        model: ModelView,
        before: CharacterView,
        after: CharacterView,
        ids: Seq<ValueId>,
        n: int,
    )
        requires
            1 <= n <= ids.len(),
            before.values.len() == self.values.len(),
            before.items.len() == self.items.len(),
            before.values_kept(after, model),
            before.items_kept(after, model),
            forall|v: int|
                0 <= v < self.values.len() && model.some_reaches(ids, n - 1, value_id(v))
                    ==> #[trigger] before.value_in_line(model, v),
            forall|v: int|
                0 <= v < self.values.len() && !model.some_reaches(ids, n - 1, value_id(v))
                    ==> #[trigger] before.values[v] == self.values[v],
            forall|i: int|
                0 <= i < self.items.len() && model.some_reaches_item(ids, n - 1, item_id(i))
                    ==> #[trigger] before.item_in_line(model, i),
            forall|i: int|
                0 <= i < self.items.len() && !model.some_reaches_item(ids, n - 1, item_id(i))
                    ==> #[trigger] before.items[i] == self.items[i],
            forall|v: int|
                0 <= v < self.values.len() && model.reaches(ids[n - 1], value_id(v))
                    ==> #[trigger] after.value_in_line(model, v),
            forall|v: int|
                0 <= v < self.values.len() && !model.reaches(ids[n - 1], value_id(v))
                    ==> #[trigger] after.values[v] == before.values[v],
            forall|i: int|
                0 <= i < self.items.len() && model.reaches_item(ids[n - 1], item_id(i))
                    ==> #[trigger] after.item_in_line(model, i),
            forall|i: int|
                0 <= i < self.items.len() && !model.reaches_item(ids[n - 1], item_id(i))
                    ==> #[trigger] after.items[i] == before.items[i],
        ensures
            forall|v: int|
                0 <= v < self.values.len() && model.some_reaches(ids, n, value_id(v))
                    ==> #[trigger] after.value_in_line(model, v),
            forall|v: int|
                0 <= v < self.values.len() && !model.some_reaches(ids, n, value_id(v))
                    ==> #[trigger] after.values[v] == self.values[v],
            forall|i: int|
                0 <= i < self.items.len() && model.some_reaches_item(ids, n, item_id(i))
                    ==> #[trigger] after.item_in_line(model, i),
            forall|i: int|
                0 <= i < self.items.len() && !model.some_reaches_item(ids, n, item_id(i))
                    ==> #[trigger] after.items[i] == self.items[i],
    {
        assert forall|v: int|
            0 <= v < self.values.len() && model.some_reaches(
                ids,
                n,
                value_id(v),
            ) implies #[trigger] after.value_in_line(model, v) by {
            let j = choose|j: int| 0 <= j < n && #[trigger] model.reaches(ids[j], value_id(v));
            if j < n - 1 {
                assert(model.some_reaches(ids, n - 1, value_id(v)));
                assert(before.value_in_line(model, v));
            }
        }
        assert forall|v: int|
            0 <= v < self.values.len() && !model.some_reaches(
                ids,
                n,
                value_id(v),
            ) implies #[trigger] after.values[v] == self.values[v] by {
            if model.some_reaches(ids, n - 1, value_id(v)) {
                let j = choose|j: int|
                    0 <= j < n - 1 && #[trigger] model.reaches(ids[j], value_id(v));
                assert(model.reaches(ids[j], value_id(v)));
            }
            if model.reaches(ids[n - 1], value_id(v)) {
                assert(model.some_reaches(ids, n, value_id(v)));
            }
            assert(before.values[v] == self.values[v]);
        }
        assert forall|i: int|
            0 <= i < self.items.len() && model.some_reaches_item(
                ids,
                n,
                item_id(i),
            ) implies #[trigger] after.item_in_line(model, i) by {
            let j = choose|j: int| 0 <= j < n && #[trigger] model.reaches_item(ids[j], item_id(i));
            if j < n - 1 {
                assert(model.some_reaches_item(ids, n - 1, item_id(i)));
                assert(before.item_in_line(model, i));
            }
        }
        assert forall|i: int|
            0 <= i < self.items.len() && !model.some_reaches_item(
                ids,
                n,
                item_id(i),
            ) implies #[trigger] after.items[i] == self.items[i] by {
            if model.some_reaches_item(ids, n - 1, item_id(i)) {
                let j = choose|j: int|
                    0 <= j < n - 1 && #[trigger] model.reaches_item(ids[j], item_id(i));
                assert(model.reaches_item(ids[j], item_id(i)));
            }
            if model.reaches_item(ids[n - 1], item_id(i)) {
                assert(model.some_reaches_item(ids, n, item_id(i)));
            }
            assert(before.items[i] == self.items[i]);
        }
    }

    /// What the update of a condition reaches is in line afterwards, the item
    /// too, and the rest is as it was.
    pub proof fn lemma_update_condition_reach(self, model: ModelView, item: ItemId)
        requires
            model.wf(),
            self.fits(model),
            model.has_item(item),
            model.item(item).condition is Some,
        ensures
            forall|v: int|
                0 <= v < self.values.len() && model.item_reaches(
                    item,
                    model.item(item).modifications.len() as int,
                    value_id(v),
                ) ==> #[trigger] self.update_condition(model, item).value_in_line(model, v),
            forall|v: int|
                0 <= v < self.values.len() && !model.item_reaches(
                    item,
                    model.item(item).modifications.len() as int,
                    value_id(v),
                ) ==> #[trigger] self.update_condition(model, item).values[v] == self.values[v],
            forall|i: int|
                0 <= i < self.items.len() && (i == item.0 || model.item_reaches_item(
                    item,
                    model.item(item).modifications.len() as int,
                    item_id(i),
                )) ==> #[trigger] self.update_condition(model, item).item_in_line(model, i),
            forall|i: int|
                0 <= i < self.items.len() && !(i == item.0 || model.item_reaches_item(
                    item,
                    model.item(item).modifications.len() as int,
                    item_id(i),
                )) ==> #[trigger] self.update_condition(model, item).items[i] == self.items[i],
        decreases model.item_ranks()[item.0 as int], 1nat, 0nat,
    {
        let e = model.item(item).condition.unwrap();
        let count = count_of(e.eval(self.env()));
        let counted = self.with_count(item, count);
        assert(model.item_wf(item.0 as int));
        assert(self.items[item.0 as int].inventories is None);
        assert(counted.same_frame(self));
        let len = model.item(item).modifications.len();
        counted.lemma_update_targets_reach(model, item, len);
        self.lemma_update_condition_in_line(model, item);
        let last = counted.update_targets(model, item, len);
        assert(last == self.update_condition(model, item));
        assert forall|i: int|
            0 <= i < self.items.len() && !(i == item.0 || model.item_reaches_item(
                item,
                len as int,
                item_id(i),
            )) implies #[trigger] last.items[i] == self.items[i] by {
            assert(last.items[i] == counted.items[i]);
        }
        assert forall|v: int|
            0 <= v < self.values.len() && !model.item_reaches(
                item,
                len as int,
                value_id(v),
            ) implies #[trigger] last.values[v] == self.values[v] by {
            assert(last.values[v] == counted.values[v]);
        }
    }

    /// What updates of conditions reach is in line afterwards, and the rest
    /// is as it was.
    pub proof fn lemma_update_conditions_reach(self, model: ModelView, id: ValueId, n: nat)
        requires
            model.wf(),
            self.fits(model),
            model.has_value(id),
            n <= model.value(id).conditions.len(),
        ensures
            forall|v: int|
                0 <= v < self.values.len() && model.conditions_reach(id, n as int, value_id(v))
                    ==> #[trigger] self.update_conditions(model, id, n).value_in_line(model, v),
            forall|v: int|
                0 <= v < self.values.len() && !model.conditions_reach(id, n as int, value_id(v))
                    ==> #[trigger] self.update_conditions(model, id, n).values[v]
                    == self.values[v],
            forall|i: int|
                0 <= i < self.items.len() && model.conditions_reach_item(id, n as int, item_id(i))
                    ==> #[trigger] self.update_conditions(model, id, n).item_in_line(model, i),
            forall|i: int|
                0 <= i < self.items.len() && !model.conditions_reach_item(
                    id,
                    n as int,
                    item_id(i),
                ) ==> #[trigger] self.update_conditions(model, id, n).items[i] == self.items[i],
        decreases model.value_ranks()[id.0 as int], 2nat, n,
    {
        if n > 0 {
            model.lemma_ranks();
            assert(model.value_wf(id.0 as int));
            let conditions = model.value(id).conditions;
            let next = model.values[id.0 as int].conditions[n - 1];
            assert(model.has_item(next));
            let len = model.item(next).modifications.len() as int;
            let before = self.update_conditions(model, id, (n - 1) as nat);
            self.lemma_update_conditions_reach(model, id, (n - 1) as nat);
            self.lemma_update_conditions_frame(model, id, (n - 1) as nat);
            before.lemma_update_condition_reach(model, next);
            before.lemma_update_condition_in_line(model, next);
            let after = before.update_condition(model, next);
            assert(after == self.update_conditions(model, id, n));
            assert(item_id(next.0 as int) == next);
            assert forall|v: int|
                0 <= v < self.values.len() && model.conditions_reach(
                    id,
                    n as int,
                    value_id(v),
                ) implies #[trigger] after.value_in_line(model, v) by {
                let j = choose|j: int|
                    0 <= j < n && #[trigger] model.item_reaches(
                        conditions[j],
                        model.item(conditions[j]).modifications.len() as int,
                        value_id(v),
                    );
                if j < n - 1 {
                    assert(model.conditions_reach(id, n - 1, value_id(v)));
                    assert(before.value_in_line(model, v));
                }
            }
            assert forall|v: int|
                0 <= v < self.values.len() && !model.conditions_reach(
                    id,
                    n as int,
                    value_id(v),
                ) implies #[trigger] after.values[v] == self.values[v] by {
                if model.conditions_reach(id, n - 1, value_id(v)) {
                    let j = choose|j: int|
                        0 <= j < n - 1 && #[trigger] model.item_reaches(
                            conditions[j],
                            model.item(conditions[j]).modifications.len() as int,
                            value_id(v),
                        );
                    assert(model.item_reaches(
                        conditions[j],
                        model.item(conditions[j]).modifications.len() as int,
                        value_id(v),
                    ));
                }
                if model.item_reaches(next, len, value_id(v)) {
                    assert(model.item_reaches(
                        conditions[n - 1],
                        model.item(conditions[n - 1]).modifications.len() as int,
                        value_id(v),
                    ));
                }
                assert(before.values[v] == self.values[v]);
            }
            assert forall|i: int|
                0 <= i < self.items.len() && model.conditions_reach_item(
                    id,
                    n as int,
                    item_id(i),
                ) implies #[trigger] after.item_in_line(model, i) by {
                let j = choose|j: int|
                    0 <= j < n && (#[trigger] conditions[j] == item_id(i)
                        || model.item_reaches_item(
                        conditions[j],
                        model.item(conditions[j]).modifications.len() as int,
                        item_id(i),
                    ));
                if j < n - 1 {
                    assert(model.conditions_reach_item(id, n - 1, item_id(i)));
                    assert(before.item_in_line(model, i));
                } else {
                    if conditions[j] == item_id(i) {
                        assert(i == next.0);
                    }
                }
            }
            assert forall|i: int|
                0 <= i < self.items.len() && !model.conditions_reach_item(
                    id,
                    n as int,
                    item_id(i),
                ) implies #[trigger] after.items[i] == self.items[i] by {
                if model.conditions_reach_item(id, n - 1, item_id(i)) {
                    let j = choose|j: int|
                        0 <= j < n - 1 && (#[trigger] conditions[j] == item_id(i)
                            || model.item_reaches_item(
                            conditions[j],
                            model.item(conditions[j]).modifications.len() as int,
                            item_id(i),
                        ));
                    assert(conditions[j] == item_id(i) || model.item_reaches_item(
                        conditions[j],
                        model.item(conditions[j]).modifications.len() as int,
                        item_id(i),
                    ));
                }
                if i == next.0 || model.item_reaches_item(next, len, item_id(i)) {
                    assert(conditions[n - 1] == item_id(i) || model.item_reaches_item(
                        conditions[n - 1],
                        model.item(conditions[n - 1]).modifications.len() as int,
                        item_id(i),
                    ));
                }
                assert(before.items[i] == self.items[i]);
            }
        }
    }

    /// Equipping an item without a condition once more brings in line what
    /// the values that it modifies reach, leaves the rest as it was but for
    /// its own count, and leaves in line what was.
    pub proof fn lemma_equip_reach(self, model: ModelView, item: ItemId)
        requires
            model.wf(),
            self.fits(model),
            model.has_item(item),
            model.item(item).condition is None,
            model.item(item).has_inventory is None,
        ensures
            self.values_kept(self.equip(model, item), model),
            self.items_kept(self.equip(model, item), model),
            forall|v: int|
                0 <= v < self.values.len() && model.item_reaches(
                    item,
                    model.item(item).modifications.len() as int,
                    value_id(v),
                ) ==> #[trigger] self.equip(model, item).value_in_line(model, v),
            forall|v: int|
                0 <= v < self.values.len() && !model.item_reaches(
                    item,
                    model.item(item).modifications.len() as int,
                    value_id(v),
                ) ==> #[trigger] self.equip(model, item).values[v] == self.values[v],
            forall|i: int|
                0 <= i < self.items.len() && model.item_reaches_item(
                    item,
                    model.item(item).modifications.len() as int,
                    item_id(i),
                ) ==> #[trigger] self.equip(model, item).item_in_line(model, i),
            forall|i: int|
                0 <= i < self.items.len() && i != item.0 && !model.item_reaches_item(
                    item,
                    model.item(item).modifications.len() as int,
                    item_id(i),
                ) ==> #[trigger] self.equip(model, item).items[i] == self.items[i],
    {
        let count = (self.count(item) + 1) as u16;
        let counted = self.with_count(item, count);
        assert(self.items[item.0 as int].inventories is None);
        assert(counted.same_frame(self));
        let list = model.item(item).modifications;
        self.lemma_counted_in_line(model, item, count);
        counted.lemma_update_targets_in_line(model, item, list.len());
        counted.lemma_update_targets_reach(model, item, list.len());
        let last = counted.update_targets(model, item, list.len());
        assert(last == self.equip(model, item));
        assert forall|v: int|
            0 <= v < self.values.len() && self.value_in_line(
                model,
                v,
            ) implies #[trigger] last.value_in_line(model, v) by {
            if targets(list).contains(value_id(v)) {
                let at = choose|at: int| 0 <= at < list.len() && targets(list)[at] == value_id(v);
                assert(last.value_in_line(model, list[at].0.0 as int));
            } else {
                assert(counted.value_in_line(model, v));
            }
        }
        assert forall|i: int|
            0 <= i < self.items.len() && self.item_in_line(
                model,
                i,
            ) implies #[trigger] last.item_in_line(model, i) by {
            assert(counted.item_in_line(model, i));
        }
        assert forall|v: int|
            0 <= v < self.values.len() && !model.item_reaches(
                item,
                list.len() as int,
                value_id(v),
            ) implies #[trigger] last.values[v] == self.values[v] by {
            assert(last.values[v] == counted.values[v]);
        }
        assert forall|i: int|
            0 <= i < self.items.len() && i != item.0 && !model.item_reaches_item(
                item,
                list.len() as int,
                item_id(i),
            ) implies #[trigger] last.items[i] == self.items[i] by {
            assert(last.items[i] == counted.items[i]);
        }
    }

    /// The order in which two items without a condition are equipped does
    /// not matter, whatever the state of the character: the priorities
    /// decide in which order their modifications apply. This holds in models
    /// whose modifications read only their targets.
    pub proof fn law_equip_order(self, model: ModelView, first: ItemId, second: ItemId)
        requires
            model.wf(),
            model.self_contained(),
            self.fits(model),
            model.has_item(first),
            model.has_item(second),
            first != second,
            model.item(first).condition is None,
            model.item(first).has_inventory is None,
            model.item(second).condition is None,
            model.item(second).has_inventory is None,
            self.count(first) < u16::MAX,
            self.count(second) < u16::MAX,
        ensures
            self.equip(model, first).equip(model, second).values == self.equip(
                model,
                second,
            ).equip(model, first).values,
            forall|i: int|
                0 <= i < self.items.len() ==> (#[trigger] self.equip(model, first).equip(
                    model,
                    second,
                ).items[i]).count == self.equip(model, second).equip(model, first).items[i].count,
    {
        let a = self.equip(model, first);
        let b = self.equip(model, second);
        let reach1 = model.item(first).modifications.len() as int;
        let reach2 = model.item(second).modifications.len() as int;
        assert(first.0 != second.0);
        self.lemma_equip_frame(model, first);
        self.lemma_equip_frame(model, second);
        self.lemma_equip_reach(model, first);
        self.lemma_equip_reach(model, second);
        assert(a.items[second.0 as int] == self.items[second.0 as int]);
        assert(b.items[first.0 as int] == self.items[first.0 as int]);
        a.lemma_equip_frame(model, second);
        b.lemma_equip_frame(model, first);
        a.lemma_equip_reach(model, second);
        b.lemma_equip_reach(model, first);
        let ab = a.equip(model, second);
        let ba = b.equip(model, first);
        assert(ab.same_inputs(ba, model)) by {
            assert forall|v: int| 0 <= v < ab.values.len() implies (#[trigger] ab.values[v]).base
                == ba.values[v].base by {
                assert(a.values[v].base == self.values[v].base);
                assert(b.values[v].base == self.values[v].base);
            }
            assert forall|i: int|
                0 <= i < ab.items.len() && model.items[i].condition is None implies (
            #[trigger] ab.items[i]).count == ba.items[i].count by {
                if i != first.0 && i != second.0 {
                    assert(a.items[i] == self.items[i]);
                    assert(b.items[i] == self.items[i]);
                }
            }
        }
        assert(ab.alike_or_in_line(ba, model)) by {
            assert forall|v: int| 0 <= v < ab.values.len() implies (
            #[trigger] ab.value_in_line(model, v) && ba.value_in_line(model, v))
                || ab.values[v].actual == ba.values[v].actual by {
                if model.item_reaches(second, reach2, value_id(v)) {
                    assert(ab.value_in_line(model, v));
                    assert(b.value_in_line(model, v));
                    assert(ba.value_in_line(model, v));
                } else if model.item_reaches(first, reach1, value_id(v)) {
                    assert(ba.value_in_line(model, v));
                    assert(a.value_in_line(model, v));
                    assert(ab.value_in_line(model, v));
                } else {
                    assert(ab.values[v] == a.values[v]);
                    assert(a.values[v] == self.values[v]);
                    assert(ba.values[v] == b.values[v]);
                    assert(b.values[v] == self.values[v]);
                }
            }
            assert forall|i: int| 0 <= i < ab.items.len() implies (
            #[trigger] ab.item_in_line(model, i) && ba.item_in_line(model, i))
                || ab.items[i].count == ba.items[i].count by {
                if i == first.0 || i == second.0 {
                } else if model.item_reaches_item(second, reach2, item_id(i)) {
                    assert(ab.item_in_line(model, i));
                    assert(b.item_in_line(model, i));
                    assert(ba.item_in_line(model, i));
                } else if model.item_reaches_item(first, reach1, item_id(i)) {
                    assert(ba.item_in_line(model, i));
                    assert(a.item_in_line(model, i));
                    assert(ab.item_in_line(model, i));
                } else {
                    assert(ab.items[i] == a.items[i]);
                    assert(a.items[i] == self.items[i]);
                    assert(ba.items[i] == b.items[i]);
                    assert(b.items[i] == self.items[i]);
                }
            }
        }
        ab.law_unique(ba, model);
    }
}

} // verus!
