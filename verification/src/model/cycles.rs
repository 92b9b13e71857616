//! Keeping the model free of circles: which values and items a change of a
//! value reaches, and when a new edge can be ranked.

use vstd::prelude::*;
use super::expression::Expr;
use super::modification::{lemma_put, put, targets, ModificationView};
use super::structure::{choice_id, item_id, lemma_top, top, value_id, ModelView};
use super::{ItemId, Model, ValueId};

verus! {

/// Marks on the values and on the items of a model.
pub struct Marks {
    /// One mark for each value.
    pub values: Seq<bool>,
    /// One mark for each item.
    pub items: Seq<bool>,
}

impl Marks {
    /// The marks are for `model`.
    pub open spec fn fit(self, model: ModelView) -> bool {
        &&& self.values.len() == model.values.len()
        &&& self.items.len() == model.items.len()
    }

    /// Every mark of `self` is a mark of `later`.
    pub open spec fn kept_by(self, later: Marks) -> bool {
        &&& later.values.len() == self.values.len()
        &&& later.items.len() == self.items.len()
        &&& forall|v: int| 0 <= v < self.values.len() && self.values[v] ==> #[trigger] later.values[v]
        &&& forall|i: int| 0 <= i < self.items.len() && self.items[i] ==> #[trigger] later.items[i]
    }

    /// The first `dependents` dependents and the first `conditions`
    /// conditions of the value at `v` are marked.
    pub open spec fn value_done_to(
        self,
        model: ModelView,
        v: int,
        dependents: int,
        conditions: int,
    ) -> bool {
        &&& forall|j: int|
            0 <= j < dependents ==> self.values[(#[trigger] model.values[v].dependents[j]).0 as int]
        &&& forall|j: int|
            0 <= j < conditions ==> self.items[(#[trigger] model.values[v].conditions[j]).0 as int]
    }

    /// What a change of the value at `v` reaches directly is marked.
    pub open spec fn value_done(self, model: ModelView, v: int) -> bool {
        self.value_done_to(
            model,
            v,
            model.values[v].dependents.len() as int,
            model.values[v].conditions.len() as int,
        )
    }

    /// The first `n` values that the item at `i` modifies are marked.
    pub open spec fn item_done_to(self, model: ModelView, i: int, n: int) -> bool {
        forall|k: int|
            0 <= k < n ==> self.values[(#[trigger] model.items[i].modifications[k]).0.0 as int]
    }

    /// The values that the item at `i` modifies are marked.
    pub open spec fn item_done(self, model: ModelView, i: int) -> bool {
        self.item_done_to(model, i, model.items[i].modifications.len() as int)
    }

    /// What is marked in `self` and was not in `before` has its direct
    /// successors marked.
    pub open spec fn done_since(self, model: ModelView, before: Marks) -> bool {
        &&& forall|v: int|
            0 <= v < self.values.len() && #[trigger] self.values[v] && !before.values[v]
                ==> self.value_done(model, v)
        &&& forall|i: int|
            0 <= i < self.items.len() && #[trigger] self.items[i] && !before.items[i]
                ==> self.item_done(model, i)
    }

    /// The marked values and items are closed under the edges of the model.
    pub open spec fn closed(self, model: ModelView) -> bool {
        &&& forall|v: int|
            0 <= v < self.values.len() && #[trigger] self.values[v] ==> self.value_done(model, v)
        &&& forall|i: int|
            0 <= i < self.items.len() && #[trigger] self.items[i] ==> self.item_done(model, i)
    }

    /// Every ranking of the model puts the marked values at most as high as
    /// `start` and the marked items below it.
    pub open spec fn under(self, model: ModelView, start: ValueId) -> bool {
        forall|value_rank: Seq<nat>, item_rank: Seq<nat>| #[trigger]
            model.ranked(value_rank, item_rank) ==> {
                &&& forall|v: int|
                    0 <= v < self.values.len() && #[trigger] self.values[v] ==> value_rank[v]
                        <= value_rank[start.0 as int]
                &&& forall|i: int|
                    0 <= i < self.items.len() && #[trigger] self.items[i] ==> item_rank[i]
                        < value_rank[start.0 as int]
            }
    }

    /// A route leads from `start` to every marked value, and to a value that
    /// the condition of a marked item reads.
    pub open spec fn routed(self, model: ModelView, start: ValueId) -> bool {
        &&& forall|v: int|
            0 <= v < self.values.len() && #[trigger] self.values[v] ==> model.reaches(
                start,
                value_id(v),
            )
        &&& forall|i: int|
            0 <= i < self.items.len() && #[trigger] self.items[i] ==> model.reaches_item(
                start,
                item_id(i),
            )
    }

    /// No value is marked that `e` reads.
    pub open spec fn misses(self, e: Expr) -> bool {
        forall|id: ValueId| #[trigger] e.reads(id) && id.0 < self.values.len() ==> !self.values[id.0 as int]
    }
}

/// Marks that are kept stay done.
proof fn lemma_done_kept(model: ModelView, before: Marks, after: Marks)
    requires
        model.wf(),
        before.fit(model),
        before.kept_by(after),
    ensures
        forall|v: int, d: int, c: int|
            0 <= v < model.values.len() && d <= model.values[v].dependents.len() && c
                <= model.values[v].conditions.len() && #[trigger] before.value_done_to(
                model,
                v,
                d,
                c,
            ) ==> after.value_done_to(model, v, d, c),
        forall|i: int, n: int|
            0 <= i < model.items.len() && n <= model.items[i].modifications.len()
                && #[trigger] before.item_done_to(model, i, n) ==> after.item_done_to(model, i, n),
{
    assert forall|v: int, d: int, c: int|
        0 <= v < model.values.len() && d <= model.values[v].dependents.len() && c
            <= model.values[v].conditions.len() && #[trigger] before.value_done_to(
            model,
            v,
            d,
            c,
        ) implies after.value_done_to(model, v, d, c) by {
        assert(model.value_wf(v));
        assert forall|j: int| 0 <= j < d implies after.values[(
        #[trigger] model.values[v].dependents[j]).0 as int] by {
            assert(model.has_value(model.values[v].dependents[j]));
        }
        assert forall|j: int| 0 <= j < c implies after.items[(
        #[trigger] model.values[v].conditions[j]).0 as int] by {
            assert(model.has_item(model.values[v].conditions[j]));
        }
    }
    assert forall|i: int, n: int|
        0 <= i < model.items.len() && n <= model.items[i].modifications.len()
            && #[trigger] before.item_done_to(model, i, n) implies after.item_done_to(
        model,
        i,
        n,
    ) by {
        assert(model.item_wf(i));
        assert forall|k: int| 0 <= k < n implies after.values[(
        #[trigger] model.items[i].modifications[k]).0.0 as int] by {
            assert(model.has_value(model.items[i].modifications[k].0));
        }
    }
}

/// What was done since `first` when `second` was reached, and since
/// `second` now, is done since `first`.
proof fn lemma_done_since(model: ModelView, first: Marks, second: Marks, third: Marks)
    requires
        model.wf(),
        first.fit(model),
        first.kept_by(second),
        second.kept_by(third),
        second.done_since(model, first),
        third.done_since(model, second),
    ensures
        third.done_since(model, first),
        first.kept_by(third),
{
    lemma_done_kept(model, second, third);
    assert forall|v: int|
        0 <= v < third.values.len() && #[trigger] third.values[v] && !first.values[v] implies third.value_done(
        model,
        v,
    ) by {
        if second.values[v] {
            assert(second.value_done(model, v));
        }
    }
    assert forall|i: int|
        0 <= i < third.items.len() && #[trigger] third.items[i] && !first.items[i] implies third.item_done(
        model,
        i,
    ) by {
        if second.items[i] {
            assert(second.item_done(model, i));
        }
    }
}

impl ModelView {
    /// A change of `from` is carried on to `to` at once: `to` is a dependent
    /// of `from`, or it is modified by an item whose condition reads `from`.
    pub open spec fn carries(self, from: ValueId, to: ValueId) -> bool {
        ||| self.value(from).dependents.contains(to)
        ||| exists|item: ItemId|
            self.value(from).conditions.contains(item) && #[trigger] targets(
                self.item(item).modifications,
            ).contains(to)
    }

    /// Along `route` a change is carried on from each value to the next.
    pub open spec fn is_route(self, route: Seq<ValueId>) -> bool {
        &&& forall|k: int| 0 <= k < route.len() ==> self.has_value(#[trigger] route[k])
        &&& forall|k: int|
            0 <= k < route.len() - 1 ==> self.carries(#[trigger] route[k], route[k + 1])
    }

    /// Every value on a route ranks below the first one.
    proof fn lemma_route_falls(self, route: Seq<ValueId>, k: int)
        requires
            self.wf(),
            self.is_route(route),
            1 <= k < route.len(),
        ensures
            self.value_ranks()[route[k].0 as int] < self.value_ranks()[route[0].0 as int],
        decreases k,
    {
        self.lemma_ranks();
        let from = route[k - 1];
        let to = route[k];
        assert(self.has_value(from));
        assert(self.carries(from, to));
        assert(self.value_wf(from.0 as int));
        if self.value(from).dependents.contains(to) {
            let listed = self.value(from).dependents;
            let at = choose|at: int| 0 <= at < listed.len() && listed[at] == to;
            assert(self.values[from.0 as int].dependents[at] == to);
        } else {
            let item = choose|item: ItemId|
                self.value(from).conditions.contains(item) && #[trigger] targets(
                    self.item(item).modifications,
                ).contains(to);
            let listed = self.value(from).conditions;
            let at = choose|at: int| 0 <= at < listed.len() && listed[at] == item;
            assert(self.values[from.0 as int].conditions[at] == item);
            assert(self.has_item(item));
            let list = self.item(item).modifications;
            let slot = choose|slot: int| 0 <= slot < list.len() && targets(list)[slot] == to;
            assert(self.items[item.0 as int].modifications[slot].0 == to);
        }
        if k > 1 {
            self.lemma_route_falls(route, k - 1);
        }
    }

    /// In a consistent model no change comes back to the value that it
    /// started from: no route of two or more values ends where it begins.
    pub proof fn law_no_circle(self, route: Seq<ValueId>)
        requires
            self.wf(),
            self.is_route(route),
            route.len() >= 2,
        ensures
            route.first() != route.last(),
    {
        self.lemma_route_falls(route, route.len() - 1);
    }

    /// Some route of two or more values ends where it begins.
    pub open spec fn has_circle(self) -> bool {
        exists|route: Seq<ValueId>|
            #[trigger] self.is_route(route) && route.len() >= 2 && route.first() == route.last()
    }

    /// A consistent model has no circle.
    pub proof fn law_consistent_without_circle(self)
        requires
            self.wf(),
        ensures
            !self.has_circle(),
    {
        if self.has_circle() {
            let route = choose|route: Seq<ValueId>|
                #[trigger] self.is_route(route) && route.len() >= 2 && route.first()
                    == route.last();
            self.law_no_circle(route);
        }
    }

    /// A route leads from `start` to `to`.
    pub open spec fn reaches(self, start: ValueId, to: ValueId) -> bool {
        exists|route: Seq<ValueId>|
            #[trigger] self.is_route(route) && route.len() >= 1 && route.first() == start
                && route.last() == to
    }

    /// A route leads from `start` to a value that the condition of `item`
    /// reads.
    pub open spec fn reaches_item(self, start: ValueId, item: ItemId) -> bool {
        exists|read: ValueId|
            #[trigger] self.reaches(start, read) && self.has_value(read) && self.value(
                read,
            ).conditions.contains(item)
    }

    /// A route can be carried on by one step.
    pub proof fn lemma_reaches_step(self, start: ValueId, from: ValueId, to: ValueId)
        requires
            self.reaches(start, from),
            self.carries(from, to),
            self.has_value(to),
        ensures
            self.reaches(start, to),
    {
        let route = choose|route: Seq<ValueId>|
            #[trigger] self.is_route(route) && route.len() >= 1 && route.first() == start
                && route.last() == from;
        let longer = route.push(to);
        assert forall|k: int| 0 <= k < longer.len() implies self.has_value(
            #[trigger] longer[k],
        ) by {
            if k < route.len() {
                assert(longer[k] == route[k]);
            }
        }
        assert forall|k: int| 0 <= k < longer.len() - 1 implies self.carries(
            #[trigger] longer[k],
            longer[k + 1],
        ) by {
            if k < route.len() - 1 {
                assert(self.carries(route[k], route[k + 1]));
            }
        }
        assert(self.is_route(longer));
    }

    /// A value reaches itself.
    pub proof fn lemma_reaches_itself(self, start: ValueId)
        requires
            self.has_value(start),
        ensures
            self.reaches(start, start),
    {
        let route = seq![start];
        assert(self.is_route(route));
    }

    /// A route to another value begins with a step.
    pub proof fn lemma_reaches_first(self, start: ValueId, to: ValueId) -> (next: ValueId)
        requires
            self.reaches(start, to),
            start != to,
        ensures
            self.has_value(start),
            self.has_value(next),
            self.carries(start, next),
            self.reaches(next, to),
    {
        let route = choose|route: Seq<ValueId>|
            #[trigger] self.is_route(route) && route.len() >= 1 && route.first() == start
                && route.last() == to;
        assert(route.len() >= 2);
        let rest = route.skip(1);
        assert(self.has_value(route[0]));
        assert(self.has_value(route[1]));
        assert(self.carries(route[0int], route[0int + 1]));
        assert forall|k: int| 0 <= k < rest.len() implies self.has_value(#[trigger] rest[k]) by {
            assert(rest[k] == route[k + 1]);
            assert(self.has_value(route[k + 1]));
        }
        assert forall|k: int| 0 <= k < rest.len() - 1 implies self.carries(
            #[trigger] rest[k],
            rest[k + 1],
        ) by {
            assert(rest[k] == route[k + 1]);
            assert(rest[k + 1] == route[k + 1 + 1]);
            assert(self.carries(route[k + 1], route[k + 1 + 1]));
        }
        assert(self.is_route(rest));
        assert(rest.first() == route[1]);
        assert(rest.last() == to);
        route[1]
    }

    /// A step and a route make a route.
    pub proof fn lemma_reaches_after_step(self, start: ValueId, next: ValueId, to: ValueId)
        requires
            self.has_value(start),
            self.carries(start, next),
            self.reaches(next, to),
        ensures
            self.reaches(start, to),
    {
        let route = choose|route: Seq<ValueId>|
            #[trigger] self.is_route(route) && route.len() >= 1 && route.first() == next
                && route.last() == to;
        let longer = seq![start] + route;
        assert forall|k: int| 0 <= k < longer.len() implies self.has_value(
            #[trigger] longer[k],
        ) by {
            if k > 0 {
                assert(longer[k] == route[k - 1]);
                assert(self.has_value(route[k - 1]));
            }
        }
        assert forall|k: int| 0 <= k < longer.len() - 1 implies self.carries(
            #[trigger] longer[k],
            longer[k + 1],
        ) by {
            if k > 0 {
                assert(longer[k] == route[k - 1]);
                assert(longer[k + 1] == route[k - 1 + 1]);
                assert(self.carries(route[k - 1], route[k - 1 + 1]));
            } else {
                assert(longer[1] == route[0]);
            }
        }
        assert(self.is_route(longer));
        assert(longer.first() == start);
        assert(longer.last() == to);
    }

    /// A route from `start` to `end` that stays a route in `after`, where one
    /// more step leads back to `start`, is a circle of `after`.
    proof fn lemma_closes(self, after: ModelView, start: ValueId, end: ValueId)
        requires
            self.reaches(start, end),
            after.has_value(start),
            after.values.len() == self.values.len(),
            forall|from: ValueId, to: ValueId|
                self.has_value(from) && #[trigger] self.carries(from, to) ==> after.carries(
                    from,
                    to,
                ),
            after.carries(end, start),
        ensures
            after.has_circle(),
    {
        let route = choose|route: Seq<ValueId>|
            #[trigger] self.is_route(route) && route.len() >= 1 && route.first() == start
                && route.last() == end;
        let circle = route.push(start);
        assert forall|k: int| 0 <= k < circle.len() implies after.has_value(
            #[trigger] circle[k],
        ) by {
            if k < route.len() {
                assert(self.has_value(route[k]));
            }
        }
        assert forall|k: int| 0 <= k < circle.len() - 1 implies after.carries(
            #[trigger] circle[k],
            circle[k + 1],
        ) by {
            if k < route.len() - 1 {
                assert(self.has_value(route[k]));
                assert(self.carries(route[k], route[k + 1]));
            }
        }
        assert(after.is_route(circle));
    }
}

/// The ranks `ranks`, with those that are not marked raised by `by`.
pub open spec fn raised(ranks: Seq<nat>, marks: Seq<bool>, by: nat) -> Seq<nat> {
    Seq::new(
        ranks.len(),
        |x: int|
            if marks[x] {
                ranks[x]
            } else {
                ranks[x] + by
            },
    )
}

impl ModelView {
    /// A ranking of a model with one more dependency ranks the model without
    /// it.
    proof fn lemma_dependency_ranks(
        self,
        id: ValueId,
        e: Expr,
        value_rank: Seq<nat>,
        item_rank: Seq<nat>,
    )
        requires
            self.with_dependency(id, e).ranked(value_rank, item_rank),
        ensures
            self.ranked(value_rank, item_rank),
    {
        let after = self.with_dependency(id, e);
        assert forall|v: int, j: int|
            0 <= v < self.values.len() && 0 <= j < self.values[v].dependents.len() implies value_rank[(
        #[trigger] self.values[v].dependents[j]).0 as int] < value_rank[v] by {
            assert(after.values[v].dependents[j] == self.values[v].dependents[j]);
        }
        assert forall|v: int, j: int|
            0 <= v < self.values.len() && 0 <= j < self.values[v].conditions.len() implies item_rank[(
        #[trigger] self.values[v].conditions[j]).0 as int] < value_rank[v] by {
            assert(after.values[v].conditions[j] == self.values[v].conditions[j]);
        }
    }

    /// A dependency of `id` that reads a value that a change of `id`
    /// reaches closes a circle.
    pub proof fn lemma_dependency_cycle(self, id: ValueId, e: Expr, marks: Marks, read: ValueId)
        requires
            self.wf(),
            self.has_value(id),
            self.has_value(read),
            marks.fit(self),
            marks.under(self, id),
            e.reads(read),
            marks.values[read.0 as int],
        ensures
            !self.with_dependency(id, e).acyclic(),
    {
        let after = self.with_dependency(id, e);
        if after.acyclic() {
            let (value_rank, item_rank) = choose|value_rank: Seq<nat>, item_rank: Seq<nat>|
                after.ranked(value_rank, item_rank);
            self.lemma_dependency_ranks(id, e, value_rank, item_rank);
            assert(self.ranked(value_rank, item_rank));
            assert(value_rank[read.0 as int] <= value_rank[id.0 as int]);
            assert(value_id(read.0 as int) == read);
            let listed = after.values[read.0 as int].dependents;
            assert(listed[listed.len() - 1] == id);
            assert(value_rank[id.0 as int] < value_rank[read.0 as int]);
        }
    }

    /// A dependency of `id` that reads a value to which a route leads from
    /// `id` closes a circle.
    pub proof fn lemma_dependency_circle(self, id: ValueId, e: Expr, read: ValueId)
        requires
            self.wf(),
            self.has_value(id),
            self.has_value(read),
            self.reaches(id, read),
            e.reads(read),
        ensures
            self.with_dependency(id, e).has_circle(),
    {
        let after = self.with_dependency(id, e);
        assert forall|from: ValueId, to: ValueId|
            self.has_value(from) && #[trigger] self.carries(from, to) implies after.carries(
            from,
            to,
        ) by {
            if self.value(from).dependents.contains(to) {
                let listed = self.value(from).dependents;
                let at = choose|at: int| 0 <= at < listed.len() && listed[at] == to;
                assert(after.value(from).dependents[at] == to);
            } else {
                let item = choose|item: ItemId|
                    self.value(from).conditions.contains(item) && #[trigger] targets(
                        self.item(item).modifications,
                    ).contains(to);
                assert(after.value(from).conditions.contains(item) && targets(
                    after.item(item).modifications,
                ).contains(to));
            }
        }
        assert(value_id(read.0 as int) == read);
        let listed = after.value(read).dependents;
        assert(listed[listed.len() - 1] == id);
        assert(after.carries(read, id));
        self.lemma_closes(after, id, read);
    }

    /// A modification by an item whose condition reads a value to which a
    /// route leads from the target closes a circle.
    pub proof fn lemma_modification_circle(
        self,
        from: ItemId,
        to: ValueId,
        modification: ModificationView,
    )
        requires
            self.wf(),
            self.has_item(from),
            self.has_value(to),
            self.reaches_item(to, from),
        ensures
            self.with_modification(from, to, modification).has_circle(),
    {
        let after = self.with_modification(from, to, modification);
        assert(self.item_wf(from.0 as int));
        lemma_put(self.item(from).modifications, to, modification);
        assert forall|first: ValueId, second: ValueId|
            self.has_value(first) && #[trigger] self.carries(
                first,
                second,
            ) implies after.carries(first, second) by {
            assert(after.value(first).dependents == self.value(first).dependents);
            assert(after.value(first).conditions == self.value(first).conditions);
            if !self.value(first).dependents.contains(second) {
                let item = choose|item: ItemId|
                    self.value(first).conditions.contains(item) && #[trigger] targets(
                        self.item(item).modifications,
                    ).contains(second);
                assert(self.value_wf(first.0 as int));
                let listed = self.value(first).conditions;
                let at = choose|at: int| 0 <= at < listed.len() && listed[at] == item;
                assert(self.has_item(self.values[first.0 as int].conditions[at]));
                if item.0 == from.0 {
                    assert(item == from);
                }
                assert(after.value(first).conditions.contains(item) && targets(
                    after.item(item).modifications,
                ).contains(second));
            }
        }
        let read = choose|read: ValueId|
            #[trigger] self.reaches(to, read) && self.has_value(read) && self.value(
                read,
            ).conditions.contains(from);
        assert(after.value(read).conditions == self.value(read).conditions);
        assert(after.value(read).conditions.contains(from) && targets(
            after.item(from).modifications,
        ).contains(to));
        assert(after.carries(read, to));
        self.lemma_closes(after, to, read);
    }

    /// A consistent model with one more dependency of `id` is consistent, if
    /// the dependency can be evaluated and reads no value that a change of
    /// `id` reaches.
    pub proof fn lemma_with_dependency(self, id: ValueId, e: Expr, marks: Marks)
        requires
            self.wf(),
            self.has_value(id),
            self.expr_ok(e),
            marks.fit(self),
            marks.closed(self),
            marks.values[id.0 as int],
            marks.misses(e),
        ensures
            self.with_dependency(id, e).wf(),
    {
        let after = self.with_dependency(id, e);
        assert forall|v: int| 0 <= v < after.values.len() implies #[trigger] after.value_wf(v) by {
            assert(self.value_wf(v));
            let before = self.values[v];
            let value = after.values[v];
            assert forall|j: int| 0 <= j < value.dependencies.len() implies after.expr_ok(
                #[trigger] value.dependencies[j],
            ) by {
                if j < before.dependencies.len() {
                    assert(self.expr_ok(before.dependencies[j]));
                    assert(value.dependencies[j] == before.dependencies[j]);
                }
            }
            assert forall|j: int| 0 <= j < value.dependents.len() implies after.has_value(
                #[trigger] value.dependents[j],
            ) by {
                if j < before.dependents.len() {
                    assert(self.has_value(before.dependents[j]));
                    assert(value.dependents[j] == before.dependents[j]);
                }
            }
            assert forall|j: int| 0 <= j < value.modifying_items.len() implies after.has_item(
                #[trigger] value.modifying_items[j],
            ) && targets(after.item(value.modifying_items[j]).modifications).contains(
                value_id(v),
            ) by {
                assert(self.has_item(before.modifying_items[j]));
            }
            assert forall|j: int| 0 <= j < value.conditions.len() implies after.has_item(
                #[trigger] value.conditions[j],
            ) && after.item(value.conditions[j]).condition is Some by {
                assert(self.has_item(before.conditions[j]));
            }
        }
        assert forall|v: int| 0 <= v < after.values.len() implies #[trigger] after.dependents_known(
            v,
        ) by {
            assert(self.dependents_known(v));
            assert(self.value_wf(v));
            assert forall|j: int, read: ValueId|
                0 <= j < after.values[v].dependencies.len()
                    && #[trigger] after.values[v].dependencies[j].reads(
                    read,
                ) implies after.value(read).dependents.contains(value_id(v)) by {
                if j < self.values[v].dependencies.len() {
                    assert(after.values[v].dependencies[j] == self.values[v].dependencies[j]);
                    assert(self.expr_ok(self.values[v].dependencies[j]));
                    assert(self.has_value(read));
                    let listed = self.value(read).dependents;
                    assert(listed.contains(value_id(v)));
                    let at = choose|at: int| 0 <= at < listed.len() && listed[at] == value_id(v);
                    assert(after.value(read).dependents[at] == value_id(v));
                } else {
                    assert(after.values[v].dependencies[j] == e);
                    assert(self.has_value(read));
                    assert(value_id(read.0 as int) == read);
                    let listed = after.value(read).dependents;
                    assert(listed[listed.len() - 1] == id);
                    assert(value_id(v) == id);
                }
            }
        }
        assert forall|i: int| 0 <= i < after.items.len() implies #[trigger] after.item_wf(i) by {
            assert(self.item_wf(i));
            let item = self.items[i];
            if item.condition is Some {
                let c = item.condition.unwrap();
                assert forall|read: ValueId| #[trigger] c.reads(read) implies after.value(
                    read,
                ).conditions.contains(item_id(i)) by {
                    assert(self.has_value(read));
                }
            }
            assert forall|k: int| 0 <= k < item.modifications.len() implies after.value(
                (#[trigger] item.modifications[k]).0,
            ).modifying_items.contains(item_id(i)) by {
                assert(self.has_value(item.modifications[k].0));
            }
        }
        assert forall|i: int| 0 <= i < after.inventories.len() implies #[trigger] after.inventory_wf(
            i,
        ) by {
            assert(self.inventory_wf(i));
        }
        assert forall|c: int| 0 <= c < after.choices.len() implies #[trigger] after.choice_wf(c) by {
            assert(self.choice_wf(c));
            let choice = self.choices[c];
            assert forall|k: int| 0 <= k < choice.options.len() implies {
                &&& after.list_ok((#[trigger] choice.options[k]).modifications)
                &&& forall|j: int|
                    0 <= j < choice.options[k].modifications.len() ==> after.value(
                        (#[trigger] choice.options[k].modifications[j]).0,
                    ).modifying_choices.contains(choice_id(c))
            } by {
                let list = choice.options[k].modifications;
                assert(self.list_ok(list));
                assert forall|j: int| 0 <= j < list.len() implies after.value(
                    (#[trigger] list[j]).0,
                ).modifying_choices.contains(choice_id(c)) by {
                    assert(self.has_value(list[j].0));
                }
            }
        }
        // The ranking: what a change of `id` reaches keeps its rank, the rest
        // is raised above all of it.
        let (value_rank, item_rank) = choose|value_rank: Seq<nat>, item_rank: Seq<nat>|
            self.ranked(value_rank, item_rank);
        let by: nat = top(value_rank) + top(item_rank) + 1;
        let value_rank2 = raised(value_rank, marks.values, by);
        let item_rank2 = raised(item_rank, marks.items, by);
        assert(after.ranked(value_rank2, item_rank2)) by {
            assert forall|v: int, j: int|
                0 <= v < after.values.len() && 0 <= j < after.values[v].dependents.len() implies value_rank2[(
            #[trigger] after.values[v].dependents[j]).0 as int] < value_rank2[v] by {
                assert(self.value_wf(v));
                if j < self.values[v].dependents.len() {
                    let d = self.values[v].dependents[j];
                    assert(after.values[v].dependents[j] == d);
                    assert(self.has_value(d));
                    assert(value_rank[d.0 as int] < value_rank[v]);
                    if marks.values[v] {
                        assert(marks.value_done(self, v));
                        assert(marks.values[d.0 as int]);
                    }
                } else {
                    assert(after.values[v].dependents[j] == id);
                    assert(e.reads(value_id(v)));
                    assert(!marks.values[v]);
                    lemma_top(value_rank, id.0 as int);
                }
            }
            assert forall|v: int, j: int|
                0 <= v < after.values.len() && 0 <= j < after.values[v].conditions.len() implies item_rank2[(
            #[trigger] after.values[v].conditions[j]).0 as int] < value_rank2[v] by {
                assert(self.value_wf(v));
                let c = self.values[v].conditions[j];
                assert(self.has_item(c));
                assert(item_rank[c.0 as int] < value_rank[v]);
                if marks.values[v] {
                    assert(marks.value_done(self, v));
                    assert(marks.items[c.0 as int]);
                }
            }
            assert forall|i: int, k: int|
                0 <= i < after.items.len() && 0 <= k < after.items[i].modifications.len() implies value_rank2[(
            #[trigger] after.items[i].modifications[k]).0.0 as int] < item_rank2[i] by {
                assert(self.item_wf(i));
                let t = self.items[i].modifications[k].0;
                assert(self.has_value(t));
                assert(value_rank[t.0 as int] < item_rank[i]);
                if marks.items[i] {
                    assert(marks.item_done(self, i));
                    assert(marks.values[t.0 as int]);
                }
            }
        }
    }
}

impl ModelView {
    /// A ranking of a model with one more modification ranks the model
    /// without it.
    proof fn lemma_modification_ranks(
        self,
        from: ItemId,
        to: ValueId,
        modification: ModificationView,
        value_rank: Seq<nat>,
        item_rank: Seq<nat>,
    )
        requires
            self.wf(),
            self.has_item(from),
            self.has_value(to),
            self.with_modification(from, to, modification).ranked(value_rank, item_rank),
        ensures
            self.ranked(value_rank, item_rank),
    {
        let after = self.with_modification(from, to, modification);
        assert(self.item_wf(from.0 as int));
        lemma_put(self.item(from).modifications, to, modification);
        assert forall|v: int, j: int|
            0 <= v < self.values.len() && 0 <= j < self.values[v].dependents.len() implies value_rank[(
        #[trigger] self.values[v].dependents[j]).0 as int] < value_rank[v] by {
            assert(after.values[v].dependents[j] == self.values[v].dependents[j]);
        }
        assert forall|v: int, j: int|
            0 <= v < self.values.len() && 0 <= j < self.values[v].conditions.len() implies item_rank[(
        #[trigger] self.values[v].conditions[j]).0 as int] < value_rank[v] by {
            assert(after.values[v].conditions[j] == self.values[v].conditions[j]);
        }
        assert forall|i: int, k: int|
            0 <= i < self.items.len() && 0 <= k < self.items[i].modifications.len() implies value_rank[(
        #[trigger] self.items[i].modifications[k]).0.0 as int] < item_rank[i] by {
            assert(after.items[i].modifications[k].0 == self.items[i].modifications[k].0);
        }
    }

    /// A modification by an item that a change of the target reaches closes a
    /// circle.
    pub proof fn lemma_modification_cycle(
        self,
        from: ItemId,
        to: ValueId,
        modification: ModificationView,
        marks: Marks,
    )
        requires
            self.wf(),
            self.has_item(from),
            self.has_value(to),
            marks.fit(self),
            marks.under(self, to),
            marks.items[from.0 as int],
        ensures
            !self.with_modification(from, to, modification).acyclic(),
    {
        let after = self.with_modification(from, to, modification);
        if after.acyclic() {
            let (value_rank, item_rank) = choose|value_rank: Seq<nat>, item_rank: Seq<nat>|
                after.ranked(value_rank, item_rank);
            self.lemma_modification_ranks(from, to, modification, value_rank, item_rank);
            assert(item_rank[from.0 as int] < value_rank[to.0 as int]);
            assert(self.item_wf(from.0 as int));
            let list = self.item(from).modifications;
            lemma_put(list, to, modification);
            let keys = targets(put(list, to, modification));
            let at = choose|at: int| 0 <= at < keys.len() && keys[at] == to;
            assert(after.items[from.0 as int].modifications[at].0 == to);
        }
    }

    /// A consistent model with one more modification is consistent, if the
    /// modification can be evaluated and a change of its target does not
    /// reach the item.
    pub proof fn lemma_with_modification(
        self,
        from: ItemId,
        to: ValueId,
        modification: ModificationView,
        marks: Marks,
    )
        requires
            self.wf(),
            self.has_item(from),
            self.has_value(to),
            self.expr_ok(modification.calculation),
            marks.fit(self),
            marks.closed(self),
            marks.values[to.0 as int],
            !marks.items[from.0 as int],
        ensures
            self.with_modification(from, to, modification).wf(),
    {
        let after = self.with_modification(from, to, modification);
        let list = self.item(from).modifications;
        let added = !targets(list).contains(to);
        assert(self.item_wf(from.0 as int));
        assert(self.value_wf(to.0 as int));
        lemma_put(list, to, modification);
        assert(value_id(to.0 as int) == to);
        assert(item_id(from.0 as int) == from);
        assert forall|v: int| 0 <= v < after.values.len() implies #[trigger] after.value_wf(v) by {
            assert(self.value_wf(v));
            let before = self.values[v];
            let value = after.values[v];
            assert forall|j: int| 0 <= j < value.modifying_items.len() implies after.has_item(
                #[trigger] value.modifying_items[j],
            ) && targets(after.item(value.modifying_items[j]).modifications).contains(
                value_id(v),
            ) by {
                if j < before.modifying_items.len() {
                    let other = before.modifying_items[j];
                    assert(value.modifying_items[j] == other);
                    assert(self.has_item(other));
                    assert(targets(self.item(other).modifications).contains(value_id(v)));
                    if other.0 == from.0 {
                        assert(other == from);
                    }
                }
            }
            if v == to.0 && added {
                assert forall|a: int, b: int|
                    0 <= a < b < value.modifying_items.len() implies value.modifying_items[a]
                    != value.modifying_items[b] by {
                    if b == before.modifying_items.len() {
                        assert(self.has_item(before.modifying_items[a]));
                        assert(targets(self.item(before.modifying_items[a]).modifications).contains(
                            value_id(v),
                        ));
                    }
                }
            }
            assert forall|j: int| 0 <= j < value.conditions.len() implies after.has_item(
                #[trigger] value.conditions[j],
            ) && after.item(value.conditions[j]).condition is Some by {
                assert(self.has_item(before.conditions[j]));
            }
        }
        assert forall|v: int| 0 <= v < after.values.len() implies #[trigger] after.dependents_known(
            v,
        ) by {
            assert(self.dependents_known(v));
            assert(self.value_wf(v));
            assert forall|j: int, read: ValueId|
                0 <= j < after.values[v].dependencies.len()
                    && #[trigger] after.values[v].dependencies[j].reads(
                    read,
                ) implies after.value(read).dependents.contains(value_id(v)) by {
                assert(self.expr_ok(self.values[v].dependencies[j]));
                assert(self.has_value(read));
            }
        }
        assert forall|i: int| 0 <= i < after.items.len() implies #[trigger] after.item_wf(i) by {
            assert(self.item_wf(i));
            let item = self.items[i];
            let item2 = after.items[i];
            if item.condition is Some {
                let c = item.condition.unwrap();
                assert forall|read: ValueId| #[trigger] c.reads(read) implies after.value(
                    read,
                ).conditions.contains(item_id(i)) by {
                    assert(self.has_value(read));
                }
            }
            assert forall|k: int| 0 <= k < item2.modifications.len() implies after.has_value(
                (#[trigger] item2.modifications[k]).0,
            ) && after.expr_ok(item2.modifications[k].1.calculation) && after.value(
                item2.modifications[k].0,
            ).modifying_items.contains(item_id(i)) by {
                let entry = item2.modifications[k];
                if i == from.0 && entry == (to, modification) {
                    if added {
                        let listed = after.value(to).modifying_items;
                        assert(listed[listed.len() - 1] == from);
                    } else {
                        let at = targets(list).index_of(to);
                        assert(targets(list)[at] == to);
                        assert(list[at].0 == to);
                        assert(self.value(list[at].0).modifying_items.contains(item_id(i)));
                    }
                } else {
                    assert(entry == item.modifications[k]);
                    assert(self.has_value(entry.0));
                    let listed = self.value(entry.0).modifying_items;
                    assert(listed.contains(item_id(i)));
                    let at = choose|at: int| 0 <= at < listed.len() && listed[at] == item_id(i);
                    assert(after.value(entry.0).modifying_items[at] == item_id(i));
                }
            }
        }
        assert forall|i: int| 0 <= i < after.inventories.len() implies #[trigger] after.inventory_wf(
            i,
        ) by {
            assert(self.inventory_wf(i));
        }
        assert forall|c: int| 0 <= c < after.choices.len() implies #[trigger] after.choice_wf(c) by {
            assert(self.choice_wf(c));
            let choice = self.choices[c];
            assert forall|k: int| 0 <= k < choice.options.len() implies {
                &&& after.list_ok((#[trigger] choice.options[k]).modifications)
                &&& forall|j: int|
                    0 <= j < choice.options[k].modifications.len() ==> after.value(
                        (#[trigger] choice.options[k].modifications[j]).0,
                    ).modifying_choices.contains(choice_id(c))
            } by {
                let options = choice.options[k].modifications;
                assert(self.list_ok(options));
                assert forall|j: int| 0 <= j < options.len() implies after.value(
                    (#[trigger] options[j]).0,
                ).modifying_choices.contains(choice_id(c)) by {
                    assert(self.has_value(options[j].0));
                }
            }
        }
        let (value_rank, item_rank) = choose|value_rank: Seq<nat>, item_rank: Seq<nat>|
            self.ranked(value_rank, item_rank);
        let by: nat = top(value_rank) + top(item_rank) + 1;
        let value_rank2 = raised(value_rank, marks.values, by);
        let item_rank2 = raised(item_rank, marks.items, by);
        assert(after.ranked(value_rank2, item_rank2)) by {
            assert forall|v: int, j: int|
                0 <= v < after.values.len() && 0 <= j < after.values[v].dependents.len() implies value_rank2[(
            #[trigger] after.values[v].dependents[j]).0 as int] < value_rank2[v] by {
                assert(self.value_wf(v));
                let d = self.values[v].dependents[j];
                assert(after.values[v].dependents[j] == d);
                assert(self.has_value(d));
                assert(value_rank[d.0 as int] < value_rank[v]);
                if marks.values[v] {
                    assert(marks.value_done(self, v));
                    assert(marks.values[d.0 as int]);
                }
            }
            assert forall|v: int, j: int|
                0 <= v < after.values.len() && 0 <= j < after.values[v].conditions.len() implies item_rank2[(
            #[trigger] after.values[v].conditions[j]).0 as int] < value_rank2[v] by {
                assert(self.value_wf(v));
                let c = self.values[v].conditions[j];
                assert(after.values[v].conditions[j] == c);
                assert(self.has_item(c));
                assert(item_rank[c.0 as int] < value_rank[v]);
                if marks.values[v] {
                    assert(marks.value_done(self, v));
                    assert(marks.items[c.0 as int]);
                }
            }
            assert forall|i: int, k: int|
                0 <= i < after.items.len() && 0 <= k < after.items[i].modifications.len() implies value_rank2[(
            #[trigger] after.items[i].modifications[k]).0.0 as int] < item_rank2[i] by {
                assert(self.item_wf(i));
                let entry = after.items[i].modifications[k];
                if i == from.0 && entry == (to, modification) {
                    lemma_top(value_rank, to.0 as int);
                } else {
                    let t = self.items[i].modifications[k].0;
                    assert(entry == self.items[i].modifications[k]);
                    assert(self.has_value(t));
                    assert(value_rank[t.0 as int] < item_rank[i]);
                    if marks.items[i] {
                        assert(marks.item_done(self, i));
                        assert(marks.values[t.0 as int]);
                    }
                }
            }
        }
    }
}

impl Model {
    /// Mark `id` and what a change of it reaches.
    fn mark_value(
        &self,
        id: ValueId,
        values: &mut Vec<bool>,
        items: &mut Vec<bool>,
        Ghost(start): Ghost<ValueId>,
    )
        requires
            self.wf(),
            self@.has_value(id),
            self@.has_value(start),
            (Marks { values: old(values)@, items: old(items)@ }).fit(self@),
            (Marks { values: old(values)@, items: old(items)@ }).under(self@, start),
            (Marks { values: old(values)@, items: old(items)@ }).routed(self@, start),
            !old(values)@[id.0 as int],
            forall|value_rank: Seq<nat>, item_rank: Seq<nat>| #[trigger]
                self@.ranked(value_rank, item_rank) ==> value_rank[id.0 as int]
                    <= value_rank[start.0 as int],
            self@.reaches(start, id),
        ensures
            (Marks { values: old(values)@, items: old(items)@ }).kept_by(
                Marks { values: final(values)@, items: final(items)@ },
            ),
            (Marks { values: final(values)@, items: final(items)@ }).done_since(
                self@,
                Marks { values: old(values)@, items: old(items)@ },
            ),
            (Marks { values: final(values)@, items: final(items)@ }).under(self@, start),
            (Marks { values: final(values)@, items: final(items)@ }).routed(self@, start),
            final(values)@[id.0 as int],
        decreases self@.value_ranks()[id.0 as int],
    {
        let ghost model = self@;
        let ghost first = Marks { values: values@, items: items@ };
        values[id.0] = true;
        let ghost second = Marks { values: values@, items: items@ };
        let value = self.values.get(id);
        proof {
            model.lemma_ranks();
            assert(value_id(id.0 as int) == id);
            assert(model.value_wf(id.0 as int));
            assert(second.done_since(model, second));
            assert(second.kept_by(second));
        }
        let mut j: usize = 0;
        while j < value.dependents.len()
            invariant
                j <= value.dependents@.len(),
                self.wf(),
                model == self@,
                model.has_value(id),
                model.has_value(start),
                *value == self.values@[id.0 as int],
                model.value_wf(id.0 as int),
                model.ranked(model.value_ranks(), model.item_ranks()),
                first.fit(model),
                second.fit(model),
                second.kept_by(Marks { values: values@, items: items@ }),
                (Marks { values: values@, items: items@ }).done_since(model, second),
                (Marks { values: values@, items: items@ }).under(model, start),
                (Marks { values: values@, items: items@ }).routed(model, start),
                model.reaches(start, id),
                (Marks { values: values@, items: items@ }).value_done_to(
                    model,
                    id.0 as int,
                    j as int,
                    0,
                ),
                values@[id.0 as int],
                forall|value_rank: Seq<nat>, item_rank: Seq<nat>| #[trigger]
                    model.ranked(value_rank, item_rank) ==> value_rank[id.0 as int]
                        <= value_rank[start.0 as int],
            decreases value.dependents@.len() - j,
        {
            let dependent = value.dependents[j];
            let ghost before = Marks { values: values@, items: items@ };
            assert(model.values[id.0 as int].dependents[j as int] == dependent);
            assert(model.has_value(dependent));
            proof {
                assert(model.value(id).dependents.contains(dependent));
                model.lemma_reaches_step(start, id, dependent);
            }
            if !values[dependent.0] {
                self.mark_value(dependent, values, items, Ghost(start));
                proof {
                    let after = Marks { values: values@, items: items@ };
                    lemma_done_since(model, second, before, after);
                    lemma_done_kept(model, before, after);
                }
            }
            j += 1;
        }
        let mut c: usize = 0;
        while c < value.conditions.len()
            invariant
                c <= value.conditions@.len(),
                self.wf(),
                model == self@,
                model.has_value(id),
                model.has_value(start),
                *value == self.values@[id.0 as int],
                model.value_wf(id.0 as int),
                model.ranked(model.value_ranks(), model.item_ranks()),
                first.fit(model),
                second.fit(model),
                second.kept_by(Marks { values: values@, items: items@ }),
                (Marks { values: values@, items: items@ }).done_since(model, second),
                (Marks { values: values@, items: items@ }).under(model, start),
                (Marks { values: values@, items: items@ }).routed(model, start),
                model.reaches(start, id),
                (Marks { values: values@, items: items@ }).value_done_to(
                    model,
                    id.0 as int,
                    model.values[id.0 as int].dependents.len() as int,
                    c as int,
                ),
                values@[id.0 as int],
                forall|value_rank: Seq<nat>, item_rank: Seq<nat>| #[trigger]
                    model.ranked(value_rank, item_rank) ==> value_rank[id.0 as int]
                        <= value_rank[start.0 as int],
            decreases value.conditions@.len() - c,
        {
            let item = value.conditions[c];
            let ghost before = Marks { values: values@, items: items@ };
            assert(model.values[id.0 as int].conditions[c as int] == item);
            assert(model.has_item(item));
            proof {
                assert(model.value(id).conditions.contains(item));
                assert(model.reaches(start, id) && model.has_value(id));
            }
            if !items[item.0] {
                self.mark_item(item, values, items, Ghost(start));
                proof {
                    let after = Marks { values: values@, items: items@ };
                    lemma_done_since(model, second, before, after);
                    lemma_done_kept(model, before, after);
                }
            }
            c += 1;
        }
        proof {
            let last = Marks { values: values@, items: items@ };
            assert forall|v: int|
                0 <= v < last.values.len() && #[trigger] last.values[v]
                    && !first.values[v] implies last.value_done(model, v) by {
                if v != id.0 {
                    assert(!second.values[v]);
                }
            }
            assert forall|i: int|
                0 <= i < last.items.len() && #[trigger] last.items[i]
                    && !first.items[i] implies last.item_done(model, i) by {
                assert(!second.items[i]);
            }
        }
    }

    /// Mark `id` and what a change of its count reaches.
    fn mark_item(
        &self,
        id: ItemId,
        values: &mut Vec<bool>,
        items: &mut Vec<bool>,
        Ghost(start): Ghost<ValueId>,
    )
        requires
            self.wf(),
            self@.has_item(id),
            self@.has_value(start),
            (Marks { values: old(values)@, items: old(items)@ }).fit(self@),
            (Marks { values: old(values)@, items: old(items)@ }).under(self@, start),
            (Marks { values: old(values)@, items: old(items)@ }).routed(self@, start),
            !old(items)@[id.0 as int],
            forall|value_rank: Seq<nat>, item_rank: Seq<nat>| #[trigger]
                self@.ranked(value_rank, item_rank) ==> item_rank[id.0 as int]
                    < value_rank[start.0 as int],
            self@.reaches_item(start, id),
        ensures
            (Marks { values: old(values)@, items: old(items)@ }).kept_by(
                Marks { values: final(values)@, items: final(items)@ },
            ),
            (Marks { values: final(values)@, items: final(items)@ }).done_since(
                self@,
                Marks { values: old(values)@, items: old(items)@ },
            ),
            (Marks { values: final(values)@, items: final(items)@ }).under(self@, start),
            (Marks { values: final(values)@, items: final(items)@ }).routed(self@, start),
            final(items)@[id.0 as int],
        decreases self@.item_ranks()[id.0 as int],
    {
        let ghost model = self@;
        let ghost first = Marks { values: values@, items: items@ };
        items[id.0] = true;
        let ghost second = Marks { values: values@, items: items@ };
        let item = self.items.get(id);
        proof {
            model.lemma_ranks();
            assert(item_id(id.0 as int) == id);
            assert(model.item_wf(id.0 as int));
            assert(second.done_since(model, second));
            assert(second.kept_by(second));
        }
        let mut k: usize = 0;
        while k < item.modifications.len()
            invariant
                k <= item.modifications@.len(),
                self.wf(),
                model == self@,
                model.has_item(id),
                model.has_value(start),
                *item == self.items@[id.0 as int],
                model.item_wf(id.0 as int),
                model.ranked(model.value_ranks(), model.item_ranks()),
                first.fit(model),
                second.fit(model),
                second.kept_by(Marks { values: values@, items: items@ }),
                (Marks { values: values@, items: items@ }).done_since(model, second),
                (Marks { values: values@, items: items@ }).under(model, start),
                (Marks { values: values@, items: items@ }).routed(model, start),
                model.reaches_item(start, id),
                (Marks { values: values@, items: items@ }).item_done_to(
                    model,
                    id.0 as int,
                    k as int,
                ),
                items@[id.0 as int],
                forall|value_rank: Seq<nat>, item_rank: Seq<nat>| #[trigger]
                    model.ranked(value_rank, item_rank) ==> item_rank[id.0 as int]
                        < value_rank[start.0 as int],
            decreases item.modifications@.len() - k,
        {
            let target = item.modifications[k].0;
            let ghost before = Marks { values: values@, items: items@ };
            assert(model.items[id.0 as int].modifications[k as int].0 == target);
            assert(model.has_value(target));
            proof {
                let read = choose|read: ValueId|
                    #[trigger] model.reaches(start, read) && model.has_value(read) && model.value(
                        read,
                    ).conditions.contains(id);
                assert(targets(model.item(id).modifications)[k as int] == target);
                assert(targets(model.item(id).modifications).contains(target));
                assert(model.carries(read, target));
                model.lemma_reaches_step(start, read, target);
            }
            if !values[target.0] {
                self.mark_value(target, values, items, Ghost(start));
                proof {
                    let after = Marks { values: values@, items: items@ };
                    lemma_done_since(model, second, before, after);
                    lemma_done_kept(model, before, after);
                }
            }
            k += 1;
        }
        proof {
            let last = Marks { values: values@, items: items@ };
            assert forall|v: int|
                0 <= v < last.values.len() && #[trigger] last.values[v]
                    && !first.values[v] implies last.value_done(model, v) by {
                assert(!second.values[v]);
            }
            assert forall|i: int|
                0 <= i < last.items.len() && #[trigger] last.items[i]
                    && !first.items[i] implies last.item_done(model, i) by {
                if i != id.0 {
                    assert(!second.items[i]);
                }
            }
        }
    }

    /// The values and items that a change of `start` reaches, `start`
    /// included.
    pub(crate) fn reach(&self, start: ValueId) -> (r: (Vec<bool>, Vec<bool>))
        requires
            self.wf(),
            self@.has_value(start),
        ensures
            (Marks { values: r.0@, items: r.1@ }).fit(self@),
            (Marks { values: r.0@, items: r.1@ }).closed(self@),
            (Marks { values: r.0@, items: r.1@ }).under(self@, start),
            (Marks { values: r.0@, items: r.1@ }).routed(self@, start),
            r.0@[start.0 as int],
    {
        let mut values: Vec<bool> = Vec::new();
        let mut items: Vec<bool> = Vec::new();
        let mut v: usize = 0;
        while v < self.values.len()
            invariant
                v <= self.values@.len(),
                values@.len() == v,
                forall|w: int| 0 <= w < v ==> !#[trigger] values@[w],
            decreases self.values@.len() - v,
        {
            values.push(false);
            v += 1;
        }
        let mut i: usize = 0;
        while i < self.items.len()
            invariant
                i <= self.items@.len(),
                items@.len() == i,
                forall|w: int| 0 <= w < i ==> !#[trigger] items@[w],
            decreases self.items@.len() - i,
        {
            items.push(false);
            i += 1;
        }
        proof {
            self@.lemma_reaches_itself(start);
        }
        self.mark_value(start, &mut values, &mut items, Ghost(start));
        (values, items)
    }
}

} // verus!
