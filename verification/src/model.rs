//! Allows defining rules for values and items.

pub mod calculation;
pub mod choice;
pub mod container;
pub mod cycles;
pub mod expression;
pub mod front_end;
pub mod growth;
pub mod inventory;
pub mod item;
pub mod modification;
pub mod operation;
pub mod operators;
pub mod structure;
pub mod value;

pub use calculation::{Calculation, IntoCalculation};
pub use choice::{Choice, ChoiceView, Selection, SelectionView};
pub use container::{Container, Id};
pub use expression::{Env, Expr};
pub use front_end::FrontEnd;
pub use inventory::{Inventory, InventoryView};
pub use item::{Item, ItemView, Physical};
pub use modification::{Modification, ModificationView};
pub use operation::{BinaryOp, Rounding, UnaryOp};
pub use structure::ModelView;
pub use value::{Value, ValueView};

use vstd::prelude::*;
use crate::error::ErrorKind;
use modification::targets;

verus! {

/// Points to a choice in the model.
pub type ChoiceId = Id<Choice>;

/// Points to a value in the model.
pub type ValueId = Id<Value>;

/// Points to an inventory in the model.
pub type InventoryId = Id<Inventory>;

/// Points to an item in the model.
pub type ItemId = Id<Item>;

/// Contains a set of values and items that can be used together.
pub struct Model {
    pub(crate) choices: Container<Choice>,
    pub(crate) values: Container<Value>,
    pub(crate) inventories: Container<Inventory>,
    pub(crate) items: Container<Item>,
    pub(crate) main_inventory: Option<InventoryId>,
}

impl View for Model {
    type V = ModelView;

    open(crate) spec fn view(&self) -> ModelView {
        ModelView {
            values: self.values@.map_values(|value: Value| value@),
            items: self.items@.map_values(|item: Item| item@),
            inventories: self.inventories@.map_values(|inventory: Inventory| inventory@),
            choices: self.choices@.map_values(|choice: Choice| choice@),
            main_inventory: self.main_inventory,
        }
    }
}

impl Model {
    /// The model is consistent: what it declares is (see `ModelView::wf`),
    /// and so is the way in which it is stored.
    pub open(crate) spec fn wf(&self) -> bool {
        &&& self.values.wf()
        &&& self.items.wf()
        &&& self.inventories.wf()
        &&& self.choices.wf()
        &&& forall|v: int| 0 <= v < self.values@.len() ==> (#[trigger] self.values@[v]).wf()
        &&& forall|i: int| 0 <= i < self.items@.len() ==> (#[trigger] self.items@[i]).wf()
        &&& forall|i: int|
            0 <= i < self.inventories@.len() ==> (#[trigger] self.inventories@[i]).wf()
        &&& forall|c: int| 0 <= c < self.choices@.len() ==> (#[trigger] self.choices@[c]).wf()
        &&& self@.wf()
    }

    /// What a consistent model declares is consistent, so the laws of
    /// `ModelView` and `CharacterView` hold of it.
    pub proof fn law_view_wf(&self)
        requires
            self.wf(),
        ensures
            self@.wf(),
    {
    }

    /// Whether every modification, of an item or of a selection, reads no
    /// value but the one that it modifies. Of such a model updates keep every
    /// value in line.
    pub fn is_self_contained(&self) -> (r: bool)
        requires
            self.wf(),
        ensures
            r == self@.self_contained(),
    {
        let mut i: usize = 0;
        while i < self.items.len()
            invariant
                i <= self.items@.len(),
                self.wf(),
                forall|j: int|
                    0 <= j < i ==> structure::list_self_contained(
                        (#[trigger] self@.items[j]).modifications,
                    ),
            decreases self.items@.len() - i,
        {
            let item = self.items.get(Id::new(i));
            assert(self.items@[i as int].wf());
            if !modification::reads_only_targets(&item.modifications) {
                assert(!structure::list_self_contained(self@.items[i as int].modifications));
                return false;
            }
            i += 1;
        }
        let mut c: usize = 0;
        while c < self.choices.len()
            invariant
                c <= self.choices@.len(),
                self.wf(),
                forall|j: int|
                    0 <= j < self@.items.len() ==> structure::list_self_contained(
                        (#[trigger] self@.items[j]).modifications,
                    ),
                forall|j: int, o: int|
                    0 <= j < c && 0 <= o < self@.choices[j].options.len()
                        ==> structure::list_self_contained(
                        (#[trigger] self@.choices[j].options[o]).modifications,
                    ),
            decreases self.choices@.len() - c,
        {
            let choice = self.choices.get(Id::new(c));
            assert(self.choices@[c as int].wf());
            let mut o: usize = 0;
            while o < choice.options.len()
                invariant
                    o <= choice.options@.len(),
                    c < self.choices@.len(),
                    *choice == self.choices@[c as int],
                    choice.wf(),
                    forall|k: int|
                        0 <= k < o ==> structure::list_self_contained(
                            (#[trigger] self@.choices[c as int].options[k]).modifications,
                        ),
                decreases choice.options@.len() - o,
            {
                assert(choice.options@[o as int].wf());
                if !modification::reads_only_targets(&choice.options[o].modifications) {
                    assert(!structure::list_self_contained(
                        self@.choices[c as int].options[o as int].modifications,
                    ));
                    return false;
                }
                o += 1;
            }
            c += 1;
        }
        true
    }

    /// The id strings of the values, by id.
    pub closed spec fn value_names(&self) -> Seq<Seq<char>> {
        self.values.names()
    }

    /// The id strings of the items, by id.
    pub closed spec fn item_names(&self) -> Seq<Seq<char>> {
        self.items.names()
    }

    /// The id strings of the inventory types, by id.
    pub closed spec fn inventory_names(&self) -> Seq<Seq<char>> {
        self.inventories.names()
    }

    /// The id strings of the choices, by id.
    pub closed spec fn choice_names(&self) -> Seq<Seq<char>> {
        self.choices.names()
    }

    /// Create a new Model.
    pub fn new() -> (r: Self)
        ensures
            r.wf(),
            r@ == ModelView::empty(),
            r.value_names().len() == 0,
            r.item_names().len() == 0,
            r.inventory_names().len() == 0,
            r.choice_names().len() == 0,
    {
        let r = Model {
            choices: Container::new(),
            values: Container::new(),
            inventories: Container::new(),
            items: Container::new(),
            main_inventory: None,
        };
        proof {
            assert(r@.values =~= Seq::empty());
            assert(r@.items =~= Seq::empty());
            assert(r@.inventories =~= Seq::empty());
            assert(r@.choices =~= Seq::empty());
            assert(r@.ranked(Seq::empty(), Seq::empty()));
        }
        r
    }

    /// Add a new value to the model. Id string can not alias other value ids.
    pub fn add_value(&mut self, id_str: &str, value: Value) -> (id: ValueId)
        requires
            old(self).wf(),
            !old(self).value_names().contains(id_str@),
            value@.unconnected(),
        ensures
            final(self).wf(),
            final(self)@ == old(self)@.with_value(value@),
            id.0 == old(self)@.values.len(),
            final(self).value_names() == old(self).value_names().push(id_str@),
            final(self).item_names() == old(self).item_names(),
            final(self).inventory_names() == old(self).inventory_names(),
            final(self).choice_names() == old(self).choice_names(),
    {
        let ghost before = *self;
        assert(value.dependencies@.len() == value@.dependencies.len());
        let id = self.values.insert(id_str, value);
        // The number of values is a `usize`, so every value has an id.
        let count = self.values.len();
        proof {
            assert(self@.values =~= before@.with_value(value@).values);
            before@.lemma_with_value(value@);
            assert forall|v: int| 0 <= v < self.values@.len() implies (
            #[trigger] self.values@[v]).wf() by {
                if v < before.values@.len() {
                    assert(before.values@[v].wf());
                }
            }
        }
        id
    }

    /// Add a new item to the model. Id string can not alias other item ids.
    ///
    /// The item modifies nothing yet: modifications are added to an item of
    /// the model.
    pub fn add_item(&mut self, id_str: &str, item: Item) -> (id: ItemId)
        requires
            old(self).wf(),
            !old(self).item_names().contains(id_str@),
            item.wf(),
            item@.modifications.len() == 0,
            old(self)@.takes(item@.condition),
            item@.condition is Some ==> item@.has_inventory is None,
            item@.has_inventory matches Some(inventory) ==> old(self)@.has_inventory(inventory),
        ensures
            final(self).wf(),
            final(self)@ == old(self)@.with_item(item@),
            id.0 == old(self)@.items.len(),
            final(self).item_names() == old(self).item_names().push(id_str@),
            final(self).value_names() == old(self).value_names(),
            final(self).inventory_names() == old(self).inventory_names(),
            final(self).choice_names() == old(self).choice_names(),
    {
        let ghost before = *self;
        let id: ItemId = Id::new(self.items.len());
        match &item.condition {
            Some(calc) => {
                let inputs = calc.values();
                proof {
                    calc.lemma_inputs();
                }
                let mut k: usize = 0;
                while k < inputs.len()
                    invariant
                        k <= inputs@.len(),
                        inputs@ == calc.inputs(),
                        inputs@.no_duplicates(),
                        forall|u: ValueId| calc@.reads(u) <==> inputs@.contains(u),
                        before@.expr_ok(calc@),
                        before.wf(),
                        self.values.wf(),
                        self.values.names() == before.values.names(),
                        self.values@.len() == before.values@.len(),
                        self.items == before.items,
                        self.inventories == before.inventories,
                        self.choices == before.choices,
                        self.main_inventory == before.main_inventory,
                        forall|v: int|
                            0 <= v < self.values@.len() ==> (#[trigger] self.values@[v]).wf(),
                        forall|v: int|
                            0 <= v < self.values@.len() ==> (#[trigger] self.values@[v])@
                                == if inputs@.take(k as int).contains(structure::value_id(v)) {
                                ValueView {
                                    conditions: before.values@[v]@.conditions.push(id),
                                    ..before.values@[v]@
                                }
                            } else {
                                before.values@[v]@
                            },
                    decreases inputs@.len() - k,
                {
                    let input = inputs[k];
                    let ghost stored = self.values@;
                    proof {
                        assert(inputs@.contains(input));
                        assert(calc@.reads(input));
                        assert(before@.has_value(input));
                        assert(structure::value_id(input.0 as int) == input);
                        let earlier = inputs@.take(k as int);
                        if earlier.contains(input) {
                            let at = choose|at: int| 0 <= at < earlier.len() && earlier[at] == input;
                            assert(inputs@[at] == inputs@[k as int]);
                        }
                    }
                    let slot = self.values.get_mut(input);
                    slot.add_condition(id);
                    proof {
                        assert forall|v: int| 0 <= v < self.values@.len() implies (
                        #[trigger] self.values@[v])@ == if inputs@.take(k + 1).contains(
                            structure::value_id(v),
                        ) {
                            ValueView {
                                conditions: before.values@[v]@.conditions.push(id),
                                ..before.values@[v]@
                            }
                        } else {
                            before.values@[v]@
                        } by {
                            let earlier = inputs@.take(k as int);
                            let now = inputs@.take(k + 1);
                            let held = earlier.contains(structure::value_id(v));
                            let holds = now.contains(structure::value_id(v));
                            if v == input.0 {
                                assert(now[k as int] == input);
                            } else {
                                assert(self.values@[v] == stored[v]);
                                if held {
                                    let at = choose|at: int|
                                        0 <= at < earlier.len() && earlier[at] == structure::value_id(
                                            v,
                                        );
                                    assert(now[at] == structure::value_id(v));
                                }
                                if holds {
                                    let at = choose|at: int|
                                        0 <= at < now.len() && now[at] == structure::value_id(v);
                                    assert(now[k as int] == input);
                                    assert(structure::value_id(v).0 == v);
                                    assert(at != k);
                                    assert(earlier[at] == structure::value_id(v));
                                }
                            }
                        }
                        assert forall|v: int| 0 <= v < self.values@.len() implies (
                        #[trigger] self.values@[v]).wf() by {
                            if v != input.0 {
                                assert(self.values@[v] == stored[v]);
                            }
                        }
                    }
                    k += 1;
                }
                assert(inputs@.take(k as int) =~= inputs@);
            },
            None => {},
        }
        self.items.insert(id_str, item);
        // The number of items is a `usize`, so every item has an id.
        let count = self.items.len();
        proof {
            assert(self@.items =~= before@.with_item(item@).items);
            assert(self@.values =~= before@.with_item(item@).values);
            before@.lemma_with_item(item@);
            assert forall|i: int| 0 <= i < self.items@.len() implies (
            #[trigger] self.items@[i]).wf() by {
                if i < before.items@.len() {
                    assert(before.items@[i].wf());
                }
            }
        }
        id
    }

    /// The result of `calc` will be added to the value `id`.
    ///
    /// The dependency is refused, and the model stays as it is, if a change
    /// of `id` would then reach `id` again: if the declared edges would hold
    /// a circle, which is the same as that they could not be ranked.
    pub fn add_dependency<C: IntoCalculation>(&mut self, id: ValueId, calc: C) -> (r: Result<
        (),
        ErrorKind,
    >)
        requires
            old(self).wf(),
            old(self)@.has_value(id),
            calc.convertible(),
            old(self)@.expr_ok(calc.expr()),
        ensures
            final(self).wf(),
            final(self).value_names() == old(self).value_names(),
            final(self).item_names() == old(self).item_names(),
            final(self).inventory_names() == old(self).inventory_names(),
            final(self).choice_names() == old(self).choice_names(),
            match r {
                Ok(_) => final(self)@ == old(self)@.with_dependency(id, calc.expr()),
                Err(e) => e == ErrorKind::CyclicDependency && final(self)@ == old(self)@,
            },
            r is Err <==> !old(self)@.with_dependency(id, calc.expr()).acyclic(),
            r is Err <==> old(self)@.with_dependency(id, calc.expr()).has_circle(),
    {
        let ghost before = *self;
        let ghost given = calc.expr();
        let dependency = calc.into_calc();
        let (reached, reached_items) = self.reach(id);
        let ghost marks = cycles::Marks { values: reached@, items: reached_items@ };
        proof {
            dependency.lemma_inputs();
        }
        let mut k: usize = 0;
        while k < dependency.values().len()
            invariant
                k <= dependency.inputs().len(),
                self.wf(),
                *self == before,
                before@.has_value(id),
                before@.expr_ok(dependency@),
                dependency@ == given,
                given == calc.expr(),
                marks == (cycles::Marks { values: reached@, items: reached_items@ }),
                marks.fit(before@),
                marks.under(before@, id),
                marks.routed(before@, id),
                forall|u: ValueId| dependency@.reads(u) <==> dependency.inputs().contains(u),
                forall|j: int|
                    0 <= j < k ==> !reached@[(#[trigger] dependency.inputs()[j]).0 as int],
            decreases dependency.inputs().len() - k,
        {
            let input = dependency.values()[k];
            proof {
                assert(dependency.inputs().contains(input));
                assert(dependency@.reads(input));
                assert(before@.has_value(input));
            }
            if reached[input.0] {
                proof {
                    before@.lemma_dependency_cycle(id, dependency@, marks, input);
                    assert(structure::value_id(input.0 as int) == input);
                    before@.lemma_dependency_circle(id, dependency@, input);
                }
                return Err(ErrorKind::CyclicDependency);
            }
            k += 1;
        }
        proof {
            assert forall|u: ValueId| #[trigger]
                dependency@.reads(u) && u.0 < marks.values.len() implies !marks.values[u.0 as int] by {
                let at = choose|at: int| 0 <= at < dependency.inputs().len() && dependency.inputs()[at] == u;
                assert(!reached@[dependency.inputs()[at].0 as int]);
            }
            before@.lemma_with_dependency(id, dependency@, marks);
            before@.with_dependency(id, dependency@).law_consistent_without_circle();
        }
        let inputs = dependency.values();
        let mut k: usize = 0;
        while k < inputs.len()
            invariant
                k <= inputs@.len(),
                inputs@ == dependency.inputs(),
                inputs@.no_duplicates(),
                forall|u: ValueId| dependency@.reads(u) <==> inputs@.contains(u),
                before@.expr_ok(dependency@),
                before.wf(),
                self.values.wf(),
                self.values.names() == before.values.names(),
                self.values@.len() == before.values@.len(),
                self.items == before.items,
                self.inventories == before.inventories,
                self.choices == before.choices,
                self.main_inventory == before.main_inventory,
                forall|v: int| 0 <= v < self.values@.len() ==> (#[trigger] self.values@[v]).wf(),
                forall|v: int|
                    0 <= v < self.values@.len() ==> (#[trigger] self.values@[v])@
                        == if inputs@.take(k as int).contains(structure::value_id(v)) {
                        ValueView {
                            dependents: before.values@[v]@.dependents.push(id),
                            ..before.values@[v]@
                        }
                    } else {
                        before.values@[v]@
                    },
            decreases inputs@.len() - k,
        {
            let input = inputs[k];
            let ghost stored = self.values@;
            proof {
                assert(inputs@.contains(input));
                assert(dependency@.reads(input));
                assert(before@.has_value(input));
                assert(structure::value_id(input.0 as int) == input);
                let earlier = inputs@.take(k as int);
                if earlier.contains(input) {
                    let at = choose|at: int| 0 <= at < earlier.len() && earlier[at] == input;
                    assert(inputs@[at] == inputs@[k as int]);
                }
            }
            let slot = self.values.get_mut(input);
            slot.add_dependent(id);
            proof {
                assert forall|v: int| 0 <= v < self.values@.len() implies (
                #[trigger] self.values@[v])@ == if inputs@.take(k + 1).contains(
                    structure::value_id(v),
                ) {
                    ValueView {
                        dependents: before.values@[v]@.dependents.push(id),
                        ..before.values@[v]@
                    }
                } else {
                    before.values@[v]@
                } by {
                    let earlier = inputs@.take(k as int);
                    let now = inputs@.take(k + 1);
                    let held = earlier.contains(structure::value_id(v));
                    let holds = now.contains(structure::value_id(v));
                    if v == input.0 {
                        assert(now[k as int] == input);
                    } else {
                        assert(self.values@[v] == stored[v]);
                        if held {
                            let at = choose|at: int|
                                0 <= at < earlier.len() && earlier[at] == structure::value_id(v);
                            assert(now[at] == structure::value_id(v));
                        }
                        if holds {
                            let at = choose|at: int|
                                0 <= at < now.len() && now[at] == structure::value_id(v);
                            assert(now[k as int] == input);
                            assert(structure::value_id(v).0 == v);
                            assert(at != k);
                            assert(earlier[at] == structure::value_id(v));
                        }
                    }
                }
                assert forall|v: int| 0 <= v < self.values@.len() implies (
                #[trigger] self.values@[v]).wf() by {
                    if v != input.0 {
                        assert(self.values@[v] == stored[v]);
                    }
                }
            }
            k += 1;
        }
        assert(inputs@.take(k as int) =~= inputs@);
        let ghost listed = self.values@;
        let ghost expr = dependency@;
        let slot = self.values.get_mut(id);
        slot.add_dependency(dependency);
        proof {
            assert forall|v: int| 0 <= v < self.values@.len() implies (
            #[trigger] self.values@[v]).wf() by {
                if v != id.0 {
                    assert(self.values@[v] == listed[v]);
                }
            }
            assert(self@.values =~= before@.with_dependency(id, expr).values);
        }
        Ok(())
    }

    /// When item `from` is equipped, `to` will be modified accordingly.
    ///
    /// The placeholder of the modification stands for the value `to`. A
    /// modification of `to` that the item held before is replaced. The
    /// modification is refused, and the model stays as it is, if a change of
    /// `to` would then reach `to` again.
    ///
    /// A modification is meant to read no value but the one that it
    /// modifies: a change of another value that it reads does not reach the
    /// modified value. `is_self_contained` tells whether a model keeps to
    /// this.
    pub fn add_modification(&mut self, from: ItemId, to: ValueId, modification: Modification) -> (r:
        Result<(), ErrorKind>)
        requires
            old(self).wf(),
            old(self)@.has_item(from),
            old(self)@.has_value(to),
            modification.wf(),
            old(self)@.knows(modification@.calculation),
        ensures
            final(self).wf(),
            final(self).value_names() == old(self).value_names(),
            final(self).item_names() == old(self).item_names(),
            final(self).inventory_names() == old(self).inventory_names(),
            final(self).choice_names() == old(self).choice_names(),
            match r {
                Ok(_) => final(self)@ == old(self)@.with_modification(
                    from,
                    to,
                    modification@.bound_to(to),
                ),
                Err(e) => e == ErrorKind::CyclicDependency && final(self)@ == old(self)@,
            },
            r is Err <==> !old(self)@.with_modification(
                from,
                to,
                modification@.bound_to(to),
            ).acyclic(),
            r is Err <==> old(self)@.with_modification(
                from,
                to,
                modification@.bound_to(to),
            ).has_circle(),
    {
        let ghost before = *self;
        let ghost given = modification@.calculation;
        let ghost bound = modification@.bound_to(to);
        let mut modification = modification;
        modification.set_value(to);
        let (reached, reached_items) = self.reach(to);
        let ghost marks = cycles::Marks { values: reached@, items: reached_items@ };
        if reached_items[from.0] {
            proof {
                before@.lemma_modification_cycle(from, to, bound, marks);
                assert(structure::item_id(from.0 as int) == from);
                before@.lemma_modification_circle(from, to, bound);
            }
            return Err(ErrorKind::CyclicDependency);
        }
        proof {
            given.lemma_bind(Expr::Value(to));
            assert forall|id: ValueId| #[trigger] bound.calculation.reads(id) implies before@.has_value(
                id,
            ) by {
                if !given.reads(id) {
                    assert(Expr::Value(to).reads(id));
                }
            }
            before@.lemma_with_modification(from, to, bound, marks);
            before@.with_modification(from, to, bound).law_consistent_without_circle();
        }
        let ghost stored = self.items@;
        let slot = self.items.get_mut(from);
        let added = slot.put(to, modification);
        proof {
            assert forall|i: int| 0 <= i < self.items@.len() implies (
            #[trigger] self.items@[i]).wf() by {
                if i != from.0 {
                    assert(self.items@[i] == stored[i]);
                }
            }
            assert(self@.items =~= before@.with_modification(from, to, bound).items);
        }
        if added {
            let ghost listed = self.values@;
            let value = self.values.get_mut(to);
            value.add_modifying_item(from);
            proof {
                assert forall|v: int| 0 <= v < self.values@.len() implies (
                #[trigger] self.values@[v]).wf() by {
                    if v != to.0 {
                        assert(self.values@[v] == listed[v]);
                    }
                }
                assert(self@.values =~= before@.with_modification(from, to, bound).values);
            }
        }
        Ok(())
    }

    /// Add a selection to a choice.
    ///
    /// The placeholder of each modification of the selection stands for the
    /// value that it modifies. As with items, a modification is meant to read
    /// no other value.
    pub fn add_selection(&mut self, id: ChoiceId, selection: Selection)
        requires
            old(self).wf(),
            old(self)@.has_choice(id),
            selection.wf(),
            forall|k: int|
                0 <= k < selection@.modifications.len() ==> old(self)@.has_value(
                    (#[trigger] selection@.modifications[k]).0,
                ) && old(self)@.knows(selection@.modifications[k].1.calculation),
        ensures
            final(self).wf(),
            final(self)@ == old(self)@.with_selection(id, selection@.bound()),
            final(self).value_names() == old(self).value_names(),
            final(self).item_names() == old(self).item_names(),
            final(self).inventory_names() == old(self).inventory_names(),
            final(self).choice_names() == old(self).choice_names(),
    {
        let ghost before = *self;
        let ghost given = selection@.modifications;
        let ghost bound = selection@.bound();
        let mut selection = selection;
        let n = selection.modifications.len();
        let ghost front = selection.front_end;
        let mut k: usize = 0;
        while k < n
            invariant
                k <= n,
                n == given.len(),
                selection.modifications@.len() == n,
                selection.front_end == front,
                forall|j: int| 0 <= j < n ==> (#[trigger] selection.modifications@[j]).1.wf(),
                forall|j: int| 0 <= j < n ==> (#[trigger] selection.modifications@[j]).0 == given[j].0,
                forall|j: int|
                    0 <= j < k ==> (#[trigger] selection.modifications@[j]).1@ == given[j].1.bound_to(
                        given[j].0,
                    ),
                forall|j: int|
                    k <= j < n ==> (#[trigger] selection.modifications@[j]).1@ == given[j].1,
            decreases n - k,
        {
            let target = selection.modifications[k].0;
            let ghost list = selection.modifications@;
            selection.modifications[k].1.set_value(target);
            proof {
                assert forall|j: int| 0 <= j < n && j != k implies selection.modifications@[j]
                    == list[j] by {}
            }
            k += 1;
        }
        proof {
            assert(selection@.modifications =~= bound.modifications);
            assert(selection@ == bound);
            assert(targets(bound.modifications) =~= targets(given));
            assert forall|j: int| 0 <= j < bound.modifications.len() implies before@.has_value(
                (#[trigger] bound.modifications[j]).0,
            ) && before@.expr_ok(bound.modifications[j].1.calculation) by {
                let calc = given[j].1.calculation;
                let target = given[j].0;
                assert(before@.has_value(given[j].0));
                calc.lemma_bind(Expr::Value(target));
                assert forall|id: ValueId| #[trigger]
                    calc.bind(Expr::Value(target)).reads(id) implies before@.has_value(id) by {
                    if !calc.reads(id) {
                        assert(Expr::Value(target).reads(id));
                    }
                }
            }
            before@.lemma_with_selection(id, bound);
        }
        let ghost keys = targets(bound.modifications);
        let mut k: usize = 0;
        while k < n
            invariant
                k <= n,
                n == keys.len(),
                keys == targets(selection@.modifications),
                keys.no_duplicates(),
                selection.modifications@.len() == n,
                forall|j: int| 0 <= j < n ==> before@.has_value(#[trigger] keys[j]),
                before.wf(),
                self.values.wf(),
                self.values.names() == before.values.names(),
                self.values@.len() == before.values@.len(),
                self.items == before.items,
                self.inventories == before.inventories,
                self.choices == before.choices,
                self.main_inventory == before.main_inventory,
                forall|v: int| 0 <= v < self.values@.len() ==> (#[trigger] self.values@[v]).wf(),
                forall|v: int|
                    0 <= v < self.values@.len() ==> (#[trigger] self.values@[v])@ == if keys.take(
                        k as int,
                    ).contains(structure::value_id(v))
                        && !before.values@[v]@.modifying_choices.contains(id) {
                        ValueView {
                            modifying_choices: before.values@[v]@.modifying_choices.push(id),
                            ..before.values@[v]@
                        }
                    } else {
                        before.values@[v]@
                    },
            decreases n - k,
        {
            let target = selection.modifications[k].0;
            let ghost stored = self.values@;
            proof {
                assert(keys[k as int] == target);
                assert(before@.has_value(keys[k as int]));
                assert(structure::value_id(target.0 as int) == target);
                let earlier = keys.take(k as int);
                if earlier.contains(target) {
                    let at = choose|at: int| 0 <= at < earlier.len() && earlier[at] == target;
                    assert(keys[at] == keys[k as int]);
                }
            }
            let slot = self.values.get_mut(target);
            slot.add_modifying_choice(id);
            proof {
                assert forall|v: int| 0 <= v < self.values@.len() implies (
                #[trigger] self.values@[v])@ == if keys.take(k + 1).contains(
                    structure::value_id(v),
                ) && !before.values@[v]@.modifying_choices.contains(id) {
                    ValueView {
                        modifying_choices: before.values@[v]@.modifying_choices.push(id),
                        ..before.values@[v]@
                    }
                } else {
                    before.values@[v]@
                } by {
                    let earlier = keys.take(k as int);
                    let now = keys.take(k + 1);
                    let held = earlier.contains(structure::value_id(v));
                    let holds = now.contains(structure::value_id(v));
                    if v == target.0 {
                        assert(now[k as int] == target);
                    } else {
                        assert(self.values@[v] == stored[v]);
                        if held {
                            let at = choose|at: int|
                                0 <= at < earlier.len() && earlier[at] == structure::value_id(v);
                            assert(now[at] == structure::value_id(v));
                        }
                        if holds {
                            let at = choose|at: int|
                                0 <= at < now.len() && now[at] == structure::value_id(v);
                            assert(now[k as int] == target);
                            assert(structure::value_id(v).0 == v);
                            assert(at != k);
                            assert(earlier[at] == structure::value_id(v));
                        }
                    }
                }
                assert forall|v: int| 0 <= v < self.values@.len() implies (
                #[trigger] self.values@[v]).wf() by {
                    if v != target.0 {
                        assert(self.values@[v] == stored[v]);
                    }
                }
            }
            k += 1;
        }
        assert(keys.take(k as int) =~= keys);
        let ghost held = self.choices@;
        let choice = self.choices.get_mut(id);
        choice.add_option(selection);
        proof {
            assert forall|c: int| 0 <= c < self.choices@.len() implies (
            #[trigger] self.choices@[c]).wf() by {
                if c != id.0 {
                    assert(self.choices@[c] == held[c]);
                }
            }
            assert(self@.choices =~= before@.with_selection(id, bound).choices);
            assert(self@.values =~= before@.with_selection(id, bound).values);
        }
    }

    /// Add a new choice to the Model. Id string can not alias other choice ids.
    pub fn add_choice(&mut self, id_str: &str, choice: Choice) -> (id: ChoiceId)
        requires
            old(self).wf(),
            !old(self).choice_names().contains(id_str@),
            choice@.options.len() == 0,
        ensures
            final(self).wf(),
            final(self)@ == old(self)@.with_choice(choice@),
            id.0 == old(self)@.choices.len(),
            final(self).choice_names() == old(self).choice_names().push(id_str@),
            final(self).value_names() == old(self).value_names(),
            final(self).item_names() == old(self).item_names(),
            final(self).inventory_names() == old(self).inventory_names(),
    {
        let ghost before = *self;
        assert(choice.options@.len() == choice@.options.len());
        let id = self.choices.insert(id_str, choice);
        // The number of choices is a `usize`, so every choice has an id.
        let count = self.choices.len();
        proof {
            assert(self@.choices =~= before@.with_choice(choice@).choices);
            before@.lemma_with_choice(choice@);
            assert forall|c: int| 0 <= c < self.choices@.len() implies (
            #[trigger] self.choices@[c]).wf() by {
                if c < before.choices@.len() {
                    assert(before.choices@[c].wf());
                }
            }
        }
        id
    }

    /// Add a new inventory type.
    pub fn add_inventory(&mut self, id_str: &str, inventory: Inventory) -> (id: InventoryId)
        requires
            old(self).wf(),
            !old(self).inventory_names().contains(id_str@),
            inventory.wf(),
            old(self)@.takes(inventory@.capacity),
            old(self)@.takes(inventory@.slots),
        ensures
            final(self).wf(),
            final(self)@ == old(self)@.with_inventory(inventory@),
            id.0 == old(self)@.inventories.len(),
            final(self).inventory_names() == old(self).inventory_names().push(id_str@),
            final(self).value_names() == old(self).value_names(),
            final(self).item_names() == old(self).item_names(),
            final(self).choice_names() == old(self).choice_names(),
    {
        let ghost before = *self;
        let id = self.inventories.insert(id_str, inventory);
        proof {
            assert(self@.inventories =~= before@.with_inventory(inventory@).inventories);
            before@.lemma_with_inventory(inventory@);
            assert forall|i: int| 0 <= i < self.inventories@.len() implies (
            #[trigger] self.inventories@[i]).wf() by {
                if i < before.inventories@.len() {
                    assert(before.inventories@[i].wf());
                }
            }
        }
        id
    }

    /// Set the main inventory for a character.
    pub fn set_main_inventory(&mut self, id: InventoryId)
        requires
            old(self).wf(),
            old(self)@.has_inventory(id),
        ensures
            final(self).wf(),
            final(self)@ == old(self)@.with_main_inventory(id),
            final(self).value_names() == old(self).value_names(),
            final(self).item_names() == old(self).item_names(),
            final(self).inventory_names() == old(self).inventory_names(),
            final(self).choice_names() == old(self).choice_names(),
    {
        let ghost before = *self;
        self.main_inventory = Some(id);
        proof {
            before@.lemma_with_main_inventory(id);
        }
    }

    /// Get the type for a characters main inventory.
    pub fn main_inventory(&self) -> (r: Option<InventoryId>)
        ensures
            r == self@.main_inventory,
    {
        self.main_inventory
    }

    /// The values of the model.
    pub fn values(&self) -> (r: &Container<Value>)
        ensures
            r@.len() == self@.values.len(),
            r.names() == self.value_names(),
            self.wf() ==> r.wf(),
            forall|v: int| 0 <= v < r@.len() ==> (#[trigger] r@[v])@ == self@.values[v],
    {
        &self.values
    }

    /// The items of the model.
    pub fn items(&self) -> (r: &Container<Item>)
        ensures
            r@.len() == self@.items.len(),
            r.names() == self.item_names(),
            self.wf() ==> r.wf(),
            forall|i: int| 0 <= i < r@.len() ==> (#[trigger] r@[i])@ == self@.items[i],
    {
        &self.items
    }

    /// The inventory types of the model.
    pub fn inventories(&self) -> (r: &Container<Inventory>)
        ensures
            r@.len() == self@.inventories.len(),
            r.names() == self.inventory_names(),
            self.wf() ==> r.wf(),
            forall|i: int| 0 <= i < r@.len() ==> (#[trigger] r@[i])@ == self@.inventories[i],
    {
        &self.inventories
    }

    /// The choices of the model.
    pub fn choices(&self) -> (r: &Container<Choice>)
        ensures
            r@.len() == self@.choices.len(),
            r.names() == self.choice_names(),
            self.wf() ==> r.wf(),
            forall|c: int| 0 <= c < r@.len() ==> (#[trigger] r@[c])@ == self@.choices[c],
    {
        &self.choices
    }

    /// Get the ChoiceId corresponding to an id string.
    pub fn choice_id(&self, id: &str) -> (r: ChoiceId)
        requires
            self.wf(),
            self.choice_names().contains(id@),
        ensures
            self@.has_choice(r),
            self.choice_names()[r.0 as int] == id@,
    {
        self.choices.id(id)
    }

    /// Get the ValueId corresponding to an id string.
    pub fn value_id(&self, id: &str) -> (r: ValueId)
        requires
            self.wf(),
            self.value_names().contains(id@),
        ensures
            self@.has_value(r),
            self.value_names()[r.0 as int] == id@,
    {
        self.values.id(id)
    }

    /// Get the InventoryId corresponding to an id string.
    pub fn inventory_id(&self, id: &str) -> (r: InventoryId)
        requires
            self.wf(),
            self.inventory_names().contains(id@),
        ensures
            self@.has_inventory(r),
            self.inventory_names()[r.0 as int] == id@,
    {
        self.inventories.id(id)
    }

    /// Get the ItemId corresponding to an id string.
    pub fn item_id(&self, id: &str) -> (r: ItemId)
        requires
            self.wf(),
            self.item_names().contains(id@),
        ensures
            self@.has_item(r),
            self.item_names()[r.0 as int] == id@,
    {
        self.items.id(id)
    }
}

impl Default for Model {
    fn default() -> (r: Self)
        ensures
            r.wf(),
            r@ == ModelView::empty(),
    {
        Model::new()
    }
}

} // verus!
