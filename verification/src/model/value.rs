//! Values of the character sheet.

use vstd::prelude::*;
use super::calculation::Calculation;
use super::expression::Expr;
use super::front_end::FrontEnd;
use super::{ChoiceId, ItemId, ValueId};

verus! {

/// A value in the character sheet.
#[derive(Debug, Hash)]
pub struct Value {
    /// Front end data
    pub front_end: Option<FrontEnd>,
    pub(crate) default: i32,
    pub(crate) dependencies: Vec<Calculation>,
    pub(crate) modifying_items: Vec<ItemId>,
    pub(crate) modifying_choices: Vec<ChoiceId>,
    pub(crate) dependents: Vec<ValueId>,
    pub(crate) conditions: Vec<ItemId>,
}

/// What a model knows of a value.
pub struct ValueView {
    /// Front end data, if the value is front-end visible.
    pub front_end: Option<FrontEnd>,
    /// The base that a character starts with.
    pub default: i32,
    /// Calculations whose results are added to the base.
    pub dependencies: Seq<Expr>,
    /// Items that hold a modification of this value.
    pub modifying_items: Seq<ItemId>,
    /// Choices with a selection that holds a modification of this value.
    pub modifying_choices: Seq<ChoiceId>,
    /// Values with a dependency that reads this value.
    pub dependents: Seq<ValueId>,
    /// Items whose condition reads this value.
    pub conditions: Seq<ItemId>,
}

impl ValueView {
    /// A value that nothing refers to yet and that has no front end data.
    pub open spec fn fresh(default: i32) -> ValueView {
        ValueView {
            front_end: None,
            default,
            dependencies: Seq::empty(),
            modifying_items: Seq::empty(),
            modifying_choices: Seq::empty(),
            dependents: Seq::empty(),
            conditions: Seq::empty(),
        }
    }
}

impl ValueView {
    /// Nothing refers to the value yet, and it refers to nothing.
    pub open spec fn unconnected(self) -> bool {
        &&& self.dependencies.len() == 0
        &&& self.modifying_items.len() == 0
        &&& self.modifying_choices.len() == 0
        &&& self.dependents.len() == 0
        &&& self.conditions.len() == 0
    }
}

impl View for Value {
    type V = ValueView;

    open(crate) spec fn view(&self) -> ValueView {
        ValueView {
            front_end: self.front_end,
            default: self.default,
            dependencies: self.dependencies@.map_values(|calc: Calculation| calc@),
            modifying_items: self.modifying_items@,
            modifying_choices: self.modifying_choices@,
            dependents: self.dependents@,
            conditions: self.conditions@,
        }
    }
}

impl Value {
    /// Every dependency is a consistent calculation.
    pub open(crate) spec fn wf(&self) -> bool {
        forall|j: int| 0 <= j < self.dependencies@.len() ==> (#[trigger] self.dependencies@[j]).wf()
    }

    /// Create a new value.
    pub fn new(default: i32) -> (r: Self)
        ensures
            r.wf(),
            r@ == ValueView::fresh(default),
    {
        let r = Value {
            front_end: None,
            default,
            dependencies: Vec::new(),
            modifying_items: Vec::new(),
            modifying_choices: Vec::new(),
            dependents: Vec::new(),
            conditions: Vec::new(),
        };
        assert(r@.dependencies =~= Seq::empty());
        r
    }

    /// Allow this item to be front-end visible.
    pub fn frontend(self, front_end: FrontEnd) -> (r: Self)
        ensures
            r@ == (ValueView { front_end: Some(front_end), ..self@ }),
            self.wf() ==> r.wf(),
    {
        let mut r = self;
        r.front_end = Some(front_end);
        r
    }

    /// List `id` among the items whose condition reads this value.
    pub(crate) fn add_condition(&mut self, id: ItemId)
        ensures
            final(self)@ == (ValueView { conditions: old(self)@.conditions.push(id), ..old(self)@ }),
            old(self).wf() ==> final(self).wf(),
    {
        self.conditions.push(id);
    }

    /// List `id` among the values that depend on this value.
    pub(crate) fn add_dependent(&mut self, id: ValueId)
        ensures
            final(self)@ == (ValueView { dependents: old(self)@.dependents.push(id), ..old(self)@ }),
            old(self).wf() ==> final(self).wf(),
    {
        self.dependents.push(id);
    }

    /// List `id` among the items that modify this value.
    pub(crate) fn add_modifying_item(&mut self, id: ItemId)
        ensures
            final(self)@ == (ValueView {
                modifying_items: old(self)@.modifying_items.push(id),
                ..old(self)@
            }),
            old(self).wf() ==> final(self).wf(),
    {
        self.modifying_items.push(id);
    }

    /// List `id` among the choices that modify this value, unless it is
    /// listed already.
    pub(crate) fn add_modifying_choice(&mut self, id: ChoiceId)
        ensures
            final(self)@ == (ValueView {
                modifying_choices: if old(self)@.modifying_choices.contains(id) {
                    old(self)@.modifying_choices
                } else {
                    old(self)@.modifying_choices.push(id)
                },
                ..old(self)@
            }),
            old(self).wf() ==> final(self).wf(),
    {
        let mut k: usize = 0;
        while k < self.modifying_choices.len()
            invariant
                k <= self.modifying_choices@.len(),
                *self == *old(self),
                forall|j: int| 0 <= j < k ==> self.modifying_choices@[j] != id,
            decreases self.modifying_choices@.len() - k,
        {
            if self.modifying_choices[k] == id {
                assert(self.modifying_choices@.contains(id));
                return ;
            }
            k += 1;
        }
        self.modifying_choices.push(id);
    }

    /// Make `calc` one more dependency of this value.
    pub(crate) fn add_dependency(&mut self, calc: Calculation)
        requires
            calc.wf(),
        ensures
            final(self)@ == (ValueView {
                dependencies: old(self)@.dependencies.push(calc@),
                ..old(self)@
            }),
            old(self).wf() ==> final(self).wf(),
    {
        let ghost before = self.dependencies@;
        self.dependencies.push(calc);
        proof {
            assert(self@.dependencies =~= old(self)@.dependencies.push(calc@));
            if old(self).wf() {
                assert forall|j: int| 0 <= j < self.dependencies@.len() implies (
                #[trigger] self.dependencies@[j]).wf() by {
                    if j < before.len() {
                        assert(before[j].wf());
                    }
                }
            }
        }
    }
}

} // verus!
