//! Modifications of a value by an item or a selection.

use vstd::prelude::*;
use super::calculation::Calculation;
use super::expression::Expr;
use super::structure::{list_self_contained, reads_only};
use super::ValueId;

verus! {

/// Represents a modification.
#[derive(Debug, Hash)]
pub struct Modification {
    pub(crate) priority: u16,
    pub(crate) calculation: Calculation,
}

/// What a modification is: its place in the order of application, and the new
/// value as an expression in which the target stands for the old value.
pub struct ModificationView {
    /// Modifications with a lower priority are applied first.
    pub priority: u16,
    /// The new value of the target.
    pub calculation: Expr,
}

impl ModificationView {
    /// The modification with every placeholder standing for the value `id`.
    pub open spec fn bound_to(self, id: ValueId) -> ModificationView {
        ModificationView {
            priority: self.priority,
            calculation: self.calculation.bind(Expr::Value(id)),
        }
    }
}

impl View for Modification {
    type V = ModificationView;

    open(crate) spec fn view(&self) -> ModificationView {
        ModificationView { priority: self.priority, calculation: self.calculation@ }
    }
}

/// The modifications of one item or selection as a list, one per target.
pub type ModificationList = Seq<(ValueId, ModificationView)>;

/// The targets of a list of modifications, in order.
pub open spec fn targets(list: ModificationList) -> Seq<ValueId> {
    list.map_values(|entry: (ValueId, ModificationView)| entry.0)
}

/// The list with `modification` as the one for `id`: it takes the place of an
/// earlier one for `id`, or goes to the end.
pub open spec fn put(
    list: ModificationList,
    id: ValueId,
    modification: ModificationView,
) -> ModificationList {
    if targets(list).contains(id) {
        list.update(targets(list).index_of(id), (id, modification))
    } else {
        list.push((id, modification))
    }
}

/// What `put` does to a list without duplicate targets: the entries keep
/// their places and their targets, only the entry for `id` changes or is
/// added, and no target occurs twice afterwards.
pub proof fn lemma_put(list: ModificationList, id: ValueId, modification: ModificationView)
    requires
        targets(list).no_duplicates(),
    ensures
        targets(put(list, id, modification)).no_duplicates(),
        targets(put(list, id, modification)).contains(id),
        put(list, id, modification).len() >= list.len(),
        forall|k: int|
            0 <= k < list.len() ==> (#[trigger] put(list, id, modification)[k]).0 == list[k].0,
        forall|k: int|
            0 <= k < put(list, id, modification).len() ==> #[trigger] put(list, id, modification)[k]
                == (id, modification) || (k < list.len() && put(list, id, modification)[k]
                == list[k]),
        forall|other: ValueId|
            targets(put(list, id, modification)).contains(other) <==> targets(list).contains(other)
                || other == id,
        !targets(list).contains(id) ==> put(list, id, modification) == list.push(
            (id, modification),
        ),
        targets(list).contains(id) ==> targets(put(list, id, modification)) == targets(list),
{
    let keys = targets(list);
    let after = put(list, id, modification);
    let keys2 = targets(after);
    if keys.contains(id) {
        let at = keys.index_of(id);
        assert(keys[at] == id);
        assert(keys2 =~= keys);
    } else {
        assert(keys2 =~= keys.push(id));
        assert(keys2[keys.len() as int] == id);
        assert forall|i: int, j: int| 0 <= i < j < keys2.len() implies keys2[i] != keys2[j] by {
            if j == keys.len() {
                assert(keys[i] == keys2[i]);
            }
        }
        assert forall|other: ValueId| keys2.contains(other) implies keys.contains(other) || other
            == id by {
            let k = choose|k: int| 0 <= k < keys2.len() && keys2[k] == other;
            if k < keys.len() {
                assert(keys[k] == other);
            }
        }
        assert forall|other: ValueId| keys.contains(other) implies keys2.contains(other) by {
            let k = choose|k: int| 0 <= k < keys.len() && keys[k] == other;
            assert(keys2[k] == other);
        }
    }
}

/// What a stored list of modifications stands for.
pub open spec fn list_view(list: Seq<(ValueId, Modification)>) -> ModificationList {
    list.map_values(|entry: (ValueId, Modification)| (entry.0, entry.1@))
}

/// Every modification of the list is consistent and no target occurs twice.
pub open spec fn list_wf(list: Seq<(ValueId, Modification)>) -> bool {
    &&& forall|k: int| 0 <= k < list.len() ==> (#[trigger] list[k]).1.wf()
    &&& targets(list_view(list)).no_duplicates()
}

/// Position of the modification for `id`, if there is one.
pub(crate) fn position(list: &Vec<(ValueId, Modification)>, id: ValueId) -> (r: Option<usize>)
    ensures
        match r {
            Some(k) => k < list@.len() && list@[k as int].0 == id && targets(
                list_view(list@),
            )[k as int] == id,
            None => !targets(list_view(list@)).contains(id),
        },
{
    let mut k: usize = 0;
    while k < list.len()
        invariant
            k <= list@.len(),
            forall|j: int| 0 <= j < k ==> list@[j].0 != id,
        decreases list@.len() - k,
    {
        if list[k].0 == id {
            return Some(k);
        }
        k += 1;
    }
    assert forall|j: int| 0 <= j < targets(list_view(list@)).len() implies targets(
        list_view(list@),
    )[j] != id by {
        assert(targets(list_view(list@))[j] == list@[j].0);
    }
    None
}

/// Make `modification` the one for `id`.
pub(crate) fn put_modification(
    list: &mut Vec<(ValueId, Modification)>,
    id: ValueId,
    modification: Modification,
) -> (added: bool)
    requires
        list_wf(old(list)@),
        modification.wf(),
    ensures
        list_wf(final(list)@),
        list_view(final(list)@) == put(list_view(old(list)@), id, modification@),
        added == !targets(list_view(old(list)@)).contains(id),
{
    let ghost before = list@;
    let ghost keys = targets(list_view(before));
    match position(list, id) {
        Some(k) => {
            list[k] = (id, modification);
            proof {
                assert(keys[k as int] == id);
                assert(keys.index_of(id) == k) by {
                    let found = keys.index_of(id);
                    assert(keys.contains(id));
                    assert(keys[found] == id);
                }
                assert(targets(list_view(list@)) =~= keys);
                assert(list_view(list@) =~= put(list_view(before), id, modification@));
                assert forall|j: int| 0 <= j < list@.len() implies (#[trigger] list@[j]).1.wf() by {
                    if j != k {
                        assert(list@[j] == before[j]);
                    }
                }
            }
            false
        },
        None => {
            list.push((id, modification));
            proof {
                assert(targets(list_view(list@)) =~= keys.push(id));
                assert(list_view(list@) =~= put(list_view(before), id, modification@));
                assert forall|j: int| 0 <= j < list@.len() implies (#[trigger] list@[j]).1.wf() by {
                    if j < before.len() {
                        assert(list@[j] == before[j]);
                    }
                }
            }
            true
        },
    }
}

/// Whether every modification of the list reads no value but its target.
pub(crate) fn reads_only_targets(list: &Vec<(ValueId, Modification)>) -> (r: bool)
    requires
        list_wf(list@),
    ensures
        r == list_self_contained(list_view(list@)),
{
    let ghost shown = list_view(list@);
    let mut k: usize = 0;
    while k < list.len()
        invariant
            k <= list@.len(),
            shown == list_view(list@),
            list_wf(list@),
            forall|j: int| 0 <= j < k ==> reads_only((#[trigger] shown[j]).1.calculation, shown[j].0),
        decreases list@.len() - k,
    {
        let target = list[k].0;
        let calc = &list[k].1.calculation;
        assert(list@[k as int].1.wf());
        let inputs = calc.values();
        proof {
            calc.lemma_inputs();
            assert(shown[k as int].1.calculation == calc@);
            assert(shown[k as int].0 == target);
        }
        let mut j: usize = 0;
        while j < inputs.len()
            invariant
                j <= inputs@.len(),
                inputs@ == calc.inputs(),
                k < list@.len(),
                shown == list_view(list@),
                shown[k as int].1.calculation == calc@,
                shown[k as int].0 == target,
                forall|id: ValueId| calc@.reads(id) <==> calc.inputs().contains(id),
                forall|i: int| 0 <= i < j ==> inputs@[i] == target,
            decreases inputs@.len() - j,
        {
            if inputs[j] != target {
                proof {
                    assert(calc.inputs().contains(inputs@[j as int]));
                    assert(calc@.reads(inputs@[j as int]));
                    assert(!reads_only(shown[k as int].1.calculation, shown[k as int].0));
                }
                return false;
            }
            j += 1;
        }
        proof {
            assert forall|id: ValueId| #[trigger] calc@.reads(id) implies id == target by {
                let at = choose|at: int| 0 <= at < inputs@.len() && inputs@[at] == id;
                assert(inputs@[at] == target);
            }
        }
        k += 1;
    }
    true
}

impl Modification {
    /// The calculation is consistent.
    pub open(crate) spec fn wf(&self) -> bool {
        self.calculation.wf()
    }

    /// Create a new Modification
    pub fn new(priority: u16, calculation: Calculation) -> (r: Self)
        requires
            calculation.wf(),
        ensures
            r.wf(),
            r@ == (ModificationView { priority, calculation: calculation@ }),
    {
        Modification { priority, calculation }
    }

    /// Let every placeholder of the calculation stand for the value `id`.
    pub(crate) fn set_value(&mut self, id: ValueId)
        requires
            old(self).wf(),
        ensures
            final(self).wf(),
            final(self)@ == old(self)@.bound_to(id),
    {
        let mut calculation = Calculation::placeholder();
        std::mem::swap(&mut self.calculation, &mut calculation);
        self.calculation = calculation.replace_with_value(id);
    }

    /// Retrieve the calculation.
    pub fn calculation(&self) -> (r: &Calculation)
        requires
            self.wf(),
        ensures
            r.wf(),
            r@ == self@.calculation,
    {
        &self.calculation
    }

    /// Retrieve the priority.
    pub fn priority(&self) -> (r: u16)
        ensures
            r == self@.priority,
    {
        self.priority
    }
}

} // verus!
