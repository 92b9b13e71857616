//! Choices between selections that exclude each other.

use vstd::prelude::*;
use super::front_end::FrontEnd;
use super::modification::{
    list_view, list_wf, put, put_modification, Modification, ModificationList, ModificationView,
};
use super::ValueId;

verus! {

/// Part of a Choice.
#[derive(Debug, Hash)]
pub struct Selection {
    pub(crate) front_end: Option<FrontEnd>,
    pub(crate) modifications: Vec<(ValueId, Modification)>,
}

/// Represents a set of Selections. The Character will have to have exactly one Selection
/// active at a time.
#[derive(Debug, Hash)]
pub struct Choice {
    pub(crate) front_end: Option<FrontEnd>,
    pub(crate) options: Vec<Selection>,
}

/// What a model knows of a selection.
pub struct SelectionView {
    /// Front end data, if the selection has any.
    pub front_end: Option<FrontEnd>,
    /// The modifications that apply while the selection is active, one per
    /// target.
    pub modifications: ModificationList,
}

/// What a model knows of a choice.
pub struct ChoiceView {
    /// Front end data, if the choice has any.
    pub front_end: Option<FrontEnd>,
    /// The selections. A character's selection index `k > 0` stands for
    /// `options[k - 1]`; index 0 stands for no selection.
    pub options: Seq<SelectionView>,
}

/// The list that holds each of `entries` in turn as by `put`: of several
/// modifications for one target the last one stays.
pub open spec fn put_all(
    list: ModificationList,
    entries: Seq<(ValueId, ModificationView)>,
) -> ModificationList
    decreases entries.len(),
{
    if entries.len() == 0 {
        list
    } else {
        put(put_all(list, entries.drop_last()), entries.last().0, entries.last().1)
    }
}

impl SelectionView {
    /// The selection with the placeholders of every modification standing for
    /// its target.
    pub open spec fn bound(self) -> SelectionView {
        SelectionView {
            modifications: self.modifications.map_values(
                |entry: (ValueId, ModificationView)| (entry.0, entry.1.bound_to(entry.0)),
            ),
            ..self
        }
    }
}

impl View for Selection {
    type V = SelectionView;

    open(crate) spec fn view(&self) -> SelectionView {
        SelectionView {
            front_end: self.front_end,
            modifications: list_view(self.modifications@),
        }
    }
}

impl View for Choice {
    type V = ChoiceView;

    open(crate) spec fn view(&self) -> ChoiceView {
        ChoiceView {
            front_end: self.front_end,
            options: self.options@.map_values(|selection: Selection| selection@),
        }
    }
}

impl Selection {
    /// The modifications are consistent and no target is modified twice.
    pub open(crate) spec fn wf(&self) -> bool {
        list_wf(self.modifications@)
    }

    /// Create a new selection.
    pub fn new(mods: Vec<(ValueId, Modification)>) -> (r: Self)
        requires
            forall|k: int| 0 <= k < mods@.len() ==> (#[trigger] mods@[k]).1.wf(),
        ensures
            r.wf(),
            r@ == (SelectionView {
                front_end: None,
                modifications: put_all(Seq::empty(), list_view(mods@)),
            }),
    {
        let ghost all = mods@;
        let mut mods = mods;
        // Turn the entries around, so that they can then be taken in their
        // order from the end.
        let mut rest: Vec<(ValueId, Modification)> = Vec::new();
        while mods.len() > 0
            invariant
                mods@.len() + rest@.len() == all.len(),
                forall|i: int| 0 <= i < mods@.len() ==> mods@[i] == all[i],
                forall|i: int| 0 <= i < rest@.len() ==> rest@[i] == all[all.len() - 1 - i],
            decreases mods@.len(),
        {
            let entry = mods.pop().unwrap();
            rest.push(entry);
        }
        let mut modifications: Vec<(ValueId, Modification)> = Vec::new();
        assert(list_view(modifications@) =~= Seq::empty());
        assert(list_view(all.take(0)) =~= Seq::empty());
        while rest.len() > 0
            invariant
                rest@.len() <= all.len(),
                forall|i: int| 0 <= i < rest@.len() ==> rest@[i] == all[all.len() - 1 - i],
                forall|k: int| 0 <= k < all.len() ==> (#[trigger] all[k]).1.wf(),
                list_wf(modifications@),
                list_view(modifications@) == put_all(
                    Seq::empty(),
                    list_view(all.take(all.len() - rest@.len())),
                ),
            decreases rest@.len(),
        {
            let ghost k = all.len() - rest@.len();
            let (id, modification) = rest.pop().unwrap();
            assert((id, modification) == all[k]);
            put_modification(&mut modifications, id, modification);
            proof {
                let next = list_view(all.take(k + 1));
                assert(next.drop_last() =~= list_view(all.take(k)));
                assert(next.last() == (id, modification@));
            }
        }
        assert(all.take(all.len() as int) =~= all);
        Selection { front_end: None, modifications }
    }

    /// Add front end metadata.
    pub fn front_end(self, front_end: FrontEnd) -> (r: Self)
        ensures
            r@ == (SelectionView { front_end: Some(front_end), ..self@ }),
            self.wf() ==> r.wf(),
    {
        let mut r = self;
        r.front_end = Some(front_end);
        r
    }

    /// The modifications of the selection, each with the value that it
    /// modifies.
    pub fn modifications(&self) -> (r: &Vec<(ValueId, Modification)>)
        ensures
            list_view(r@) == self@.modifications,
            self.wf() ==> list_wf(r@),
    {
        &self.modifications
    }
}

impl Choice {
    /// Every selection is consistent.
    pub open(crate) spec fn wf(&self) -> bool {
        forall|k: int| 0 <= k < self.options@.len() ==> (#[trigger] self.options@[k]).wf()
    }

    /// Create a new  Choice.
    pub fn new() -> (r: Self)
        ensures
            r.wf(),
            r@ == (ChoiceView { front_end: None, options: Seq::empty() }),
    {
        let r = Choice { front_end: None, options: Vec::new() };
        assert(r@.options =~= Seq::empty());
        r
    }

    /// Add front end metadata.
    pub fn front_end(self, front_end: FrontEnd) -> (r: Self)
        ensures
            r@ == (ChoiceView { front_end: Some(front_end), ..self@ }),
            self.wf() ==> r.wf(),
    {
        let mut r = self;
        r.front_end = Some(front_end);
        r
    }
}

impl Choice {
    /// The number of selections of this choice.
    pub fn selection_count(&self) -> (r: usize)
        ensures
            r == self@.options.len(),
    {
        self.options.len()
    }

    /// Make `selection` one more selection of this choice.
    pub(crate) fn add_option(&mut self, selection: Selection)
        requires
            old(self).wf(),
            selection.wf(),
        ensures
            final(self).wf(),
            final(self)@ == (ChoiceView {
                options: old(self)@.options.push(selection@),
                ..old(self)@
            }),
    {
        let ghost before = self.options@;
        self.options.push(selection);
        proof {
            assert(self@.options =~= old(self)@.options.push(selection@));
            assert forall|k: int| 0 <= k < self.options@.len() implies (
            #[trigger] self.options@[k]).wf() by {
                if k < before.len() {
                    assert(before[k].wf());
                }
            }
        }
    }
}

impl Default for Choice {
    fn default() -> (r: Self)
        ensures
            r.wf(),
            r@ == (ChoiceView { front_end: None, options: Seq::empty() }),
    {
        Choice::new()
    }
}

} // verus!
