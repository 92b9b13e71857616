//! A sequential container with typed indices and access by id string.

use vstd::prelude::*;
use std::marker::PhantomData;

verus! {

/// Index of an element of a `Container<T>`. The second field only ties the
/// index to the element type.
#[derive(Debug, Hash)]
pub struct Id<T>(pub usize, pub PhantomData<T>);

impl<T> Id<T> {
    /// The id of the element at position `id`.
    pub fn new(id: usize) -> (r: Self)
        ensures
            r == Id::<T>(id, PhantomData),
            r.0 == id,
    {
        Id(id, PhantomData)
    }

    /// Position of the element this id points to.
    pub fn index(self) -> (r: usize)
        ensures
            r == self.0,
    {
        self.0
    }
}

impl<T> Clone for Id<T> {
    fn clone(&self) -> (r: Self)
        ensures
            r == *self,
    {
        Id(self.0, PhantomData)
    }
}

impl<T> Copy for Id<T> {

}

impl<T> PartialEq for Id<T> {
    fn eq(&self, other: &Self) -> (r: bool) {
        self.0 == other.0
    }
}

impl<T> vstd::std_specs::cmp::PartialEqSpecImpl for Id<T> {
    open spec fn obeys_eq_spec() -> bool {
        true
    }

    open spec fn eq_spec(&self, other: &Self) -> bool {
        self.0 == other.0
    }
}

impl<T> Eq for Id<T> {

}

/// Elements in insertion order, each registered under an id string.
pub struct Container<T> {
    values: Vec<T>,
    names: Vec<String>,
}

impl<T> View for Container<T> {
    type V = Seq<T>;

    /// The elements, in insertion order.
    closed spec fn view(&self) -> Seq<T> {
        self.values@
    }
}

impl<T> Container<T> {
    /// The id strings, in insertion order.
    pub closed spec fn names(&self) -> Seq<Seq<char>> {
        Seq::new(self.names@.len(), |i: int| self.names@[i]@)
    }

    /// Every element has exactly one id string and no id string occurs twice.
    pub closed spec fn wf(&self) -> bool {
        &&& self.names@.len() == self.values@.len()
        &&& forall|i: int, j: int|
            0 <= i < j < self.names@.len() ==> self.names@[i]@ != self.names@[j]@
    }

    /// In a consistent container every element has its id string, and no id
    /// string names two elements.
    pub proof fn law_names(&self)
        requires
            self.wf(),
        ensures
            self.names().len() == self@.len(),
            self.names().no_duplicates(),
    {
    }

    /// Create a new empty container.
    pub fn new() -> (r: Self)
        ensures
            r.wf(),
            r@ == Seq::<T>::empty(),
            r.names() == Seq::<Seq<char>>::empty(),
    {
        let r = Container { values: Vec::new(), names: Vec::new() };
        assert(r.names() =~= Seq::<Seq<char>>::empty());
        r
    }

    /// Number of elements.
    pub fn len(&self) -> (r: usize)
        ensures
            r == self@.len(),
    {
        self.values.len()
    }

    /// Look an id string up. `None` if no element is registered under it.
    pub fn find(&self, id_str: &str) -> (r: Option<Id<T>>)
        requires
            self.wf(),
        ensures
            match r {
                Some(id) => id.0 < self@.len() && self.names()[id.0 as int] == id_str@,
                None => !self.names().contains(id_str@),
            },
    {
        let key = id_str.to_owned();
        let mut i: usize = 0;
        while i < self.names.len()
            invariant
                i <= self.names@.len(),
                self.names@.len() == self.values@.len(),
                key@ == id_str@,
                forall|j: int| 0 <= j < i ==> self.names@[j]@ != id_str@,
            decreases self.names@.len() - i,
        {
            if self.names[i] == key {
                return Some(Id::new(i));
            }
            i += 1;
        }
        None
    }

    /// Add a new value with id `id_str`. The id can not alias other ids.
    pub fn insert(&mut self, id_str: &str, value: T) -> (id: Id<T>)
        requires
            old(self).wf(),
            !old(self).names().contains(id_str@),
        ensures
            final(self).wf(),
            final(self)@ == old(self)@.push(value),
            final(self).names() == old(self).names().push(id_str@),
            id.0 == old(self)@.len(),
    {
        let ghost before = self.names();
        let id = Id::new(self.values.len());
        assert forall|j: int| 0 <= j < self.names@.len() implies self.names@[j]@ != id_str@ by {
            assert(before[j] == self.names@[j]@);
        }
        self.names.push(id_str.to_owned());
        self.values.push(value);
        assert(self.names() =~= before.push(id_str@));
        id
    }

    /// Get an id based on the id string.
    pub fn id(&self, id_str: &str) -> (id: Id<T>)
        requires
            self.wf(),
            self.names().contains(id_str@),
        ensures
            id.0 < self@.len(),
            self.names()[id.0 as int] == id_str@,
    {
        match self.find(id_str) {
            Some(id) => id,
            None => unreached(),
        }
    }

    /// Get a reference to the value with the given index.
    pub fn get(&self, id: Id<T>) -> (r: &T)
        requires
            id.0 < self@.len(),
        ensures
            *r == self@[id.0 as int],
    {
        &self.values[id.0]
    }

    /// Get a mutable reference to the value with the given index.
    pub fn get_mut(&mut self, id: Id<T>) -> (r: &mut T)
        requires
            id.0 < old(self)@.len(),
        ensures
            *r == old(self)@[id.0 as int],
            final(self)@ == old(self)@.update(id.0 as int, *final(r)),
            final(self).names() == old(self).names(),
            old(self).wf() ==> final(self).wf(),
    {
        &mut self.values[id.0]
    }
}

impl<T> Default for Container<T> {
    fn default() -> (r: Self)
        ensures
            r.wf(),
            r@ == Seq::<T>::empty(),
            r.names() == Seq::<Seq<char>>::empty(),
    {
        Container::new()
    }
}

} // verus!
