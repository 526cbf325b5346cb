//! Handles to objects.
use crate::arena::Arena;
use crate::gcbox::Name;
use crate::home::Home;
use crate::trace::Trace;
use std::marker::PhantomData;
use vstd::prelude::*;

verus! {

/// A handle to an object of an [`Arena`]. It stays usable after the object has been collected,
/// and then finds nothing. It finds nothing either in an arena with another home, which every
/// other arena has as long as the allocator gives out no place twice: see [`Home`].
pub struct Gc<T> {
    home: Home,
    cell: usize,
    marker: PhantomData<T>,
}

impl<T> Gc<T> {
    /// The name of the object.
    pub closed spec fn name(&self) -> Name {
        Name { home: self.home@, cell: self.cell }
    }

    pub(crate) fn new(home: &Home, cell: usize) -> (r: Self)
        ensures
            r.name() == (Name { home: home@, cell }),
    {
        Gc { home: home.clone(), cell, marker: PhantomData }
    }

    pub(crate) fn ptr(&self) -> (r: Name)
        ensures
            r == self.name(),
    {
        Name { home: self.home.place(), cell: self.cell }
    }

    /// Whether both handles name the same object: the same cell of arenas with the same home.
    /// That two arenas have two homes rests on the allocator: see [`Home`].
    pub fn ptr_eq(this: &Self, other: &Self) -> (r: bool)
        ensures
            r == (this.name() == other.name()),
    {
        this.ptr() == other.ptr()
    }
}

impl<T: Trace> Gc<T> {
    /// The object, or nothing if it has been collected or is one of another arena.
    pub fn try_as_ref<'a>(this: &Self, arena: &'a Arena<T>) -> (r: Option<&'a T>)
        ensures
            r is Some <==> arena@.live(this.name()),
            r matches Some(v) ==> *v == arena@.objects[this.name()],
    {
        arena.value(this.ptr())
    }

    /// The object, which must not have been collected.
    pub fn as_ref<'a>(this: &Self, arena: &'a Arena<T>) -> (r: &'a T)
        requires
            arena@.live(this.name()),
        ensures
            *r == arena@.objects[this.name()],
    {
        Self::try_as_ref(this, arena).expect("Gc::as_ref on collected object")
    }

    /// The object, to be changed in place, or nothing if it has been collected or is one of
    /// another arena.
    pub fn try_as_mut<'a>(this: &Self, arena: &'a mut Arena<T>) -> (r: Option<&'a mut T>)
        requires
            old(arena).wf(),
        ensures
            final(arena).wf(),
            r is Some <==> old(arena)@.live(this.name()),
            r is None ==> final(arena)@ == old(arena)@,
            r matches Some(v) ==> {
                &&& *v == old(arena)@.objects[this.name()]
                &&& final(arena)@ == old(arena)@.replaced(this.name(), *final(v))
            },
    {
        arena.value_mut(this.ptr())
    }

    /// The object, to be changed in place, which must not have been collected.
    pub fn as_mut<'a>(this: &Self, arena: &'a mut Arena<T>) -> (r: &'a mut T)
        requires
            old(arena).wf(),
            old(arena)@.live(this.name()),
        ensures
            final(arena).wf(),
            *r == old(arena)@.objects[this.name()],
            final(arena)@ == old(arena)@.replaced(this.name(), *final(r)),
    {
        Self::try_as_mut(this, arena).expect("Gc::as_mut on collected object")
    }
}

impl<T> Clone for Gc<T> {
    fn clone(&self) -> (r: Self)
        ensures
            r.name() == self.name(),
    {
        Gc { home: self.home.clone(), cell: self.cell, marker: PhantomData }
    }
}

} // verus!
