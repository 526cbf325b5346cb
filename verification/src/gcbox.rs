//! The boxes that hold objects, and the cells that own the boxes.
use std::mem::ManuallyDrop;
use vstd::prelude::*;

verus! {

/// The name of an object: its arena's home, and the position of its cell there.
#[derive(Clone, Copy, Debug, PartialEq, Eq, Structural)]
pub struct Name {
    pub home: usize,
    pub cell: usize,
}

/// A pointer to a box, which is the name of its object.
pub type GcPtrNonNull = Name;

/// A pointer to a box, or null.
pub type GcPtr = Option<GcPtrNonNull>;

/// What a box carries besides its object: the mark bit and the links of the arena's list.
pub struct Header {
    pub mark: bool,
    pub next: GcPtr,
    pub prev: GcPtr,
}

/// Keeps [`Traverse`] closed to types outside this crate.
pub trait Sealed {

}

/// The part of a box that does not depend on the type of its object.
pub trait Traverse: Sealed {
    /// The mark bit and the links.
    spec fn header(&self) -> Header;

    fn mark(&mut self)
        ensures
            final(self).header() == (Header { mark: true, ..old(self).header() }),
    ;

    fn unmark(&mut self)
        ensures
            final(self).header() == (Header { mark: false, ..old(self).header() }),
    ;

    fn marked(&self) -> (r: bool)
        ensures
            r == self.header().mark,
    ;

    fn next(&self) -> (r: GcPtr)
        ensures
            r == self.header().next,
    ;

    fn prev(&self) -> (r: GcPtr)
        ensures
            r == self.header().prev,
    ;
}

/// An object with its mark bit and its place in the arena's list. Dropping the box does not
/// drop the object.
pub struct GcBox<T> {
    mark: bool,
    next: GcPtr,
    prev: GcPtr,
    value: ManuallyDrop<T>,
}

/// The object in `slot`, to be changed in place: `deref_mut` of [`ManuallyDrop`], which gives
/// out what the slot holds, so that what is written there is what it then holds.
#[verifier::external_body]
fn contents_mut<T>(slot: &mut ManuallyDrop<T>) -> (r: &mut T)
    ensures
        *r == old(slot)@,
        final(slot)@ == *final(r),
{
    std::ops::DerefMut::deref_mut(slot)
}

impl<T> Sealed for GcBox<T> {

}

impl<T> Traverse for GcBox<T> {
    closed spec fn header(&self) -> Header {
        Header { mark: self.mark, next: self.next, prev: self.prev }
    }

    fn mark(&mut self)
        ensures
            final(self).value() == old(self).value(),
    {
        self.mark = true;
    }

    fn unmark(&mut self)
        ensures
            final(self).value() == old(self).value(),
    {
        self.mark = false;
    }

    fn marked(&self) -> (r: bool) {
        self.mark
    }

    fn next(&self) -> (r: GcPtr) {
        self.next
    }

    fn prev(&self) -> (r: GcPtr) {
        self.prev
    }
}

impl<T> GcBox<T> {
    /// The object in the box.
    pub closed spec fn value(&self) -> T {
        self.value@
    }

    /// An unmarked box that is to stand in front of `next`.
    pub(crate) fn new(value: T, next: GcPtr) -> (r: Self)
        ensures
            r.header() == (Header { mark: false, next, prev: None }),
            r.value() == value,
    {
        GcBox { mark: false, next, prev: None, value: ManuallyDrop::new(value) }
    }

    pub(crate) fn set_next(&mut self, next: GcPtr)
        ensures
            final(self).header() == (Header { next, ..old(self).header() }),
            final(self).value() == old(self).value(),
    {
        self.next = next;
    }

    pub(crate) fn set_prev(&mut self, prev: GcPtr)
        ensures
            final(self).header() == (Header { prev, ..old(self).header() }),
            final(self).value() == old(self).value(),
    {
        self.prev = prev;
    }

    pub(crate) fn get(&self) -> (r: &T)
        ensures
            *r == self.value(),
    {
        &*self.value
    }

    pub(crate) fn get_mut(&mut self) -> (r: &mut T)
        ensures
            *r == old(self).value(),
            final(self).value() == *final(r),
            final(self).header() == old(self).header(),
    {
        contents_mut(&mut self.value)
    }

    /// Takes the object out.
    pub(crate) fn into_value(self) -> (r: T)
        ensures
            r == self.value(),
    {
        ManuallyDrop::into_inner(self.value)
    }
}

/// The cell that every handle to one object shares. It owns the object's box, and is empty
/// once the box has been collected.
pub struct GcAlloc<T> {
    pub(crate) inner: Option<Box<GcBox<T>>>,
}

impl<T> GcAlloc<T> {
    /// A cell with `value` in an unmarked box that is to stand in front of `next`.
    pub(crate) fn new(value: T, next: GcPtr) -> (r: Self)
        ensures
            r.inner matches Some(b) && b.value() == value && b.header() == (Header {
                mark: false,
                next,
                prev: None,
            }),
    {
        GcAlloc { inner: Some(Box::new(GcBox::new(value, next))) }
    }
}

/// The box in the cell of `id`.
pub(crate) open spec fn box_at<T>(cells: Seq<GcAlloc<T>>, id: Name) -> GcBox<T> {
    *cells[id.cell as int].inner->0
}

/// Whether `id` is a name of the arena at `home`, and its cell holds a box.
pub(crate) open spec fn filled<T>(home: usize, cells: Seq<GcAlloc<T>>, id: Name) -> bool {
    id.home == home && id.cell < cells.len() && cells[id.cell as int].inner is Some
}

/// The box of `id` in the cells of the arena at `home`, if there is one.
pub(crate) fn find<T>(home: usize, cells: &Vec<GcAlloc<T>>, id: Name) -> (r: Option<&GcBox<T>>)
    ensures
        r is Some <==> filled(home, cells@, id),
        r matches Some(b) ==> *b == box_at(cells@, id),
{
    if id.home == home && id.cell < cells.len() {
        match &cells[id.cell].inner {
            Some(b) => Some(&**b),
            None => None,
        }
    } else {
        None
    }
}

} // verus!
