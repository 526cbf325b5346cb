//! Where objects go that are not needed any more.
use vstd::prelude::*;

verus! {

/// The objects that have been dropped. Nothing is taken off this list, and the one way onto it
/// is to be dropped.
pub struct Dropped<T> {
    objects: Ghost<Seq<T>>,
}

impl<T> Dropped<T> {
    /// The objects, the first that was dropped first.
    pub closed spec fn view(&self) -> Seq<T> {
        self.objects@
    }

    /// Nothing has been dropped.
    pub(crate) fn none() -> (r: Self)
        ensures
            r@ == Seq::<T>::empty(),
    {
        Dropped { objects: Ghost(Seq::empty()) }
    }

    /// Drops `object`.
    pub(crate) fn discard(&mut self, object: T)
        ensures
            final(self)@ == old(self)@.push(object),
    {
        proof {
            self.objects@ = self.objects@.push(object);
        }
        let _dropped: T = object;
    }
}

} // verus!
