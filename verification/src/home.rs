//! Telling arenas apart.
use std::rc::Rc;
use vstd::prelude::*;

verus! {

/// What marks one arena: a place in memory that is its own for as long as the arena or any of
/// its handles is there.
pub struct Home {
    anchor: Rc<u8>,
    place: usize,
}

/// The address of the byte that `anchor` holds, as [`Rc::as_ptr`] gives it. Nothing is claimed
/// of the address. Allocations that are there at the same time lie at different ones, which no
/// clause on a single call can say.
#[verifier::external_body]
fn place_of(anchor: &Rc<u8>) -> (r: usize) {
    Rc::as_ptr(anchor) as usize
}

impl Home {
    /// The place.
    pub closed spec fn view(&self) -> usize {
        self.place
    }

    pub(crate) fn new() -> (r: Self) {
        let anchor: Rc<u8> = Rc::new(0u8);
        let place: usize = place_of(&anchor);
        Home { anchor, place }
    }

    pub(crate) fn place(&self) -> (r: usize)
        ensures
            r == self@,
    {
        self.place
    }
}

impl Clone for Home {
    fn clone(&self) -> (r: Self)
        ensures
            r@ == self@,
    {
        Home { anchor: self.anchor.clone(), place: self.place }
    }
}

} // verus!
