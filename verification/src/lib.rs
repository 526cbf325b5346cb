//! A mark-and-sweep garbage collector whose behaviour is proved.
//!
//! An [`Arena`] owns every object. Each object sits in a [`GcBox`], a node of the arena's
//! doubly linked list, and is named by [`Gc`] handles. Objects report the handles they hold
//! through [`Trace`]; [`Arena::collect`] frees what no root leads to.
pub mod arena;
pub mod dropped;
pub mod gc;
pub mod gcbox;
pub mod graph;
pub mod home;
pub mod laws;
pub mod trace;
pub mod view;

pub use crate::arena::{Arena, ArenaIter, Collection};
pub use crate::gc::Gc;
pub use crate::gcbox::{GcAlloc, GcBox, GcPtr, GcPtrNonNull, Name, Sealed, Traverse};
pub use crate::trace::{Names, Trace, Visitor};
