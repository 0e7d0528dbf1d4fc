//! Where routes and messages live while monitors refer to them.
use vstd::prelude::*;

use crate::import::{ImportedRoute, UncommittedMessage};

verus! {

#[verifier::external_type_specification]
#[verifier::external_body]
#[verifier::reject_recursive_types(T)]
pub struct ExArena<T>(typed_arena::Arena<T>);

/// `typed_arena::Arena::new`: an arena without values.
pub assume_specification<T>[ typed_arena::Arena::<T>::new ]() -> (r: typed_arena::Arena<T>);

/// `typed_arena::Arena::alloc`: moves a value into the arena, and hands out a reference to it.
#[verifier::external_body]
pub(crate) fn store<'a, T>(arena: &'a typed_arena::Arena<T>, value: T) -> (r: &'a T)
    ensures
        *r == value,
{
    arena.alloc(value)
}

/// Storage for the routes and messages that monitors refer to.
pub struct MonitorArena {
    pub rib: typed_arena::Arena<ImportedRoute>,
    pub msg: typed_arena::Arena<UncommittedMessage>,
}

impl MonitorArena {
    /// Storage without any content.
    pub fn new() -> (r: MonitorArena) {
        MonitorArena { rib: typed_arena::Arena::new(), msg: typed_arena::Arena::new() }
    }

    /// Keep a route.
    pub fn alloc_rib<'a>(&'a self, rib: ImportedRoute) -> (r: &'a ImportedRoute)
        ensures
            *r == rib,
    {
        store(&self.rib, rib)
    }

    /// Keep a message.
    pub fn alloc_msg<'a>(&'a self, msg: UncommittedMessage) -> (r: &'a UncommittedMessage)
        ensures
            *r == msg,
    {
        store(&self.msg, msg)
    }
}

} // verus!
