//! Cached references: a value published under an optional stable name.

use adapton::engine::Name;
use vstd::prelude::*;

verus! {

/// A published value. The name, where there is one, is the address under
/// which a cache keeps the value; the value itself never changes.
#[derive(Clone, Debug, PartialEq, Eq, Hash)]
pub struct Art<T> {
    pub name: Option<Name>,
    pub value: Box<T>,
}

impl<T> Art<T> {
    /// Publishes `value` under `name`.
    pub fn cell(name: Option<Name>, value: T) -> (a: Art<T>)
        ensures
            a.name == name,
            *a.value == value,
    {
        Art { name, value: Box::new(value) }
    }

    /// The published value, by reference.
    pub fn get(&self) -> (v: &T)
        ensures
            *v == *self.value,
    {
        &*self.value
    }

    /// The published value.
    pub fn force(self) -> (v: T)
        ensures
            v == *self.value,
    {
        *self.value
    }
}

} // verus!
