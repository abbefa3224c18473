//! Datatypes whose states can be unioned.

use crate::crdt::list::{Element, List, OpId};
use crate::crdt::text::Text;
use crate::error::Result;
use vstd::prelude::*;

verus! {

/// A datatype whose independently edited states can be unioned
/// deterministically.
pub trait Merge: Sized {
    /// Whether a value is one that can be merged.
    spec fn mergeable(&self) -> bool;

    /// Merges `other` into this value atomically.
    fn merge(&mut self, other: &Self) -> (result: Result<()>)
        requires
            old(self).mergeable(),
            other.mergeable(),
        ensures
            final(self).mergeable(),
            result is Err ==> *final(self) == *old(self),
    ;
}

impl<T: Element> Merge for List<T> {
    open spec fn mergeable(&self) -> bool {
        self.wf()
    }

    fn merge(&mut self, other: &Self) -> (result: Result<()>)
        ensures
            result is Ok == (forall|id: OpId| !old(self)@.collides(other@, id)),
            result is Ok ==> final(self)@ == old(self)@.union(other@),
    {
        List::merge(self, other)
    }
}

impl Merge for Text {
    open spec fn mergeable(&self) -> bool {
        self.wf()
    }

    fn merge(&mut self, other: &Self) -> (result: Result<()>)
        ensures
            result is Ok == (forall|id: OpId| !old(self)@.collides(other@, id)),
            result is Ok ==> final(self)@ == old(self)@.union(other@),
    {
        Text::merge(self, other)
    }
}

} // verus!
