//! The identity of one page's location in persisted storage.
use vstd::prelude::*;

verus! {

/// A storage unit's name and the index of a page within it.
#[derive(Clone, Debug, PartialEq, Eq, Hash)]
pub struct Block {
    pub name: String,
    pub id: u64,
}

impl View for Block {
    type V = (Seq<char>, u64);

    open spec fn view(&self) -> (Seq<char>, u64) {
        (self.name@, self.id)
    }
}

impl Block {
    pub fn new(name: String, id: u64) -> (r: Block)
        ensures
            r@ == (name@, id),
    {
        Block { name, id }
    }

    /// A copy of this block, with the same name and index.
    pub fn duplicate(&self) -> (r: Block)
        ensures
            r@ == self@,
    {
        Block { name: self.name.clone(), id: self.id }
    }
}

} // verus!
