use vstd::prelude::*;

verus! {

/// Anything that denotes a position in a name table: a raw index, or a
/// symbolic constant generated alongside a table.
pub trait NameTableIdx {
    /// The raw index this value denotes. Implementors that are verified
    /// define it; the default leaves the index unspecified, so that code
    /// outside verification need only write `to_index`.
    open spec fn index_value(&self) -> nat {
        arbitrary()
    }

    fn to_index(&self) -> (r: usize)
        ensures
            r as nat == self.index_value(),
    ;
}

impl NameTableIdx for usize {
    open spec fn index_value(&self) -> nat {
        *self as nat
    }

    fn to_index(&self) -> (r: usize) {
        *self
    }
}

} // verus!
