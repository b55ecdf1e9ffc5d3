//! Negative indexing into vectors, as some list-diff algorithms use for
//! their circular state arrays.

use vstd::prelude::*;

verus! {

/// The position a possibly-negative index resolves to.
pub open spec fn spec_nindex(len: nat, idx: int) -> int {
    if idx >= 0 {
        idx
    } else {
        len + idx
    }
}

/// Allows negative indexing into vectors: `-1` is the last element.
pub trait NegIndex<T> {
    /// The indexed elements.
    spec fn contents(&self) -> Seq<T>;

    /// Reads the element at a possibly-negative index.
    fn nindex(&self, idx: isize) -> (r: &T)
        requires
            isize::MIN < idx,
            -(self.contents().len() as int) <= idx < self.contents().len() as int,
        ensures
            *r == self.contents()[spec_nindex(self.contents().len(), idx as int)],
    ;

    /// Mutably borrows the element at a possibly-negative index.
    fn nindex_mut(&mut self, idx: isize) -> (r: &mut T)
        requires
            isize::MIN < idx,
            -(old(self).contents().len() as int) <= idx < old(self).contents().len() as int,
        ensures
            *r == old(self).contents()[spec_nindex(old(self).contents().len(), idx as int)],
            final(self).contents() == old(self).contents().update(
                spec_nindex(old(self).contents().len(), idx as int),
                *final(r),
            ),
    ;
}

impl<T> NegIndex<T> for Vec<T> {
    open spec fn contents(&self) -> Seq<T> {
        self@
    }

    fn nindex(&self, idx: isize) -> (r: &T) {
        if idx >= 0 {
            &self[idx as usize]
        } else {
            &self[self.len() - ((-idx) as usize)]
        }
    }

    fn nindex_mut(&mut self, idx: isize) -> (r: &mut T) {
        if idx >= 0 {
            let k = idx as usize;
            &mut self[k]
        } else {
            let k = self.len() - ((-idx) as usize);
            &mut self[k]
        }
    }
}

} // verus!
