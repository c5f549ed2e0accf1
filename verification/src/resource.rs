//! Resource cells: shared state behind a priority ceiling.

use vstd::prelude::*;

verus! {

/// The mathematical value of a [`ResourceCell`].
pub struct CellView<T> {
    /// The lowest priority at which the contents may be touched.
    pub ceiling: u8,
    /// The shared state.
    pub contents: T,
}

/// A container for one piece of shared mutable state, a peripheral handle or
/// a variable of the application, together with its priority ceiling.
///
/// A cell is made during initialisation and handed to the dispatcher. From
/// then on its contents are reached through the dispatcher alone, and only
/// inside a lock scope that holds the cell: the cell itself offers no way to
/// them.
pub struct ResourceCell<T> {
    ceiling: u8,
    contents: T,
}

impl<T> View for ResourceCell<T> {
    type V = CellView<T>;

    closed spec fn view(&self) -> CellView<T> {
        CellView { ceiling: self.ceiling, contents: self.contents }
    }
}

impl<T> ResourceCell<T> {
    /// A cell with the given ceiling around `contents`.
    pub fn new(ceiling: u8, contents: T) -> (cell: ResourceCell<T>)
        ensures
            cell@ == (CellView { ceiling, contents }),
    {
        ResourceCell { ceiling, contents }
    }

    /// Returns the ceiling of the cell.
    pub fn ceiling(&self) -> (ceiling: u8)
        ensures
            ceiling == self@.ceiling,
    {
        self.ceiling
    }

    /// Lends the contents out for reading.
    pub(crate) fn get(&self) -> (contents: &T)
        ensures
            *contents == self@.contents,
    {
        &self.contents
    }

    /// Lends the contents out for change.
    pub(crate) fn get_mut(&mut self) -> (contents: &mut T)
        ensures
            *contents == old(self)@.contents,
            final(self)@ == (CellView { ceiling: old(self)@.ceiling, contents: *final(contents) }),
    {
        &mut self.contents
    }

    /// Takes the cell apart.
    pub(crate) fn into_contents(self) -> (contents: T)
        ensures
            contents == self@.contents,
    {
        self.contents
    }
}

} // verus!
