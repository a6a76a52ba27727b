//! The manual-edit cursor: which cell is selected for direct editing.

use vstd::prelude::*;

verus! {

/// The cell selected for manual editing.
pub struct Editor {
    pub selected_row: usize,
    pub selected_col: usize,
}

impl Editor {
    /// A fresh cursor at the top-left cell.
    pub fn new() -> (e: Editor)
        ensures
            e.selected_row == 0,
            e.selected_col == 0,
    {
        Editor { selected_row: 0, selected_col: 0 }
    }

    /// Move the selection one column left, stopping at the first column.
    pub fn select_left(&mut self)
        ensures
            final(self).selected_row == old(self).selected_row,
            final(self).selected_col == (if old(self).selected_col > 0 {
                old(self).selected_col - 1
            } else {
                0int
            }),
    {
        if self.selected_col > 0 {
            self.selected_col -= 1;
        }
    }

    /// Move the selection one column right, stopping at the last column of a
    /// grid of the given size.
    pub fn select_right(&mut self, size: usize)
        requires
            size >= 1,
        ensures
            final(self).selected_row == old(self).selected_row,
            final(self).selected_col == (if old(self).selected_col < size - 1 {
                old(self).selected_col + 1
            } else {
                old(self).selected_col as int
            }),
    {
        if self.selected_col < size - 1 {
            self.selected_col += 1;
        }
    }
}

} // verus!
