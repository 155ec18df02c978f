//! The hotbar: which of its slots is selected.

use vstd::prelude::*;

verus! {

pub struct Hotbar {
    /// Number of slots.
    pub size: usize,
    pub selected_slot: usize,
}

impl Hotbar {
    /// A hotbar of `size` slots, the first selected.
    pub fn new(size: usize) -> (r: Hotbar)
        requires
            size > 0,
        ensures
            r.size == size,
            r.selected_slot == 0,
    {
        Hotbar { size, selected_slot: 0 }
    }

    /// Selects the next slot, wrapping from the last to the first.
    pub fn slot_up(&mut self)
        ensures
            final(self).size == old(self).size,
            final(self).selected_slot == if old(self).selected_slot + 1 >= old(self).size {
                0
            } else {
                old(self).selected_slot + 1
            },
    {
        if self.selected_slot >= self.size || self.selected_slot + 1 >= self.size {
            self.selected_slot = 0;
        } else {
            self.selected_slot = self.selected_slot + 1;
        }
    }

    /// Selects the previous slot, wrapping from the first to the last.
    pub fn slot_down(&mut self)
        requires
            old(self).size > 0,
        ensures
            final(self).size == old(self).size,
            final(self).selected_slot == if old(self).selected_slot > 0 {
                old(self).selected_slot - 1
            } else {
                old(self).size - 1
            },
    {
        if self.selected_slot > 0 {
            self.selected_slot = self.selected_slot - 1;
        } else {
            self.selected_slot = self.size - 1;
        }
    }
}

} // verus!
