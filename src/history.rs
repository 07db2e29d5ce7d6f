use vstd::prelude::*;

use crate::pixel::{hash, index_position, rgba, Color};

verus! {

/// Number of slots in the history table.
pub const SLOTS: usize = 64;

/// The table as it stands before any pixel is seen: every slot zero.
pub open spec fn empty_table() -> Seq<Color> {
    Seq::new(64, |i: int| Color { r: 0, g: 0, b: 0, a: 0 })
}

/// The table after `c` is remembered: it takes the slot that `c` hashes to.
pub open spec fn remember(table: Seq<Color>, c: Color) -> Seq<Color> {
    table.update(hash(c), c)
}

/// The pixel history shared in lockstep by encoder and decoder: the last pixel
/// seen for each hash slot.
pub struct History {
    slots: Vec<[u8; 4]>,
}

impl View for History {
    type V = Seq<Color>;

    closed spec fn view(&self) -> Seq<Color> {
        self.slots@.map_values(|p: [u8; 4]| rgba(p))
    }
}

impl History {
    /// The table has exactly one entry per slot.
    pub closed spec fn wf(&self) -> bool {
        self.slots@.len() == 64
    }

    /// A table with every slot zero.
    pub fn new() -> (h: History)
        ensures
            h.wf(),
            h@ == empty_table(),
    {
        let mut slots: Vec<[u8; 4]> = Vec::new();
        let mut i: usize = 0;
        while i < SLOTS
            invariant
                i <= SLOTS,
                slots@.len() == i,
                forall|j: int| 0 <= j < i ==> rgba(#[trigger] slots@[j]) == (Color { r: 0, g: 0, b: 0, a: 0 }),
            decreases SLOTS - i,
        {
            slots.push([0u8; 4]);
            i += 1;
        }
        let h = History { slots };
        assert(h@ =~= empty_table());
        h
    }

    /// The pixel stored at `slot`.
    pub fn lookup(&self, slot: u8) -> (p: [u8; 4])
        requires
            self.wf(),
            slot < 64,
        ensures
            rgba(p) == self@[slot as int],
    {
        self.slots[slot as usize]
    }

    /// Stores `p` at the slot it hashes to, in place of what was there.
    pub fn update(&mut self, p: [u8; 4])
        requires
            old(self).wf(),
        ensures
            final(self).wf(),
            final(self)@.len() == 64,
            final(self)@ == remember(old(self)@, rgba(p)),
    {
        let slot = index_position(p);
        self.slots.set(slot as usize, p);
        assert(self@ =~= remember(old(self)@, rgba(p)));
    }
}

} // verus!
