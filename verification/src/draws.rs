//! Stable handles to the draws recorded by a canvas.
use vstd::prelude::*;

verus! {

/// Opaque handle to a draw stored inside a canvas.
///
/// A `DrawId` is an O(1) index into the canvas's draw table plus a generation check, so
/// handles from before a reset cannot accidentally reach a later draw with the same index.
#[derive(Clone, Copy, Debug, PartialEq, Eq, Hash, Structural)]
pub struct DrawId {
    index: u32,
    generation: u32,
}

impl DrawId {
    pub closed spec fn index_spec(self) -> nat {
        self.index as nat
    }

    pub closed spec fn generation_spec(self) -> u32 {
        self.generation
    }

    /// Two handles with the same index and generation are the same handle.
    pub proof fn lemma_same_handle(a: DrawId, b: DrawId)
        requires
            a.index_spec() == b.index_spec(),
            a.generation_spec() == b.generation_spec(),
        ensures
            a == b,
    {
    }

    pub fn index(self) -> (i: usize)
        ensures
            i == self.index_spec(),
    {
        self.index as usize
    }
}

/// The draw-handle bookkeeping of a canvas: how many draws it records and the generation that
/// every reset advances.
pub struct DrawTable {
    count: usize,
    generation: u32,
}

impl DrawTable {
    pub closed spec fn count_spec(self) -> nat {
        self.count as nat
    }

    pub closed spec fn generation_spec(self) -> u32 {
        self.generation
    }

    /// The index a handle resolves to in this table, if it is still valid.
    pub open spec fn resolve_spec(self, draw: DrawId) -> Option<nat> {
        if draw.generation_spec() == self.generation_spec() && draw.index_spec()
            < self.count_spec() {
            Some(draw.index_spec())
        } else {
            None
        }
    }

    pub fn new() -> (t: DrawTable)
        ensures
            t.count_spec() == 0,
            t.generation_spec() == 0,
    {
        DrawTable { count: 0, generation: 0 }
    }

    pub fn draw_count(&self) -> (n: usize)
        ensures
            n == self.count_spec(),
    {
        self.count
    }

    /// Records one more draw and returns its index. Indices are 32-bit.
    pub fn push_draw(&mut self) -> (index: usize)
        requires
            old(self).count_spec() < u32::MAX,
        ensures
            index == old(self).count_spec(),
            final(self).count_spec() == old(self).count_spec() + 1,
            final(self).generation_spec() == old(self).generation_spec(),
    {
        let index = self.count;
        self.count = self.count + 1;
        index
    }

    /// The handle of the draw at `index`, if there is one.
    pub fn draw_id_at(&self, index: usize) -> (id: Option<DrawId>)
        requires
            self.count_spec() <= u32::MAX,
        ensures
            match id {
                Some(d) => index < self.count_spec() && d.index_spec() == index
                    && d.generation_spec() == self.generation_spec(),
                None => index >= self.count_spec(),
            },
    {
        if index < self.count {
            Some(self.draw_id_from_index(index))
        } else {
            None
        }
    }

    fn draw_id_from_index(&self, index: usize) -> (id: DrawId)
        requires
            index < self.count_spec(),
            self.count_spec() <= u32::MAX,
        ensures
            id.index_spec() == index,
            id.generation_spec() == self.generation_spec(),
    {
        DrawId { index: index as u32, generation: self.generation }
    }

    /// The index a handle resolves to, or `None` for a handle of another generation or beyond
    /// the recorded draws.
    pub fn draw_index(&self, draw: DrawId) -> (index: Option<usize>)
        ensures
            match index {
                Some(i) => self.resolve_spec(draw) == Some(i as nat),
                None => self.resolve_spec(draw) is None,
            },
    {
        if draw.generation != self.generation {
            return None;
        }
        let index = draw.index as usize;
        if index < self.count {
            Some(index)
        } else {
            None
        }
    }

    /// Forgets every draw and advances the generation, wrapping.
    pub fn reset(&mut self)
        ensures
            final(self).count_spec() == 0,
            final(self).generation_spec() == (if old(self).generation_spec() == u32::MAX {
                0
            } else {
                old(self).generation_spec() + 1
            }),
    {
        self.count = 0;
        self.generation = if self.generation == u32::MAX {
            0
        } else {
            self.generation + 1
        };
    }
}

/// A handle taken before a reset never reaches a draw recorded after it, as long as fewer
/// than 2^32 resets separate them.
pub proof fn law_reset_invalidates_handles(before: DrawTable, after: DrawTable, draw: DrawId)
    requires
        draw.generation_spec() == before.generation_spec(),
        after.generation_spec() == (if before.generation_spec() == u32::MAX {
            0
        } else {
            before.generation_spec() + 1
        }),
    ensures
        after.resolve_spec(draw) is None,
{
}

/// A handle handed out for a draw resolves back to that draw while the table is not reset.
pub proof fn law_handle_resolves_to_its_draw(table: DrawTable, draw: DrawId, index: nat)
    requires
        index < table.count_spec(),
        draw.index_spec() == index,
        draw.generation_spec() == table.generation_spec(),
    ensures
        table.resolve_spec(draw) == Some(index),
{
}

} // verus!
