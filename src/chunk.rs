//! A chunk: one vertical strip of the world, a foreground and a background
//! grid of `CHUNK_WIDTH × CHUNK_HEIGHT` cells each.

use vstd::prelude::*;

use crate::block::{air, Block, BlockLayer, MAX_LIGHT_LEVEL};
use crate::{CHUNK_HEIGHT, CHUNK_WIDTH};

verus! {

/// Number of cells in one grid of a chunk.
pub const CHUNK_CELLS: usize = 8192;

/// The cell `(x, y)` is inside a chunk.
pub open spec fn in_chunk(x: int, y: int) -> bool {
    0 <= x < CHUNK_WIDTH && 0 <= y < CHUNK_HEIGHT
}

/// Where the cell `(x, y)` sits in a grid: column by column, bottom up.
pub open spec fn cell_index(x: int, y: int) -> int {
    x * CHUNK_HEIGHT + y
}

/// `b` with its light level replaced by `v`.
pub open spec fn with_light(b: Block, v: u8) -> Block {
    Block {
        id: b.id,
        is_solid: b.is_solid,
        durability: b.durability,
        drop_item: b.drop_item,
        light_emission: b.light_emission,
        light: v,
    }
}

pub proof fn lemma_cell_index(x: int, y: int)
    requires
        in_chunk(x, y),
    ensures
        0 <= cell_index(x, y) < CHUNK_CELLS,
{
}

/// A grid of a chunk: the right number of well-formed cells.
pub open spec fn grid_wf(g: Seq<Block>) -> bool {
    &&& g.len() == CHUNK_CELLS
    &&& forall|i: int| 0 <= i < g.len() ==> (#[trigger] g[i]).wf()
}

pub struct Chunk {
    position: i32,
    data: Vec<Block>,
    background_data: Vec<Block>,
}

/// A grid of air cells.
fn air_grid() -> (r: Vec<Block>)
    ensures
        r@.len() == CHUNK_CELLS,
        forall|i: int| 0 <= i < CHUNK_CELLS ==> #[trigger] r@[i] == air(),
{
    let mut v: Vec<Block> = Vec::new();
    let mut i: usize = 0;
    while i < CHUNK_CELLS
        invariant
            i <= CHUNK_CELLS,
            v@.len() == i,
            forall|j: int| 0 <= j < i ==> #[trigger] v@[j] == air(),
        decreases CHUNK_CELLS - i,
    {
        v.push(Block::air());
        i = i + 1;
    }
    v
}

/// A copy of a grid.
fn copy_grid(g: &Vec<Block>) -> (r: Vec<Block>)
    ensures
        r@ == g@,
{
    let mut v: Vec<Block> = Vec::new();
    let mut i: usize = 0;
    while i < g.len()
        invariant
            i <= g@.len(),
            v@ == g@.subrange(0, i as int),
        decreases g@.len() - i,
    {
        v.push(g[i]);
        i = i + 1;
        assert(v@ =~= g@.subrange(0, i as int));
    }
    assert(v@ =~= g@);
    v
}

impl Chunk {
    /// The column index of this strip.
    pub closed spec fn column(&self) -> i32 {
        self.position
    }

    /// The column index of this strip.
    pub fn position(&self) -> (r: i32)
        ensures
            r == self.column(),
    {
        self.position
    }

    /// The cells of one layer, column by column.
    pub closed spec fn cells(&self, layer: BlockLayer) -> Seq<Block> {
        match layer {
            BlockLayer::Foreground => self.data@,
            BlockLayer::Background => self.background_data@,
        }
    }

    /// The cell `(x, y)` of a layer.
    pub open spec fn cell(&self, layer: BlockLayer, x: int, y: int) -> Block {
        self.cells(layer)[cell_index(x, y)]
    }

    /// Both grids are well formed, and each cell holds one light level in
    /// both layers.
    pub open spec fn wf(&self) -> bool {
        &&& grid_wf(self.cells(BlockLayer::Foreground))
        &&& grid_wf(self.cells(BlockLayer::Background))
        &&& forall|i: int|
            0 <= i < CHUNK_CELLS ==> (#[trigger] self.cells(BlockLayer::Foreground)[i]).light
                == self.cells(BlockLayer::Background)[i].light
    }

    /// Both layers are air everywhere.
    pub open spec fn is_all_air(&self) -> bool {
        forall|i: int|
            0 <= i < CHUNK_CELLS ==> #[trigger] self.cells(BlockLayer::Foreground)[i] == air()
                && self.cells(BlockLayer::Background)[i] == air()
    }

    /// A chunk of air at column `x`.
    pub fn new(x: i32) -> (r: Chunk)
        ensures
            r.wf(),
            r.column() == x,
            r.is_all_air(),
    {
        Chunk { position: x, data: air_grid(), background_data: air_grid() }
    }

    /// The stand-in for a neighbour that does not exist: all air, at the
    /// sentinel column `i32::MAX`. It holds no light.
    pub fn placeholder() -> (r: Chunk)
        ensures
            r.wf(),
            r.column() == i32::MAX,
            r.is_all_air(),
    {
        Chunk::new(i32::MAX)
    }

    /// A copy of the chunk, both grids and position.
    pub fn snapshot(&self) -> (r: Chunk)
        ensures
            r.column() == self.column(),
            r.cells(BlockLayer::Foreground) == self.cells(BlockLayer::Foreground),
            r.cells(BlockLayer::Background) == self.cells(BlockLayer::Background),
    {
        Chunk {
            position: self.position,
            data: copy_grid(&self.data),
            background_data: copy_grid(&self.background_data),
        }
    }

    /// The cell `(x, y)` of a layer.
    pub fn block(&self, x: usize, y: usize, layer: BlockLayer) -> (r: Block)
        requires
            self.wf(),
            x < CHUNK_WIDTH,
            y < CHUNK_HEIGHT,
        ensures
            r == self.cell(layer, x as int, y as int),
            r.wf(),
    {
        let i = x * CHUNK_HEIGHT + y;
        match layer {
            BlockLayer::Foreground => self.data[i],
            BlockLayer::Background => self.background_data[i],
        }
    }

    /// Writes `b` into the cell `(x, y)` of a layer, keeping the light the
    /// cell holds (light is only ever set by the flood fills); nothing else
    /// changes.
    pub fn set_block(&mut self, x: usize, y: usize, layer: BlockLayer, b: Block)
        requires
            old(self).wf(),
            x < CHUNK_WIDTH,
            y < CHUNK_HEIGHT,
            b.wf(),
        ensures
            final(self).wf(),
            final(self).column() == old(self).column(),
            final(self).cells(layer) == old(self).cells(layer).update(
                cell_index(x as int, y as int),
                with_light(b, old(self).cell(layer, x as int, y as int).light),
            ),
            forall|l: BlockLayer|
                l != layer ==> #[trigger] final(self).cells(l) == old(self).cells(l),
    {
        let i = x * CHUNK_HEIGHT + y;
        let mut nb = b;
        match layer {
            BlockLayer::Foreground => {
                nb.light = self.data[i].light;
                self.data.set(i, nb);
            },
            BlockLayer::Background => {
                nb.light = self.background_data[i].light;
                self.background_data.set(i, nb);
            },
        }
        proof {
            assert forall|j: int| 0 <= j < CHUNK_CELLS implies (#[trigger] self.cells(
                BlockLayer::Foreground,
            )[j]).light == self.cells(BlockLayer::Background)[j].light by {
                assert(old(self).cells(BlockLayer::Foreground)[j].light == old(self).cells(
                    BlockLayer::Background,
                )[j].light);
            }
        }
    }

    /// Sets the light of the cell `(x, y)` in both layers to `v`.
    pub fn set_light(&mut self, x: usize, y: usize, v: u8)
        requires
            old(self).wf(),
            x < CHUNK_WIDTH,
            y < CHUNK_HEIGHT,
            v <= MAX_LIGHT_LEVEL,
        ensures
            final(self).wf(),
            final(self).column() == old(self).column(),
            forall|l: BlockLayer|
                #[trigger] final(self).cells(l) == old(self).cells(l).update(
                    cell_index(x as int, y as int),
                    with_light(old(self).cell(l, x as int, y as int), v),
                ),
    {
        let i = x * CHUNK_HEIGHT + y;
        let mut f = self.data[i];
        f.light = v;
        self.data.set(i, f);
        let mut b = self.background_data[i];
        b.light = v;
        self.background_data.set(i, b);
        proof {
            assert forall|j: int| 0 <= j < CHUNK_CELLS implies (#[trigger] self.cells(
                BlockLayer::Foreground,
            )[j]).light == self.cells(BlockLayer::Background)[j].light by {
                assert(old(self).cells(BlockLayer::Foreground)[j].light == old(self).cells(
                    BlockLayer::Background,
                )[j].light);
            }
            assert forall|l: BlockLayer|
                #[trigger] self.cells(l) == old(self).cells(l).update(
                    cell_index(x as int, y as int),
                    with_light(old(self).cell(l, x as int, y as int), v),
                ) by {
                match l {
                    BlockLayer::Foreground => {
                        assert(self.cells(l) =~= old(self).cells(l).update(i as int, f));
                    },
                    BlockLayer::Background => {
                        assert(self.cells(l) =~= old(self).cells(l).update(i as int, b));
                    },
                }
            }
        }
    }
}

} // verus!
