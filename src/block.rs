//! Block values, layers and the id → block catalog.

use vstd::prelude::*;

verus! {

/// Brightest light level a cell can hold.
pub const MAX_LIGHT_LEVEL: u8 = 15;

/// Catalog id of dirt.
pub const DIRT: u32 = 1;

/// Catalog id of grass.
pub const GRASS: u32 = 2;

/// Catalog id of stone.
pub const STONE: u32 = 3;

/// Catalog id of a tree log.
pub const LOG: u32 = 4;

/// Catalog id of leaves.
pub const LEAVES: u32 = 5;

/// Catalog id of the tall grass that decorates the surface.
pub const TALL_GRASS: u32 = 6;

/// Which of the two grids of a chunk a cell belongs to.
#[derive(Clone, Copy, Debug, PartialEq, Eq, Structural)]
pub enum BlockLayer {
    Background,
    Foreground,
}

/// One cell of the world.
#[derive(Clone, Copy, Debug, PartialEq, Eq, Structural)]
pub struct Block {
    pub id: u32,
    pub is_solid: bool,
    pub durability: u8,
    pub drop_item: u32,
    pub light_emission: u8,
    pub light: u8,
}

/// The canonical empty cell.
pub open spec fn air() -> Block {
    Block { id: 0, is_solid: false, durability: 0, drop_item: 0, light_emission: 0, light: 0 }
}

impl Block {
    /// The canonical empty cell: not solid, no durability, drop or light.
    pub fn air() -> (r: Block)
        ensures
            r == air(),
    {
        Block { id: 0, is_solid: false, durability: 0, drop_item: 0, light_emission: 0, light: 0 }
    }

    /// Light and emission stay within the light range.
    pub open spec fn wf(&self) -> bool {
        &&& self.light <= MAX_LIGHT_LEVEL
        &&& self.light_emission <= MAX_LIGHT_LEVEL
    }
}

/// The authored properties of one catalog entry.
#[derive(Clone, Copy, Debug, PartialEq, Eq, Structural)]
pub struct BlockData {
    pub is_solid: bool,
    pub durability: u8,
    pub drop_item: u32,
    pub light_emission: u8,
}

/// Why an operation on the world was declined.
#[derive(Clone, Copy, Debug, PartialEq, Eq, Structural)]
pub enum WorldError {
    /// The id has no entry in the catalog.
    UnknownBlockId(u32),
    /// A catalog entry (by id) declares an emission above the light range.
    EmissionOutOfRange(u32),
    /// The position is above or below the world.
    OutOfWorld,
    /// The column has not been generated.
    ChunkNotLoaded(i32),
    /// The target cell is occupied and overwriting was not allowed.
    PlacementRejected,
}

/// The id → block table. Id 0 is air and is not stored: entry `k` of the
/// table describes id `k + 1`.
pub struct BlockDatabase {
    blocks: Vec<BlockData>,
}

/// The block that a catalog entry describes, with its light cleared.
pub open spec fn block_of(id: u32, d: BlockData) -> Block {
    Block {
        id,
        is_solid: d.is_solid,
        durability: d.durability,
        drop_item: d.drop_item,
        light_emission: d.light_emission,
        light: 0,
    }
}

impl BlockDatabase {
    pub closed spec fn entries(&self) -> Seq<BlockData> {
        self.blocks@
    }

    /// Every entry emits within the light range.
    pub open spec fn wf(&self) -> bool {
        forall|k: int| 0 <= k < self.entries().len() ==> #[trigger] self.entries()[k].light_emission
            <= MAX_LIGHT_LEVEL
    }

    /// The catalog has an entry for `id` (air is always known).
    pub open spec fn knows(&self, id: u32) -> bool {
        id as int <= self.entries().len()
    }

    /// The block that `lookup(id)` hands out for a known id.
    pub open spec fn spec_block(&self, id: u32) -> Block {
        if id == 0 {
            air()
        } else {
            block_of(id, self.entries()[id - 1])
        }
    }

    /// Builds the catalog from its entries, entry `k` for id `k + 1`.
    /// Fails, naming the first offending id, if an entry emits above the
    /// light range.
    pub fn new(blocks: Vec<BlockData>) -> (r: Result<BlockDatabase, WorldError>)
        requires
            blocks@.len() < u32::MAX,
        ensures
            match r {
                Ok(db) => db.entries() == blocks@ && db.wf(),
                Err(e) => exists|k: int|
                    0 <= k < blocks@.len() && blocks@[k].light_emission > MAX_LIGHT_LEVEL
                        && e == WorldError::EmissionOutOfRange((k + 1) as u32)
                        && forall|j: int| 0 <= j < k ==> blocks@[j].light_emission <= MAX_LIGHT_LEVEL,
            },
            r is Err <==> exists|k: int|
                0 <= k < blocks@.len() && blocks@[k].light_emission > MAX_LIGHT_LEVEL,
    {
        let mut k: usize = 0;
        while k < blocks.len()
            invariant
                k <= blocks@.len(),
                blocks@.len() < u32::MAX,
                forall|j: int| 0 <= j < k ==> blocks@[j].light_emission <= MAX_LIGHT_LEVEL,
            decreases blocks@.len() - k,
        {
            if blocks[k].light_emission > MAX_LIGHT_LEVEL {
                return Err(WorldError::EmissionOutOfRange((k + 1) as u32));
            }
            k = k + 1;
        }
        Ok(BlockDatabase { blocks })
    }

    /// Number of ids besides air that the catalog knows.
    pub fn len(&self) -> (r: usize)
        ensures
            r == self.entries().len(),
    {
        self.blocks.len()
    }

    /// The block for `id`, light cleared; air for id 0.
    pub fn get_by_id(&self, id: u32) -> (r: Result<Block, WorldError>)
        requires
            self.wf(),
        ensures
            self.knows(id) ==> r == Ok::<Block, WorldError>(self.spec_block(id)),
            !self.knows(id) ==> r == Err::<Block, WorldError>(WorldError::UnknownBlockId(id)),
            r matches Ok(b) ==> b.wf(),
    {
        if id == 0 {
            return Ok(Block::air());
        }
        if id as usize > self.blocks.len() {
            return Err(WorldError::UnknownBlockId(id));
        }
        let d = self.blocks[(id - 1) as usize];
        Ok(Block {
            id,
            is_solid: d.is_solid,
            durability: d.durability,
            drop_item: d.drop_item,
            light_emission: d.light_emission,
            light: 0,
        })
    }
}

} // verus!
