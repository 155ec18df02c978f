//! The world: a sparse map from column index to chunk, and the render
//! handle that the renderer keeps for each drawn column.

use std::collections::HashMap;

use vstd::prelude::*;

use crate::block::{Block, BlockDatabase, BlockLayer, WorldError};
use crate::block_structure::BlockStructure;
use crate::stamp::{stamp_into, stamp_writes, stamped, touches};
use crate::chunk::{cell_index, in_chunk, with_light, Chunk};
use crate::light::{update_jobs, LightJob, LightUpdateQueue};
use crate::{BLOCK_SIZE_PX, CHUNK_HEIGHT, CHUNK_WIDTH};

verus! {

broadcast use vstd::std_specs::hash::group_hash_axioms;

/// `a` divided by `b`, rounded towards negative infinity.
pub open spec fn floor_div(a: int, b: int) -> int {
    a / b
}

/// Where a world position falls: its column, and the cell inside that
/// column's chunk.
pub struct CellPosition {
    pub column: i32,
    pub x: usize,
    pub y: usize,
}

/// The column that the world coordinate `px` falls in.
pub open spec fn spec_column(px: int) -> int {
    floor_div(floor_div(px, BLOCK_SIZE_PX as int), CHUNK_WIDTH as int)
}

/// The column and local cell that the world position `(px, py)` (in world
/// units, `BLOCK_SIZE_PX` per cell) falls in, if it is inside the world's
/// height and the column fits an `i32`.
pub open spec fn spec_resolve(px: int, py: int) -> Option<(int, int, int)> {
    let cx = floor_div(px, BLOCK_SIZE_PX as int);
    let cy = floor_div(py, BLOCK_SIZE_PX as int);
    let column = floor_div(cx, CHUNK_WIDTH as int);
    if 0 <= cy < CHUNK_HEIGHT && i32::MIN <= column <= i32::MAX {
        Some((column, cx - column * CHUNK_WIDTH, cy))
    } else {
        None
    }
}

/// `a / b` rounded down, for a positive `b`.
fn div_floor(a: i64, b: i64) -> (r: i64)
    requires
        b > 0,
    ensures
        r == floor_div(a as int, b as int),
{
    if a >= 0 {
        a / b
    } else {
        let m: i64 = -(a + 1);
        let q: i64 = m / b;
        proof {
            let aa = a as int;
            let bb = b as int;
            let qq = q as int;
            assert(m as int == qq * bb + (m as int) % bb) by (nonlinear_arith)
                requires
                    m as int >= 0,
                    bb > 0,
                    qq == (m as int) / bb,
            ;
            assert(0 <= (m as int) % bb < bb);
            assert(aa == (-qq - 1) * bb + (bb - 1 - (m as int) % bb)) by (nonlinear_arith)
                requires
                    m as int == -(aa + 1),
                    m as int == qq * bb + (m as int) % bb,
            ;
            vstd::arithmetic::div_mod::lemma_fundamental_div_mod_converse(
                aa,
                bb,
                -qq - 1,
                bb - 1 - (m as int) % bb,
            );
        }
        -q - 1
    }
}

/// The column and local cell of the world position `(px, py)`; `None` when
/// it is above or below the world, or its column does not fit an `i32`.
pub fn resolve_position(px: i64, py: i64) -> (r: Option<CellPosition>)
    ensures
        match spec_resolve(px as int, py as int) {
            Some(t) => r matches Some(p) && p.column == t.0 && p.x == t.1 && p.y == t.2
                && in_chunk(p.x as int, p.y as int),
            None => r is None,
        },
{
    let cx = div_floor(px, BLOCK_SIZE_PX);
    let cy = div_floor(py, BLOCK_SIZE_PX);
    let column = div_floor(cx, CHUNK_WIDTH as i64);
    proof {
        let w = CHUNK_WIDTH as int;
        assert((column as int) * w <= (cx as int) && (cx as int) < (column as int) * w + w) by {
            vstd::arithmetic::div_mod::lemma_fundamental_div_mod(cx as int, w);
            vstd::arithmetic::div_mod::lemma_mod_bound(cx as int, w);
        }
    }
    if 0 <= cy && cy < CHUNK_HEIGHT as i64 && i32::MIN as i64 <= column && column <= i32::MAX as i64 {
        let x = cx - column * (CHUNK_WIDTH as i64);
        Some(CellPosition { column: column as i32, x: x as usize, y: cy as usize })
    } else {
        None
    }
}

/// A request to write one cell.
pub struct SetBlock {
    pub block: Block,
    /// World position, in world units.
    pub position: (i64, i64),
    pub layer: BlockLayer,
    /// Whether an occupied (non-air) cell may be replaced.
    pub can_overwrite: bool,
}

/// A request to the item-pickup collaborator: spawn `drop_item` at the
/// world position `(x, y)`.
#[derive(Clone, Copy, Debug, PartialEq, Eq, Structural)]
pub struct SpawnItemPickup {
    pub drop_item: u32,
    pub x: i64,
    pub y: i64,
}

/// `js` queued `n` times over.
pub open spec fn repeat_jobs(js: Seq<LightJob>, n: nat) -> Seq<LightJob>
    decreases n,
{
    if n == 0 {
        Seq::empty()
    } else {
        repeat_jobs(js, (n - 1) as nat) + js
    }
}

/// The centre of the cell that the world coordinate `p` falls in.
pub open spec fn cell_center(p: int) -> int {
    floor_div(p, BLOCK_SIZE_PX as int) * BLOCK_SIZE_PX + BLOCK_SIZE_PX / 2
}

/// `b` is `a` with the cell `(x, y)` of `layer` replaced by `blk`.
pub open spec fn placed(a: Chunk, b: Chunk, layer: BlockLayer, x: int, y: int, blk: Block) -> bool {
    &&& b.wf()
    &&& b.column() == a.column()
    &&& b.cells(layer) == a.cells(layer).update(cell_index(x, y), blk)
    &&& forall|l: BlockLayer| l != layer ==> #[trigger] b.cells(l) == a.cells(l)
}

/// What breaking a cell hands to the item-pickup collaborator: the drop of
/// the foreground block that air replaced, at the cell's centre.
pub open spec fn pickup_for(ev: SetBlock, prev: Block) -> Option<SpawnItemPickup> {
    if ev.block.id == 0 && prev.id != 0 && ev.layer == BlockLayer::Foreground {
        Some(
            SpawnItemPickup {
                drop_item: prev.drop_item,
                x: cell_center(ev.position.0 as int) as i64,
                y: cell_center(ev.position.1 as int) as i64,
            },
        )
    } else {
        None
    }
}

pub struct World {
    chunks: HashMap<i32, Chunk>,
    chunk_entities: HashMap<i32, u64>,
}

impl World {
    /// The generated chunks, by column.
    pub closed spec fn chunks(&self) -> Map<i32, Chunk> {
        self.chunks@
    }

    /// The renderer's handle for each drawn column.
    pub closed spec fn handles(&self) -> Map<i32, u64> {
        self.chunk_entities@
    }

    /// Every chunk is well formed and stored under its own column.
    pub open spec fn wf(&self) -> bool {
        forall|k: i32| #[trigger]
            self.chunks().contains_key(k) ==> self.chunks()[k].wf() && self.chunks()[k].column()
                == k
    }

    /// The column `x + d` exists (and fits an `i32`).
    pub open spec fn has_column(&self, x: int) -> bool {
        i32::MIN <= x <= i32::MAX && self.chunks().contains_key(x as i32)
    }

    /// An empty world.
    pub fn new() -> (r: World)
        ensures
            r.wf(),
            r.chunks() == Map::<i32, Chunk>::empty(),
            r.handles() == Map::<i32, u64>::empty(),
    {
        World { chunks: HashMap::new(), chunk_entities: HashMap::new() }
    }

    /// Whether column `x` has been generated.
    pub fn has_chunk(&self, x: i32) -> (r: bool)
        ensures
            r == self.chunks().contains_key(x),
    {
        self.chunks.contains_key(&x)
    }

    /// The chunk of column `x`, if generated.
    pub fn get_chunk(&self, x: i32) -> (r: Option<&Chunk>)
        ensures
            match r {
                Some(c) => self.chunks().contains_key(x) && *c == self.chunks()[x],
                None => !self.chunks().contains_key(x),
            },
    {
        self.chunks.get(&x)
    }

    /// Takes the chunk of column `x` out of the world.
    pub(crate) fn take_chunk(&mut self, x: i32) -> (r: Option<Chunk>)
        ensures
            final(self).chunks() == old(self).chunks().remove(x),
            final(self).handles() == old(self).handles(),
            match r {
                Some(c) => old(self).chunks().contains_key(x) && c == old(self).chunks()[x],
                None => !old(self).chunks().contains_key(x),
            },
    {
        self.chunks.remove(&x)
    }

    /// Stores `c` as the chunk of its column, replacing any chunk there.
    pub fn insert_chunk(&mut self, c: Chunk)
        requires
            old(self).wf(),
            c.wf(),
        ensures
            final(self).wf(),
            final(self).chunks() == old(self).chunks().insert(c.column(), c),
            final(self).handles() == old(self).handles(),
    {
        let x = c.position();
        self.chunks.insert(x, c);
        proof {
            assert forall|k: i32| #[trigger] self.chunks().contains_key(k) implies self.chunks()[k].wf()
                && self.chunks()[k].column() == k by {
                if k != x {
                    assert(old(self).chunks().contains_key(k));
                }
            }
        }
    }

    /// The cell of `layer` at the world position `(px, py)`; `None` when the
    /// position is outside the world's height or its column is not generated.
    pub fn get_block(&self, px: i64, py: i64, layer: BlockLayer) -> (r: Option<Block>)
        requires
            self.wf(),
        ensures
            match spec_resolve(px as int, py as int) {
                Some(t) => if self.chunks().contains_key(t.0 as i32) {
                    r == Some(self.chunks()[t.0 as i32].cell(layer, t.1, t.2))
                } else {
                    r is None
                },
                None => r is None,
            },
    {
        let p = match resolve_position(px, py) {
            Some(p) => p,
            None => return None,
        };
        match self.chunks.get(&p.column) {
            Some(c) => {
                assert(self.chunks().contains_key(p.column));
                Some(c.block(p.x, p.y, layer))
            },
            None => None,
        }
    }

    /// The renderer's handle for column `x`, if it has one.
    pub fn render_handle(&self, x: i32) -> (r: Option<u64>)
        ensures
            match r {
                Some(h) => self.handles().contains_key(x) && h == self.handles()[x],
                None => !self.handles().contains_key(x),
            },
    {
        match self.chunk_entities.get(&x) {
            Some(h) => Some(*h),
            None => None,
        }
    }

    /// Records `handle` as column `x`'s render object and hands back the one
    /// it replaces, which the renderer then discards.
    pub fn replace_render_handle(&mut self, x: i32, handle: u64) -> (r: Option<u64>)
        ensures
            final(self).handles() == old(self).handles().insert(x, handle),
            final(self).chunks() == old(self).chunks(),
            match r {
                Some(h) => old(self).handles().contains_key(x) && h == old(self).handles()[x],
                None => !old(self).handles().contains_key(x),
            },
    {
        self.chunk_entities.insert(x, handle)
    }

    /// Writes `ev.block`, with the light the cell already holds, into the
    /// cell at `ev.position`, then queues the
    /// light jobs for its column. Declines, changing nothing, when the
    /// position's column is not generated (`OutOfWorld` if it lies beyond
    /// the `i32` columns), when it is above or below the world, or when the
    /// cell is occupied and `ev.can_overwrite` is false.
    /// Breaking a foreground block (writing air over it) hands back a pickup
    /// request for its drop.
    pub fn set_block(&mut self, queue: &mut LightUpdateQueue, ev: &SetBlock) -> (r: Result<
        Option<SpawnItemPickup>,
        WorldError,
    >)
        requires
            old(self).wf(),
            ev.block.wf(),
        ensures
            final(self).wf(),
            final(self).handles() == old(self).handles(),
            ({
                let column = spec_column(ev.position.0 as int);
                let col = column as i32;
                if !(i32::MIN <= column <= i32::MAX) {
                    &&& r == Err::<Option<SpawnItemPickup>, WorldError>(WorldError::OutOfWorld)
                    &&& final(self).chunks() == old(self).chunks()
                    &&& final(queue).jobs() == old(queue).jobs()
                } else if !old(self).chunks().contains_key(col) {
                    &&& r == Err::<Option<SpawnItemPickup>, WorldError>(
                        WorldError::ChunkNotLoaded(col),
                    )
                    &&& final(self).chunks() == old(self).chunks()
                    &&& final(queue).jobs() == old(queue).jobs()
                } else {
                    match spec_resolve(ev.position.0 as int, ev.position.1 as int) {
                        None => {
                            &&& r == Err::<Option<SpawnItemPickup>, WorldError>(WorldError::OutOfWorld)
                            &&& final(self).chunks() == old(self).chunks()
                            &&& final(queue).jobs() == old(queue).jobs()
                        },
                        Some(t) => {
                        let prev = old(self).chunks()[col].cell(ev.layer, t.1, t.2);
                        if !ev.can_overwrite && prev.id != 0 {
                            &&& r == Err::<Option<SpawnItemPickup>, WorldError>(
                                WorldError::PlacementRejected,
                            )
                            &&& final(self).chunks() == old(self).chunks()
                            &&& final(queue).jobs() == old(queue).jobs()
                        } else {
                            &&& r == Ok::<Option<SpawnItemPickup>, WorldError>(
                                pickup_for(*ev, prev),
                            )
                            &&& final(self).chunks().dom() == old(self).chunks().dom()
                            &&& final(self).chunks() == old(self).chunks().insert(
                                col,
                                final(self).chunks()[col],
                            )
                            &&& placed(
                                old(self).chunks()[col],
                                final(self).chunks()[col],
                                ev.layer,
                                t.1,
                                t.2,
                                with_light(ev.block, prev.light),
                            )
                            &&& final(queue).jobs() == old(queue).jobs() + update_jobs(
                                *old(self),
                                col,
                            )
                        }
                        },
                    }
                }
            }),
    {
        let column = div_floor(div_floor(ev.position.0, BLOCK_SIZE_PX), CHUNK_WIDTH as i64);
        if column < i32::MIN as i64 || column > i32::MAX as i64 {
            return Err(WorldError::OutOfWorld);
        }
        if !self.has_chunk(column as i32) {
            return Err(WorldError::ChunkNotLoaded(column as i32));
        }
        let p = match resolve_position(ev.position.0, ev.position.1) {
            Some(p) => p,
            None => return Err(WorldError::OutOfWorld),
        };
        assert(p.column == column);
        let ghost w0 = *self;
        assert(w0.chunks().contains_key(p.column));
        let prev = self.get_chunk(p.column).unwrap().block(p.x, p.y, ev.layer);
        if !ev.can_overwrite && prev.id != 0 {
            return Err(WorldError::PlacementRejected);
        }
        let mut c = self.take_chunk(p.column).unwrap();
        c.set_block(p.x, p.y, ev.layer, ev.block);
        self.insert_chunk(c);
        proof {
            assert(self.chunks() =~= w0.chunks().insert(p.column, self.chunks()[p.column]));
            assert(self.chunks().dom() =~= w0.chunks().dom());
            assert(update_jobs(*self, p.column) == update_jobs(w0, p.column));
        }
        queue.push_light_updates(self, p.column);
        if ev.block.id == 0 && prev.id != 0 && matches!(ev.layer, BlockLayer::Foreground) {
            let cx = p.column as i64 * CHUNK_WIDTH as i64 + p.x as i64;
            let cy = p.y as i64;
            proof {
                assert(cx == floor_div(ev.position.0 as int, BLOCK_SIZE_PX as int));
                assert(cy == floor_div(ev.position.1 as int, BLOCK_SIZE_PX as int));
            }
            Ok(
                Some(
                    SpawnItemPickup {
                        drop_item: prev.drop_item,
                        x: cx * BLOCK_SIZE_PX + BLOCK_SIZE_PX / 2,
                        y: cy * BLOCK_SIZE_PX + BLOCK_SIZE_PX / 2,
                    },
                ),
            )
        } else {
            Ok(None)
        }
    }

    /// Stamps `s` with its base-left corner at cell `(ax, ay)` of column
    /// `column`. Pattern cells past the right edge go into column
    /// `column + 1` when it exists and are dropped when it does not; cells
    /// above the world are dropped. The neighbour's light jobs are queued
    /// once for each cell written into it; the anchor column's jobs are left
    /// to the caller. Fails, changing nothing, when the anchor column is
    /// missing.
    pub fn stamp_structure(
        &mut self,
        queue: &mut LightUpdateQueue,
        catalog: &BlockDatabase,
        s: &BlockStructure,
        column: i32,
        ax: usize,
        ay: usize,
    ) -> (r: Result<(), WorldError>)
        requires
            old(self).wf(),
            catalog.wf(),
            s.wf(),
            s.known_by(*catalog),
            ax < CHUNK_WIDTH,
            ay < CHUNK_HEIGHT,
        ensures
            final(self).wf(),
            final(self).handles() == old(self).handles(),
            !old(self).chunks().contains_key(column) ==> {
                &&& r == Err::<(), WorldError>(WorldError::ChunkNotLoaded(column))
                &&& final(self).chunks() == old(self).chunks()
                &&& final(queue).jobs() == old(queue).jobs()
            },
            old(self).chunks().contains_key(column) ==> {
                let nx = column + 1;
                let has_next = old(self).has_column(nx);
                &&& r is Ok
                &&& final(self).chunks().dom() == old(self).chunks().dom()
                &&& stamped(
                    *s,
                    *catalog,
                    old(self).chunks()[column],
                    final(self).chunks()[column],
                    ax as int,
                    ay as int,
                )
                &&& has_next ==> stamped(
                    *s,
                    *catalog,
                    old(self).chunks()[nx as i32],
                    final(self).chunks()[nx as i32],
                    ax - CHUNK_WIDTH,
                    ay as int,
                )
                &&& forall|k: i32|
                    k != column && k != nx && #[trigger] old(self).chunks().contains_key(k)
                        ==> final(self).chunks()[k] == old(self).chunks()[k]
                &&& final(queue).jobs() == old(queue).jobs() + if has_next {
                    repeat_jobs(update_jobs(*old(self), nx as i32), stamp_writes(*s, ax - CHUNK_WIDTH, ay as int))
                } else {
                    Seq::empty()
                }
                &&& has_next ==> (stamp_writes(*s, ax - CHUNK_WIDTH, ay as int) > 0 <==> touches(
                    *s,
                    ax - CHUNK_WIDTH,
                    ay as int,
                ))
            },
    {
        if !self.has_chunk(column) {
            return Err(WorldError::ChunkNotLoaded(column));
        }
        let ghost w0 = *self;
        assert(w0.chunks().contains_key(column));
        let mut c = self.take_chunk(column).unwrap();
        stamp_into(&mut c, catalog, s, ax as i64, ay as i64);
        self.insert_chunk(c);
        let ghost w1 = *self;
        proof {
            assert(w1.chunks() =~= w0.chunks().insert(column, w1.chunks()[column]));
            assert(w1.chunks().dom() =~= w0.chunks().dom());
        }
        if column < i32::MAX && self.has_chunk(column + 1) {
            let nx = column + 1;
            assert(w1.chunks().contains_key(nx));
            let mut n = self.take_chunk(nx).unwrap();
            let writes = stamp_into(&mut n, catalog, s, ax as i64 - CHUNK_WIDTH as i64, ay as i64);
            self.insert_chunk(n);
            proof {
                assert(self.chunks() =~= w1.chunks().insert(nx, self.chunks()[nx]));
                assert(self.chunks().dom() =~= w0.chunks().dom());
                assert(update_jobs(*self, nx) == update_jobs(w0, nx));
            }
            let mut k: usize = 0;
            assert(queue.jobs() =~= old(queue).jobs() + repeat_jobs(update_jobs(w0, nx), 0));
            while k < writes
                invariant
                    k <= writes,
                    update_jobs(*self, nx) == update_jobs(w0, nx),
                    queue.jobs() == old(queue).jobs() + repeat_jobs(update_jobs(w0, nx), k as nat),
                decreases writes - k,
            {
                queue.push_light_updates(self, nx);
                k = k + 1;
                proof {
                    assert(queue.jobs() =~= old(queue).jobs() + repeat_jobs(update_jobs(w0, nx), k as nat));
                }
            }
        } else {
            assert(queue.jobs() =~= old(queue).jobs() + Seq::empty());
        }
        Ok(())
    }
}

} // verus!
