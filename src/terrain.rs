//! Terrain generation: the per-cell rule that turns noise samples into dirt,
//! stone, caves and grass, and the trees planted on the surface.
//!
//! The noise itself is sampled outside the library; a chunk's samples come
//! in as integers (see `TerrainNoise`).

use std::hash::{DefaultHasher, Hasher};

use rand::rngs::StdRng;
use rand::{Rng, SeedableRng};
use vstd::prelude::*;
use vstd::std_specs::hash::DefaultHasherAdditionalSpecFns;

use crate::block::{BlockDatabase, BlockLayer, DIRT, GRASS, STONE, TALL_GRASS};
use crate::block_structure::{tree_row, BlockStructure};
use crate::light::{same_content, update_jobs, LightUpdateQueue};
use crate::world::World;
use crate::chunk::{cell_index, in_chunk, Chunk, CHUNK_CELLS};
use crate::stamp::{stamped, stamped_cell, touches};
use crate::{CHUNK_HEIGHT, CHUNK_WIDTH};

verus! {

/// Density (in thousandths) above which near-surface cells hold soil.
pub const SHALLOW_THRESHOLD: i32 = -900;

/// Density (in thousandths) above which deep cells hold soil.
pub const DEEP_THRESHOLD: i32 = -100;

/// Cave density (in thousandths) above which the surface cell is grass.
pub const GRASS_THRESHOLD: i32 = -800;

/// Trees stand on every column whose local index is a multiple of this.
pub const TREE_SPACING: usize = 9;

/// Fewest trunk cells of a tree.
pub const TREE_LOGS_MIN: u32 = 2;

/// One more than the most trunk cells of a tree.
pub const TREE_LOGS_END: u32 = 6;

/// The numeric seed that `hash_seed` derives from the bytes `text`.
pub open spec fn spec_hash_seed(text: Seq<u8>) -> u32 {
    DefaultHasher::spec_finish(seq![text]) as u32
}

/// Derives the numeric world seed from its text form.
pub fn hash_seed(text: &[u8]) -> (r: u32)
    ensures
        r == spec_hash_seed(text@),
{
    let mut hasher = DefaultHasher::new();
    hasher.write(text);
    proof {
        assert(hasher@ =~= seq![text@]);
    }
    hasher.finish() as u32
}

/// The value that `rand`'s standard generator, seeded with `seed`, draws
/// first from `low..high`.
pub uninterp spec fn drawn_in_range(seed: u64, low: u32, high: u32) -> u32;

/// Relies on rand's `StdRng::seed_from_u64` and `Rng::gen_range`: the
/// generator is deterministic for a given seed, and `gen_range` returns a
/// value of the (non-empty) range.
#[verifier::external_body]
fn draw_in_range(seed: u64, low: u32, high: u32) -> (r: u32)
    requires
        low < high,
    ensures
        r == drawn_in_range(seed, low, high),
        low <= r < high,
{
    StdRng::seed_from_u64(seed).gen_range(low..high)
}

/// The seed of the tree whose trunk column is the world column `wx`.
pub open spec fn tree_seed(seed: u32, wx: int) -> u64 {
    (seed as int * 0x1_0000_0000 + wx) as u64
}

/// Trunk length of the tree at world column `wx`.
pub open spec fn tree_logs(seed: u32, wx: int) -> u32 {
    drawn_in_range(tree_seed(seed, wx), TREE_LOGS_MIN, TREE_LOGS_END)
}

/// Noise samples of one chunk, as integers.
pub struct TerrainNoise {
    /// For each local column, the surface offset from mid-height: the summed
    /// surface octaves, rounded down.
    pub surface: Vec<i32>,
    /// For each cell (`x * CHUNK_HEIGHT + y`), the cave density in
    /// thousandths, rounded up.
    pub cave: Vec<i32>,
    /// For each cell, the material density in thousandths, rounded up.
    pub material: Vec<i32>,
}

impl TerrainNoise {
    pub open spec fn wf(&self) -> bool {
        &&& self.surface@.len() == CHUNK_WIDTH
        &&& self.cave@.len() == CHUNK_CELLS
        &&& self.material@.len() == CHUNK_CELLS
    }
}

/// Height of the surface of local column `x`.
pub open spec fn surface_height(n: TerrainNoise, x: int) -> int {
    n.surface@[x] + CHUNK_HEIGHT / 2
}

/// The density a cell must exceed to hold soil: lower (so soil is more
/// common) in the upper two thirds below the surface `h`.
pub open spec fn density_threshold(y: int, h: int) -> int {
    if 3 * y > h {
        SHALLOW_THRESHOLD as int
    } else {
        DEEP_THRESHOLD as int
    }
}

/// Local column `x` has grass on its surface.
pub open spec fn has_grass(n: TerrainNoise, x: int) -> bool {
    let h = surface_height(n, x);
    0 <= h < CHUNK_HEIGHT && n.cave@[cell_index(x, h)] > GRASS_THRESHOLD
}

/// Tall grass grows on every other pair of columns.
pub open spec fn decorated(x: int) -> bool {
    (x / 2) % 2 == 0
}

/// Foreground and background ids of cell `(x, y)` before trees are planted.
pub open spec fn terrain_ids(n: TerrainNoise, x: int, y: int) -> (u32, u32) {
    let h = surface_height(n, x);
    let c = n.cave@[cell_index(x, y)];
    let m = n.material@[cell_index(x, y)];
    if y < h {
        let t = density_threshold(y, h);
        let soil = if m > t {
            DIRT
        } else {
            STONE
        };
        (
            if c > t {
                soil
            } else {
                0
            },
            soil,
        )
    } else if y == h && c > GRASS_THRESHOLD {
        (GRASS, DIRT)
    } else if y == h + 1 && has_grass(n, x) && decorated(x) {
        (TALL_GRASS, 0)
    } else {
        (0, 0)
    }
}

/// The catalog knows every id that terrain generation writes.
pub open spec fn supports_terrain(catalog: BlockDatabase) -> bool {
    catalog.knows(TALL_GRASS)
}

/// Whether the catalog knows every id that terrain generation writes.
pub fn supports_terrain_exec(catalog: &BlockDatabase) -> (r: bool)
    ensures
        r == supports_terrain(*catalog),
{
    catalog.len() >= TALL_GRASS as usize
}

pub proof fn lemma_index_coords(x: int, y: int)
    requires
        in_chunk(x, y),
    ensures
        cell_index(x, y) / (CHUNK_HEIGHT as int) == x,
        cell_index(x, y) % (CHUNK_HEIGHT as int) == y,
{
    vstd::arithmetic::div_mod::lemma_fundamental_div_mod_converse(
        cell_index(x, y),
        CHUNK_HEIGHT as int,
        x,
        y,
    );
}

/// Foreground and background ids of cell `(x, y)`.
fn terrain_cell(n: &TerrainNoise, x: usize, y: usize) -> (r: (u32, u32))
    requires
        n.wf(),
        x < CHUNK_WIDTH,
        y < CHUNK_HEIGHT,
    ensures
        r == terrain_ids(*n, x as int, y as int),
{
    let h: i64 = n.surface[x] as i64 + (CHUNK_HEIGHT / 2) as i64;
    let yy = y as i64;
    let c = n.cave[x * CHUNK_HEIGHT + y];
    let m = n.material[x * CHUNK_HEIGHT + y];
    if yy < h {
        let t = if 3 * yy > h {
            SHALLOW_THRESHOLD
        } else {
            DEEP_THRESHOLD
        };
        let soil = if m > t {
            DIRT
        } else {
            STONE
        };
        if c > t {
            (soil, soil)
        } else {
            (0, soil)
        }
    } else if yy == h && c > GRASS_THRESHOLD {
        (GRASS, DIRT)
    } else if yy == h + 1 && y >= 1 && (x / 2) % 2 == 0 && n.cave[x * CHUNK_HEIGHT + (y - 1)]
        > GRASS_THRESHOLD {
        (TALL_GRASS, 0)
    } else {
        (0, 0)
    }
}

/// Column `column`'s chunk before trees are planted.
#[verifier::spinoff_prover]
pub fn generate_terrain(catalog: &BlockDatabase, column: i32, n: &TerrainNoise) -> (r: Chunk)
    requires
        catalog.wf(),
        supports_terrain(*catalog),
        n.wf(),
    ensures
        r.wf(),
        r.column() == column,
        forall|x: int, y: int|
            in_chunk(x, y) ==> #[trigger] r.cell(BlockLayer::Foreground, x, y) == catalog.spec_block(
                terrain_ids(*n, x, y).0,
            ) && r.cell(BlockLayer::Background, x, y) == catalog.spec_block(
                terrain_ids(*n, x, y).1,
            ),
{
    let mut c = Chunk::new(column);
    let mut i: usize = 0;
    while i < CHUNK_CELLS
        invariant
            i <= CHUNK_CELLS,
            c.wf(),
            c.column() == column,
            catalog.wf(),
            supports_terrain(*catalog),
            n.wf(),
            forall|j: int|
                0 <= j < i ==> #[trigger] c.cells(BlockLayer::Foreground)[j] == catalog.spec_block(
                    terrain_ids(*n, j / CHUNK_HEIGHT as int, j % CHUNK_HEIGHT as int).0,
                ) && c.cells(BlockLayer::Background)[j] == catalog.spec_block(
                    terrain_ids(*n, j / CHUNK_HEIGHT as int, j % CHUNK_HEIGHT as int).1,
                ),
            forall|j: int|
                i <= j < CHUNK_CELLS ==> (#[trigger] c.cells(BlockLayer::Foreground)[j]).light == 0
                    && c.cells(BlockLayer::Background)[j].light == 0,
        decreases CHUNK_CELLS - i,
    {
        let x = i / CHUNK_HEIGHT;
        let y = i % CHUNK_HEIGHT;
        proof {
            vstd::arithmetic::div_mod::lemma_fundamental_div_mod(i as int, CHUNK_HEIGHT as int);
        }
        let (f, b) = terrain_cell(n, x, y);
        let fb = catalog.get_by_id(f).unwrap();
        let bb = catalog.get_by_id(b).unwrap();
        let ghost c0 = c;
        c.set_block(x, y, BlockLayer::Foreground, fb);
        c.set_block(x, y, BlockLayer::Background, bb);
        proof {
            assert(fb.light == 0 && bb.light == 0);
            assert(c.cells(BlockLayer::Foreground)[i as int] == fb);
            assert(c.cells(BlockLayer::Background)[i as int] == bb);
            assert forall|j: int| i + 1 <= j < CHUNK_CELLS implies (#[trigger] c.cells(
                BlockLayer::Foreground,
            )[j]).light == 0 && c.cells(BlockLayer::Background)[j].light == 0 by {
                assert(c0.cells(BlockLayer::Foreground)[j] == c.cells(BlockLayer::Foreground)[j]);
                assert(c0.cells(BlockLayer::Background)[j] == c.cells(BlockLayer::Background)[j]);
            }
            assert forall|j: int| 0 <= j < i + 1 implies #[trigger] c.cells(
                BlockLayer::Foreground,
            )[j] == catalog.spec_block(
                terrain_ids(*n, j / CHUNK_HEIGHT as int, j % CHUNK_HEIGHT as int).0,
            ) && c.cells(BlockLayer::Background)[j] == catalog.spec_block(
                terrain_ids(*n, j / CHUNK_HEIGHT as int, j % CHUNK_HEIGHT as int).1,
            ) by {
                if j < i {
                    assert(c0.cells(BlockLayer::Foreground)[j] == c.cells(BlockLayer::Foreground)[j]);
                }
            }
        }
        i = i + 1;
    }
    proof {
        assert forall|x: int, y: int| in_chunk(x, y) implies #[trigger] c.cell(
            BlockLayer::Foreground,
            x,
            y,
        ) == catalog.spec_block(terrain_ids(*n, x, y).0) && c.cell(BlockLayer::Background, x, y)
            == catalog.spec_block(terrain_ids(*n, x, y).1) by {
            lemma_index_coords(x, y);
            assert(c.cells(BlockLayer::Foreground)[cell_index(x, y)] == catalog.spec_block(
                terrain_ids(*n, x, y).0,
            ));
        }
    }
    c
}


/// Foreground and background ids of cell `(x, y)` of column `column`, trees
/// planted: a tree stands on each grassy column whose local index is a
/// multiple of `TREE_SPACING`, its trunk length drawn from the seed and
/// its world column.
pub open spec fn generated_ids(n: TerrainNoise, seed: u32, column: i32, x: int, y: int) -> (u32, u32) {
    let tx = x - x % (TREE_SPACING as int);
    let logs = tree_logs(seed, column * CHUNK_WIDTH + tx);
    let i = x - tx;
    let j = y - surface_height(n, tx);
    if has_grass(n, tx) && i < 5 && 0 <= j < logs + 4 && tree_row(logs as nat, j)[i] != 0 {
        (tree_row(logs as nat, j)[i], 0)
    } else {
        terrain_ids(n, x, y)
    }
}

/// `c` is the chunk that generation makes for column `column`.
pub open spec fn is_generated(
    c: Chunk,
    catalog: BlockDatabase,
    seed: u32,
    column: i32,
    n: TerrainNoise,
) -> bool {
    &&& c.wf()
    &&& c.column() == column
    &&& forall|x: int, y: int|
        in_chunk(x, y) ==> #[trigger] c.cell(BlockLayer::Foreground, x, y) == catalog.spec_block(
            generated_ids(n, seed, column, x, y).0,
        ) && c.cell(BlockLayer::Background, x, y) == catalog.spec_block(
            generated_ids(n, seed, column, x, y).1,
        )
}

proof fn lemma_anchor(x1: int)
    requires
        x1 >= 0,
    ensures
        (x1 - x1 % (TREE_SPACING as int)) % (TREE_SPACING as int) == 0,
        0 <= x1 % (TREE_SPACING as int) < TREE_SPACING,
{
    let q = x1 / (TREE_SPACING as int);
    vstd::arithmetic::div_mod::lemma_fundamental_div_mod(x1, TREE_SPACING as int);
    vstd::arithmetic::div_mod::lemma_fundamental_div_mod_converse(
        x1 - x1 % (TREE_SPACING as int),
        TREE_SPACING as int,
        q,
        0,
    );
}

proof fn lemma_anchor_of(ax: int, x1: int)
    requires
        ax >= 0,
        ax % (TREE_SPACING as int) == 0,
        0 <= x1 - ax < TREE_SPACING,
    ensures
        x1 - x1 % (TREE_SPACING as int) == ax,
{
    vstd::arithmetic::div_mod::lemma_fundamental_div_mod(ax, TREE_SPACING as int);
    vstd::arithmetic::div_mod::lemma_fundamental_div_mod_converse(
        x1,
        TREE_SPACING as int,
        ax / (TREE_SPACING as int),
        x1 - ax,
    );
}

/// Whether local column `x` has grass on its surface.
fn grass_at(n: &TerrainNoise, x: usize) -> (r: bool)
    requires
        n.wf(),
        x < CHUNK_WIDTH,
    ensures
        r == has_grass(*n, x as int),
{
    let h: i64 = n.surface[x] as i64 + (CHUNK_HEIGHT / 2) as i64;
    0 <= h && h < CHUNK_HEIGHT as i64 && n.cave[x * CHUNK_HEIGHT + h as usize] > GRASS_THRESHOLD
}

/// Cell `(x, y)` of `c` holds the generated ids where the tree column it
/// belongs to is left of `upto`, and the bare terrain ids elsewhere.
pub open spec fn partial_generated(
    c: Chunk,
    catalog: BlockDatabase,
    seed: u32,
    column: i32,
    n: TerrainNoise,
    upto: int,
) -> bool {
    forall|x1: int, y1: int|
        in_chunk(x1, y1) ==> {
            let ids = if x1 - x1 % (TREE_SPACING as int) < upto {
                generated_ids(n, seed, column, x1, y1)
            } else {
                terrain_ids(n, x1, y1)
            };
            &&& #[trigger] c.cell(BlockLayer::Foreground, x1, y1) == catalog.spec_block(ids.0)
            &&& c.cell(BlockLayer::Background, x1, y1) == catalog.spec_block(ids.1)
        }
}

proof fn lemma_skip_column(
    c: Chunk,
    catalog: BlockDatabase,
    seed: u32,
    column: i32,
    n: TerrainNoise,
    x: int,
)
    requires
        0 <= x < CHUNK_WIDTH,
        partial_generated(c, catalog, seed, column, n, x),
        !(x % (TREE_SPACING as int) == 0 && has_grass(n, x)),
    ensures
        partial_generated(c, catalog, seed, column, n, x + 1),
{
    assert forall|x1: int, y1: int| in_chunk(x1, y1) implies {
        let ids = if x1 - x1 % (TREE_SPACING as int) < x + 1 {
            generated_ids(n, seed, column, x1, y1)
        } else {
            terrain_ids(n, x1, y1)
        };
        &&& #[trigger] c.cell(BlockLayer::Foreground, x1, y1) == catalog.spec_block(ids.0)
        &&& c.cell(BlockLayer::Background, x1, y1) == catalog.spec_block(ids.1)
    } by {
        lemma_anchor(x1);
        let tx = x1 - x1 % (TREE_SPACING as int);
        let ids0 = if tx < x {
            generated_ids(n, seed, column, x1, y1)
        } else {
            terrain_ids(n, x1, y1)
        };
        assert(c.cell(BlockLayer::Foreground, x1, y1) == catalog.spec_block(ids0.0));
        assert(c.cell(BlockLayer::Background, x1, y1) == catalog.spec_block(ids0.1));
        if tx == x {
            assert(!has_grass(n, tx));
            assert(generated_ids(n, seed, column, x1, y1) == terrain_ids(n, x1, y1));
        }
    }
}

proof fn lemma_plant_tree(
    cb: Chunk,
    ca: Chunk,
    tree: BlockStructure,
    catalog: BlockDatabase,
    seed: u32,
    column: i32,
    n: TerrainNoise,
    x: int,
    logs: u32,
)
    requires
        0 <= x < CHUNK_WIDTH,
        x % (TREE_SPACING as int) == 0,
        has_grass(n, x),
        logs == tree_logs(seed, column * CHUNK_WIDTH + x),
        tree.wf(),
        tree.spec_height() == logs + 4,
        tree.spec_width() == 5,
        forall|j: int| 0 <= j < logs + 4 ==> #[trigger] tree.fg_rows()[j] == tree_row(logs as nat, j),
        forall|j: int| 0 <= j < logs + 4 ==> #[trigger] tree.bg_rows()[j] == seq![0u32, 0, 0, 0, 0],
        !tree.fill_air,
        partial_generated(cb, catalog, seed, column, n, x),
        stamped(tree, catalog, cb, ca, x, surface_height(n, x)),
    ensures
        partial_generated(ca, catalog, seed, column, n, x + 1),
{
    let ay = surface_height(n, x);
    assert forall|x1: int, y1: int| in_chunk(x1, y1) implies {
        let ids = if x1 - x1 % (TREE_SPACING as int) < x + 1 {
            generated_ids(n, seed, column, x1, y1)
        } else {
            terrain_ids(n, x1, y1)
        };
        &&& #[trigger] ca.cell(BlockLayer::Foreground, x1, y1) == catalog.spec_block(ids.0)
        &&& ca.cell(BlockLayer::Background, x1, y1) == catalog.spec_block(ids.1)
    } by {
        lemma_anchor(x1);
        assert(cb.cell(BlockLayer::Foreground, x1, y1) == cb.cell(BlockLayer::Foreground, x1, y1));
        assert(ca.cell(BlockLayer::Foreground, x1, y1) == stamped_cell(
            tree,
            catalog,
            cb,
            x,
            ay,
            BlockLayer::Foreground,
            x1,
            y1,
        ));
        assert(ca.cell(BlockLayer::Background, x1, y1) == stamped_cell(
            tree,
            catalog,
            cb,
            x,
            ay,
            BlockLayer::Background,
            x1,
            y1,
        ));
        if 0 <= x1 - x < 5 {
            lemma_anchor_of(x, x1);
            if 0 <= y1 - ay < logs + 4 {
                assert(tree.fg_rows()[y1 - ay] == tree_row(logs as nat, y1 - ay));
                assert(tree.bg_rows()[y1 - ay] == seq![0u32, 0, 0, 0, 0]);
            }
        } else {
            assert(!tree.covers(x, ay, x1, y1));
        }
    }
}

/// A chunk that no pattern cell of `tree` lands in, stamped at `(ax, ay)`,
/// keeps its cells.
proof fn lemma_untouched(
    tree: BlockStructure,
    catalog: BlockDatabase,
    a: Chunk,
    b: Chunk,
    ax: int,
    ay: int,
)
    requires
        a.wf(),
        stamped(tree, catalog, a, b, ax, ay),
        !touches(tree, ax, ay),
    ensures
        same_content(b, a),
{
    assert forall|i: int| 0 <= i < CHUNK_CELLS implies a.cells(BlockLayer::Foreground)[i]
        == b.cells(BlockLayer::Foreground)[i] && a.cells(BlockLayer::Background)[i]
        == b.cells(BlockLayer::Background)[i] by {
        let x1 = i / CHUNK_HEIGHT as int;
        let y1 = i % CHUNK_HEIGHT as int;
        vstd::arithmetic::div_mod::lemma_fundamental_div_mod(i, CHUNK_HEIGHT as int);
        assert(!tree.covers(ax, ay, x1, y1));
        assert(b.cell(BlockLayer::Foreground, x1, y1) == a.cell(BlockLayer::Foreground, x1, y1));
        assert(b.cell(BlockLayer::Background, x1, y1) == a.cell(BlockLayer::Background, x1, y1));
    }
    assert(a.cells(BlockLayer::Foreground) =~= b.cells(BlockLayer::Foreground));
    assert(a.cells(BlockLayer::Background) =~= b.cells(BlockLayer::Background));
}

/// Generates column `column` from its noise samples and inserts it into
/// the world (replacing any chunk there): the terrain rule for every cell,
/// then the trees, stamped in order of their columns. Then queues the
/// column's light jobs.
pub fn generate_chunk_data(
    world: &mut World,
    queue: &mut LightUpdateQueue,
    catalog: &BlockDatabase,
    column: i32,
    seed: u32,
    n: &TerrainNoise,
)
    requires
        old(world).wf(),
        catalog.wf(),
        supports_terrain(*catalog),
        n.wf(),
    ensures
        final(world).wf(),
        final(world).handles() == old(world).handles(),
        final(world).chunks().dom() == old(world).chunks().dom().insert(column),
        is_generated(final(world).chunks()[column], *catalog, seed, column, *n),
        forall|k: i32|
            k != column && k != column + 1 && #[trigger] old(world).chunks().contains_key(k)
                ==> final(world).chunks()[k] == old(world).chunks()[k],
        old(world).has_column(column + 1) ==> same_content(
            final(world).chunks()[(column + 1) as i32],
            old(world).chunks()[(column + 1) as i32],
        ),
        final(queue).jobs() == old(queue).jobs() + update_jobs(*final(world), column),
        forall|x: int|
            0 <= x < CHUNK_WIDTH && x % (TREE_SPACING as int) == 0 && #[trigger] has_grass(*n, x)
                ==> TREE_LOGS_MIN <= tree_logs(seed, column * CHUNK_WIDTH + x) < TREE_LOGS_END,
{
    let ghost w0 = *world;
    let ghost nx = column + 1;
    let c = generate_terrain(catalog, column, n);
    world.insert_chunk(c);
    proof {
        if w0.has_column(nx) {
            assert(w0.chunks().contains_key(nx as i32));
            assert(same_content(world.chunks()[nx as i32], w0.chunks()[nx as i32]));
        }
        assert(world.chunks()[column] == c);
    }
    let mut x: usize = 0;
    while x < CHUNK_WIDTH
        invariant
            x <= CHUNK_WIDTH,
            world.wf(),
            catalog.wf(),
            supports_terrain(*catalog),
            n.wf(),
            nx == column + 1,
            world.handles() == w0.handles(),
            world.chunks().dom() == w0.chunks().dom().insert(column),
            forall|k: i32|
                k != column && k != nx && #[trigger] w0.chunks().contains_key(k)
                    ==> world.chunks()[k] == w0.chunks()[k],
            w0.has_column(nx) ==> same_content(
                world.chunks()[nx as i32],
                w0.chunks()[nx as i32],
            ),
            world.chunks()[column].column() == column,
            partial_generated(world.chunks()[column], *catalog, seed, column, *n, x as int),
            queue.jobs() == old(queue).jobs(),
            forall|x1: int|
                0 <= x1 < x && x1 % (TREE_SPACING as int) == 0 && #[trigger] has_grass(*n, x1)
                    ==> TREE_LOGS_MIN <= tree_logs(seed, column * CHUNK_WIDTH + x1) < TREE_LOGS_END,
        decreases CHUNK_WIDTH - x,
    {
        if x % TREE_SPACING == 0 && grass_at(n, x) {
            let h = (n.surface[x] as i64 + (CHUNK_HEIGHT / 2) as i64) as usize;
            let wx: i64 = column as i64 * CHUNK_WIDTH as i64 + x as i64;
            let tree_seed_value = #[verifier::truncate] (((seed as i128) * 0x1_0000_0000 + wx as i128) as u64);
            assert(tree_seed_value == tree_seed(seed, column * CHUNK_WIDTH + x));
            let logs = draw_in_range(tree_seed_value, TREE_LOGS_MIN, TREE_LOGS_END);
            let tree = BlockStructure::new_tree(logs);
            proof {
                assert(tree.known_by(*catalog)) by {
                    assert forall|j: int, i: int|
                        0 <= j < tree.spec_height() && 0 <= i < tree.spec_width() implies catalog.knows(
                            #[trigger] tree.fg_rows()[j][i],
                        ) && catalog.knows(tree.bg_rows()[j][i]) by {
                        assert(tree.fg_rows()[j] == tree_row(logs as nat, j));
                        assert(tree.bg_rows()[j] == seq![0u32, 0, 0, 0, 0]);
                    }
                }
            }
            let ghost wb = *world;
            let _ = world.stamp_structure(queue, catalog, &tree, column, x, h);
            proof {
                assert(wb.chunks().contains_key(column));
                let ax = x as int;
                assert(ax <= 27);
                assert(!touches(tree, ax - CHUNK_WIDTH, h as int));
                if w0.has_column(nx) {
                    assert(wb.chunks().contains_key(nx as i32));
                    lemma_untouched(
                        tree,
                        *catalog,
                        wb.chunks()[nx as i32],
                        world.chunks()[nx as i32],
                        ax - CHUNK_WIDTH,
                        h as int,
                    );
                }
                assert(queue.jobs() =~= old(queue).jobs());
                assert forall|k: i32|
                    k != column && k != nx && #[trigger] w0.chunks().contains_key(k) implies world.chunks()[k]
                        == w0.chunks()[k] by {
                    assert(wb.chunks().contains_key(k));
                }
                lemma_plant_tree(
                    wb.chunks()[column],
                    world.chunks()[column],
                    tree,
                    *catalog,
                    seed,
                    column,
                    *n,
                    x as int,
                    logs,
                );
            }
        } else {
            proof {
                lemma_skip_column(world.chunks()[column], *catalog, seed, column, *n, x as int);
            }
        }
        x = x + 1;
    }
    proof {
        assert(world.chunks().dom() =~= w0.chunks().dom().insert(column));
        assert(world.chunks().contains_key(column));
        let c = world.chunks()[column];
        assert forall|x1: int, y1: int| in_chunk(x1, y1) implies #[trigger] c.cell(
            BlockLayer::Foreground,
            x1,
            y1,
        ) == catalog.spec_block(generated_ids(*n, seed, column, x1, y1).0) && c.cell(
            BlockLayer::Background,
            x1,
            y1,
        ) == catalog.spec_block(generated_ids(*n, seed, column, x1, y1).1) by {
            lemma_anchor(x1);
            assert(c.cell(BlockLayer::Foreground, x1, y1) == catalog.spec_block(
                generated_ids(*n, seed, column, x1, y1).0,
            ));
            assert(c.cell(BlockLayer::Background, x1, y1) == catalog.spec_block(
                generated_ids(*n, seed, column, x1, y1).1,
            ));
        }
    }
    queue.push_light_updates(world, column);
}


/// Generation is deterministic: two chunks generated for the same column
/// from the same catalog, seed and noise samples hold the same cells.
pub proof fn lemma_generation_deterministic(
    c1: Chunk,
    c2: Chunk,
    catalog: BlockDatabase,
    seed: u32,
    column: i32,
    n: TerrainNoise,
)
    requires
        is_generated(c1, catalog, seed, column, n),
        is_generated(c2, catalog, seed, column, n),
    ensures
        same_content(c1, c2),
{
    assert forall|i: int| 0 <= i < CHUNK_CELLS implies c1.cells(BlockLayer::Foreground)[i]
        == c2.cells(BlockLayer::Foreground)[i] && c1.cells(BlockLayer::Background)[i]
        == c2.cells(BlockLayer::Background)[i] by {
        let x1 = i / CHUNK_HEIGHT as int;
        let y1 = i % CHUNK_HEIGHT as int;
        vstd::arithmetic::div_mod::lemma_fundamental_div_mod(i, CHUNK_HEIGHT as int);
        assert(c1.cell(BlockLayer::Foreground, x1, y1) == c2.cell(BlockLayer::Foreground, x1, y1));
        assert(c1.cell(BlockLayer::Background, x1, y1) == c2.cell(BlockLayer::Background, x1, y1));
    }
    assert(c1.cells(BlockLayer::Foreground) =~= c2.cells(BlockLayer::Foreground));
    assert(c1.cells(BlockLayer::Background) =~= c2.cells(BlockLayer::Background));
}

} // verus!
