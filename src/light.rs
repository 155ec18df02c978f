//! The light engine: the job queue, the two kinds of recompute (from
//! scratch, and across the borders), and one tick of work.

use std::collections::VecDeque;

use vstd::prelude::*;

use crate::block::{Block, BlockLayer, MAX_LIGHT_LEVEL};
use crate::chunk::{cell_index, in_chunk, with_light, Chunk, CHUNK_CELLS};
use crate::flood::{
    block_flooded, flood_block, flood_sun, item_ok, items_lit, items_ok, lemma_items_lit_mono,
    lemma_light_mono, lemma_raised_mono, lemma_raised_refl, lemma_raised_trans, light_at, raised,
    raised_at, raised_from, sun_flooded, try_raise, LightItem,
};
use crate::world::World;
use crate::{CHUNK_HEIGHT, CHUNK_WIDTH};

verus! {

/// Whether a job recomputes a chunk from scratch or only pulls light in
/// across its borders.
#[derive(Clone, Copy, Debug, PartialEq, Eq, Structural)]
pub enum LightPhase {
    Internal,
    Border,
}

#[derive(Clone, Copy, Debug, PartialEq, Eq, Structural)]
pub struct LightJob {
    pub target: i32,
    pub phase: LightPhase,
}

/// The jobs of one phase that a change at column `x` raises: `x` itself,
/// then `x - 1` and `x + 1` where those columns exist.
pub open spec fn phase_jobs(w: World, x: i32, phase: LightPhase) -> Seq<LightJob> {
    seq![LightJob { target: x, phase }] + (if w.has_column(x - 1) {
        seq![LightJob { target: (x - 1) as i32, phase }]
    } else {
        Seq::empty()
    }) + (if w.has_column(x + 1) {
        seq![LightJob { target: (x + 1) as i32, phase }]
    } else {
        Seq::empty()
    })
}

/// All jobs that a change at column `x` raises, internal ones first.
pub open spec fn update_jobs(w: World, x: i32) -> Seq<LightJob> {
    phase_jobs(w, x, LightPhase::Internal) + phase_jobs(w, x, LightPhase::Border)
}

/// First in, first out queue of light jobs. Duplicates are kept.
pub struct LightUpdateQueue {
    jobs: VecDeque<LightJob>,
}

impl LightUpdateQueue {
    pub closed spec fn jobs(&self) -> Seq<LightJob> {
        self.jobs@
    }

    pub fn new() -> (r: LightUpdateQueue)
        ensures
            r.jobs() == Seq::<LightJob>::empty(),
    {
        LightUpdateQueue { jobs: VecDeque::new() }
    }

    pub fn len(&self) -> (r: usize)
        ensures
            r == self.jobs().len(),
    {
        self.jobs.len()
    }

    fn push_phase(&mut self, world: &World, x: i32, phase: LightPhase)
        ensures
            final(self).jobs() == old(self).jobs() + phase_jobs(*world, x, phase),
    {
        self.jobs.push_back(LightJob { target: x, phase });
        if x > i32::MIN && world.has_chunk(x - 1) {
            self.jobs.push_back(LightJob { target: x - 1, phase });
        }
        if x < i32::MAX && world.has_chunk(x + 1) {
            self.jobs.push_back(LightJob { target: x + 1, phase });
        }
        proof {
            assert(self.jobs() =~= old(self).jobs() + phase_jobs(*world, x, phase));
        }
    }

    /// Queues the jobs that a change at column `x` raises, in order:
    /// internal jobs for `x`, `x - 1`, `x + 1`, then border jobs for the
    /// same columns, neighbours only where they exist.
    pub fn push_light_updates(&mut self, world: &World, x: i32)
        ensures
            final(self).jobs() == old(self).jobs() + update_jobs(*world, x),
    {
        self.push_phase(world, x, LightPhase::Internal);
        self.push_phase(world, x, LightPhase::Border);
        proof {
            assert(self.jobs() =~= old(self).jobs() + update_jobs(*world, x));
        }
    }

    /// Takes the oldest job.
    pub fn pop(&mut self) -> (r: Option<LightJob>)
        ensures
            match r {
                Some(j) => old(self).jobs().len() > 0 && j == old(self).jobs()[0]
                    && final(self).jobs() == old(self).jobs().drop_first(),
                None => old(self).jobs().len() == 0 && final(self).jobs() == old(self).jobs(),
            },
    {
        let r = self.jobs.pop_front();
        proof {
            if r is Some {
                assert(self.jobs() =~= old(self).jobs().drop_first());
            }
        }
        r
    }
}


/// The light level each cell starts an internal recompute with: full sun
/// on the top row, the cell's own emission elsewhere.
pub open spec fn seed_light(b: Block, y: int) -> u8 {
    if y == CHUNK_HEIGHT - 1 {
        MAX_LIGHT_LEVEL
    } else {
        b.light_emission
    }
}

/// `s` is `a` reset for a recompute: every cell, in both layers, holds its
/// seed light and nothing else changed.
pub open spec fn reset_from(a: Chunk, s: Chunk) -> bool {
    &&& s.wf()
    &&& s.column() == a.column()
    &&& forall|i: int|
        0 <= i < CHUNK_CELLS ==> {
            &&& #[trigger] s.cells(BlockLayer::Foreground)[i] == with_light(
                a.cells(BlockLayer::Foreground)[i],
                seed_light(a.cells(BlockLayer::Foreground)[i], i % CHUNK_HEIGHT as int),
            )
            &&& s.cells(BlockLayer::Background)[i] == with_light(
                a.cells(BlockLayer::Background)[i],
                seed_light(a.cells(BlockLayer::Foreground)[i], i % CHUNK_HEIGHT as int),
            )
        }
}

/// Some item lies in column `x`.
pub open spec fn seeds_column(w: Seq<LightItem>, x: int) -> bool {
    exists|k: int| 0 <= k < w.len() && (#[trigger] w[k]).0 == x
}

/// The items are the cells of the top row at full sun, each column present.
pub open spec fn sun_seeds(w: Seq<LightItem>) -> bool {
    &&& forall|k: int| 0 <= k < w.len() ==> (#[trigger] w[k]).1 == CHUNK_HEIGHT - 1 && w[k].2 == MAX_LIGHT_LEVEL
    &&& forall|x: int| 0 <= x < CHUNK_WIDTH ==> #[trigger] seeds_column(w, x)
}

/// The items are the emitting cells of `a`, each with its emission, every
/// emitting cell present.
pub open spec fn emission_seeds(a: Chunk, w: Seq<LightItem>) -> bool {
    &&& forall|k: int|
        0 <= k < w.len() ==> (#[trigger] w[k]).2 == a.cell(BlockLayer::Foreground, w[k].0 as int, w[k].1 as int).light_emission
            && w[k].2 > 0
    &&& forall|x: int, y: int|
        in_chunk(x, y) && #[trigger] a.cell(BlockLayer::Foreground, x, y).light_emission > 0 ==> exists|k: int|
            0 <= k < w.len() && (#[trigger] w[k]).0 == x && w[k].1 == y
}

/// `b` is `a` with its light recomputed from scratch: every cell is reset
/// to its seed light, sun light is flooded from the whole top row, then
/// block light from every emitting cell. Both layers agree, every cell holds
/// at least its emission, and the top row holds full sun.
pub open spec fn internal_relit(a: Chunk, b: Chunk) -> bool {
    &&& b.wf()
    &&& b.column() == a.column()
    &&& forall|i: int|
        0 <= i < CHUNK_CELLS ==> {
            &&& #[trigger] b.cells(BlockLayer::Foreground)[i] == with_light(
                a.cells(BlockLayer::Foreground)[i],
                b.cells(BlockLayer::Foreground)[i].light,
            )
            &&& b.cells(BlockLayer::Background)[i] == with_light(
                a.cells(BlockLayer::Background)[i],
                b.cells(BlockLayer::Foreground)[i].light,
            )
            &&& b.cells(BlockLayer::Foreground)[i].light >= a.cells(
                BlockLayer::Foreground,
            )[i].light_emission
        }
    &&& forall|x: int|
        0 <= x < CHUNK_WIDTH ==> #[trigger] b.cell(
            BlockLayer::Foreground,
            x,
            CHUNK_HEIGHT - 1,
        ).light == MAX_LIGHT_LEVEL
    &&& exists|s: Chunk, t: Chunk, sun: Seq<LightItem>, blk: Seq<LightItem>|
        #![trigger sun_flooded(s, t, sun), block_flooded(t, b, blk)]
        reset_from(a, s) && sun_seeds(sun) && emission_seeds(a, blk) && sun_flooded(s, t, sun)
            && block_flooded(t, b, blk)
}

/// What a neighbour's edge pulls a border cell up to: one level less.
pub open spec fn bleed(edge: u8) -> int {
    if edge >= 1 {
        edge - 1
    } else {
        0
    }
}

/// An edge cell's light after the pull from a neighbour whose facing cell
/// holds `edge`: the brighter of its own and one level less than `edge`.
pub open spec fn pulled(own: int, edge: u8) -> int {
    if own >= bleed(edge) {
        own
    } else {
        bleed(edge)
    }
}

/// `m` is `a` with its edge cells pulled up by the neighbours' facing cells
/// (`left[y]`, `right[y]`) and nothing else changed; `seeds` holds exactly
/// the raised edge cells, each with its new level.
pub open spec fn edges_pulled(a: Chunk, m: Chunk, left: Seq<u8>, right: Seq<u8>, seeds: Seq<LightItem>) -> bool {
    &&& m.wf()
    &&& raised_from(a, m)
    &&& forall|y: int| 0 <= y < CHUNK_HEIGHT ==> #[trigger] light_at(m, 0, y) == pulled(light_at(a, 0, y), left[y])
    &&& forall|y: int|
        0 <= y < CHUNK_HEIGHT ==> #[trigger] light_at(m, CHUNK_WIDTH - 1, y) == pulled(
            light_at(a, CHUNK_WIDTH - 1, y),
            right[y],
        )
    &&& forall|x: int, y: int|
        in_chunk(x, y) && 0 < x < CHUNK_WIDTH - 1 ==> #[trigger] light_at(m, x, y) == light_at(a, x, y)
    &&& forall|k: int|
        0 <= k < seeds.len() ==> ((#[trigger] seeds[k]).0 == 0 || seeds[k].0 == CHUNK_WIDTH - 1)
            && seeds[k].2 == light_at(m, seeds[k].0 as int, seeds[k].1 as int) && raised(
            a,
            m,
            seeds[k].0 as int,
            seeds[k].1 as int,
        )
    &&& forall|x: int, y: int|
        in_chunk(x, y) && #[trigger] raised(a, m, x, y) ==> exists|k: int|
            0 <= k < seeds.len() && (#[trigger] seeds[k]).0 == x && seeds[k].1 == y
}

/// `b` is `a` after pulling in light across its borders: the edge cells are
/// pulled up by the neighbours' facing cells (`left[y]`, `right[y]`), then
/// block light floods from the edge cells that rose. Only raised; each edge
/// cell holds at least one level less than the facing cell.
pub open spec fn border_relit(a: Chunk, b: Chunk, left: Seq<u8>, right: Seq<u8>) -> bool {
    &&& b.wf()
    &&& raised_from(a, b)
    &&& exists|m: Chunk, seeds: Seq<LightItem>|
        #![trigger edges_pulled(a, m, left, right, seeds), block_flooded(m, b, seeds)]
        edges_pulled(a, m, left, right, seeds) && block_flooded(m, b, seeds)
    &&& forall|y: int|
        0 <= y < CHUNK_HEIGHT ==> #[trigger] b.cell(BlockLayer::Foreground, 0, y).light >= bleed(
            left[y],
        )
    &&& forall|y: int|
        0 <= y < CHUNK_HEIGHT ==> #[trigger] b.cell(
            BlockLayer::Foreground,
            CHUNK_WIDTH - 1,
            y,
        ).light >= bleed(right[y])
}

/// Recomputes the light of a chunk from scratch: every cell is reset to its
/// emission (the top row to full sun), then sun light and block light are
/// flooded from those seeds.
#[verifier::spinoff_prover]
pub fn relight_internal(c: &mut Chunk)
    requires
        old(c).wf(),
    ensures
        internal_relit(*old(c), *final(c)),
{
    let ghost start = *c;
    let mut sun_work: Vec<LightItem> = Vec::new();
    let mut block_work: Vec<LightItem> = Vec::new();
    let mut i: usize = 0;
    while i < CHUNK_CELLS
        invariant
            i <= CHUNK_CELLS,
            c.wf(),
            c.column() == start.column(),
            items_ok(sun_work@),
            items_ok(block_work@),
            forall|k: int|
                0 <= k < sun_work@.len() ==> (#[trigger] sun_work@[k]).1 == CHUNK_HEIGHT - 1
                    && sun_work@[k].2 == MAX_LIGHT_LEVEL,
            forall|x1: int|
                0 <= x1 < CHUNK_WIDTH && cell_index(x1, CHUNK_HEIGHT - 1) < i ==> #[trigger] seeds_column(
                    sun_work@,
                    x1,
                ),
            forall|j: int|
                0 <= j < i && (#[trigger] start.cells(BlockLayer::Foreground)[j]).light_emission > 0
                    ==> exists|k: int|
                    0 <= k < block_work@.len() && (#[trigger] block_work@[k]).0 == j / CHUNK_HEIGHT as int
                        && block_work@[k].1 == j % CHUNK_HEIGHT as int,
            forall|k: int|
                0 <= k < block_work@.len() ==> (#[trigger] block_work@[k]).2 == start.cell(
                    BlockLayer::Foreground,
                    block_work@[k].0 as int,
                    block_work@[k].1 as int,
                ).light_emission && block_work@[k].2 > 0,
            forall|j: int|
                0 <= j < i ==> {
                    &&& #[trigger] c.cells(BlockLayer::Foreground)[j] == with_light(
                        start.cells(BlockLayer::Foreground)[j],
                        seed_light(start.cells(BlockLayer::Foreground)[j], j % CHUNK_HEIGHT as int),
                    )
                    &&& c.cells(BlockLayer::Background)[j] == with_light(
                        start.cells(BlockLayer::Background)[j],
                        seed_light(start.cells(BlockLayer::Foreground)[j], j % CHUNK_HEIGHT as int),
                    )
                },
            forall|j: int|
                i <= j < CHUNK_CELLS ==> #[trigger] c.cells(BlockLayer::Foreground)[j]
                    == start.cells(BlockLayer::Foreground)[j] && c.cells(BlockLayer::Background)[j]
                    == start.cells(BlockLayer::Background)[j],
        decreases CHUNK_CELLS - i,
    {
        let x = i / CHUNK_HEIGHT;
        let y = i % CHUNK_HEIGHT;
        proof {
            vstd::arithmetic::div_mod::lemma_fundamental_div_mod(i as int, CHUNK_HEIGHT as int);
            assert(cell_index(x as int, y as int) == i);
        }
        let b = c.block(x, y, BlockLayer::Foreground);
        assert(b == start.cells(BlockLayer::Foreground)[i as int]);
        let ghost prev = *c;
        let ghost sw_prev = sun_work@;
        let ghost bw_prev = block_work@;
        if y == CHUNK_HEIGHT - 1 {
            c.set_light(x, y, MAX_LIGHT_LEVEL);
            sun_work.push((x, y, MAX_LIGHT_LEVEL));
        } else {
            c.set_light(x, y, b.light_emission);
        }
        if b.light_emission > 0 {
            block_work.push((x, y, b.light_emission));
        }
        proof {
            assert(items_ok(sun_work@)) by {
                assert forall|k: int| 0 <= k < sun_work@.len() implies item_ok(#[trigger] sun_work@[k]) by {}
            }
            assert(items_ok(block_work@)) by {
                assert forall|k: int| 0 <= k < block_work@.len() implies item_ok(#[trigger] block_work@[k]) by {}
            }
            assert forall|k: int| 0 <= k < block_work@.len() implies (#[trigger] block_work@[k]).2
                == start.cell(
                BlockLayer::Foreground,
                block_work@[k].0 as int,
                block_work@[k].1 as int,
            ).light_emission && block_work@[k].2 > 0 by {}
            let ghost sw0 = sun_work@;
            assert forall|x1: int|
                0 <= x1 < CHUNK_WIDTH && cell_index(x1, CHUNK_HEIGHT - 1) < i + 1 implies #[trigger] seeds_column(
                sun_work@,
                x1,
            ) by {
                if cell_index(x1, CHUNK_HEIGHT - 1) < i {
                    assert(seeds_column(sw_prev, x1));
                    let k = choose|k: int| 0 <= k < sw_prev.len() && (#[trigger] sw_prev[k]).0 == x1;
                    assert(sun_work@[k] == sw_prev[k]);
                } else {
                    crate::terrain::lemma_index_coords(x1, CHUNK_HEIGHT - 1);
                    assert(sun_work@[sun_work@.len() - 1].0 == x);
                }
            }
            assert forall|j: int|
                0 <= j < i + 1 && (#[trigger] start.cells(BlockLayer::Foreground)[j]).light_emission > 0
                    implies exists|k: int|
                    0 <= k < block_work@.len() && (#[trigger] block_work@[k]).0 == j / CHUNK_HEIGHT as int
                        && block_work@[k].1 == j % CHUNK_HEIGHT as int by {
                if j < i {
                    let k = choose|k: int|
                        0 <= k < bw_prev.len() && (#[trigger] bw_prev[k]).0 == j / CHUNK_HEIGHT as int
                            && bw_prev[k].1 == j % CHUNK_HEIGHT as int;
                    assert(block_work@[k] == bw_prev[k]);
                } else {
                    assert(block_work@[block_work@.len() - 1] == (x, y, b.light_emission));
                }
            }
        }
        let ghost i0 = i as int;
        i = i + 1;
        proof {
            assert forall|j: int| i <= j < CHUNK_CELLS implies #[trigger] c.cells(
                BlockLayer::Foreground,
            )[j] == start.cells(BlockLayer::Foreground)[j] && c.cells(BlockLayer::Background)[j]
                == start.cells(BlockLayer::Background)[j] by {
                assert(j != i0);
                assert(c.cells(BlockLayer::Foreground)[j] == prev.cells(BlockLayer::Foreground)[j]);
                assert(c.cells(BlockLayer::Background)[j] == prev.cells(BlockLayer::Background)[j]);
                assert(prev.cells(BlockLayer::Foreground)[j] == start.cells(BlockLayer::Foreground)[j]);
                assert(prev.cells(BlockLayer::Background)[j] == start.cells(BlockLayer::Background)[j]);
            }
        }
    }
    let ghost seeded = *c;
    proof {
        assert forall|k: int| 0 <= k < block_work@.len() implies light_at(
            seeded,
            (#[trigger] block_work@[k]).0 as int,
            block_work@[k].1 as int,
        ) >= block_work@[k].2 by {
            let (bx, by) = (block_work@[k].0 as int, block_work@[k].1 as int);
            assert(item_ok(block_work@[k]));
            crate::terrain::lemma_index_coords(bx, by);
            let j = cell_index(bx, by);
            assert(seeded.cells(BlockLayer::Foreground)[j] == with_light(
                start.cells(BlockLayer::Foreground)[j],
                seed_light(start.cells(BlockLayer::Foreground)[j], j % CHUNK_HEIGHT as int),
            ));
            assert(start.cells(BlockLayer::Foreground)[j].wf());
        }
    }
    proof {
        assert forall|k: int| 0 <= k < sun_work@.len() implies light_at(
            seeded,
            (#[trigger] sun_work@[k]).0 as int,
            sun_work@[k].1 as int,
        ) >= sun_work@[k].2 by {
            let (bx, by) = (sun_work@[k].0 as int, sun_work@[k].1 as int);
            assert(item_ok(sun_work@[k]));
            crate::terrain::lemma_index_coords(bx, by);
            let j = cell_index(bx, by);
            assert(seeded.cells(BlockLayer::Foreground)[j] == with_light(
                start.cells(BlockLayer::Foreground)[j],
                seed_light(start.cells(BlockLayer::Foreground)[j], j % CHUNK_HEIGHT as int),
            ));
        }
    }
    let ghost sun_seeds_init = sun_work@;
    flood_sun(c, &mut sun_work);
    let ghost sunlit = *c;
    proof {
        lemma_items_lit_mono(seeded, sunlit, block_work@);
    }
    let ghost blk_seeds = block_work@;
    flood_block(c, &mut block_work);
    proof {
        lemma_raised_trans(seeded, sunlit, *c);
        assert(reset_from(start, seeded));
        assert(sun_seeds(sun_seeds_init)) by {
            assert forall|x: int| 0 <= x < CHUNK_WIDTH implies #[trigger] seeds_column(sun_seeds_init, x) by {
                crate::chunk::lemma_cell_index(x, CHUNK_HEIGHT - 1);
            }
        }
        assert(emission_seeds(start, blk_seeds)) by {
            assert forall|x: int, y: int|
                in_chunk(x, y) && #[trigger] start.cell(BlockLayer::Foreground, x, y).light_emission > 0
                    implies exists|k: int|
                    0 <= k < blk_seeds.len() && (#[trigger] blk_seeds[k]).0 == x && blk_seeds[k].1 == y by {
                crate::terrain::lemma_index_coords(x, y);
                let j = cell_index(x, y);
                assert(start.cells(BlockLayer::Foreground)[j].light_emission > 0);
            }
        }
        assert(sun_flooded(seeded, sunlit, sun_seeds_init) && block_flooded(sunlit, *c, blk_seeds));
        assert forall|j: int| 0 <= j < CHUNK_CELLS implies {
            &&& #[trigger] c.cells(BlockLayer::Foreground)[j] == with_light(
                start.cells(BlockLayer::Foreground)[j],
                c.cells(BlockLayer::Foreground)[j].light,
            )
            &&& c.cells(BlockLayer::Background)[j] == with_light(
                start.cells(BlockLayer::Background)[j],
                c.cells(BlockLayer::Foreground)[j].light,
            )
            &&& c.cells(BlockLayer::Foreground)[j].light >= start.cells(
                BlockLayer::Foreground,
            )[j].light_emission
        } by {
            assert(raised_at(seeded, *c, j));
            assert(start.cells(BlockLayer::Foreground)[j].wf());
        }
        assert forall|x: int| 0 <= x < CHUNK_WIDTH implies #[trigger] c.cell(
            BlockLayer::Foreground,
            x,
            CHUNK_HEIGHT - 1,
        ).light == MAX_LIGHT_LEVEL by {
            let j = cell_index(x, CHUNK_HEIGHT - 1);
            assert(j % CHUNK_HEIGHT as int == CHUNK_HEIGHT - 1);
            assert(raised_at(seeded, *c, j));
            assert(c.cells(BlockLayer::Foreground)[j].wf());
        }
    }
}


/// Pulls block light in across both borders: each edge cell is raised to
/// one level less than the facing cell of the neighbour (`left[y]` for the
/// left edge, `right[y]` for the right one) where that is higher, and block
/// light is flooded from the raised cells. Sun light is not reseeded and
/// nothing is lowered.
pub fn relight_border(c: &mut Chunk, left: &Vec<u8>, right: &Vec<u8>)
    requires
        old(c).wf(),
        left@.len() == CHUNK_HEIGHT,
        right@.len() == CHUNK_HEIGHT,
        forall|y: int| 0 <= y < CHUNK_HEIGHT ==> #[trigger] left@[y] <= MAX_LIGHT_LEVEL,
        forall|y: int| 0 <= y < CHUNK_HEIGHT ==> #[trigger] right@[y] <= MAX_LIGHT_LEVEL,
    ensures
        border_relit(*old(c), *final(c), left@, right@),
{
    let ghost start = *c;
    proof {
        lemma_raised_refl(*c);
    }
    let mut work: Vec<LightItem> = Vec::new();
    let mut y: usize = 0;
    proof {
        assert forall|x1: int, y1: int| in_chunk(x1, y1) && #[trigger] raised(start, *c, x1, y1) implies exists|k: int|
            0 <= k < work@.len() && (#[trigger] work@[k]).0 == x1 && work@[k].1 == y1 by {}
    }
    while y < CHUNK_HEIGHT
        invariant
            y <= CHUNK_HEIGHT,
            left@.len() == CHUNK_HEIGHT,
            right@.len() == CHUNK_HEIGHT,
            forall|k: int| 0 <= k < CHUNK_HEIGHT ==> #[trigger] left@[k] <= MAX_LIGHT_LEVEL,
            forall|k: int| 0 <= k < CHUNK_HEIGHT ==> #[trigger] right@[k] <= MAX_LIGHT_LEVEL,
            c.wf(),
            items_ok(work@),
            items_lit(*c, work@),
            raised_from(start, *c),
            forall|k: int|
                0 <= k < CHUNK_HEIGHT ==> #[trigger] light_at(*c, 0, k) == if k < y {
                    pulled(light_at(start, 0, k), left@[k])
                } else {
                    light_at(start, 0, k)
                },
            forall|k: int|
                0 <= k < CHUNK_HEIGHT ==> #[trigger] light_at(*c, CHUNK_WIDTH - 1, k) == if k < y {
                    pulled(light_at(start, CHUNK_WIDTH - 1, k), right@[k])
                } else {
                    light_at(start, CHUNK_WIDTH - 1, k)
                },
            forall|x1: int, y1: int|
                in_chunk(x1, y1) && 0 < x1 < CHUNK_WIDTH - 1 ==> #[trigger] light_at(*c, x1, y1)
                    == light_at(start, x1, y1),
            forall|k: int|
                0 <= k < work@.len() ==> ((#[trigger] work@[k]).0 == 0 || work@[k].0 == CHUNK_WIDTH - 1)
                    && work@[k].1 < y && work@[k].2 == light_at(*c, work@[k].0 as int, work@[k].1 as int)
                    && raised(start, *c, work@[k].0 as int, work@[k].1 as int),
            forall|x1: int, y1: int|
                in_chunk(x1, y1) && #[trigger] raised(start, *c, x1, y1) ==> exists|k: int|
                    0 <= k < work@.len() && (#[trigger] work@[k]).0 == x1 && work@[k].1 == y1,
            forall|k: int|
                0 <= k < y ==> #[trigger] c.cell(BlockLayer::Foreground, 0, k).light >= bleed(
                    left@[k],
                ),
            forall|k: int|
                0 <= k < y ==> #[trigger] c.cell(BlockLayer::Foreground, CHUNK_WIDTH - 1, k).light
                    >= bleed(right@[k]),
        decreases CHUNK_HEIGHT - y,
    {
        let ghost c0 = *c;
        let ghost w0 = work@;
        let l = left[y];
        if l >= 1 {
            try_raise(c, &mut work, 0, y, l - 1);
        } else {
            proof {
                lemma_raised_refl(*c);
            }
        }
        let ghost c1 = *c;
        let ghost w1 = work@;
        let r = right[y];
        if r >= 1 {
            try_raise(c, &mut work, CHUNK_WIDTH - 1, y, r - 1);
        } else {
            proof {
                lemma_raised_refl(*c);
            }
        }
        proof {
            lemma_raised_trans(c0, c1, *c);
            lemma_raised_trans(start, c0, *c);
            lemma_raised_trans(start, c0, c1);
            let yi = y as int;
            let wr = CHUNK_WIDTH - 1;
            assert(light_at(c1, 0, yi) == pulled(light_at(start, 0, yi), left@[yi])) by {
                assert(light_at(c0, 0, yi) == light_at(start, 0, yi));
                lemma_light_mono(start, c0, 0, yi);
            }
            assert(light_at(*c, 0, yi) == light_at(c1, 0, yi));
            assert(light_at(c1, wr, yi) == light_at(start, wr, yi)) by {
                assert(light_at(c0, wr, yi) == light_at(start, wr, yi));
            }
            assert forall|x1: int, y1: int|
                in_chunk(x1, y1) && (y1 != yi || (x1 != 0 && x1 != wr)) implies #[trigger] light_at(
                *c,
                x1,
                y1,
            ) == light_at(c0, x1, y1) by {
                assert(light_at(*c, x1, y1) == light_at(c1, x1, y1));
            }
            assert forall|k: int| 0 <= k < work@.len() implies ((#[trigger] work@[k]).0 == 0 || work@[k].0
                == wr) && work@[k].1 < y + 1 && work@[k].2 == light_at(
                *c,
                work@[k].0 as int,
                work@[k].1 as int,
            ) && raised(start, *c, work@[k].0 as int, work@[k].1 as int) by {
                if k < w0.len() {
                    assert(w0.is_prefix_of(w1) && w1.is_prefix_of(work@));
                    assert(work@[k] == w1[k]);
                    assert(w1[k] == w0[k]);
                    assert(light_at(*c, w0[k].0 as int, w0[k].1 as int) == light_at(c0, w0[k].0 as int, w0[k].1 as int));
                } else if k < w1.len() {
                    assert(work@[k] == w1[k]);
                    assert(w1[k] == (0usize, y, (l - 1) as u8));
                    lemma_light_mono(start, c0, 0, yi);
                } else {
                    assert(work@[k] == (wr as usize, y, (r - 1) as u8));
                    lemma_light_mono(start, c1, wr, yi);
                }
            }
            assert forall|x1: int, y1: int| in_chunk(x1, y1) && #[trigger] raised(start, *c, x1, y1) implies exists|k: int|
                0 <= k < work@.len() && (#[trigger] work@[k]).0 == x1 && work@[k].1 == y1 by {
                if y1 == yi && x1 == 0 && raised(c0, c1, 0, yi) {
                    assert(work@[w0.len() as int] == w1[w0.len() as int]);
                } else if y1 == yi && x1 == wr && raised(c1, *c, wr, yi) {
                    assert(work@[w1.len() as int].0 == wr);
                } else {
                    lemma_light_mono(start, c0, x1, y1);
                    lemma_light_mono(c0, c1, x1, y1);
                    lemma_light_mono(c1, *c, x1, y1);
                    assert(raised(start, c0, x1, y1));
                    let k = choose|k: int| 0 <= k < w0.len() && (#[trigger] w0[k]).0 == x1 && w0[k].1 == y1;
                    assert(w0.is_prefix_of(w1) && w1.is_prefix_of(work@));
                    assert(work@[k] == w1[k]);
                    assert(w1[k] == w0[k]);
                }
            }
            assert(items_lit(*c, work@)) by {
                assert forall|k: int| 0 <= k < work@.len() implies light_at(
                    *c,
                    (#[trigger] work@[k]).0 as int,
                    work@[k].1 as int,
                ) >= work@[k].2 by {
                    assert(item_ok(work@[k]));
                    let (kx, ky) = (work@[k].0 as int, work@[k].1 as int);
                    lemma_light_mono(c0, *c, kx, ky);
                    lemma_light_mono(c1, *c, kx, ky);
                }
            }
            assert forall|k: int| 0 <= k <= y implies #[trigger] c.cell(
                BlockLayer::Foreground,
                0,
                k,
            ).light >= bleed(left@[k]) by {
                lemma_raised_mono(c0, *c, cell_index(0, k));
                lemma_raised_mono(c1, *c, cell_index(0, k));
                if k < y {
                    assert(c0.cell(BlockLayer::Foreground, 0, k).light >= bleed(left@[k]));
                } else {
                    assert(c1.cell(BlockLayer::Foreground, 0, k).light >= bleed(left@[k]));
                }
            }
            assert forall|k: int| 0 <= k <= y implies #[trigger] c.cell(
                BlockLayer::Foreground,
                CHUNK_WIDTH - 1,
                k,
            ).light >= bleed(right@[k]) by {
                lemma_raised_mono(c0, *c, cell_index(CHUNK_WIDTH - 1, k));
                if k < y {
                    assert(c0.cell(BlockLayer::Foreground, CHUNK_WIDTH - 1, k).light >= bleed(
                        right@[k],
                    ));
                }
            }
        }
        y = y + 1;
    }
    let ghost seeded = *c;
    let ghost seeds = work@;
    proof {
        assert forall|k: int| 0 <= k < CHUNK_HEIGHT implies #[trigger] light_at(seeded, 0, k) == pulled(
            light_at(start, 0, k),
            left@[k],
        ) by {}
        assert(edges_pulled(start, seeded, left@, right@, seeds));
    }
    flood_block(c, &mut work);
    proof {
        lemma_raised_trans(start, seeded, *c);
        assert(edges_pulled(start, seeded, left@, right@, seeds) && block_flooded(seeded, *c, seeds));
        assert forall|k: int| 0 <= k < CHUNK_HEIGHT implies #[trigger] c.cell(
            BlockLayer::Foreground,
            0,
            k,
        ).light >= bleed(left@[k]) by {
            assert(seeded.cell(BlockLayer::Foreground, 0, k).light >= bleed(left@[k]));
            lemma_raised_mono(seeded, *c, cell_index(0, k));
        }
        assert forall|k: int| 0 <= k < CHUNK_HEIGHT implies #[trigger] c.cell(
            BlockLayer::Foreground,
            CHUNK_WIDTH - 1,
            k,
        ).light >= bleed(right@[k]) by {
            assert(seeded.cell(BlockLayer::Foreground, CHUNK_WIDTH - 1, k).light >= bleed(right@[k]));
            lemma_raised_mono(seeded, *c, cell_index(CHUNK_WIDTH - 1, k));
        }
    }
}


/// The light of column `x` of the chunk at column `col`, bottom up; a
/// missing chunk reads as the all-air placeholder, dark throughout.
pub open spec fn edge_lights(w: World, col: int, x: int) -> Seq<u8> {
    if w.has_column(col) {
        Seq::new(CHUNK_HEIGHT as nat, |y: int| w.chunks()[col as i32].cell(BlockLayer::Foreground, x, y).light)
    } else {
        Seq::new(CHUNK_HEIGHT as nat, |y: int| 0u8)
    }
}

/// `d` holds the same column and cells as `c`.
pub open spec fn same_content(d: Chunk, c: Chunk) -> bool {
    &&& d.column() == c.column()
    &&& d.cells(BlockLayer::Foreground) == c.cells(BlockLayer::Foreground)
    &&& d.cells(BlockLayer::Background) == c.cells(BlockLayer::Background)
}

/// One tick of the light engine, from world `w0` and queue `q0` to `w1` and
/// `q1`, handing `drawn` to the renderer. The oldest job is taken; an
/// internal job recomputes its chunk, a border job pulls light in from the
/// neighbours as they stood and hands a copy of the result to the renderer.
/// Every other chunk is left as it was; a job for a missing chunk does
/// nothing.
pub open spec fn light_step(
    w0: World,
    q0: Seq<LightJob>,
    w1: World,
    q1: Seq<LightJob>,
    drawn: Option<Chunk>,
) -> bool {
    &&& w1.handles() == w0.handles()
    &&& if q0.len() == 0 {
        &&& q1 == q0
        &&& w1.chunks() == w0.chunks()
        &&& drawn is None
    } else {
        let x = q0[0].target;
        &&& q1 == q0.drop_first()
        &&& w1.chunks().dom() == w0.chunks().dom()
        &&& forall|k: i32|
            k != x && #[trigger] w0.chunks().contains_key(k) ==> w1.chunks()[k] == w0.chunks()[k]
        &&& if !w0.chunks().contains_key(x) {
            &&& w1.chunks() == w0.chunks()
            &&& drawn is None
        } else {
            match q0[0].phase {
                LightPhase::Internal => {
                    &&& internal_relit(w0.chunks()[x], w1.chunks()[x])
                    &&& drawn is None
                },
                LightPhase::Border => {
                    &&& border_relit(
                        w0.chunks()[x],
                        w1.chunks()[x],
                        edge_lights(w0, x - 1, CHUNK_WIDTH - 1),
                        edge_lights(w0, x + 1, 0),
                    )
                    &&& drawn matches Some(d) && same_content(d, w1.chunks()[x])
                },
            }
        }
    }
}

/// The light of column `x` of `c`, bottom up.
fn column_lights(c: &Chunk, x: usize) -> (r: Vec<u8>)
    requires
        c.wf(),
        x < CHUNK_WIDTH,
    ensures
        r@ == Seq::new(CHUNK_HEIGHT as nat, |y: int| c.cell(BlockLayer::Foreground, x as int, y).light),
        forall|y: int| 0 <= y < CHUNK_HEIGHT ==> #[trigger] r@[y] <= MAX_LIGHT_LEVEL,
{
    let mut v: Vec<u8> = Vec::new();
    let mut y: usize = 0;
    while y < CHUNK_HEIGHT
        invariant
            y <= CHUNK_HEIGHT,
            c.wf(),
            x < CHUNK_WIDTH,
            v@ == Seq::new(y as nat, |k: int| c.cell(BlockLayer::Foreground, x as int, k).light),
        decreases CHUNK_HEIGHT - y,
    {
        let b = c.block(x, y, BlockLayer::Foreground);
        v.push(b.light);
        y = y + 1;
        assert(v@ =~= Seq::new(y as nat, |k: int| c.cell(BlockLayer::Foreground, x as int, k).light));
    }
    proof {
        assert forall|y: int| 0 <= y < CHUNK_HEIGHT implies #[trigger] v@[y] <= MAX_LIGHT_LEVEL by {
            assert(c.cells(BlockLayer::Foreground)[cell_index(x as int, y)].wf());
        }
    }
    v
}

/// The light of column `x` of the chunk at column `col`, or of the
/// placeholder where there is none.
fn neighbour_edge(world: &World, col: i64, x: usize) -> (r: Vec<u8>)
    requires
        world.wf(),
        x < CHUNK_WIDTH,
    ensures
        r@ == edge_lights(*world, col as int, x as int),
        forall|y: int| 0 <= y < CHUNK_HEIGHT ==> #[trigger] r@[y] <= MAX_LIGHT_LEVEL,
{
    if i32::MIN as i64 <= col && col <= i32::MAX as i64 {
        if let Some(n) = world.get_chunk(col as i32) {
            assert(world.chunks().contains_key(col as i32));
            return column_lights(n, x);
        }
    }
    let placeholder = Chunk::placeholder();
    let r = column_lights(&placeholder, x);
    proof {
        assert forall|y: int| 0 <= y < CHUNK_HEIGHT implies r@[y] == 0u8 by {
            assert(placeholder.cells(BlockLayer::Foreground)[cell_index(x as int, y)] == crate::block::air());
        }
        assert(r@ =~= edge_lights(*world, col as int, x as int));
    }
    r
}

/// Runs one tick of the light engine: takes the oldest queued job and
/// processes it fully. Returns a copy of the chunk for the renderer after a
/// border job, and nothing after an internal one, so that a chunk is not
/// drawn between its two passes.
pub fn update_light(world: &mut World, queue: &mut LightUpdateQueue) -> (r: Option<Chunk>)
    requires
        old(world).wf(),
    ensures
        final(world).wf(),
        light_step(*old(world), old(queue).jobs(), *final(world), final(queue).jobs(), r),
{
    let job = match queue.pop() {
        Some(j) => j,
        None => return None,
    };
    let x = job.target;
    if !world.has_chunk(x) {
        return None;
    }
    let ghost w0 = *world;
    assert(w0.chunks().contains_key(x));
    match job.phase {
        LightPhase::Internal => {
            let mut c = world.take_chunk(x).unwrap();
            relight_internal(&mut c);
            world.insert_chunk(c);
            proof {
                assert(world.chunks() =~= w0.chunks().insert(x, world.chunks()[x]));
                assert(world.chunks().dom() =~= w0.chunks().dom());
            }
            None
        },
        LightPhase::Border => {
            let left = neighbour_edge(world, x as i64 - 1, CHUNK_WIDTH - 1);
            let right = neighbour_edge(world, x as i64 + 1, 0);
            let mut c = world.take_chunk(x).unwrap();
            relight_border(&mut c, &left, &right);
            let drawn = c.snapshot();
            world.insert_chunk(c);
            proof {
                assert(world.chunks() =~= w0.chunks().insert(x, world.chunks()[x]));
                assert(world.chunks().dom() =~= w0.chunks().dom());
            }
            Some(drawn)
        },
    }
}


/// A border job for column `x` leaves each cell of its left edge at least
/// one level below the facing cell of column `x - 1`, and lowers no cell.
pub proof fn lemma_border_bleed(
    w0: World,
    q0: Seq<LightJob>,
    w1: World,
    q1: Seq<LightJob>,
    drawn: Option<Chunk>,
    x: i32,
)
    requires
        w0.wf(),
        light_step(w0, q0, w1, q1, drawn),
        q0.len() > 0,
        q0[0] == (LightJob { target: x, phase: LightPhase::Border }),
        w0.chunks().contains_key(x),
        w0.has_column(x - 1),
    ensures
        forall|y: int|
            0 <= y < CHUNK_HEIGHT ==> #[trigger] w1.chunks()[x].cell(BlockLayer::Foreground, 0, y).light
                >= bleed(w0.chunks()[(x - 1) as i32].cell(BlockLayer::Foreground, CHUNK_WIDTH - 1, y).light),
        forall|i: int|
            0 <= i < CHUNK_CELLS ==> #[trigger] w1.chunks()[x].cells(BlockLayer::Foreground)[i].light
                >= w0.chunks()[x].cells(BlockLayer::Foreground)[i].light,
{
    let left = edge_lights(w0, x - 1, CHUNK_WIDTH - 1);
    assert forall|y: int| 0 <= y < CHUNK_HEIGHT implies #[trigger] w1.chunks()[x].cell(
        BlockLayer::Foreground,
        0,
        y,
    ).light >= bleed(
        w0.chunks()[(x - 1) as i32].cell(BlockLayer::Foreground, CHUNK_WIDTH - 1, y).light,
    ) by {
        assert(left[y] == w0.chunks()[(x - 1) as i32].cell(BlockLayer::Foreground, CHUNK_WIDTH - 1, y).light);
    }
    assert forall|i: int| 0 <= i < CHUNK_CELLS implies #[trigger] w1.chunks()[x].cells(
        BlockLayer::Foreground,
    )[i].light >= w0.chunks()[x].cells(BlockLayer::Foreground)[i].light by {
        lemma_raised_mono(w0.chunks()[x], w1.chunks()[x], i);
    }
}

/// A job for any other column leaves column `x` exactly as it was.
pub proof fn lemma_other_job_keeps(
    w0: World,
    q0: Seq<LightJob>,
    w1: World,
    q1: Seq<LightJob>,
    drawn: Option<Chunk>,
    x: i32,
)
    requires
        light_step(w0, q0, w1, q1, drawn),
        q0.len() > 0,
        q0[0].target != x,
        w0.chunks().contains_key(x),
    ensures
        w1.chunks().contains_key(x),
        w1.chunks()[x] == w0.chunks()[x],
{
}

/// A border job never lowers any cell of any chunk, in either layer.
pub proof fn lemma_border_never_lowers(
    w0: World,
    q0: Seq<LightJob>,
    w1: World,
    q1: Seq<LightJob>,
    drawn: Option<Chunk>,
    x: i32,
)
    requires
        w0.wf(),
        light_step(w0, q0, w1, q1, drawn),
        q0.len() > 0,
        q0[0].phase == LightPhase::Border,
        w0.chunks().contains_key(x),
    ensures
        w1.chunks().contains_key(x),
        forall|i: int|
            0 <= i < CHUNK_CELLS ==> #[trigger] w1.chunks()[x].cells(BlockLayer::Foreground)[i].light
                >= w0.chunks()[x].cells(BlockLayer::Foreground)[i].light
                && w1.chunks()[x].cells(BlockLayer::Background)[i].light
                >= w0.chunks()[x].cells(BlockLayer::Background)[i].light,
{
    assert forall|i: int| 0 <= i < CHUNK_CELLS implies #[trigger] w1.chunks()[x].cells(
        BlockLayer::Foreground,
    )[i].light >= w0.chunks()[x].cells(BlockLayer::Foreground)[i].light && w1.chunks()[x].cells(
        BlockLayer::Background,
    )[i].light >= w0.chunks()[x].cells(BlockLayer::Background)[i].light by {
        let a = w0.chunks()[x];
        assert(a.wf());
        assert(a.cells(BlockLayer::Foreground)[i].light == a.cells(BlockLayer::Background)[i].light);
        if q0[0].target == x {
            assert(raised_at(a, w1.chunks()[x], i));
        }
    }
}

} // verus!
