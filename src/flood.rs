//! Flood fills of light inside one chunk, and what they establish.
//!
//! Both floods work a stack of items (a cell and the light it carries),
//! raising a neighbour only when the light it would receive is higher than
//! what it holds, and queueing it in turn. Light only rises, so the stack
//! empties: the sum of how far every cell is below full light drops with
//! each raise.

use vstd::prelude::*;

use crate::block::{Block, BlockLayer, MAX_LIGHT_LEVEL};
use crate::chunk::{cell_index, in_chunk, with_light, Chunk, CHUNK_CELLS};
use crate::{CHUNK_HEIGHT, CHUNK_WIDTH};

verus! {

/// Cost of sun light entering a solid cell from above, and of any
/// sideways step of sun light.
pub const SUN_STEP_COST: u8 = 3;

/// Cost of sun light falling into a clear cell below.
pub const SUN_FALL_COST: u8 = 1;

/// How far the light levels of a grid are below the maximum, in total.
pub open spec fn deficit(s: Seq<Block>) -> nat
    decreases s.len(),
{
    if s.len() == 0 {
        0
    } else {
        deficit(s.drop_last()) + (MAX_LIGHT_LEVEL - s.last().light) as nat
    }
}

pub(crate) proof fn lemma_deficit_update(s: Seq<Block>, i: int, b: Block)
    requires
        0 <= i < s.len(),
        grid_light_bounded(s),
        b.light <= MAX_LIGHT_LEVEL,
    ensures
        deficit(s.update(i, b)) + b.light == deficit(s) + s[i].light,
    decreases s.len(),
{
    let t = s.update(i, b);
    assert(s.last().light <= MAX_LIGHT_LEVEL);
    assert(deficit(s) == deficit(s.drop_last()) + (MAX_LIGHT_LEVEL - s.last().light) as nat);
    assert(deficit(t) == deficit(t.drop_last()) + (MAX_LIGHT_LEVEL - t.last().light) as nat);
    if i == s.len() - 1 {
        assert(t.drop_last() =~= s.drop_last());
        assert(t.last() == b);
    } else {
        assert(grid_light_bounded(s.drop_last()));
        lemma_deficit_update(s.drop_last(), i, b);
        assert(t.drop_last() =~= s.drop_last().update(i, b));
        assert(t.last() == s.last());
        assert(s.drop_last()[i] == s[i]);
    }
}

pub open spec fn grid_light_bounded(s: Seq<Block>) -> bool {
    forall|i: int| 0 <= i < s.len() ==> (#[trigger] s[i]).light <= MAX_LIGHT_LEVEL
}

/// A pending flood-fill item: a cell and the light it carries.
pub type LightItem = (usize, usize, u8);

pub open spec fn item_ok(it: LightItem) -> bool {
    it.0 < CHUNK_WIDTH && it.1 < CHUNK_HEIGHT && it.2 <= MAX_LIGHT_LEVEL
}

pub open spec fn items_ok(work: Seq<LightItem>) -> bool {
    forall|k: int| 0 <= k < work.len() ==> item_ok(#[trigger] work[k])
}

/// One cell, foreground and background, went from `(af, ab)` to `(bf, bb)`
/// by a change of light alone: untouched, or raised with both layers
/// holding the new level.
pub open spec fn cell_raised(af: Block, ab: Block, bf: Block, bb: Block) -> bool {
    &&& bf == with_light(af, bf.light)
    &&& bb == with_light(ab, bb.light)
    &&& (bf.light == af.light && bb == ab) || (bf.light > af.light && bb.light == bf.light)
}

pub open spec fn raised_at(a: Chunk, b: Chunk, i: int) -> bool {
    cell_raised(
        a.cells(BlockLayer::Foreground)[i],
        a.cells(BlockLayer::Background)[i],
        b.cells(BlockLayer::Foreground)[i],
        b.cells(BlockLayer::Background)[i],
    )
}

/// `b` is `a` with only light levels changed, each cell either untouched
/// or raised, a raised cell holding the same light in both layers.
pub open spec fn raised_from(a: Chunk, b: Chunk) -> bool {
    &&& b.column() == a.column()
    &&& forall|i: int| 0 <= i < CHUNK_CELLS ==> #[trigger] raised_at(a, b, i)
}

pub(crate) proof fn lemma_raised_refl(a: Chunk)
    ensures
        raised_from(a, a),
{
    assert forall|i: int| 0 <= i < CHUNK_CELLS implies #[trigger] raised_at(a, a, i) by {}
}

pub(crate) proof fn lemma_raised_trans(a: Chunk, b: Chunk, c: Chunk)
    requires
        raised_from(a, b),
        raised_from(b, c),
    ensures
        raised_from(a, c),
{
    assert forall|i: int| 0 <= i < CHUNK_CELLS implies #[trigger] raised_at(a, c, i) by {
        assert(raised_at(a, b, i));
        assert(raised_at(b, c, i));
    }
}

/// Raises the light of `(x, y)` to `v` if it is lower, and then queues the
/// cell to spread from.
pub(crate) fn try_raise(c: &mut Chunk, work: &mut Vec<LightItem>, x: usize, y: usize, v: u8)
    requires
        old(c).wf(),
        items_ok(old(work)@),
        x < CHUNK_WIDTH,
        y < CHUNK_HEIGHT,
        v <= MAX_LIGHT_LEVEL,
    ensures
        final(c).wf(),
        items_ok(final(work)@),
        raised_from(*old(c), *final(c)),
        final(c).cell(BlockLayer::Foreground, x as int, y as int).light >= v,
        5 * deficit(final(c).cells(BlockLayer::Foreground)) + final(work)@.len() <= 5 * deficit(
            old(c).cells(BlockLayer::Foreground),
        ) + old(work)@.len(),
        old(work)@.is_prefix_of(final(work)@),
        old(c).cell(BlockLayer::Foreground, x as int, y as int).light < v ==> final(c).cell(
            BlockLayer::Foreground,
            x as int,
            y as int,
        ).light == v && final(work)@ == old(work)@.push((x, y, v)),
        old(c).cell(BlockLayer::Foreground, x as int, y as int).light >= v ==> *final(c) == *old(c)
            && final(work)@ == old(work)@,
        forall|x1: int, y1: int|
            in_chunk(x1, y1) && (x1 != x || y1 != y) ==> #[trigger] final(c).cell(
                BlockLayer::Foreground,
                x1,
                y1,
            ) == old(c).cell(BlockLayer::Foreground, x1, y1),
{
    let cur = c.block(x, y, BlockLayer::Foreground);
    if cur.light < v {
        let ghost before = *c;
        c.set_light(x, y, v);
        work.push((x, y, v));
        proof {
            let i = cell_index(x as int, y as int);
            let fg = BlockLayer::Foreground;
            let bg = BlockLayer::Background;
            lemma_deficit_update(before.cells(fg), i, with_light(before.cells(fg)[i], v));
            assert forall|j: int| 0 <= j < CHUNK_CELLS implies #[trigger] raised_at(before, *c, j) by {}
            assert(items_ok(work@)) by {
                assert forall|k: int| 0 <= k < work@.len() implies item_ok(#[trigger] work@[k]) by {
                    if k < old(work)@.len() {
                        assert(old(work)@[k] == work@[k]);
                    }
                }
            }
            assert(old(work)@.is_prefix_of(work@)) by {
                assert(work@.subrange(0, old(work)@.len() as int) =~= old(work)@);
            }
        }
    } else {
        proof {
            lemma_raised_refl(*c);
            assert(old(work)@.is_prefix_of(work@)) by {
                assert(work@.subrange(0, old(work)@.len() as int) =~= old(work)@);
            }
        }
    }
}


pub(crate) proof fn lemma_raised_mono(a: Chunk, b: Chunk, i: int)
    requires
        raised_from(a, b),
        0 <= i < CHUNK_CELLS,
    ensures
        b.cells(BlockLayer::Foreground)[i].light >= a.cells(BlockLayer::Foreground)[i].light,
{
    assert(raised_at(a, b, i));
}

/// Foreground light of cell `(x, y)`.
pub open spec fn light_at(c: Chunk, x: int, y: int) -> int {
    c.cell(BlockLayer::Foreground, x, y).light as int
}

/// The flood from `a` to `c` raised cell `(x, y)`.
pub open spec fn raised(a: Chunk, c: Chunk, x: int, y: int) -> bool {
    light_at(c, x, y) > light_at(a, x, y)
}

/// Block light of level `v` at `(x, y)` has reached its four neighbours:
/// each holds at least `v - 1`.
pub open spec fn block_spread(c: Chunk, x: int, y: int, v: int) -> bool {
    &&& (in_chunk(x + 1, y) ==> light_at(c, x + 1, y) >= v - 1)
    &&& (in_chunk(x - 1, y) ==> light_at(c, x - 1, y) >= v - 1)
    &&& (in_chunk(x, y + 1) ==> light_at(c, x, y + 1) >= v - 1)
    &&& (in_chunk(x, y - 1) ==> light_at(c, x, y - 1) >= v - 1)
}

/// Cell `(x, y)` may have handed on light of level `need`: it holds that
/// much, and either the flood raised it or it was queued with that much.
pub open spec fn fed_by(a: Chunk, c: Chunk, init: Seq<LightItem>, x: int, y: int, need: int) -> bool {
    &&& in_chunk(x, y)
    &&& light_at(c, x, y) >= need
    &&& (raised(a, c, x, y) || exists|k: int|
        0 <= k < init.len() && (#[trigger] init[k]).0 == x && init[k].1 == y && init[k].2 >= need)
}

/// The light of `(x, y)` came from a neighbour one level brighter.
pub open spec fn block_justified(a: Chunk, c: Chunk, init: Seq<LightItem>, x: int, y: int) -> bool {
    let need = light_at(c, x, y) + 1;
    ||| fed_by(a, c, init, x + 1, y, need)
    ||| fed_by(a, c, init, x - 1, y, need)
    ||| fed_by(a, c, init, x, y + 1, need)
    ||| fed_by(a, c, init, x, y - 1, need)
}

/// `b` is `a` after block light has flooded from the items `init`: only
/// raised, every item and every raised cell has spread its level, and every
/// raised cell got its level from a neighbour one level brighter that was
/// itself raised or queued.
pub open spec fn block_flooded(a: Chunk, b: Chunk, init: Seq<LightItem>) -> bool {
    &&& b.wf()
    &&& raised_from(a, b)
    &&& forall|k: int| 0 <= k < init.len() ==> block_spread(b, (#[trigger] init[k]).0 as int, init[k].1 as int, init[k].2 as int)
    &&& forall|x: int, y: int|
        in_chunk(x, y) && #[trigger] raised(a, b, x, y) ==> block_spread(b, x, y, light_at(b, x, y))
            && block_justified(a, b, init, x, y)
}

/// Neighbouring cells, in the four directions.
pub open spec fn adjacent(x: int, y: int, u: int, v: int) -> bool {
    ||| (u == x + 1 && v == y)
    ||| (u == x - 1 && v == y)
    ||| (u == x && v == y + 1)
    ||| (u == x && v == y - 1)
}

/// Invariant of the block flood, from `a` with items `init`, at state `c`
/// with stack `w` whose first `p` items are still the first `p` of `init`.
pub open spec fn block_flood_inv(a: Chunk, init: Seq<LightItem>, c: Chunk, w: Seq<LightItem>, p: int) -> bool {
    &&& c.wf()
    &&& items_ok(w)
    &&& raised_from(a, c)
    &&& 0 <= p <= init.len()
    &&& p <= w.len()
    &&& w.subrange(0, p) == init.subrange(0, p)
    &&& forall|k: int| p <= k < init.len() ==> block_spread(c, (#[trigger] init[k]).0 as int, init[k].1 as int, init[k].2 as int)
    &&& forall|m: int|
        p <= m < w.len() ==> light_at(c, (#[trigger] w[m]).0 as int, w[m].1 as int) >= w[m].2
            && raised(a, c, w[m].0 as int, w[m].1 as int)
    &&& forall|x: int, y: int|
        in_chunk(x, y) && #[trigger] raised(a, c, x, y) ==> block_justified(a, c, init, x, y) && (
        block_spread(c, x, y, light_at(c, x, y)) || exists|m: int|
            0 <= m < w.len() && (#[trigger] w[m]).0 == x && w[m].1 == y && w[m].2 == light_at(c, x, y))
}

/// What one expansion of the item at `(gx, gy)` has done so far, from `c0`
/// with stack `base`: raised some neighbours to `v` and pushed them.
pub open spec fn expansion(c0: Chunk, c: Chunk, base: Seq<LightItem>, w: Seq<LightItem>, gx: int, gy: int, v: int) -> bool {
    &&& raised_from(c0, c)
    &&& c.wf()
    &&& items_ok(w)
    &&& base.len() <= w.len()
    &&& w.subrange(0, base.len() as int) == base
    &&& forall|m: int|
        base.len() <= m < w.len() ==> adjacent(gx, gy, (#[trigger] w[m]).0 as int, w[m].1 as int) && w[m].2 == v
            && light_at(c, w[m].0 as int, w[m].1 as int) == v && raised(c0, c, w[m].0 as int, w[m].1 as int)
    &&& forall|x: int, y: int|
        in_chunk(x, y) && #[trigger] raised(c0, c, x, y) ==> adjacent(gx, gy, x, y) && light_at(c, x, y) == v
            && exists|m: int| base.len() <= m < w.len() && (#[trigger] w[m]).0 == x && w[m].1 == y
}

pub(crate) proof fn lemma_light_mono(a: Chunk, b: Chunk, x: int, y: int)
    requires
        raised_from(a, b),
        in_chunk(x, y),
    ensures
        light_at(b, x, y) >= light_at(a, x, y),
{
    crate::chunk::lemma_cell_index(x, y);
    lemma_raised_mono(a, b, cell_index(x, y));
}

pub(crate) proof fn lemma_expansion_start(c: Chunk, w: Seq<LightItem>, gx: int, gy: int, v: int)
    requires
        c.wf(),
        items_ok(w),
    ensures
        expansion(c, c, w, w, gx, gy, v),
{
    lemma_raised_refl(c);
    assert(w.subrange(0, w.len() as int) =~= w);
}

pub(crate) proof fn lemma_expansion_step(
    c0: Chunk,
    c1: Chunk,
    c2: Chunk,
    base: Seq<LightItem>,
    w1: Seq<LightItem>,
    w2: Seq<LightItem>,
    gx: int,
    gy: int,
    nx: usize,
    ny: usize,
    v: u8,
)
    requires
        expansion(c0, c1, base, w1, gx, gy, v as int),
        adjacent(gx, gy, nx as int, ny as int),
        in_chunk(nx as int, ny as int),
        c2.wf(),
        items_ok(w2),
        raised_from(c1, c2),
        light_at(c1, nx as int, ny as int) < v ==> light_at(c2, nx as int, ny as int) == v && w2
            == w1.push((nx, ny, v)),
        light_at(c1, nx as int, ny as int) >= v ==> c2 == c1 && w2 == w1,
        forall|x1: int, y1: int|
            in_chunk(x1, y1) && (x1 != nx || y1 != ny) ==> #[trigger] c2.cell(
                BlockLayer::Foreground,
                x1,
                y1,
            ) == c1.cell(BlockLayer::Foreground, x1, y1),
    ensures
        expansion(c0, c2, base, w2, gx, gy, v as int),
{
    lemma_raised_trans(c0, c1, c2);
    if light_at(c1, nx as int, ny as int) < v {
        assert(w2.subrange(0, base.len() as int) =~= w1.subrange(0, base.len() as int));
        assert forall|m: int| base.len() <= m < w2.len() implies adjacent(
            gx,
            gy,
            (#[trigger] w2[m]).0 as int,
            w2[m].1 as int,
        ) && w2[m].2 == v && light_at(c2, w2[m].0 as int, w2[m].1 as int) == v && raised(
            c0,
            c2,
            w2[m].0 as int,
            w2[m].1 as int,
        ) by {
            if m < w1.len() {
                assert(w2[m] == w1[m]);
                let (x1, y1) = (w1[m].0 as int, w1[m].1 as int);
                assert(raised(c0, c1, x1, y1));
                if x1 == nx && y1 == ny {
                    assert(light_at(c1, x1, y1) == v);
                } else {
                    assert(c2.cell(BlockLayer::Foreground, x1, y1) == c1.cell(BlockLayer::Foreground, x1, y1));
                }
            } else {
                lemma_light_mono(c0, c1, nx as int, ny as int);
            }
        }
        assert forall|x: int, y: int| in_chunk(x, y) && #[trigger] raised(c0, c2, x, y) implies adjacent(
            gx,
            gy,
            x,
            y,
        ) && light_at(c2, x, y) == v && exists|m: int|
            base.len() <= m < w2.len() && (#[trigger] w2[m]).0 == x && w2[m].1 == y by {
            if x == nx && y == ny {
                assert(w2[w1.len() as int] == (nx, ny, v));
            } else {
                assert(c2.cell(BlockLayer::Foreground, x, y) == c1.cell(BlockLayer::Foreground, x, y));
                assert(raised(c0, c1, x, y));
                let m = choose|m: int| base.len() <= m < w1.len() && (#[trigger] w1[m]).0 == x && w1[m].1 == y;
                assert(w2[m] == w1[m]);
            }
        }
    }
}


pub(crate) proof fn lemma_spread_mono(c1: Chunk, c2: Chunk, x: int, y: int, v: int)
    requires
        raised_from(c1, c2),
        block_spread(c1, x, y, v),
    ensures
        block_spread(c2, x, y, v),
{
    if in_chunk(x + 1, y) {
        lemma_light_mono(c1, c2, x + 1, y);
    }
    if in_chunk(x - 1, y) {
        lemma_light_mono(c1, c2, x - 1, y);
    }
    if in_chunk(x, y + 1) {
        lemma_light_mono(c1, c2, x, y + 1);
    }
    if in_chunk(x, y - 1) {
        lemma_light_mono(c1, c2, x, y - 1);
    }
}

pub(crate) proof fn lemma_fed_mono(a: Chunk, c1: Chunk, c2: Chunk, init: Seq<LightItem>, x: int, y: int, need: int)
    requires
        raised_from(c1, c2),
        fed_by(a, c1, init, x, y, need),
    ensures
        fed_by(a, c2, init, x, y, need),
{
    lemma_light_mono(c1, c2, x, y);
}

pub(crate) proof fn lemma_justified_mono(a: Chunk, c1: Chunk, c2: Chunk, init: Seq<LightItem>, x: int, y: int)
    requires
        raised_from(c1, c2),
        block_justified(a, c1, init, x, y),
        light_at(c1, x, y) == light_at(c2, x, y),
    ensures
        block_justified(a, c2, init, x, y),
{
    let need = light_at(c1, x, y) + 1;
    if fed_by(a, c1, init, x + 1, y, need) {
        lemma_fed_mono(a, c1, c2, init, x + 1, y, need);
    } else if fed_by(a, c1, init, x - 1, y, need) {
        lemma_fed_mono(a, c1, c2, init, x - 1, y, need);
    } else if fed_by(a, c1, init, x, y + 1, need) {
        lemma_fed_mono(a, c1, c2, init, x, y + 1, need);
    } else {
        lemma_fed_mono(a, c1, c2, init, x, y - 1, need);
    }
}

/// Items carry no more light than their cell holds.
pub open spec fn items_lit(c: Chunk, w: Seq<LightItem>) -> bool {
    forall|k: int| 0 <= k < w.len() ==> light_at(c, (#[trigger] w[k]).0 as int, w[k].1 as int) >= w[k].2
}

pub(crate) proof fn lemma_items_lit_mono(c1: Chunk, c2: Chunk, w: Seq<LightItem>)
    requires
        raised_from(c1, c2),
        items_ok(w),
        items_lit(c1, w),
    ensures
        items_lit(c2, w),
{
    assert forall|k: int| 0 <= k < w.len() implies light_at(c2, (#[trigger] w[k]).0 as int, w[k].1 as int)
        >= w[k].2 by {
        assert(item_ok(w[k]));
        lemma_light_mono(c1, c2, w[k].0 as int, w[k].1 as int);
    }
}

#[verifier::spinoff_prover]
#[verifier::rlimit(80)]
pub(crate) proof fn lemma_block_pop(
    a: Chunk,
    init: Seq<LightItem>,
    c_pre: Chunk,
    w_pre: Seq<LightItem>,
    p: int,
    c_post: Chunk,
    w_post: Seq<LightItem>,
)
    requires
        block_flood_inv(a, init, c_pre, w_pre, p),
        items_ok(init),
        items_lit(a, init),
        w_pre.len() > 0,
        expansion(
            c_pre,
            c_post,
            w_pre.drop_last(),
            w_post,
            w_pre.last().0 as int,
            w_pre.last().1 as int,
            w_pre.last().2 - 1,
        ),
        block_spread(c_post, w_pre.last().0 as int, w_pre.last().1 as int, w_pre.last().2 as int),
    ensures
        block_flood_inv(a, init, c_post, w_post, if w_pre.len() == p { p - 1 } else { p }),
{
    let g = w_pre.last();
    let (gx, gy, e) = (g.0 as int, g.1 as int, g.2 as int);
    let base = w_pre.drop_last();
    let q = if w_pre.len() == p { p - 1 } else { p };
    let n = w_pre.len() - 1;
    assert(item_ok(w_pre[n]));
    lemma_raised_trans(a, c_pre, c_post);
    // the stack prefix
    assert(w_post.subrange(0, q) =~= init.subrange(0, q)) by {
        assert forall|i: int| 0 <= i < q implies w_post[i] == init[i] by {
            assert(w_post.subrange(0, base.len() as int)[i] == base[i]);
            assert(w_pre.subrange(0, p)[i] == init.subrange(0, p)[i]);
        }
    }
    // the queued items
    assert forall|k: int| q <= k < init.len() implies block_spread(
        c_post,
        (#[trigger] init[k]).0 as int,
        init[k].1 as int,
        init[k].2 as int,
    ) by {
        if k >= p {
            lemma_spread_mono(c_pre, c_post, init[k].0 as int, init[k].1 as int, init[k].2 as int);
        } else {
            assert(w_pre.subrange(0, p)[k] == init.subrange(0, p)[k]);
        }
    }
    // the pushed items
    assert forall|m: int| q <= m < w_post.len() implies light_at(
        c_post,
        (#[trigger] w_post[m]).0 as int,
        w_post[m].1 as int,
    ) >= w_post[m].2 && raised(a, c_post, w_post[m].0 as int, w_post[m].1 as int) by {
        if m < base.len() {
            assert(w_post.subrange(0, base.len() as int)[m] == base[m]);
            assert(w_post[m] == w_pre[m]);
            assert(item_ok(w_pre[m]));
            lemma_light_mono(c_pre, c_post, w_pre[m].0 as int, w_pre[m].1 as int);
        } else {
            assert(item_ok(w_post[m]));
            lemma_light_mono(a, c_pre, w_post[m].0 as int, w_post[m].1 as int);
        }
    }
    // the giver can feed its neighbours
    assert(fed_by(a, c_post, init, gx, gy, e)) by {
        lemma_light_mono(c_pre, c_post, gx, gy);
        if n >= p {
            lemma_light_mono(a, c_pre, gx, gy);
        } else {
            assert(w_pre.subrange(0, p)[n] == init.subrange(0, p)[n]);
            assert(init[n] == g);
            lemma_light_mono(a, c_pre, gx, gy);
        }
    }
    // every raised cell
    assert forall|x: int, y: int| in_chunk(x, y) && #[trigger] raised(a, c_post, x, y) implies block_justified(
        a,
        c_post,
        init,
        x,
        y,
    ) && (block_spread(c_post, x, y, light_at(c_post, x, y)) || exists|m: int|
        0 <= m < w_post.len() && (#[trigger] w_post[m]).0 == x && w_post[m].1 == y && w_post[m].2
            == light_at(c_post, x, y)) by {
        lemma_light_mono(c_pre, c_post, x, y);
        if raised(c_pre, c_post, x, y) {
            let m = choose|m: int| base.len() <= m < w_post.len() && (#[trigger] w_post[m]).0 == x && w_post[m].1 == y;
            assert(w_post[m].2 == light_at(c_post, x, y));
            assert(adjacent(gx, gy, x, y));
        } else {
            lemma_light_mono(a, c_pre, x, y);
            assert(raised(a, c_pre, x, y));
            lemma_justified_mono(a, c_pre, c_post, init, x, y);
            if block_spread(c_pre, x, y, light_at(c_pre, x, y)) {
                lemma_spread_mono(c_pre, c_post, x, y, light_at(c_pre, x, y));
            } else {
                let m = choose|m: int|
                    0 <= m < w_pre.len() && (#[trigger] w_pre[m]).0 == x && w_pre[m].1 == y && w_pre[m].2
                        == light_at(c_pre, x, y);
                if m < n {
                    assert(w_post.subrange(0, base.len() as int)[m] == base[m]);
                    assert(w_post[m] == w_pre[m]);
                }
            }
        }
    }
}


/// Spreads block light from the queued items in the four directions,
/// one level lower per step, until nothing more can be raised. The queue is
/// worked as a stack. Light only ever rises, and stays within the light
/// range; every item and every raised cell ends up spread, and every raised
/// cell owes its level to a brighter neighbour.
pub fn flood_block(c: &mut Chunk, work: &mut Vec<LightItem>)
    requires
        old(c).wf(),
        items_ok(old(work)@),
        items_lit(*old(c), old(work)@),
    ensures
        block_flooded(*old(c), *final(c), old(work)@),
        final(work)@.len() == 0,
{
    let ghost start = *c;
    let ghost init = work@;
    let ghost mut p: int = init.len() as int;
    proof {
        lemma_raised_refl(*c);
        assert(work@.subrange(0, p) =~= init.subrange(0, p));
    }
    while work.len() > 0
        invariant
            block_flood_inv(start, init, *c, work@, p),
            items_ok(init),
            items_lit(start, init),
        decreases 5 * deficit(c.cells(BlockLayer::Foreground)) + work@.len(),
    {
        let ghost m0 = 5 * deficit(c.cells(BlockLayer::Foreground)) + work@.len();
        let ghost w_pre = work@;
        let ghost c_pre = *c;
        let it = work.pop().unwrap();
        assert(item_ok(it)) by {
            assert(it == w_pre[w_pre.len() - 1]);
        }
        proof {
            assert(work@ =~= w_pre.drop_last());
            assert(items_ok(work@)) by {
                assert forall|k: int| 0 <= k < work@.len() implies item_ok(#[trigger] work@[k]) by {
                    assert(work@[k] == w_pre[k]);
                }
            }
        }
        let (x, y, e) = it;
        let ghost base = work@;
        proof {
            lemma_expansion_start(*c, work@, x as int, y as int, e - 1);
        }
        if e >= 1 {
            let v = e - 1;
            let ghost c1 = *c;
            if x + 1 < CHUNK_WIDTH {
                let ghost w1 = work@;
                try_raise(c, work, x + 1, y, v);
                proof {
                    lemma_expansion_step(c_pre, c1, *c, base, w1, work@, x as int, y as int, (x + 1) as usize, y, v);
                }
            }
            let ghost c2 = *c;
            if y + 1 < CHUNK_HEIGHT {
                let ghost w1 = work@;
                try_raise(c, work, x, y + 1, v);
                proof {
                    lemma_expansion_step(c_pre, c2, *c, base, w1, work@, x as int, y as int, x, (y + 1) as usize, v);
                }
            }
            let ghost c3 = *c;
            if x > 0 {
                let ghost w1 = work@;
                try_raise(c, work, x - 1, y, v);
                proof {
                    lemma_expansion_step(c_pre, c3, *c, base, w1, work@, x as int, y as int, (x - 1) as usize, y, v);
                }
            }
            let ghost c4 = *c;
            if y > 0 {
                let ghost w1 = work@;
                try_raise(c, work, x, y - 1, v);
                proof {
                    lemma_expansion_step(c_pre, c4, *c, base, w1, work@, x as int, y as int, x, (y - 1) as usize, v);
                }
            }
            proof {
                let (xi, yi) = (x as int, y as int);
                if in_chunk(xi + 1, yi) {
                    lemma_raised_trans(c2, c3, c4);
                    lemma_raised_trans(c2, c4, *c);
                    lemma_light_mono(c2, *c, xi + 1, yi);
                }
                if in_chunk(xi, yi + 1) {
                    lemma_raised_trans(c3, c4, *c);
                    lemma_light_mono(c3, *c, xi, yi + 1);
                }
                if in_chunk(xi - 1, yi) {
                    lemma_light_mono(c4, *c, xi - 1, yi);
                }
            }
        }
        proof {
            lemma_block_pop(start, init, c_pre, w_pre, p, *c, work@);
            p = if w_pre.len() == p {
                p - 1
            } else {
                p
            };
        }
        assert(5 * deficit(c.cells(BlockLayer::Foreground)) + work@.len() < m0);
    }
}


/// Cell `(x, y)` is solid.
pub open spec fn solid_at(c: Chunk, x: int, y: int) -> bool {
    c.cell(BlockLayer::Foreground, x, y).is_solid
}

/// What it costs sun light to fall from above into `(x, y)`.
pub open spec fn fall_cost(c: Chunk, x: int, y: int) -> int {
    if solid_at(c, x, y) {
        SUN_STEP_COST as int
    } else {
        SUN_FALL_COST as int
    }
}

/// What sun light of level `e` at `(gx, gy)` hands to `(x, y)`: one level
/// less down into a clear cell, `SUN_STEP_COST` less down into a solid cell
/// or sideways; nothing (-1) elsewhere.
pub open spec fn sun_gift(c: Chunk, gx: int, gy: int, e: int, x: int, y: int) -> int {
    if x == gx && y == gy - 1 {
        e - fall_cost(c, x, y)
    } else if (x == gx + 1 || x == gx - 1) && y == gy {
        e - SUN_STEP_COST
    } else {
        -1
    }
}

/// Sun light of level `e` at `(x, y)` has reached the cells below and
/// beside it.
pub open spec fn sun_spread(c: Chunk, x: int, y: int, e: int) -> bool {
    &&& (in_chunk(x, y - 1) ==> light_at(c, x, y - 1) >= sun_gift(c, x, y, e, x, y - 1))
    &&& (in_chunk(x + 1, y) ==> light_at(c, x + 1, y) >= e - SUN_STEP_COST)
    &&& (in_chunk(x - 1, y) ==> light_at(c, x - 1, y) >= e - SUN_STEP_COST)
}

/// The sun light of `(x, y)` came from the cell above or beside it.
pub open spec fn sun_justified(a: Chunk, c: Chunk, init: Seq<LightItem>, x: int, y: int) -> bool {
    let l = light_at(c, x, y);
    let from_above = l + fall_cost(c, x, y);
    ||| fed_by(a, c, init, x, y + 1, from_above)
    ||| fed_by(a, c, init, x + 1, y, l + SUN_STEP_COST)
    ||| fed_by(a, c, init, x - 1, y, l + SUN_STEP_COST)
}

/// `b` is `a` after sun light has flooded from the items `init`: only
/// raised, every item and every raised cell has spread its level, and every
/// raised cell got its level from the cell above or beside it, itself
/// raised or queued.
pub open spec fn sun_flooded(a: Chunk, b: Chunk, init: Seq<LightItem>) -> bool {
    &&& b.wf()
    &&& raised_from(a, b)
    &&& forall|k: int| 0 <= k < init.len() ==> sun_spread(b, (#[trigger] init[k]).0 as int, init[k].1 as int, init[k].2 as int)
    &&& forall|x: int, y: int|
        in_chunk(x, y) && #[trigger] raised(a, b, x, y) ==> sun_spread(b, x, y, light_at(b, x, y))
            && sun_justified(a, b, init, x, y)
}

pub open spec fn sun_flood_inv(a: Chunk, init: Seq<LightItem>, c: Chunk, w: Seq<LightItem>, p: int) -> bool {
    &&& c.wf()
    &&& items_ok(w)
    &&& raised_from(a, c)
    &&& 0 <= p <= init.len()
    &&& p <= w.len()
    &&& w.subrange(0, p) == init.subrange(0, p)
    &&& forall|k: int| p <= k < init.len() ==> sun_spread(c, (#[trigger] init[k]).0 as int, init[k].1 as int, init[k].2 as int)
    &&& forall|m: int|
        p <= m < w.len() ==> light_at(c, (#[trigger] w[m]).0 as int, w[m].1 as int) >= w[m].2
            && raised(a, c, w[m].0 as int, w[m].1 as int)
    &&& forall|x: int, y: int|
        in_chunk(x, y) && #[trigger] raised(a, c, x, y) ==> sun_justified(a, c, init, x, y) && (
        sun_spread(c, x, y, light_at(c, x, y)) || exists|m: int|
            0 <= m < w.len() && (#[trigger] w[m]).0 == x && w[m].1 == y && w[m].2 == light_at(c, x, y))
}

/// What one expansion of sun light `e` at `(gx, gy)` has done so far.
pub open spec fn sun_expansion(c0: Chunk, c: Chunk, base: Seq<LightItem>, w: Seq<LightItem>, gx: int, gy: int, e: int) -> bool {
    &&& raised_from(c0, c)
    &&& c.wf()
    &&& items_ok(w)
    &&& base.len() <= w.len()
    &&& w.subrange(0, base.len() as int) == base
    &&& forall|m: int|
        base.len() <= m < w.len() ==> w[m].2 == sun_gift(c0, gx, gy, e, (#[trigger] w[m]).0 as int, w[m].1 as int)
            && light_at(c, w[m].0 as int, w[m].1 as int) == w[m].2 && raised(c0, c, w[m].0 as int, w[m].1 as int)
    &&& forall|x: int, y: int|
        in_chunk(x, y) && #[trigger] raised(c0, c, x, y) ==> light_at(c, x, y) == sun_gift(c0, gx, gy, e, x, y)
            && exists|m: int| base.len() <= m < w.len() && (#[trigger] w[m]).0 == x && w[m].1 == y
}

pub(crate) proof fn lemma_solid_kept(a: Chunk, b: Chunk, x: int, y: int)
    requires
        raised_from(a, b),
        in_chunk(x, y),
    ensures
        solid_at(b, x, y) == solid_at(a, x, y),
{
    crate::chunk::lemma_cell_index(x, y);
    assert(raised_at(a, b, cell_index(x, y)));
}

pub(crate) proof fn lemma_sun_expansion_start(c: Chunk, w: Seq<LightItem>, gx: int, gy: int, e: int)
    requires
        c.wf(),
        items_ok(w),
    ensures
        sun_expansion(c, c, w, w, gx, gy, e),
{
    lemma_raised_refl(c);
    assert(w.subrange(0, w.len() as int) =~= w);
}

pub(crate) proof fn lemma_sun_expansion_step(
    c0: Chunk,
    c1: Chunk,
    c2: Chunk,
    base: Seq<LightItem>,
    w1: Seq<LightItem>,
    w2: Seq<LightItem>,
    gx: int,
    gy: int,
    e: int,
    nx: usize,
    ny: usize,
    v: u8,
)
    requires
        sun_expansion(c0, c1, base, w1, gx, gy, e),
        v == sun_gift(c0, gx, gy, e, nx as int, ny as int),
        in_chunk(nx as int, ny as int),
        c2.wf(),
        items_ok(w2),
        raised_from(c1, c2),
        light_at(c1, nx as int, ny as int) < v ==> light_at(c2, nx as int, ny as int) == v && w2
            == w1.push((nx, ny, v)),
        light_at(c1, nx as int, ny as int) >= v ==> c2 == c1 && w2 == w1,
        forall|x1: int, y1: int|
            in_chunk(x1, y1) && (x1 != nx || y1 != ny) ==> #[trigger] c2.cell(
                BlockLayer::Foreground,
                x1,
                y1,
            ) == c1.cell(BlockLayer::Foreground, x1, y1),
    ensures
        sun_expansion(c0, c2, base, w2, gx, gy, e),
{
    lemma_raised_trans(c0, c1, c2);
    if light_at(c1, nx as int, ny as int) < v {
        assert(w2.subrange(0, base.len() as int) =~= w1.subrange(0, base.len() as int));
        assert forall|m: int| base.len() <= m < w2.len() implies w2[m].2 == sun_gift(
            c0,
            gx,
            gy,
            e,
            (#[trigger] w2[m]).0 as int,
            w2[m].1 as int,
        ) && light_at(c2, w2[m].0 as int, w2[m].1 as int) == w2[m].2 && raised(
            c0,
            c2,
            w2[m].0 as int,
            w2[m].1 as int,
        ) by {
            if m < w1.len() {
                assert(w2[m] == w1[m]);
                let (x1, y1) = (w1[m].0 as int, w1[m].1 as int);
                assert(raised(c0, c1, x1, y1));
                if x1 == nx && y1 == ny {
                    assert(light_at(c1, x1, y1) == v);
                } else {
                    assert(c2.cell(BlockLayer::Foreground, x1, y1) == c1.cell(BlockLayer::Foreground, x1, y1));
                }
            } else {
                lemma_light_mono(c0, c1, nx as int, ny as int);
            }
        }
        assert forall|x: int, y: int| in_chunk(x, y) && #[trigger] raised(c0, c2, x, y) implies light_at(
            c2,
            x,
            y,
        ) == sun_gift(c0, gx, gy, e, x, y) && exists|m: int|
            base.len() <= m < w2.len() && (#[trigger] w2[m]).0 == x && w2[m].1 == y by {
            if x == nx && y == ny {
                assert(w2[w1.len() as int] == (nx, ny, v));
            } else {
                assert(c2.cell(BlockLayer::Foreground, x, y) == c1.cell(BlockLayer::Foreground, x, y));
                assert(raised(c0, c1, x, y));
                let m = choose|m: int| base.len() <= m < w1.len() && (#[trigger] w1[m]).0 == x && w1[m].1 == y;
                assert(w2[m] == w1[m]);
            }
        }
    }
}

pub(crate) proof fn lemma_sun_spread_mono(c1: Chunk, c2: Chunk, x: int, y: int, e: int)
    requires
        raised_from(c1, c2),
        sun_spread(c1, x, y, e),
    ensures
        sun_spread(c2, x, y, e),
{
    if in_chunk(x, y - 1) {
        lemma_light_mono(c1, c2, x, y - 1);
        lemma_solid_kept(c1, c2, x, y - 1);
    }
    if in_chunk(x + 1, y) {
        lemma_light_mono(c1, c2, x + 1, y);
    }
    if in_chunk(x - 1, y) {
        lemma_light_mono(c1, c2, x - 1, y);
    }
}

pub(crate) proof fn lemma_sun_justified_mono(a: Chunk, c1: Chunk, c2: Chunk, init: Seq<LightItem>, x: int, y: int)
    requires
        raised_from(c1, c2),
        in_chunk(x, y),
        sun_justified(a, c1, init, x, y),
        light_at(c1, x, y) == light_at(c2, x, y),
    ensures
        sun_justified(a, c2, init, x, y),
{
    lemma_solid_kept(c1, c2, x, y);
    let l = light_at(c1, x, y);
    let from_above = l + fall_cost(c1, x, y);
    if fed_by(a, c1, init, x, y + 1, from_above) {
        lemma_fed_mono(a, c1, c2, init, x, y + 1, from_above);
    } else if fed_by(a, c1, init, x + 1, y, l + SUN_STEP_COST) {
        lemma_fed_mono(a, c1, c2, init, x + 1, y, l + SUN_STEP_COST);
    } else {
        lemma_fed_mono(a, c1, c2, init, x - 1, y, l + SUN_STEP_COST);
    }
}


pub(crate) proof fn lemma_sun_gift_justifies(
    a: Chunk,
    c_pre: Chunk,
    c_post: Chunk,
    init: Seq<LightItem>,
    gx: int,
    gy: int,
    e: int,
    x: int,
    y: int,
)
    requires
        raised_from(c_pre, c_post),
        in_chunk(x, y),
        raised(c_pre, c_post, x, y),
        light_at(c_post, x, y) == sun_gift(c_pre, gx, gy, e, x, y),
        fed_by(a, c_post, init, gx, gy, e),
    ensures
        sun_justified(a, c_post, init, x, y),
{
    lemma_solid_kept(c_pre, c_post, x, y);
    lemma_light_mono(c_pre, c_post, x, y);
    let l = light_at(c_post, x, y);
    assert(l >= 0);
    if x == gx && y == gy - 1 {
        assert(fed_by(a, c_post, init, x, y + 1, e));
    } else if x == gx + 1 && y == gy {
        assert(fed_by(a, c_post, init, x - 1, y, l + SUN_STEP_COST));
    } else {
        assert(x == gx - 1 && y == gy);
        assert(fed_by(a, c_post, init, x + 1, y, l + SUN_STEP_COST));
    }
}

#[verifier::spinoff_prover]
#[verifier::rlimit(80)]
pub(crate) proof fn lemma_sun_pop(
    a: Chunk,
    init: Seq<LightItem>,
    c_pre: Chunk,
    w_pre: Seq<LightItem>,
    p: int,
    c_post: Chunk,
    w_post: Seq<LightItem>,
)
    requires
        sun_flood_inv(a, init, c_pre, w_pre, p),
        items_ok(init),
        items_lit(a, init),
        w_pre.len() > 0,
        sun_expansion(
            c_pre,
            c_post,
            w_pre.drop_last(),
            w_post,
            w_pre.last().0 as int,
            w_pre.last().1 as int,
            w_pre.last().2 as int,
        ),
        sun_spread(c_post, w_pre.last().0 as int, w_pre.last().1 as int, w_pre.last().2 as int),
    ensures
        sun_flood_inv(a, init, c_post, w_post, if w_pre.len() == p { p - 1 } else { p }),
{
    let g = w_pre.last();
    let (gx, gy, e) = (g.0 as int, g.1 as int, g.2 as int);
    let base = w_pre.drop_last();
    let q = if w_pre.len() == p { p - 1 } else { p };
    let n = w_pre.len() - 1;
    assert(item_ok(w_pre[n]));
    lemma_raised_trans(a, c_pre, c_post);
    assert(w_post.subrange(0, q) =~= init.subrange(0, q)) by {
        assert forall|i: int| 0 <= i < q implies w_post[i] == init[i] by {
            assert(w_post.subrange(0, base.len() as int)[i] == base[i]);
            assert(w_pre.subrange(0, p)[i] == init.subrange(0, p)[i]);
        }
    }
    assert forall|k: int| q <= k < init.len() implies sun_spread(
        c_post,
        (#[trigger] init[k]).0 as int,
        init[k].1 as int,
        init[k].2 as int,
    ) by {
        if k >= p {
            lemma_sun_spread_mono(c_pre, c_post, init[k].0 as int, init[k].1 as int, init[k].2 as int);
        } else {
            assert(w_pre.subrange(0, p)[k] == init.subrange(0, p)[k]);
        }
    }
    assert forall|m: int| q <= m < w_post.len() implies light_at(
        c_post,
        (#[trigger] w_post[m]).0 as int,
        w_post[m].1 as int,
    ) >= w_post[m].2 && raised(a, c_post, w_post[m].0 as int, w_post[m].1 as int) by {
        if m < base.len() {
            assert(w_post.subrange(0, base.len() as int)[m] == base[m]);
            assert(w_post[m] == w_pre[m]);
            assert(item_ok(w_pre[m]));
            lemma_light_mono(c_pre, c_post, w_pre[m].0 as int, w_pre[m].1 as int);
        } else {
            assert(item_ok(w_post[m]));
            lemma_light_mono(a, c_pre, w_post[m].0 as int, w_post[m].1 as int);
        }
    }
    assert(fed_by(a, c_post, init, gx, gy, e)) by {
        lemma_light_mono(c_pre, c_post, gx, gy);
        if n >= p {
            lemma_light_mono(a, c_pre, gx, gy);
        } else {
            assert(w_pre.subrange(0, p)[n] == init.subrange(0, p)[n]);
            assert(init[n] == g);
            lemma_light_mono(a, c_pre, gx, gy);
        }
    }
    assert forall|x: int, y: int| in_chunk(x, y) && #[trigger] raised(a, c_post, x, y) implies sun_justified(
        a,
        c_post,
        init,
        x,
        y,
    ) && (sun_spread(c_post, x, y, light_at(c_post, x, y)) || exists|m: int|
        0 <= m < w_post.len() && (#[trigger] w_post[m]).0 == x && w_post[m].1 == y && w_post[m].2
            == light_at(c_post, x, y)) by {
        lemma_light_mono(c_pre, c_post, x, y);
        if raised(c_pre, c_post, x, y) {
            let m = choose|m: int| base.len() <= m < w_post.len() && (#[trigger] w_post[m]).0 == x && w_post[m].1 == y;
            assert(w_post[m].2 == light_at(c_post, x, y));
            lemma_sun_gift_justifies(a, c_pre, c_post, init, gx, gy, e, x, y);
        } else {
            lemma_light_mono(a, c_pre, x, y);
            assert(raised(a, c_pre, x, y));
            lemma_sun_justified_mono(a, c_pre, c_post, init, x, y);
            if sun_spread(c_pre, x, y, light_at(c_pre, x, y)) {
                lemma_sun_spread_mono(c_pre, c_post, x, y, light_at(c_pre, x, y));
            } else {
                let m = choose|m: int|
                    0 <= m < w_pre.len() && (#[trigger] w_pre[m]).0 == x && w_pre[m].1 == y && w_pre[m].2
                        == light_at(c_pre, x, y);
                if m < n {
                    assert(w_post.subrange(0, base.len() as int)[m] == base[m]);
                    assert(w_post[m] == w_pre[m]);
                }
            }
        }
    }
}

/// Spreads sun light from the queued items until nothing more can be
/// raised: down at a cost of `SUN_FALL_COST` (`SUN_STEP_COST` into a solid
/// cell), sideways at `SUN_STEP_COST`, wherever the carried level is above
/// what the neighbour holds. The queue is worked as a stack.
/// Light only ever rises, and stays within the light range; every item and
/// every raised cell ends up spread, and every raised cell owes its level
/// to the cell above or beside it.
pub fn flood_sun(c: &mut Chunk, work: &mut Vec<LightItem>)
    requires
        old(c).wf(),
        items_ok(old(work)@),
        items_lit(*old(c), old(work)@),
    ensures
        sun_flooded(*old(c), *final(c), old(work)@),
        final(work)@.len() == 0,
{
    let ghost start = *c;
    let ghost init = work@;
    let ghost mut p: int = init.len() as int;
    proof {
        lemma_raised_refl(*c);
        assert(work@.subrange(0, p) =~= init.subrange(0, p));
    }
    while work.len() > 0
        invariant
            sun_flood_inv(start, init, *c, work@, p),
            items_ok(init),
            items_lit(start, init),
        decreases 5 * deficit(c.cells(BlockLayer::Foreground)) + work@.len(),
    {
        let ghost m0 = 5 * deficit(c.cells(BlockLayer::Foreground)) + work@.len();
        let ghost w_pre = work@;
        let ghost c_pre = *c;
        let it = work.pop().unwrap();
        assert(item_ok(it)) by {
            assert(it == w_pre[w_pre.len() - 1]);
        }
        proof {
            assert(work@ =~= w_pre.drop_last());
            assert(items_ok(work@)) by {
                assert forall|k: int| 0 <= k < work@.len() implies item_ok(#[trigger] work@[k]) by {
                    assert(work@[k] == w_pre[k]);
                }
            }
        }
        let (x, y, e) = it;
        let ghost base = work@;
        let ghost ei = e as int;
        proof {
            lemma_sun_expansion_start(*c, work@, x as int, y as int, ei);
        }
        let ghost c1 = *c;
        if y > 0 {
            let below = c.block(x, y - 1, BlockLayer::Foreground);
            let cost = if below.is_solid {
                SUN_STEP_COST
            } else {
                SUN_FALL_COST
            };
            if e >= cost {
                let ghost w1 = work@;
                try_raise(c, work, x, y - 1, e - cost);
                proof {
                    lemma_sun_expansion_step(c_pre, c1, *c, base, w1, work@, x as int, y as int, ei, x, (y - 1) as usize, (e - cost) as u8);
                }
            }
        }
        let ghost c2 = *c;
        if e >= SUN_STEP_COST {
            if x + 1 < CHUNK_WIDTH {
                let ghost w1 = work@;
                try_raise(c, work, x + 1, y, e - SUN_STEP_COST);
                proof {
                    lemma_sun_expansion_step(c_pre, c2, *c, base, w1, work@, x as int, y as int, ei, (x + 1) as usize, y, (e - SUN_STEP_COST) as u8);
                }
            }
        }
        let ghost c3 = *c;
        if e >= SUN_STEP_COST {
            if x > 0 {
                let ghost w1 = work@;
                try_raise(c, work, x - 1, y, e - SUN_STEP_COST);
                proof {
                    lemma_sun_expansion_step(c_pre, c3, *c, base, w1, work@, x as int, y as int, ei, (x - 1) as usize, y, (e - SUN_STEP_COST) as u8);
                }
            }
        }
        proof {
            let (xi, yi) = (x as int, y as int);
            lemma_raised_trans(c2, c3, *c);
            lemma_raised_trans(c1, c2, *c);
            if in_chunk(xi, yi - 1) {
                lemma_light_mono(c2, *c, xi, yi - 1);
                lemma_solid_kept(c_pre, *c, xi, yi - 1);
                lemma_solid_kept(c_pre, c1, xi, yi - 1);
            }
            if in_chunk(xi + 1, yi) {
                lemma_light_mono(c3, *c, xi + 1, yi);
            }
            if in_chunk(xi - 1, yi) {
                lemma_light_mono(c_pre, *c, xi - 1, yi);
            }
        }
        proof {
            lemma_sun_pop(start, init, c_pre, w_pre, p, *c, work@);
            p = if w_pre.len() == p {
                p - 1
            } else {
                p
            };
        }
        assert(5 * deficit(c.cells(BlockLayer::Foreground)) + work@.len() < m0);
    }
}

} // verus!
