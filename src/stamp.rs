//! Writing a structure into a chunk and, across the right border, into its
//! neighbour.

use vstd::prelude::*;

use crate::block::{Block, BlockDatabase, BlockLayer};
use crate::block_structure::BlockStructure;
use crate::chunk::{cell_index, in_chunk, with_light, Chunk};
use crate::{CHUNK_HEIGHT, CHUNK_WIDTH};

verus! {

/// Cell `(x, y)` of layer `l` of `c` after `s` is stamped with its
/// base-left corner at `(ax, ay)` of `c`; a written cell keeps its light.
pub open spec fn stamped_cell(
    s: BlockStructure,
    catalog: BlockDatabase,
    c: Chunk,
    ax: int,
    ay: int,
    l: BlockLayer,
    x: int,
    y: int,
) -> Block {
    if s.covers(ax, ay, x, y) {
        match l {
            BlockLayer::Foreground => with_light(
                catalog.spec_block(s.fg_rows()[y - ay][x - ax]),
                c.cell(l, x, y).light,
            ),
            BlockLayer::Background => with_light(
                catalog.spec_block(s.bg_rows()[y - ay][x - ax]),
                c.cell(l, x, y).light,
            ),
        }
    } else {
        c.cell(l, x, y)
    }
}

/// Some pattern cell lands inside `c`.
pub open spec fn touches(s: BlockStructure, ax: int, ay: int) -> bool {
    exists|x: int, y: int| in_chunk(x, y) && #[trigger] s.covers(ax, ay, x, y)
}

/// Pattern cell `(j, i)` of `s`, stamped at `(ax, ay)`, lands inside the
/// chunk and is written.
pub open spec fn pattern_hit(s: BlockStructure, ax: int, ay: int, j: int, i: int) -> bool {
    in_chunk(ax + i, ay + j) && s.covers(ax, ay, ax + i, ay + j)
}

/// Cells written among the first `i` cells of pattern row `j`.
pub open spec fn row_hits(s: BlockStructure, ax: int, ay: int, j: int, i: nat) -> nat
    decreases i,
{
    if i == 0 {
        0
    } else {
        row_hits(s, ax, ay, j, (i - 1) as nat) + if pattern_hit(s, ax, ay, j, i - 1) {
            1nat
        } else {
            0nat
        }
    }
}

/// Cells written among the first `j` pattern rows.
pub open spec fn rows_hits(s: BlockStructure, ax: int, ay: int, j: nat) -> nat
    decreases j,
{
    if j == 0 {
        0
    } else {
        rows_hits(s, ax, ay, (j - 1) as nat) + row_hits(s, ax, ay, j - 1, s.spec_width())
    }
}

/// How many cells stamping `s` at `(ax, ay)` writes into a chunk.
pub open spec fn stamp_writes(s: BlockStructure, ax: int, ay: int) -> nat {
    rows_hits(s, ax, ay, s.spec_height())
}

proof fn lemma_row_hits_bound(s: BlockStructure, ax: int, ay: int, j: int, i: nat)
    requires
        ax >= -(CHUNK_WIDTH as int),
    ensures
        row_hits(s, ax, ay, j, i) <= if i < 2 * CHUNK_WIDTH {
            i as int
        } else {
            2 * CHUNK_WIDTH
        },
        !(0 <= ay + j < CHUNK_HEIGHT) ==> row_hits(s, ax, ay, j, i) == 0,
    decreases i,
{
    if i > 0 {
        lemma_row_hits_bound(s, ax, ay, j, (i - 1) as nat);
    }
}

proof fn lemma_rows_hits_bound(s: BlockStructure, ax: int, ay: int, j: nat)
    requires
        ax >= -(CHUNK_WIDTH as int),
        ay >= 0,
    ensures
        rows_hits(s, ax, ay, j) <= 2 * CHUNK_WIDTH * (if j < CHUNK_HEIGHT {
            j as int
        } else {
            CHUNK_HEIGHT as int
        }),
    decreases j,
{
    if j > 0 {
        lemma_rows_hits_bound(s, ax, ay, (j - 1) as nat);
        lemma_row_hits_bound(s, ax, ay, j - 1, s.spec_width());
    }
}

/// Stamps `s` with its base-left corner at `(ax, ay)` of `c`, writing the
/// pattern cells that fall inside `c` into both layers; the rest of the
/// pattern is dropped. Returns how many cells were written.
pub fn stamp_into(
    c: &mut Chunk,
    catalog: &BlockDatabase,
    s: &BlockStructure,
    ax: i64,
    ay: i64,
) -> (r: usize)
    requires
        old(c).wf(),
        catalog.wf(),
        s.wf(),
        s.known_by(*catalog),
        -(CHUNK_WIDTH as int) <= ax < CHUNK_WIDTH,
        0 <= ay < CHUNK_HEIGHT,
    ensures
        final(c).wf(),
        final(c).column() == old(c).column(),
        forall|l: BlockLayer, x: int, y: int|
            in_chunk(x, y) ==> #[trigger] final(c).cell(l, x, y) == stamped_cell(
                *s,
                *catalog,
                *old(c),
                ax as int,
                ay as int,
                l,
                x,
                y,
            ),
        r == stamp_writes(*s, ax as int, ay as int),
        r > 0 <==> touches(*s, ax as int, ay as int),
{
    let ghost c0 = *c;
    let h = s.height();
    let w = s.width();
    let mut hit = false;
    let mut count: usize = 0;
    let mut j: usize = 0;
    while j < h
        invariant
            j <= h,
            h == s.spec_height(),
            w == s.spec_width(),
            s.wf(),
            s.known_by(*catalog),
            catalog.wf(),
            c.wf(),
            c.column() == c0.column(),
            -(CHUNK_WIDTH as int) <= ax < CHUNK_WIDTH,
            0 <= ay < CHUNK_HEIGHT,
            forall|l: BlockLayer, x: int, y: int|
                in_chunk(x, y) ==> #[trigger] c.cell(l, x, y) == if y - ay < j {
                    stamped_cell(*s, *catalog, c0, ax as int, ay as int, l, x, y)
                } else {
                    c0.cell(l, x, y)
                },
            hit == exists|x: int, y: int|
                in_chunk(x, y) && y - ay < j && #[trigger] s.covers(ax as int, ay as int, x, y),
            hit == (count > 0),
            count == rows_hits(*s, ax as int, ay as int, j as nat),
        decreases h - j,
    {
        let mut i: usize = 0;
        while i < w
            invariant
                j < h,
                i <= w,
                h == s.spec_height(),
                w == s.spec_width(),
                s.wf(),
                s.known_by(*catalog),
                catalog.wf(),
                c.wf(),
                c.column() == c0.column(),
                -(CHUNK_WIDTH as int) <= ax < CHUNK_WIDTH,
                0 <= ay < CHUNK_HEIGHT,
                forall|l: BlockLayer, x: int, y: int|
                    in_chunk(x, y) ==> #[trigger] c.cell(l, x, y) == if y - ay < j || (y - ay == j
                        && x - ax < i) {
                        stamped_cell(*s, *catalog, c0, ax as int, ay as int, l, x, y)
                    } else {
                        c0.cell(l, x, y)
                    },
                hit == exists|x: int, y: int|
                    in_chunk(x, y) && (y - ay < j || (y - ay == j && x - ax < i))
                        && #[trigger] s.covers(ax as int, ay as int, x, y),
                hit == (count > 0),
                count == rows_hits(*s, ax as int, ay as int, j as nat) + row_hits(
                    *s,
                    ax as int,
                    ay as int,
                    j as int,
                    i as nat,
                ),
            decreases w - i,
        {
            let ghost hit0 = hit;
            let ghost count0 = count;
            let ghost cb = *c;
            proof {
                lemma_rows_hits_bound(*s, ax as int, ay as int, j as nat);
                lemma_row_hits_bound(*s, ax as int, ay as int, j as int, i as nat);
            }
            if i < 2 * CHUNK_WIDTH && j < CHUNK_HEIGHT {
                let x = ax + i as i64;
                let y = ay + j as i64;
                let id = s.data[j][i];
                if 0 <= x && x < CHUNK_WIDTH as i64 && y < CHUNK_HEIGHT as i64 && (id != 0
                    || s.fill_air) {
                    proof {
                        assert(s.fg_rows()[j as int][i as int] == id);
                        assert(s.data@[j as int]@.len() == w);
                        assert(catalog.knows(s.fg_rows()[j as int][i as int]));
                    }
                    let fg = catalog.get_by_id(id).unwrap();
                    let bg = catalog.get_by_id(s.bg_data[j][i]).unwrap();
                    c.set_block(x as usize, y as usize, BlockLayer::Foreground, fg);
                    c.set_block(x as usize, y as usize, BlockLayer::Background, bg);
                    hit = true;
                    count = count + 1;
                    proof {
                        assert(s.covers(ax as int, ay as int, x as int, y as int));
                        assert(pattern_hit(*s, ax as int, ay as int, j as int, i as int));
                    }
                }
            }
            proof {
                if count == count0 {
                    assert(s.data@[j as int]@.len() == w);
                    assert(!pattern_hit(*s, ax as int, ay as int, j as int, i as int));
                }
                assert(row_hits(*s, ax as int, ay as int, j as int, (i + 1) as nat) == row_hits(
                    *s,
                    ax as int,
                    ay as int,
                    j as int,
                    i as nat,
                ) + if pattern_hit(*s, ax as int, ay as int, j as int, i as int) {
                    1nat
                } else {
                    0nat
                });
                assert forall|l: BlockLayer, x: int, y: int| in_chunk(x, y) implies #[trigger] c.cell(
                    l,
                    x,
                    y,
                ) == if y - ay < j || (y - ay == j && x - ax < i + 1) {
                    stamped_cell(*s, *catalog, c0, ax as int, ay as int, l, x, y)
                } else {
                    c0.cell(l, x, y)
                } by {
                    assert(cb.cell(l, x, y) == if y - ay < j || (y - ay == j && x - ax < i) {
                        stamped_cell(*s, *catalog, c0, ax as int, ay as int, l, x, y)
                    } else {
                        c0.cell(l, x, y)
                    });
                    if y - ay == j && x - ax == i {
                        assert(s.data@[j as int]@.len() == w);
                    }
                }
                if hit == hit0 {
                    assert(hit == exists|x: int, y: int|
                        in_chunk(x, y) && (y - ay < j || (y - ay == j && x - ax < i + 1))
                            && #[trigger] s.covers(ax as int, ay as int, x, y)) by {
                        if !hit {
                            assert forall|x: int, y: int|
                                in_chunk(x, y) && (y - ay < j || (y - ay == j && x - ax < i + 1))
                                    implies !#[trigger] s.covers(ax as int, ay as int, x, y) by {
                                if y - ay == j && x - ax == i {
                                    assert(s.data@[j as int]@.len() == w);
                                }
                            }
                        }
                    }
                }
            }
            i = i + 1;
        }
        j = j + 1;
        proof {
            assert(rows_hits(*s, ax as int, ay as int, j as nat) == rows_hits(
                *s,
                ax as int,
                ay as int,
                (j - 1) as nat,
            ) + row_hits(*s, ax as int, ay as int, j - 1, w as nat));
            assert(hit == exists|x: int, y: int|
                in_chunk(x, y) && y - ay < j && #[trigger] s.covers(ax as int, ay as int, x, y)) by {
                if hit {
                    let (x, y) = choose|x: int, y: int|
                        in_chunk(x, y) && (y - ay < j - 1 || (y - ay == j - 1 && x - ax < w))
                            && #[trigger] s.covers(ax as int, ay as int, x, y);
                    assert(in_chunk(x, y) && y - ay < j && s.covers(ax as int, ay as int, x, y));
                }
            }
        }
    }
    count
}


/// `b` is `a` after `s` is stamped at `(ax, ay)` of `a`.
pub open spec fn stamped(
    s: BlockStructure,
    catalog: BlockDatabase,
    a: Chunk,
    b: Chunk,
    ax: int,
    ay: int,
) -> bool {
    &&& b.wf()
    &&& b.column() == a.column()
    &&& forall|l: BlockLayer, x: int, y: int|
        in_chunk(x, y) ==> #[trigger] b.cell(l, x, y) == stamped_cell(s, catalog, a, ax, ay, l, x, y)
}

} // verus!
