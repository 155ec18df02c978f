//! Prefabricated patterns of block ids, stamped into the world.

use vstd::prelude::*;

use crate::block::{BlockDatabase, LEAVES, LOG, STONE};

verus! {

/// A pattern of block ids, row 0 at the base and the last row at the top.
/// Each grid is indexed `[row][column]`.
pub struct BlockStructure {
    pub data: Vec<Vec<u32>>,
    pub bg_data: Vec<Vec<u32>>,
    /// Whether air (id 0) in the pattern is written too.
    pub fill_air: bool,
}

/// Row `j` (counted from the base) of a tree with `logs` trunk cells.
pub open spec fn tree_row(logs: nat, j: int) -> Seq<u32> {
    if j < logs {
        seq![0, 0, LOG, 0, 0]
    } else if j < logs + 2 {
        seq![LEAVES, LEAVES, LEAVES, LEAVES, LEAVES]
    } else {
        seq![0, LEAVES, LEAVES, LEAVES, 0]
    }
}

/// Row `j` (counted from the base) of a house.
pub open spec fn house_row(j: int) -> Seq<u32> {
    if j == 0 || j == 4 {
        seq![STONE, STONE, STONE, STONE, STONE, STONE]
    } else if j == 3 {
        seq![STONE, 0, 0, 0, 0, STONE]
    } else {
        seq![0, 0, 0, 0, 0, 0]
    }
}

/// A row of `n` copies of `id`.
fn filled_row(id: u32, n: usize) -> (r: Vec<u32>)
    ensures
        r@ == Seq::new(n as nat, |i: int| id),
{
    let mut v: Vec<u32> = Vec::new();
    let mut i: usize = 0;
    while i < n
        invariant
            i <= n,
            v@ == Seq::new(i as nat, |k: int| id),
        decreases n - i,
    {
        v.push(id);
        i = i + 1;
        assert(v@ =~= Seq::new(i as nat, |k: int| id));
    }
    v
}

impl BlockStructure {
    /// The foreground pattern as rows of ids.
    pub open spec fn fg_rows(&self) -> Seq<Seq<u32>> {
        self.data@.map_values(|r: Vec<u32>| r@)
    }

    /// The background pattern as rows of ids.
    pub open spec fn bg_rows(&self) -> Seq<Seq<u32>> {
        self.bg_data@.map_values(|r: Vec<u32>| r@)
    }

    pub open spec fn spec_height(&self) -> nat {
        self.data@.len()
    }

    pub open spec fn spec_width(&self) -> nat {
        self.data@[0]@.len()
    }

    /// At least one cell; every row of both grids as wide as the first.
    pub open spec fn wf(&self) -> bool {
        &&& self.data@.len() >= 1
        &&& self.spec_width() >= 1
        &&& self.bg_data@.len() == self.data@.len()
        &&& forall|j: int|
            0 <= j < self.data@.len() ==> (#[trigger] self.data@[j])@.len() == self.spec_width()
                && self.bg_data@[j]@.len() == self.spec_width()
    }

    /// The pattern cell that lands on cell `(x, y)` of a chunk when the
    /// structure's base-left corner sits at `(ax, ay)` of that chunk, and it
    /// is written (it is not air, or air is written too).
    pub open spec fn covers(&self, ax: int, ay: int, x: int, y: int) -> bool {
        let i = x - ax;
        let j = y - ay;
        &&& 0 <= j < self.spec_height()
        &&& 0 <= i < self.spec_width()
        &&& (self.fg_rows()[j][i] != 0 || self.fill_air)
    }

    /// Every id of the pattern has an entry in `catalog`.
    pub open spec fn known_by(&self, catalog: BlockDatabase) -> bool {
        forall|j: int, i: int|
            0 <= j < self.spec_height() && 0 <= i < self.spec_width() ==> catalog.knows(
                #[trigger] self.fg_rows()[j][i],
            ) && catalog.knows(self.bg_rows()[j][i])
    }

    /// A tree: a trunk of `logs` cells under a crown of leaves, five cells
    /// wide. Air in the pattern is not written and the background is air.
    pub fn new_tree(logs: u32) -> (r: BlockStructure)
        requires
            logs as int + 4 <= usize::MAX,
        ensures
            r.wf(),
            r.spec_height() == logs + 4,
            r.spec_width() == 5,
            forall|j: int| 0 <= j < logs + 4 ==> #[trigger] r.fg_rows()[j] == tree_row(logs as nat, j),
            forall|j: int| 0 <= j < logs + 4 ==> #[trigger] r.bg_rows()[j] == seq![0u32, 0, 0, 0, 0],
            !r.fill_air,
    {
        let mut data: Vec<Vec<u32>> = Vec::new();
        let mut bg_data: Vec<Vec<u32>> = Vec::new();
        let mut j: usize = 0;
        let height: usize = logs as usize + 4;
        while j < height
            invariant
                j <= height,
                height == logs + 4,
                data@.len() == j,
                bg_data@.len() == j,
                forall|k: int| 0 <= k < j ==> (#[trigger] data@[k])@ == tree_row(logs as nat, k),
                forall|k: int| 0 <= k < j ==> (#[trigger] bg_data@[k])@ == seq![0u32, 0, 0, 0, 0],
            decreases height - j,
        {
            let row: Vec<u32> = if j < logs as usize {
                vec![0, 0, LOG, 0, 0]
            } else if j < logs as usize + 2 {
                vec![LEAVES, LEAVES, LEAVES, LEAVES, LEAVES]
            } else {
                vec![0, LEAVES, LEAVES, LEAVES, 0]
            };
            assert(row@ =~= tree_row(logs as nat, j as int));
            data.push(row);
            let bg_row: Vec<u32> = filled_row(0, 5);
            assert(bg_row@ =~= seq![0u32, 0, 0, 0, 0]);
            bg_data.push(bg_row);
            j = j + 1;
        }
        let r = BlockStructure { data, bg_data, fill_air: false };
        assert(r.data@[0]@ == tree_row(logs as nat, 0));
        r
    }

    /// A house: stone floor, walls and roof around an empty room, six cells
    /// wide and five high, over a stone background. Air in the pattern is
    /// written too.
    pub fn new_house() -> (r: BlockStructure)
        ensures
            r.wf(),
            r.spec_height() == 5,
            r.spec_width() == 6,
            forall|j: int| 0 <= j < 5 ==> #[trigger] r.fg_rows()[j] == house_row(j),
            forall|j: int|
                0 <= j < 5 ==> #[trigger] r.bg_rows()[j] == seq![STONE, STONE, STONE, STONE, STONE, STONE],
            r.fill_air,
    {
        let mut data: Vec<Vec<u32>> = Vec::new();
        let mut bg_data: Vec<Vec<u32>> = Vec::new();
        let mut j: usize = 0;
        while j < 5
            invariant
                j <= 5,
                data@.len() == j,
                bg_data@.len() == j,
                forall|k: int| 0 <= k < j ==> (#[trigger] data@[k])@ == house_row(k),
                forall|k: int|
                    0 <= k < j ==> (#[trigger] bg_data@[k])@ == seq![STONE, STONE, STONE, STONE, STONE, STONE],
            decreases 5 - j,
        {
            let row: Vec<u32> = if j == 0 || j == 4 {
                filled_row(STONE, 6)
            } else if j == 3 {
                vec![STONE, 0, 0, 0, 0, STONE]
            } else {
                filled_row(0, 6)
            };
            assert(row@ =~= house_row(j as int));
            data.push(row);
            let bg_row: Vec<u32> = filled_row(STONE, 6);
            assert(bg_row@ =~= seq![STONE, STONE, STONE, STONE, STONE, STONE]);
            bg_data.push(bg_row);
            j = j + 1;
        }
        let r = BlockStructure { data, bg_data, fill_air: true };
        assert(r.data@[0]@ == house_row(0));
        r
    }

    /// Number of rows.
    pub fn height(&self) -> (r: usize)
        ensures
            r == self.spec_height(),
    {
        self.data.len()
    }

    /// Number of cells in a row.
    pub fn width(&self) -> (r: usize)
        requires
            self.data@.len() >= 1,
        ensures
            r == self.spec_width(),
    {
        self.data[0].len()
    }
}

} // verus!
