//! The 27 peer groups of the board: 9 rows, 9 columns and 9 boxes, and the
//! reverse table giving each cell its three owning groups.
use vstd::prelude::*;

verus! {

use crate::SUDOKU_BOX_SIZE;
use crate::SUDOKU_CELL_SIZE;
use crate::SUDOKU_GROUP_SIZE;

/// The `k`-th cell of row `g`, in row-major cell numbering.
pub open spec fn row_member(g: int, k: int) -> int {
    g * 9 + k
}

/// The `k`-th cell of column `g`.
pub open spec fn col_member(g: int, k: int) -> int {
    k * 9 + g
}

/// The `k`-th cell of box `g`, boxes numbered left to right, top to bottom.
pub open spec fn box_member(g: int, k: int) -> int {
    (g % 3) * 3 + (g / 3) * 27 + (k / 3) * 9 + k % 3
}

/// The `k`-th cell of group `g`: groups 0..9 are rows, 9..18 columns,
/// 18..27 boxes.
pub open spec fn group_member(g: int, k: int) -> int {
    if g < 9 {
        row_member(g, k)
    } else if g < 18 {
        col_member(g - 9, k)
    } else {
        box_member(g - 18, k)
    }
}

/// The group, among the 27, that holds cell `c` as its row (`j == 0`),
/// column (`j == 1`) or box (`j == 2`).
pub open spec fn cell_owner(c: int, j: int) -> int {
    if j == 0 {
        c / 9
    } else if j == 1 {
        9 + c % 9
    } else {
        18 + ((c / 9) / 3) * 3 + (c % 9) / 3
    }
}

/// Division of a small number by the box width stays under the box width.
pub proof fn lemma_div3(x: int)
    by (nonlinear_arith)
    requires
        0 <= x < 9,
    ensures
        0 <= x / 3 < 3,
{
}

/// Base-3 decomposition: quotient and remainder of `u * 3 + v`.
pub proof fn lemma_base3(u: int, v: int)
    by (nonlinear_arith)
    requires
        0 <= u,
        0 <= v < 3,
    ensures
        (u * 3 + v) / 3 == u,
        (u * 3 + v) % 3 == v,
{
}

/// Division of a cell index by the row width stays under the row count.
pub proof fn lemma_div9(x: int)
    by (nonlinear_arith)
    requires
        0 <= x < 81,
    ensures
        0 <= x / 9 < 9,
        0 <= x % 9 < 9,
{
}

/// Every group member is a cell index on the board.
pub proof fn lemma_group_member_bounds(g: int, k: int)
    requires
        0 <= g < 27,
        0 <= k < 9,
    ensures
        0 <= group_member(g, k) < 81,
{
    if g < 9 {
    } else if g < 18 {
    } else {
        let b = g - 18;
        lemma_div3(b);
        lemma_div3(k);
    }
}

/// Every cell stands in each of its three owning groups.
pub proof fn lemma_cell_in_own_group(c: int, j: int)
    requires
        0 <= c < 81,
        0 <= j < 3,
    ensures
        exists|k: int| 0 <= k < 9 && #[trigger] group_member(cell_owner(c, j), k) == c,
{
    lemma_div9(c);
    let r = c / 9;
    let cc = c % 9;
    if j == 0 {
        assert(group_member(cell_owner(c, 0), cc) == c);
    } else if j == 1 {
        assert(group_member(cell_owner(c, 1), r) == c);
    } else {
        lemma_div3(r);
        lemma_div3(cc);
        let b = (r / 3) * 3 + cc / 3;
        lemma_base3(r / 3, cc / 3);
        let k = (r % 3) * 3 + cc % 3;
        lemma_base3(r % 3, cc % 3);
        assert(box_member(b, k) == (cc / 3) * 3 + (r / 3) * 27 + (r % 3) * 9 + cc % 3);
        assert(r == 3 * (r / 3) + r % 3);
        assert(cc == 3 * (cc / 3) + cc % 3);
        assert(box_member(b, k) == c);
        assert(group_member(cell_owner(c, 2), k) == c);
    }
}

/// Precomputed member lists of the 27 groups.
pub struct SudokuGroupGenBuilder {
    pub groups: Vec<Vec<usize>>,
}

impl SudokuGroupGenBuilder {
    /// The member table lists, for each of the 27 groups, its nine cells.
    pub open spec fn wf(&self) -> bool {
        &&& self.groups@.len() == 27
        &&& forall|g: int| 0 <= g < 27 ==> (#[trigger] self.groups@[g])@.len() == 9
        &&& forall|g: int, k: int|
            0 <= g < 27 && 0 <= k < 9 ==> (#[trigger] self.groups@[g]@[k]) as int == group_member(
                g,
                k,
            )
    }

    /// Builds the member lists of all 27 groups by formula.
    pub fn new() -> (r: SudokuGroupGenBuilder)
        ensures
            r.wf(),
    {
        let mut groups: Vec<Vec<usize>> = Vec::new();

        let mut row: usize = 0;
        while row < SUDOKU_GROUP_SIZE
            invariant
                row <= 9,
                groups@.len() == row,
                forall|g: int| 0 <= g < row ==> (#[trigger] groups@[g])@.len() == 9,
                forall|g: int, k: int|
                    0 <= g < row && 0 <= k < 9 ==> (#[trigger] groups@[g]@[k]) as int
                        == group_member(g, k),
            decreases 9 - row,
        {
            let lower = row * SUDOKU_GROUP_SIZE;
            let mut indexes: Vec<usize> = Vec::new();
            let mut k: usize = 0;
            while k < SUDOKU_GROUP_SIZE
                invariant
                    k <= 9,
                    row < 9,
                    lower == row * 9,
                    indexes@.len() == k,
                    forall|i: int| 0 <= i < k ==> (#[trigger] indexes@[i]) as int == row * 9 + i,
                decreases 9 - k,
            {
                indexes.push(lower + k);
                k = k + 1;
            }
            groups.push(indexes);
            row = row + 1;
        }

        let mut column: usize = 0;
        while column < SUDOKU_GROUP_SIZE
            invariant
                column <= 9,
                groups@.len() == 9 + column,
                forall|g: int| 0 <= g < 9 + column ==> (#[trigger] groups@[g])@.len() == 9,
                forall|g: int, k: int|
                    0 <= g < 9 + column && 0 <= k < 9 ==> (#[trigger] groups@[g]@[k]) as int
                        == group_member(g, k),
            decreases 9 - column,
        {
            let mut indexes: Vec<usize> = Vec::new();
            let mut k: usize = 0;
            while k < SUDOKU_GROUP_SIZE
                invariant
                    k <= 9,
                    column < 9,
                    indexes@.len() == k,
                    forall|i: int| 0 <= i < k ==> (#[trigger] indexes@[i]) as int == i * 9 + column,
                decreases 9 - k,
            {
                indexes.push(column + k * SUDOKU_GROUP_SIZE);
                k = k + 1;
            }
            groups.push(indexes);
            column = column + 1;
        }

        let mut box_index: usize = 0;
        while box_index < SUDOKU_GROUP_SIZE
            invariant
                box_index <= 9,
                groups@.len() == 18 + box_index,
                forall|g: int| 0 <= g < 18 + box_index ==> (#[trigger] groups@[g])@.len() == 9,
                forall|g: int, k: int|
                    0 <= g < 18 + box_index && 0 <= k < 9 ==> (#[trigger] groups@[g]@[k]) as int
                        == group_member(g, k),
            decreases 9 - box_index,
        {
            let offset = (box_index % SUDOKU_BOX_SIZE) * SUDOKU_BOX_SIZE + (box_index
                / SUDOKU_BOX_SIZE) * SUDOKU_GROUP_SIZE * SUDOKU_BOX_SIZE;
            proof {
                lemma_div3(box_index as int);
            }
            let mut indexes: Vec<usize> = Vec::new();
            let mut brow: usize = 0;
            while brow < SUDOKU_BOX_SIZE
                invariant
                    brow <= 3,
                    box_index < 9,
                    offset == (box_index % 3) * 3 + (box_index / 3) * 27,
                    offset <= 60,
                    indexes@.len() == brow * 3,
                    forall|i: int|
                        0 <= i < brow * 3 ==> (#[trigger] indexes@[i]) as int == box_member(
                            box_index as int,
                            i,
                        ),
                decreases 3 - brow,
            {
                let mut bcol: usize = 0;
                while bcol < SUDOKU_BOX_SIZE
                    invariant
                        bcol <= 3,
                        brow < 3,
                        box_index < 9,
                        offset == (box_index % 3) * 3 + (box_index / 3) * 27,
                        offset <= 60,
                        indexes@.len() == brow * 3 + bcol,
                        forall|i: int|
                            0 <= i < brow * 3 + bcol ==> (#[trigger] indexes@[i]) as int
                                == box_member(box_index as int, i),
                    decreases 3 - bcol,
                {
                    indexes.push(brow * SUDOKU_GROUP_SIZE + bcol + offset);
                    proof {
                        lemma_base3(brow as int, bcol as int);
                    }
                    bcol = bcol + 1;
                }
                brow = brow + 1;
            }
            groups.push(indexes);
            box_index = box_index + 1;
        }

        SudokuGroupGenBuilder { groups }
    }

    /// Starts a fresh walk over the 27 groups.
    pub fn create(&self) -> (r: SudokuGroupGen<'_>)
        ensures
            r.index == 0,
            r.groups == self.groups,
    {
        SudokuGroupGen { index: 0, groups: &self.groups }
    }
}

/// For each cell, the member lists of its three owning groups: row first,
/// then column, then box.
pub type SudokuCellGroups = Vec<Vec<Vec<usize>>>;

/// The reverse table is complete: entry `c` holds, in order, the nine
/// members of the row, the column and the box that own cell `c`.
pub open spec fn cell_groups_ok(t: SudokuCellGroups) -> bool {
    &&& t@.len() == 81
    &&& forall|c: int| 0 <= c < 81 ==> (#[trigger] t@[c])@.len() == 3
    &&& forall|c: int, j: int|
        0 <= c < 81 && 0 <= j < 3 ==> (#[trigger] t@[c]@[j])@.len() == 9
    &&& forall|c: int, j: int, k: int|
        0 <= c < 81 && 0 <= j < 3 && 0 <= k < 9 ==> (#[trigger] t@[c]@[j]@[k]) as int
            == group_member(cell_owner(c, j), k)
}

/// Every owning group of a cell is one of the 27 groups.
pub proof fn lemma_cell_owner_bounds(c: int, j: int)
    requires
        0 <= c < 81,
        0 <= j < 3,
    ensures
        0 <= cell_owner(c, j) < 27,
        j == 0 ==> 0 <= cell_owner(c, j) < 9,
        j == 1 ==> 9 <= cell_owner(c, j) < 18,
        j == 2 ==> 18 <= cell_owner(c, j) < 27,
{
    lemma_div9(c);
    if j == 2 {
        lemma_div3(c / 9);
        lemma_div3(c % 9);
    }
}

/// Builds the reverse table from cell index to its three owning groups.
pub fn create_group_index_set() -> (r: SudokuCellGroups)
    ensures
        cell_groups_ok(r),
{
    let mut groups: SudokuCellGroups = Vec::new();
    let mut cell_index: usize = 0;
    while cell_index < SUDOKU_CELL_SIZE
        invariant
            cell_index <= 81,
            groups@.len() == cell_index,
            forall|c: int| 0 <= c < cell_index ==> (#[trigger] groups@[c])@.len() == 3,
            forall|c: int, j: int|
                0 <= c < cell_index && 0 <= j < 3 ==> (#[trigger] groups@[c]@[j])@.len() == 9,
            forall|c: int, j: int, k: int|
                0 <= c < cell_index && 0 <= j < 3 && 0 <= k < 9 ==> (#[trigger] groups@[c]@[j]@[k])
                    as int == group_member(cell_owner(c, j), k),
        decreases 81 - cell_index,
    {
        proof {
            lemma_div9(cell_index as int);
            lemma_div3((cell_index as int) / 9);
            lemma_div3((cell_index as int) % 9);
        }
        let mut group_candidates: Vec<Vec<usize>> = Vec::new();
        let row_number = cell_index / SUDOKU_GROUP_SIZE;
        let row_lower = row_number * SUDOKU_GROUP_SIZE;
        let mut row: Vec<usize> = Vec::new();
        let mut k: usize = 0;
        while k < SUDOKU_GROUP_SIZE
            invariant
                k <= 9,
                row_number < 9,
                row_lower == row_number * 9,
                row@.len() == k,
                forall|i: int| 0 <= i < k ==> (#[trigger] row@[i]) as int == row_number * 9 + i,
            decreases 9 - k,
        {
            row.push(row_lower + k);
            k = k + 1;
        }
        group_candidates.push(row);

        let column_number = cell_index % SUDOKU_GROUP_SIZE;
        let mut column: Vec<usize> = Vec::new();
        k = 0;
        while k < SUDOKU_GROUP_SIZE
            invariant
                k <= 9,
                column_number < 9,
                column@.len() == k,
                forall|i: int|
                    0 <= i < k ==> (#[trigger] column@[i]) as int == i * 9 + column_number,
            decreases 9 - k,
        {
            column.push(column_number + k * SUDOKU_GROUP_SIZE);
            k = k + 1;
        }
        group_candidates.push(column);

        let box_offset = (row_number / SUDOKU_BOX_SIZE) * SUDOKU_BOX_SIZE * SUDOKU_GROUP_SIZE + (
        column_number / SUDOKU_BOX_SIZE) * SUDOKU_BOX_SIZE;
        let ghost bx: int = ((cell_index as int) / 9 / 3) * 3 + ((cell_index as int) % 9) / 3;
        proof {
            lemma_base3((cell_index as int) / 9 / 3, ((cell_index as int) % 9) / 3);
        }
        let mut cell_box: Vec<usize> = Vec::new();
        let mut row_offset: usize = 0;
        while row_offset < SUDOKU_BOX_SIZE
            invariant
                row_offset <= 3,
                row_number < 9,
                column_number < 9,
                box_offset == (row_number / 3) * 27 + (column_number / 3) * 3,
                box_offset <= 60,
                bx == ((row_number as int) / 3) * 3 + (column_number as int) / 3,
                0 <= bx < 9,
                bx % 3 == (column_number as int) / 3,
                bx / 3 == (row_number as int) / 3,
                cell_box@.len() == row_offset * 3,
                forall|i: int|
                    0 <= i < row_offset * 3 ==> (#[trigger] cell_box@[i]) as int == box_member(
                        bx,
                        i,
                    ),
            decreases 3 - row_offset,
        {
            let mut column_offset: usize = 0;
            while column_offset < SUDOKU_BOX_SIZE
                invariant
                    column_offset <= 3,
                    row_offset < 3,
                    row_number < 9,
                    column_number < 9,
                    box_offset == (row_number / 3) * 27 + (column_number / 3) * 3,
                    box_offset <= 60,
                    bx == ((row_number as int) / 3) * 3 + (column_number as int) / 3,
                    0 <= bx < 9,
                    bx % 3 == (column_number as int) / 3,
                    bx / 3 == (row_number as int) / 3,
                    cell_box@.len() == row_offset * 3 + column_offset,
                    forall|i: int|
                        0 <= i < row_offset * 3 + column_offset ==> (#[trigger] cell_box@[i]) as int
                            == box_member(bx, i),
                decreases 3 - column_offset,
            {
                cell_box.push(row_offset * SUDOKU_GROUP_SIZE + column_offset + box_offset);
                proof {
                    lemma_base3(row_offset as int, column_offset as int);
                }
                column_offset = column_offset + 1;
            }
            row_offset = row_offset + 1;
        }
        group_candidates.push(cell_box);
        groups.push(group_candidates);
        proof {
            let c = cell_index as int;
            assert(groups@[c]@.len() == 3);
            assert(forall|j: int, k: int|
                0 <= j < 3 && 0 <= k < 9 ==> (#[trigger] groups@[c]@[j]@[k]) as int == group_member(
                    cell_owner(c, j),
                    k,
                ));
        }
        cell_index = cell_index + 1;
    }
    groups
}

/// Generator walking the member lists of the 27 groups in order.
pub struct SudokuGroupGen<'a> {
    pub index: usize,
    pub groups: &'a Vec<Vec<usize>>,
}

impl<'a> SudokuGroupGen<'a> {
    /// Hands out the member list of the next group, if one is left.
    pub fn next(&mut self) -> (r: Option<&'a Vec<usize>>)
        ensures
            final(self).groups == old(self).groups,
            old(self).index < old(self).groups@.len() ==> {
                &&& final(self).index == old(self).index + 1
                &&& r matches Some(v) && v@ == old(self).groups@[old(self).index as int]@
            },
            old(self).index >= old(self).groups@.len() ==> {
                &&& final(self).index == old(self).index
                &&& r is None
            },
    {
        if self.index < self.groups.len() {
            let indexes = &self.groups[self.index];
            self.index = self.index + 1;
            Some(indexes)
        } else {
            None
        }
    }
}

} // verus!
