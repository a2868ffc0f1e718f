use vstd::prelude::*;
use crate::grid::{on_grid, is_digit, same_box};
use crate::groups::{in_group, group_cells, mask_union, at};
use crate::removal::{RemovalResult, Resolution};
use crate::strategy::Strategy;
use crate::sudoku::Sudoku;

verus! {

/// The digits 1..=9, flagged by whether `nums` lists each.
pub fn digit_flags(nums: &Vec<u8>) -> (m: Vec<bool>)
    ensures
        m@.len() == 9,
        forall|d: int| is_digit(d) ==> #[trigger] m@[d - 1] == nums@.contains(d as u8),
{
    let mut m: Vec<bool> = Vec::new();
    let mut d: u8 = 1;
    while d <= 9
        invariant
            1 <= d <= 10,
            m@.len() == d - 1,
            forall|e: int| 1 <= e < d ==> #[trigger] m@[e - 1] == nums@.contains(e as u8),
        decreases 10 - d,
    {
        let mut found = false;
        let mut i: usize = 0;
        while i < nums.len()
            invariant
                0 <= i <= nums@.len(),
                found == exists|j: int| 0 <= j < i && nums@[j] == d,
            decreases nums@.len() - i,
        {
            if nums[i] == d {
                found = true;
            }
            i = i + 1;
        }
        m.push(found);
        d = d + 1;
    }
    m
}

impl Sudoku {
    /// Every present candidate of row `row` whose digit `nums` lists.
    pub fn collect_candidates_in_row(&self, nums: &Vec<u8>, row: usize) -> (res: RemovalResult)
        requires
            self.wf(),
            row < 9,
        ensures
            res.sets_cell.is_none(),
            self.applicable(&res),
            forall|r: int, c: int, d: int|
                on_grid(r, c) && is_digit(d) ==> (#[trigger] res.removes(r, c, d) <==> (r == row && nums@.contains(d as u8)
                    && self.has(r, c, d))),
    {
        let cells = group_cells(row);
        let digits = digit_flags(nums);
        self.collect_masked(&cells, &digits)
    }

    /// Every present candidate of column `col` whose digit `nums` lists.
    pub fn collect_candidates_in_col(&self, nums: &Vec<u8>, col: usize) -> (res: RemovalResult)
        requires
            self.wf(),
            col < 9,
        ensures
            res.sets_cell.is_none(),
            self.applicable(&res),
            forall|r: int, c: int, d: int|
                on_grid(r, c) && is_digit(d) ==> (#[trigger] res.removes(r, c, d) <==> (c == col && nums@.contains(d as u8)
                    && self.has(r, c, d))),
    {
        let cells = group_cells(9 + col);
        let digits = digit_flags(nums);
        self.collect_masked(&cells, &digits)
    }

    /// Every present candidate of the box of `(row, col)` whose digit `nums` lists.
    pub fn collect_candidates_in_box(&self, nums: &Vec<u8>, row: usize, col: usize) -> (res: RemovalResult)
        requires
            self.wf(),
            row < 9,
            col < 9,
        ensures
            res.sets_cell.is_none(),
            self.applicable(&res),
            forall|r: int, c: int, d: int|
                on_grid(r, c) && is_digit(d) ==> (#[trigger] res.removes(r, c, d) <==> (same_box(r, c, row as int, col as int)
                    && nums@.contains(d as u8) && self.has(r, c, d))),
    {
        let cells = group_cells(18 + 3 * (row / 3) + col / 3);
        let digits = digit_flags(nums);
        let res = self.collect_masked(&cells, &digits);
        proof {
            assert forall|r: int, c: int, d: int|
                on_grid(r, c) && is_digit(d) implies (#[trigger] res.removes(r, c, d) <==> (same_box(r, c, row as int, col as int)
                    && nums@.contains(d as u8) && self.has(r, c, d))) by {
                assert(at(cells@, r, c) == in_group(18 + 3 * (row / 3) + col / 3, r, c));
            }
        }
        res
    }

    /// Every present candidate, in the row, the column or the box of
    /// `(row, col)`, whose digit `nums` lists.
    pub fn collect_candidates(&self, nums: &Vec<u8>, row: usize, col: usize) -> (res: RemovalResult)
        requires
            self.wf(),
            row < 9,
            col < 9,
        ensures
            res.sets_cell.is_none(),
            self.applicable(&res),
            forall|r: int, c: int, d: int|
                on_grid(r, c) && is_digit(d) ==> (#[trigger] res.removes(r, c, d) <==> ((r == row || c == col
                    || same_box(r, c, row as int, col as int)) && nums@.contains(d as u8) && self.has(r, c, d))),
    {
        let in_row = group_cells(row);
        let in_col = group_cells(9 + col);
        let in_box = group_cells(18 + 3 * (row / 3) + col / 3);
        let lines = mask_union(&in_row, &in_col);
        let cells = mask_union(&lines, &in_box);
        let digits = digit_flags(nums);
        let res = self.collect_masked(&cells, &digits);
        proof {
            assert forall|r: int, c: int, d: int|
                on_grid(r, c) && is_digit(d) implies (#[trigger] res.removes(r, c, d) <==> ((r == row || c == col
                    || same_box(r, c, row as int, col as int)) && nums@.contains(d as u8) && self.has(r, c, d))) by {
                assert(at(cells@, r, c) == (at(in_row@, r, c) || at(in_col@, r, c) || at(in_box@, r, c)));
            }
        }
        res
    }

    /// Undoing a step is not offered: nothing changes and nothing is reported removed.
    pub fn prev_step(&mut self) -> (res: Resolution)
        requires
            old(self).wf(),
        ensures
            *final(self) == *old(self),
            res.nums_removed == 0,
            res.strategy == Strategy::NoDeduction,
    {
        Resolution { nums_removed: 0, strategy: Strategy::NoDeduction }
    }
}

} // verus!
