use vstd::prelude::*;
use crate::grid::{EMPTY, on_grid, is_digit};
use crate::groups::{is_group, member_row, member_col, member, lemma_member};
use crate::removal::{Cell, RemovalResult, StrategyResult};
use crate::strategy::Strategy;
use crate::sudoku::Sudoku;

verus! {

impl Sudoku {
    /// `res` places `m` at `(r, c)` and removes exactly the candidates that voids.
    pub open spec fn is_placement(&self, res: &RemovalResult, r: int, c: int, m: int) -> bool {
        &&& res.sets_cell == Some(Cell { row: r as usize, col: c as usize, num: m as u8 })
        &&& forall|r2: int, c2: int, d: int|
            on_grid(r2, c2) && is_digit(d) ==> (#[trigger] res.removes(r2, c2, d) <==> self.voided_by(r, c, m, r2, c2, d))
    }

    /// Some cell of group `g` holds `e`.
    pub open spec fn group_holds(&self, g: int, e: int) -> bool {
        exists|k: int| 0 <= k < 9 && #[trigger] self.cell(member_row(g, k), member_col(g, k)) == e
    }

    /// Cell `i` is the only empty cell of group `g`, `m` the only digit the
    /// group lacks, and `m` is still a candidate there.
    pub open spec fn last_digit(&self, g: int, i: int, m: int) -> bool {
        &&& is_group(g)
        &&& 0 <= i < 9
        &&& forall|k: int| 0 <= k < 9 ==> (#[trigger] self.cell(member_row(g, k), member_col(g, k)) == EMPTY <==> k == i)
        &&& is_digit(m)
        &&& !self.group_holds(g, m)
        &&& forall|e: int| is_digit(e) && !#[trigger] self.group_holds(g, e) ==> e == m
        &&& self.has(member_row(g, i), member_col(g, i), m)
    }

    /// No group of `lo..g` is a last digit.
    pub open spec fn last_digit_first(&self, lo: int, g: int) -> bool {
        forall|g2: int, i: int, m: int| lo <= g2 < g ==> !#[trigger] self.last_digit(g2, i, m)
    }

    /// Whether some cell of group `g` holds `e`.
    pub fn group_has_digit(&self, g: usize, e: u8) -> (b: bool)
        requires
            self.wf(),
            g < 27,
        ensures
            b == self.group_holds(g as int, e as int),
    {
        let mut k: usize = 0;
        while k < 9
            invariant
                self.wf(),
                g < 27,
                0 <= k <= 9,
                forall|k2: int| 0 <= k2 < k ==> #[trigger] self.cell(member_row(g as int, k2), member_col(g as int, k2)) != e,
            decreases 9 - k,
        {
            let (r, c) = member(g, k);
            if self.get_num(r, c) == e {
                return true;
            }
            k = k + 1;
        }
        false
    }

    /// The digits that group `g` holds, in increasing order.
    pub fn nums_in_group(&self, g: usize) -> (r: Vec<u8>)
        requires
            self.wf(),
            g < 27,
        ensures
            forall|i: int, j: int| 0 <= i < j < r@.len() ==> r@[i] < r@[j],
            forall|i: int| 0 <= i < r@.len() ==> is_digit(#[trigger] r@[i] as int),
            forall|d: int| is_digit(d) ==> (r@.contains(d as u8) <==> #[trigger] self.group_holds(g as int, d)),
    {
        let mut r: Vec<u8> = Vec::new();
        let mut d: u8 = 1;
        while d <= 9
            invariant
                self.wf(),
                g < 27,
                1 <= d <= 10,
                forall|i: int, j: int| 0 <= i < j < r@.len() ==> r@[i] < r@[j],
                forall|i: int| 0 <= i < r@.len() ==> 1 <= #[trigger] r@[i] < d,
                forall|e: int| 1 <= e < d ==> (r@.contains(e as u8) <==> #[trigger] self.group_holds(g as int, e)),
            decreases 10 - d,
        {
            let ghost prev = r@;
            if self.group_has_digit(g, d) {
                r.push(d);
                proof {
                    assert forall|e: int| 1 <= e <= d implies (r@.contains(e as u8) <==> #[trigger] self.group_holds(g as int, e)) by {
                        if e < d {
                            if prev.contains(e as u8) {
                                let j = choose|j: int| 0 <= j < prev.len() && prev[j] == e as u8;
                                assert(r@[j] == e as u8);
                            }
                            if r@.contains(e as u8) {
                                let j = choose|j: int| 0 <= j < r@.len() && r@[j] == e as u8;
                                assert(j < prev.len());
                            }
                        } else {
                            assert(r@[prev.len() as int] == d);
                        }
                    }
                }
            } else {
                proof {
                    assert forall|e: int| 1 <= e <= d implies (r@.contains(e as u8) <==> #[trigger] self.group_holds(g as int, e)) by {
                        if e == d && r@.contains(e as u8) {
                            let j = choose|j: int| 0 <= j < r@.len() && r@[j] == e as u8;
                        }
                    }
                }
            }
            d = d + 1;
        }
        r
    }

    /// The digits that row `row` holds, in increasing order.
    pub fn calc_nums_in_row(&self, row: usize) -> (r: Vec<u8>)
        requires
            self.wf(),
            row < 9,
        ensures
            forall|i: int, j: int| 0 <= i < j < r@.len() ==> r@[i] < r@[j],
            forall|d: int| is_digit(d) ==> (r@.contains(d as u8) <==> exists|c: int| 0 <= c < 9 && #[trigger] self.cell(row as int, c) == d),
    {
        let r = self.nums_in_group(row);
        proof {
            assert forall|d: int| is_digit(d) implies (r@.contains(d as u8) <==> exists|c: int| 0 <= c < 9 && #[trigger] self.cell(row as int, c) == d) by {
                if self.group_holds(row as int, d) {
                    let k = choose|k: int| 0 <= k < 9 && #[trigger] self.cell(member_row(row as int, k), member_col(row as int, k)) == d;
                    assert(self.cell(row as int, k) == d);
                }
                if exists|c: int| 0 <= c < 9 && #[trigger] self.cell(row as int, c) == d {
                    let c = choose|c: int| 0 <= c < 9 && #[trigger] self.cell(row as int, c) == d;
                    assert(self.cell(member_row(row as int, c), member_col(row as int, c)) == d);
                }
            }
        }
        r
    }

    /// The digits that column `col` holds, in increasing order.
    pub fn calc_nums_in_col(&self, col: usize) -> (r: Vec<u8>)
        requires
            self.wf(),
            col < 9,
        ensures
            forall|i: int, j: int| 0 <= i < j < r@.len() ==> r@[i] < r@[j],
            forall|d: int| is_digit(d) ==> (r@.contains(d as u8) <==> exists|rr: int| 0 <= rr < 9 && #[trigger] self.cell(rr, col as int) == d),
    {
        let r = self.nums_in_group(9 + col);
        proof {
            let g = 9 + col as int;
            assert forall|d: int| is_digit(d) implies (r@.contains(d as u8) <==> exists|rr: int| 0 <= rr < 9 && #[trigger] self.cell(rr, col as int) == d) by {
                if self.group_holds(g, d) {
                    let k = choose|k: int| 0 <= k < 9 && #[trigger] self.cell(member_row(g, k), member_col(g, k)) == d;
                    assert(self.cell(k, col as int) == d);
                }
                if exists|rr: int| 0 <= rr < 9 && #[trigger] self.cell(rr, col as int) == d {
                    let rr = choose|rr: int| 0 <= rr < 9 && #[trigger] self.cell(rr, col as int) == d;
                    assert(self.cell(member_row(g, rr), member_col(g, rr)) == d);
                }
            }
        }
        r
    }

    /// The digits that box `box_index` (row-major among the nine boxes) holds,
    /// in increasing order.
    pub fn calc_nums_in_box(&self, box_index: usize) -> (r: Vec<u8>)
        requires
            self.wf(),
            box_index < 9,
        ensures
            forall|i: int, j: int| 0 <= i < j < r@.len() ==> r@[i] < r@[j],
            forall|d: int| is_digit(d) ==> (r@.contains(d as u8) <==> exists|k: int| 0 <= k < 9 && #[trigger] self.cell(
                3 * (box_index / 3) + k / 3,
                3 * (box_index % 3) + k % 3,
            ) == d),
    {
        let r = self.nums_in_group(18 + box_index);
        proof {
            let g = 18 + box_index as int;
            let b = box_index as int;
            assert forall|d: int| is_digit(d) implies (r@.contains(d as u8) <==> exists|k: int| 0 <= k < 9 && #[trigger] self.cell(
                3 * (b / 3) + k / 3,
                3 * (b % 3) + k % 3,
            ) == d) by {
                if self.group_holds(g, d) {
                    let k = choose|k: int| 0 <= k < 9 && #[trigger] self.cell(member_row(g, k), member_col(g, k)) == d;
                    assert(self.cell(3 * (b / 3) + k / 3, 3 * (b % 3) + k % 3) == d);
                }
                if exists|k: int| 0 <= k < 9 && #[trigger] self.cell(3 * (b / 3) + k / 3, 3 * (b % 3) + k % 3) == d {
                    let k = choose|k: int| 0 <= k < 9 && #[trigger] self.cell(3 * (b / 3) + k / 3, 3 * (b % 3) + k % 3) == d;
                    assert(self.cell(member_row(g, k), member_col(g, k)) == d);
                }
            }
        }
        r
    }

    /// The first group of `lo..hi` with a single empty cell whose missing digit
    /// can be placed there.
    pub fn find_last_digit_in(&self, lo: usize, hi: usize) -> (res: RemovalResult)
        requires
            self.wf(),
            lo <= hi <= 27,
        ensures
            self.applicable(&res),
            res.fires() ==> exists|g: int, i: int, m: int|
                lo <= g < hi && #[trigger] self.last_digit(g, i, m)
                    && self.is_placement(&res, member_row(g, i), member_col(g, i), m) && self.last_digit_first(lo as int, g),
            !res.fires() ==> res.sets_cell.is_none(),
            !res.fires() ==> forall|g: int, i: int, m: int| lo <= g < hi ==> !#[trigger] self.last_digit(g, i, m),
    {
        let mut g: usize = lo;
        while g < hi
            invariant
                self.wf(),
                lo <= g <= hi <= 27,
                forall|g2: int, i: int, m: int| lo <= g2 < g ==> !#[trigger] self.last_digit(g2, i, m),
            decreases hi - g,
        {
            let mut empties: usize = 0;
            let mut spot: usize = 0;
            let mut k: usize = 0;
            while k < 9
                invariant
                    self.wf(),
                    lo <= g < hi <= 27,
                    0 <= k <= 9,
                    empties <= 2,
                    empties >= 1 ==> spot < k && self.cell(member_row(g as int, spot as int), member_col(g as int, spot as int)) == EMPTY,
                    empties == 1 ==> forall|k2: int| 0 <= k2 < k && k2 != spot ==> #[trigger] self.cell(member_row(g as int, k2), member_col(g as int, k2)) != EMPTY,
                    empties == 0 ==> forall|k2: int| 0 <= k2 < k ==> #[trigger] self.cell(member_row(g as int, k2), member_col(g as int, k2)) != EMPTY,
                    empties == 2 ==> exists|k2: int| 0 <= k2 < k && k2 != spot && #[trigger] self.cell(member_row(g as int, k2), member_col(g as int, k2)) == EMPTY,
                decreases 9 - k,
            {
                let (r, c) = member(g, k);
                if self.get_num(r, c) == EMPTY {
                    if empties == 0 {
                        spot = k;
                        empties = 1;
                    } else if empties == 1 {
                        empties = 2;
                        assert(self.cell(member_row(g as int, k as int), member_col(g as int, k as int)) == EMPTY);
                    }
                }
                k = k + 1;
            }
            if empties == 1 {
                let mut missing: usize = 0;
                let mut m: u8 = 0;
                let mut e: u8 = 1;
                while e <= 9
                    invariant
                        self.wf(),
                        lo <= g < hi <= 27,
                        1 <= e <= 10,
                        missing <= 2,
                        missing >= 1 ==> is_digit(m as int) && m < e && !self.group_holds(g as int, m as int),
                        missing == 1 ==> forall|e2: int| 1 <= e2 < e && !#[trigger] self.group_holds(g as int, e2) ==> e2 == m,
                        missing == 0 ==> forall|e2: int| 1 <= e2 < e ==> #[trigger] self.group_holds(g as int, e2),
                        missing == 2 ==> exists|e2: int| 1 <= e2 < e && e2 != m && !#[trigger] self.group_holds(g as int, e2),
                    decreases 10 - e,
                {
                    if !self.group_has_digit(g, e) {
                        if missing == 0 {
                            m = e;
                            missing = 1;
                        } else if missing == 1 {
                            missing = 2;
                            assert(!self.group_holds(g as int, e as int));
                        }
                    }
                    e = e + 1;
                }
                let (r, c) = member(g, spot);
                if missing == 1 && self.has_candidate(r, c, m) {
                    let res = self.collect_set_num(m, r, c);
                    proof {
                        assert(self.last_digit_first(lo as int, g as int));
                        assert(self.last_digit(g as int, spot as int, m as int));
                        assert(res.removes(r as int, c as int, m as int));
                    }
                    return res;
                }
                proof {
                    assert forall|i: int, m2: int| !#[trigger] self.last_digit(g as int, i, m2) by {
                        if self.last_digit(g as int, i, m2) {
                            assert(self.cell(member_row(g as int, spot as int), member_col(g as int, spot as int)) == EMPTY);
                            assert(i == spot);
                            if missing == 0 {
                                assert(self.group_holds(g as int, m2));
                            } else if missing == 2 {
                                let e2 = choose|e2: int| 1 <= e2 < 10 && e2 != m && !#[trigger] self.group_holds(g as int, e2);
                                assert(e2 == m2);
                                assert(m == m2);
                            }
                        }
                    }
                }
            } else {
                proof {
                    assert forall|i: int, m2: int| !#[trigger] self.last_digit(g as int, i, m2) by {
                        if self.last_digit(g as int, i, m2) {
                            lemma_member(g as int, i);
                            assert(self.cell(member_row(g as int, i), member_col(g as int, i)) == EMPTY);
                            if empties == 2 {
                                let k2 = choose|k2: int| 0 <= k2 < 9 && k2 != spot && #[trigger] self.cell(member_row(g as int, k2), member_col(g as int, k2)) == EMPTY;
                                assert(k2 == i);
                                assert(spot == i);
                            }
                        }
                    }
                }
            }
            g = g + 1;
        }
        RemovalResult::empty()
    }

    pub fn find_last_digit_in_rows(&self) -> (res: RemovalResult)
        requires
            self.wf(),
        ensures
            self.applicable(&res),
            res.fires() ==> exists|g: int, i: int, m: int|
                0 <= g < 9 && #[trigger] self.last_digit(g, i, m) && self.is_placement(&res, member_row(g, i), member_col(g, i), m)
                    && self.last_digit_first(0, g),
            !res.fires() ==> res.sets_cell.is_none(),
            !res.fires() ==> forall|g: int, i: int, m: int| 0 <= g < 9 ==> !#[trigger] self.last_digit(g, i, m),
    {
        self.find_last_digit_in(0, 9)
    }

    pub fn find_last_digit_in_cols(&self) -> (res: RemovalResult)
        requires
            self.wf(),
        ensures
            self.applicable(&res),
            res.fires() ==> exists|g: int, i: int, m: int|
                9 <= g < 18 && #[trigger] self.last_digit(g, i, m) && self.is_placement(&res, member_row(g, i), member_col(g, i), m)
                    && self.last_digit_first(9, g),
            !res.fires() ==> res.sets_cell.is_none(),
            !res.fires() ==> forall|g: int, i: int, m: int| 9 <= g < 18 ==> !#[trigger] self.last_digit(g, i, m),
    {
        self.find_last_digit_in(9, 18)
    }

    pub fn find_last_digit_in_boxes(&self) -> (res: RemovalResult)
        requires
            self.wf(),
        ensures
            self.applicable(&res),
            res.fires() ==> exists|g: int, i: int, m: int|
                18 <= g < 27 && #[trigger] self.last_digit(g, i, m) && self.is_placement(&res, member_row(g, i), member_col(g, i), m)
                    && self.last_digit_first(18, g),
            !res.fires() ==> res.sets_cell.is_none(),
            !res.fires() ==> forall|g: int, i: int, m: int| 18 <= g < 27 ==> !#[trigger] self.last_digit(g, i, m),
    {
        self.find_last_digit_in(18, 27)
    }

    /// Last digits: rows first, then columns, then boxes.
    pub fn find_last_digit(&self) -> (res: StrategyResult)
        requires
            self.wf(),
        ensures
            res.strategy == Strategy::LastDigit,
            self.applicable(&res.removals),
            res.removals.fires() ==> exists|g: int, i: int, m: int|
                0 <= g < 27 && #[trigger] self.last_digit(g, i, m)
                    && self.is_placement(&res.removals, member_row(g, i), member_col(g, i), m) && self.last_digit_first(0, g),
            !res.removals.fires() ==> res.removals.sets_cell.is_none(),
            !res.removals.fires() ==> forall|g: int, i: int, m: int| 0 <= g < 27 ==> !#[trigger] self.last_digit(g, i, m),
    {
        let removals = self.find_last_digit_in_rows();
        if removals.will_remove_candidates() {
            return StrategyResult { strategy: Strategy::LastDigit, removals };
        }
        let removals2 = self.find_last_digit_in_cols();
        if removals2.will_remove_candidates() {
            proof {
                let (g, i, m) = choose|g: int, i: int, m: int|
                    9 <= g < 18 && #[trigger] self.last_digit(g, i, m)
                        && self.is_placement(&removals2, member_row(g, i), member_col(g, i), m) && self.last_digit_first(9, g);
                assert(self.last_digit_first(0, g));
            }
            return StrategyResult { strategy: Strategy::LastDigit, removals: removals2 };
        }
        let removals3 = self.find_last_digit_in_boxes();
        proof {
            if removals3.fires() {
                let (g, i, m) = choose|g: int, i: int, m: int|
                    18 <= g < 27 && #[trigger] self.last_digit(g, i, m)
                        && self.is_placement(&removals3, member_row(g, i), member_col(g, i), m) && self.last_digit_first(18, g);
                assert forall|g2: int, i2: int, m2: int| 0 <= g2 < g implies !#[trigger] self.last_digit(g2, i2, m2) by {
                    if g2 < 9 {
                    } else if g2 < 18 {
                    }
                }
                assert(self.last_digit_first(0, g));
            }
            if !removals3.fires() {
                assert forall|g: int, i: int, m: int| 0 <= g < 27 implies !#[trigger] self.last_digit(g, i, m) by {
                    if g < 9 {
                    } else if g < 18 {
                    }
                }
            }
        }
        StrategyResult { strategy: Strategy::LastDigit, removals: removals3 }
    }

    /// `m` is the only candidate of `(r, c)`.
    pub open spec fn obvious_single(&self, r: int, c: int, m: int) -> bool {
        on_grid(r, c) && self.cand_count(r, c) == 1 && self.has(r, c, m)
    }

    /// No cell before `(r, c)`, row-major, has a single candidate.
    pub open spec fn obvious_single_first(&self, r: int, c: int) -> bool {
        forall|r2: int, c2: int, m: int| (r2 < r || (r2 == r && c2 < c)) ==> !#[trigger] self.obvious_single(r2, c2, m)
    }

    /// The first cell, row-major, with a single candidate, and its placement.
    pub fn find_obvious_single(&self) -> (res: StrategyResult)
        requires
            self.wf(),
        ensures
            res.strategy == Strategy::ObviousSingle,
            self.applicable(&res.removals),
            res.removals.fires() ==> exists|r: int, c: int, m: int|
                #[trigger] self.obvious_single(r, c, m) && self.is_placement(&res.removals, r, c, m)
                    && self.obvious_single_first(r, c),
            !res.removals.fires() ==> res.removals.sets_cell.is_none(),
            !res.removals.fires() ==> forall|r: int, c: int, m: int| !#[trigger] self.obvious_single(r, c, m),
    {
        let mut r: usize = 0;
        while r < 9
            invariant
                self.wf(),
                0 <= r <= 9,
                forall|r2: int, c2: int, m: int| r2 < r ==> !#[trigger] self.obvious_single(r2, c2, m),
            decreases 9 - r,
        {
            let mut c: usize = 0;
            while c < 9
                invariant
                    self.wf(),
                    0 <= r < 9,
                    0 <= c <= 9,
                    forall|r2: int, c2: int, m: int| r2 < r ==> !#[trigger] self.obvious_single(r2, c2, m),
                    forall|c2: int, m: int| c2 < c ==> !#[trigger] self.obvious_single(r as int, c2, m),
                decreases 9 - c,
            {
                let notes = self.get_notes(r, c);
                if notes.len() == 1 {
                    let m = notes[0];
                    proof {
                        assert(self.has(r as int, c as int, m as int));
                    }
                    let removals = self.collect_set_num(m, r, c);
                    proof {
                        assert(self.obvious_single_first(r as int, c as int));
                        assert(self.obvious_single(r as int, c as int, m as int));
                        assert(removals.removes(r as int, c as int, m as int));
                    }
                    return StrategyResult { strategy: Strategy::ObviousSingle, removals };
                }
                c = c + 1;
            }
            r = r + 1;
        }
        StrategyResult::new(Strategy::ObviousSingle)
    }

    /// `d` is a candidate of cell `i` of group `g` and of no other cell of the group.
    pub open spec fn hidden_single(&self, g: int, i: int, d: int) -> bool {
        is_group(g) && is_digit(d) && self.only_one(g, d, i)
    }

    /// No hidden single comes before digit `d` of cell `i` of group `g` when
    /// scanning from group `lo`: groups, then cells, then digits in order.
    pub open spec fn hidden_single_first(&self, lo: int, g: int, i: int, d: int) -> bool {
        forall|g2: int, i2: int, d2: int|
            lo <= g2 && (g2 < g || (g2 == g && (i2 < i || (i2 == i && d2 < d)))) ==> !#[trigger] self.hidden_single(g2, i2, d2)
    }

    /// No hidden single comes before digit `d` of cell `i` of group `g` in the
    /// full scan: boxes first, then rows, then columns.
    pub open spec fn hidden_single_scan_first(&self, g: int, i: int, d: int) -> bool {
        if 18 <= g {
            self.hidden_single_first(18, g, i, d)
        } else {
            &&& self.hidden_single_first(0, g, i, d)
            &&& forall|g2: int, i2: int, d2: int| 18 <= g2 < 27 ==> !#[trigger] self.hidden_single(g2, i2, d2)
        }
    }

    /// The first hidden single in groups `lo..hi`, scanning cells of each group
    /// in order and digits of each cell in order, and its placement.
    pub fn find_hidden_single_in(&self, lo: usize, hi: usize) -> (res: RemovalResult)
        requires
            self.wf(),
            lo <= hi <= 27,
        ensures
            self.applicable(&res),
            res.fires() ==> exists|g: int, i: int, d: int|
                lo <= g < hi && #[trigger] self.hidden_single(g, i, d)
                    && self.is_placement(&res, member_row(g, i), member_col(g, i), d) && self.hidden_single_first(lo as int, g, i, d),
            !res.fires() ==> res.sets_cell.is_none(),
            !res.fires() ==> forall|g: int, i: int, d: int| lo <= g < hi ==> !#[trigger] self.hidden_single(g, i, d),
    {
        let mut g: usize = lo;
        while g < hi
            invariant
                self.wf(),
                lo <= g <= hi <= 27,
                forall|g2: int, i: int, d: int| lo <= g2 < g ==> !#[trigger] self.hidden_single(g2, i, d),
            decreases hi - g,
        {
            let mut i: usize = 0;
            while i < 9
                invariant
                    self.wf(),
                    lo <= g < hi <= 27,
                    0 <= i <= 9,
                    forall|g2: int, i2: int, d: int| lo <= g2 < g ==> !#[trigger] self.hidden_single(g2, i2, d),
                    forall|i2: int, d: int| i2 < i ==> !#[trigger] self.hidden_single(g as int, i2, d),
                decreases 9 - i,
            {
                let mut d: u8 = 1;
                while d <= 9
                    invariant
                        self.wf(),
                        lo <= g < hi <= 27,
                        0 <= i < 9,
                        1 <= d <= 10,
                        forall|g2: int, i2: int, d2: int| lo <= g2 < g ==> !#[trigger] self.hidden_single(g2, i2, d2),
                        forall|i2: int, d2: int| i2 < i ==> !#[trigger] self.hidden_single(g as int, i2, d2),
                        forall|d2: int| d2 < d ==> !#[trigger] self.hidden_single(g as int, i as int, d2),
                    decreases 10 - d,
                {
                    let (n, p, _q) = self.places_of(g, d);
                    if n == 1 && p == i {
                        let (r, c) = member(g, i);
                        proof {
                            assert(self.only_one(g as int, d as int, i as int));
                        }
                        let res = self.collect_set_num(d, r, c);
                        proof {
                            assert(self.hidden_single_first(lo as int, g as int, i as int, d as int));
                            assert(self.hidden_single(g as int, i as int, d as int));
                            assert(res.removes(r as int, c as int, d as int));
                        }
                        return res;
                    }
                    d = d + 1;
                }
                i = i + 1;
            }
            g = g + 1;
        }
        RemovalResult::empty()
    }

    pub fn find_hidden_single_box(&self) -> (res: RemovalResult)
        requires
            self.wf(),
        ensures
            self.applicable(&res),
            res.fires() ==> exists|g: int, i: int, d: int|
                18 <= g < 27 && #[trigger] self.hidden_single(g, i, d) && self.is_placement(&res, member_row(g, i), member_col(g, i), d)
                    && self.hidden_single_first(18, g, i, d),
            !res.fires() ==> res.sets_cell.is_none(),
            !res.fires() ==> forall|g: int, i: int, d: int| 18 <= g < 27 ==> !#[trigger] self.hidden_single(g, i, d),
    {
        self.find_hidden_single_in(18, 27)
    }

    pub fn find_hidden_single_row(&self) -> (res: RemovalResult)
        requires
            self.wf(),
        ensures
            self.applicable(&res),
            res.fires() ==> exists|g: int, i: int, d: int|
                0 <= g < 9 && #[trigger] self.hidden_single(g, i, d) && self.is_placement(&res, member_row(g, i), member_col(g, i), d)
                    && self.hidden_single_first(0, g, i, d),
            !res.fires() ==> res.sets_cell.is_none(),
            !res.fires() ==> forall|g: int, i: int, d: int| 0 <= g < 9 ==> !#[trigger] self.hidden_single(g, i, d),
    {
        self.find_hidden_single_in(0, 9)
    }

    pub fn find_hidden_single_col(&self) -> (res: RemovalResult)
        requires
            self.wf(),
        ensures
            self.applicable(&res),
            res.fires() ==> exists|g: int, i: int, d: int|
                9 <= g < 18 && #[trigger] self.hidden_single(g, i, d) && self.is_placement(&res, member_row(g, i), member_col(g, i), d)
                    && self.hidden_single_first(9, g, i, d),
            !res.fires() ==> res.sets_cell.is_none(),
            !res.fires() ==> forall|g: int, i: int, d: int| 9 <= g < 18 ==> !#[trigger] self.hidden_single(g, i, d),
    {
        self.find_hidden_single_in(9, 18)
    }

    /// Hidden singles: boxes first, then rows, then columns.
    pub fn find_hidden_single(&self) -> (res: StrategyResult)
        requires
            self.wf(),
        ensures
            res.strategy == Strategy::HiddenSingle,
            self.applicable(&res.removals),
            res.removals.fires() ==> exists|g: int, i: int, d: int|
                0 <= g < 27 && #[trigger] self.hidden_single(g, i, d)
                    && self.is_placement(&res.removals, member_row(g, i), member_col(g, i), d) && self.hidden_single_scan_first(g, i, d),
            !res.removals.fires() ==> res.removals.sets_cell.is_none(),
            !res.removals.fires() ==> forall|g: int, i: int, d: int| 0 <= g < 27 ==> !#[trigger] self.hidden_single(g, i, d),
    {
        let removals = self.find_hidden_single_box();
        if removals.will_remove_candidates() {
            return StrategyResult { strategy: Strategy::HiddenSingle, removals };
        }
        let removals2 = self.find_hidden_single_row();
        if removals2.will_remove_candidates() {
            return StrategyResult { strategy: Strategy::HiddenSingle, removals: removals2 };
        }
        let removals3 = self.find_hidden_single_col();
        proof {
            if removals3.fires() {
                let (g, i, d) = choose|g: int, i: int, d: int|
                    9 <= g < 18 && #[trigger] self.hidden_single(g, i, d) && self.is_placement(&removals3, member_row(g, i), member_col(g, i), d)
                        && self.hidden_single_first(9, g, i, d);
                assert(self.hidden_single_first(0, g, i, d));
                assert(self.hidden_single_scan_first(g, i, d));
            }
            if !removals3.fires() {
                assert forall|g: int, i: int, d: int| 0 <= g < 27 implies !#[trigger] self.hidden_single(g, i, d) by {
                    if g < 9 {
                    } else if g < 18 {
                    }
                }
            }
        }
        StrategyResult { strategy: Strategy::HiddenSingle, removals: removals3 }
    }
}

} // verus!
