use vstd::prelude::*;
use crate::grid::{on_grid, is_digit};
use crate::groups::{in_group, group_cells, mask_minus, mask_union, at};
use crate::pointing::digit_only;
use crate::removal::{RemovalResult, StrategyResult};
use crate::strategy::Strategy;
use crate::sudoku::Sudoku;

verus! {

/// The line that crosses place `i` of the lines that start at group `lo`:
/// column `i` for rows, row `i` for columns.
pub open spec fn cross(lo: int, i: int) -> int {
    if lo == 0 {
        9 + i
    } else {
        i
    }
}

impl Sudoku {
    /// What the X-Wing of digit `d` on lines `g1 < g2` (both rows, or both
    /// columns, from group `lo`) removes: when `d` can go only in places `i`
    /// and `j` of each line, `d` leaves the two crossing lines everywhere else.
    pub open spec fn xwing_elim(&self, lo: int, d: int, g1: int, g2: int, i: int, j: int, r: int, c: int, e: int) -> bool {
        &&& lo == 0 || lo == 9
        &&& lo <= g1 < g2 < lo + 9
        &&& is_digit(d)
        &&& self.only_at(g1, d, i, j)
        &&& self.only_at(g2, d, i, j)
        &&& in_group(cross(lo, i), r, c) || in_group(cross(lo, j), r, c)
        &&& !in_group(g1, r, c)
        &&& !in_group(g2, r, c)
        &&& e == d
        &&& self.has(r, c, e)
    }

    pub open spec fn xwing_quiet(&self, lo: int, d: int, g1: int, g2: int) -> bool {
        forall|i: int, j: int, r: int, c: int, e: int|
            on_grid(r, c) && is_digit(e) ==> !#[trigger] self.xwing_elim(lo, d, g1, g2, i, j, r, c, e)
    }

    /// No X-Wing on the lines from `lo` that removes anything comes before
    /// digit `d` on lines `g1`, `g2`: digits, then first lines, then second
    /// lines, in order.
    pub open spec fn xwing_first(&self, lo: int, d: int, g1: int, g2: int) -> bool {
        forall|d2: int, h1: int, h2: int|
            (d2 < d || (d2 == d && (h1 < g1 || (h1 == g1 && h2 < g2)))) ==> #[trigger] self.xwing_quiet(lo, d2, h1, h2)
    }

    /// The same in the full scan: rows first, then columns.
    pub open spec fn xwing_scan_first(&self, lo: int, d: int, g1: int, g2: int) -> bool {
        &&& self.xwing_first(lo, d, g1, g2)
        &&& lo == 9 ==> forall|d2: int, h1: int, h2: int| #[trigger] self.xwing_quiet(0, d2, h1, h2)
    }

    /// `res` removes exactly what that X-Wing removes.
    pub open spec fn is_xwing(&self, res: &RemovalResult, lo: int, d: int, g1: int, g2: int, i: int, j: int) -> bool {
        forall|r: int, c: int, e: int|
            on_grid(r, c) && is_digit(e) ==> (#[trigger] res.removes(r, c, e) <==> self.xwing_elim(lo, d, g1, g2, i, j, r, c, e))
    }

    /// The first X-Wing on the lines from group `lo` (0 for rows, 9 for
    /// columns), scanning digits, then the first line, then the second, that
    /// removes at least one candidate.
    pub fn find_xwing_in(&self, lo: usize) -> (res: RemovalResult)
        requires
            self.wf(),
            lo == 0 || lo == 9,
        ensures
            res.sets_cell.is_none(),
            self.applicable(&res),
            res.fires() ==> exists|d: int, g1: int, g2: int, i: int, j: int|
                #[trigger] self.is_xwing(&res, lo as int, d, g1, g2, i, j) && self.xwing_first(lo as int, d, g1, g2),
            !res.fires() ==> forall|d: int, g1: int, g2: int| #[trigger] self.xwing_quiet(lo as int, d, g1, g2),
    {
        let mut d: u8 = 1;
        while d <= 9
            invariant
                self.wf(),
                lo == 0 || lo == 9,
                1 <= d <= 10,
                forall|d2: int, g1: int, g2: int| d2 < d ==> #[trigger] self.xwing_quiet(lo as int, d2, g1, g2),
            decreases 10 - d,
        {
            let mut g1: usize = lo;
            while g1 < lo + 8
                invariant
                    self.wf(),
                    lo == 0 || lo == 9,
                    1 <= d <= 9,
                    lo <= g1 <= lo + 8,
                    forall|d2: int, h1: int, h2: int| d2 < d ==> #[trigger] self.xwing_quiet(lo as int, d2, h1, h2),
                    forall|h1: int, h2: int| h1 < g1 ==> #[trigger] self.xwing_quiet(lo as int, d as int, h1, h2),
                decreases lo + 8 - g1,
            {
                let (n1, i1, j1) = self.places_of(g1, d);
                let mut g2: usize = g1 + 1;
                while g2 < lo + 9
                    invariant
                        self.wf(),
                        lo == 0 || lo == 9,
                        1 <= d <= 9,
                        lo <= g1 < lo + 8,
                        g1 < g2 <= lo + 9,
                        forall|i: int, j: int| #[trigger] self.only_at(g1 as int, d as int, i, j) <==> (n1 == 2 && i == i1 && j == j1),
                        n1 == 2 ==> i1 < j1 < 9,
                        forall|d2: int, h1: int, h2: int| d2 < d ==> #[trigger] self.xwing_quiet(lo as int, d2, h1, h2),
                        forall|h1: int, h2: int| h1 < g1 ==> #[trigger] self.xwing_quiet(lo as int, d as int, h1, h2),
                        forall|h2: int| h2 < g2 ==> #[trigger] self.xwing_quiet(lo as int, d as int, g1 as int, h2),
                    decreases lo + 9 - g2,
                {
                    let (n2, i2, j2) = self.places_of(g2, d);
                    if n1 == 2 && n2 == 2 && i1 == i2 && j1 == j2 {
                        let a = if lo == 0 { 9 + i1 } else { i1 };
                        let b = if lo == 0 { 9 + j1 } else { j1 };
                        let first = group_cells(a);
                        let second = group_cells(b);
                        let line1 = group_cells(g1);
                        let line2 = group_cells(g2);
                        let both = mask_union(&first, &second);
                        let rest = mask_minus(&both, &line1);
                        let cells = mask_minus(&rest, &line2);
                        let digits = digit_only(d);
                        let res = self.collect_masked(&cells, &digits);
                        proof {
                            assert forall|r: int, c: int, e: int|
                                on_grid(r, c) && is_digit(e) implies (#[trigger] res.removes(r, c, e)
                                    <==> self.xwing_elim(lo as int, d as int, g1 as int, g2 as int, i1 as int, j1 as int, r, c, e)) by {
                                assert(at(cells@, r, c) == ((at(first@, r, c) || at(second@, r, c)) && !at(line1@, r, c) && !at(line2@, r, c)));
                                assert(self.only_at(g1 as int, d as int, i1 as int, j1 as int));
                                assert(self.only_at(g2 as int, d as int, i1 as int, j1 as int));
                            }
                        }
                        if res.will_remove_candidates() {
                            assert(self.xwing_first(lo as int, d as int, g1 as int, g2 as int));
                            assert(self.is_xwing(&res, lo as int, d as int, g1 as int, g2 as int, i1 as int, j1 as int));
                            return res;
                        }
                        proof {
                            assert forall|i: int, j: int, r: int, c: int, e: int|
                                on_grid(r, c) && is_digit(e) implies !#[trigger] self.xwing_elim(lo as int, d as int, g1 as int, g2 as int, i, j, r, c, e) by {
                                if self.xwing_elim(lo as int, d as int, g1 as int, g2 as int, i, j, r, c, e) {
                                    assert(self.only_at(g1 as int, d as int, i, j));
                                    assert(!res.removes(r, c, e));
                                }
                            }
                        }
                    } else {
                        proof {
                            assert forall|i: int, j: int, r: int, c: int, e: int|
                                on_grid(r, c) && is_digit(e) implies !#[trigger] self.xwing_elim(lo as int, d as int, g1 as int, g2 as int, i, j, r, c, e) by {
                                if self.xwing_elim(lo as int, d as int, g1 as int, g2 as int, i, j, r, c, e) {
                                    assert(self.only_at(g1 as int, d as int, i, j));
                                    assert(self.only_at(g2 as int, d as int, i, j));
                                }
                            }
                        }
                    }
                    g2 = g2 + 1;
                }
                proof {
                    assert forall|h2: int| true implies #[trigger] self.xwing_quiet(lo as int, d as int, g1 as int, h2) by {
                        if h2 >= lo + 9 {
                            assert forall|i: int, j: int, r: int, c: int, e: int|
                                on_grid(r, c) && is_digit(e) implies !#[trigger] self.xwing_elim(lo as int, d as int, g1 as int, h2, i, j, r, c, e) by {
                            }
                        }
                    }
                }
                g1 = g1 + 1;
            }
            proof {
                assert forall|h1: int, h2: int| true implies #[trigger] self.xwing_quiet(lo as int, d as int, h1, h2) by {
                    if h1 >= lo + 8 {
                        assert forall|i: int, j: int, r: int, c: int, e: int|
                            on_grid(r, c) && is_digit(e) implies !#[trigger] self.xwing_elim(lo as int, d as int, h1, h2, i, j, r, c, e) by {
                        }
                    }
                }
            }
            d = d + 1;
        }
        proof {
            assert forall|d2: int, g1: int, g2: int| true implies #[trigger] self.xwing_quiet(lo as int, d2, g1, g2) by {
                if d2 > 9 {
                    assert forall|i: int, j: int, r: int, c: int, e: int|
                        on_grid(r, c) && is_digit(e) implies !#[trigger] self.xwing_elim(lo as int, d2, g1, g2, i, j, r, c, e) by {
                    }
                }
            }
        }
        RemovalResult::empty()
    }

    pub fn find_xwing_in_rows(&self) -> (res: RemovalResult)
        requires
            self.wf(),
        ensures
            res.sets_cell.is_none(),
            self.applicable(&res),
            res.fires() ==> exists|d: int, g1: int, g2: int, i: int, j: int|
                #[trigger] self.is_xwing(&res, 0, d, g1, g2, i, j) && self.xwing_first(0, d, g1, g2),
            !res.fires() ==> forall|d: int, g1: int, g2: int| #[trigger] self.xwing_quiet(0, d, g1, g2),
    {
        self.find_xwing_in(0)
    }

    pub fn find_xwing_in_cols(&self) -> (res: RemovalResult)
        requires
            self.wf(),
        ensures
            res.sets_cell.is_none(),
            self.applicable(&res),
            res.fires() ==> exists|d: int, g1: int, g2: int, i: int, j: int|
                #[trigger] self.is_xwing(&res, 9, d, g1, g2, i, j) && self.xwing_first(9, d, g1, g2),
            !res.fires() ==> forall|d: int, g1: int, g2: int| #[trigger] self.xwing_quiet(9, d, g1, g2),
    {
        self.find_xwing_in(9)
    }

    /// X-Wings: on rows first, then on columns. The strategy is `XWing` when it
    /// fires and `NoDeduction` when it does not.
    pub fn find_xwing(&self) -> (res: StrategyResult)
        requires
            self.wf(),
        ensures
            res.removals.sets_cell.is_none(),
            self.applicable(&res.removals),
            res.removals.fires() ==> res.strategy == Strategy::XWing,
            !res.removals.fires() ==> res.strategy == Strategy::NoDeduction,
            res.removals.fires() ==> exists|lo: int, d: int, g1: int, g2: int, i: int, j: int|
                (lo == 0 || lo == 9) && #[trigger] self.is_xwing(&res.removals, lo, d, g1, g2, i, j)
                    && self.xwing_scan_first(lo, d, g1, g2),
            !res.removals.fires() ==> forall|lo: int, d: int, g1: int, g2: int|
                (lo == 0 || lo == 9) ==> #[trigger] self.xwing_quiet(lo, d, g1, g2),
    {
        let removals = self.find_xwing_in_rows();
        if removals.will_remove_candidates() {
            proof {
                let (d, g1, g2, i, j) = choose|d: int, g1: int, g2: int, i: int, j: int|
                    #[trigger] self.is_xwing(&removals, 0, d, g1, g2, i, j) && self.xwing_first(0, d, g1, g2);
                assert(self.xwing_scan_first(0, d, g1, g2));
            }
            return StrategyResult { strategy: Strategy::XWing, removals };
        }
        let removals2 = self.find_xwing_in_cols();
        if removals2.will_remove_candidates() {
            proof {
                let (d, g1, g2, i, j) = choose|d: int, g1: int, g2: int, i: int, j: int|
                    #[trigger] self.is_xwing(&removals2, 9, d, g1, g2, i, j) && self.xwing_first(9, d, g1, g2);
                assert(self.xwing_scan_first(9, d, g1, g2));
            }
            return StrategyResult { strategy: Strategy::XWing, removals: removals2 };
        }
        let res = StrategyResult::empty();
        proof {
            assert forall|lo: int, d: int, g1: int, g2: int| (lo == 0 || lo == 9) implies #[trigger] self.xwing_quiet(lo, d, g1, g2) by {
                if lo == 0 {
                    assert(self.xwing_quiet(0, d, g1, g2));
                } else {
                    assert(self.xwing_quiet(9, d, g1, g2));
                }
            }
        }
        res
    }
}

} // verus!
