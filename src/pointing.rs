use vstd::prelude::*;
use crate::grid::{on_grid, is_digit, same_box};
use crate::groups::{in_group, member_row, member_col, member, group_cells, mask_minus, at};
use crate::removal::{RemovalResult, StrategyResult};
use crate::strategy::Strategy;
use crate::sudoku::Sudoku;

verus! {

impl Sudoku {
    /// What the pointing pair of digit `d` in line `g` (a row or a column)
    /// removes: when `d` can go only in cells `i` and `j` of the line and both
    /// lie in one box, `d` leaves the rest of that box.
    pub open spec fn pointing_elim(&self, g: int, d: int, i: int, j: int, r: int, c: int, e: int) -> bool {
        let (ri, ci) = (member_row(g, i), member_col(g, i));
        let (rj, cj) = (member_row(g, j), member_col(g, j));
        &&& 0 <= g < 18
        &&& is_digit(d)
        &&& self.only_at(g, d, i, j)
        &&& same_box(ri, ci, rj, cj)
        &&& same_box(r, c, ri, ci)
        &&& !in_group(g, r, c)
        &&& e == d
        &&& self.has(r, c, e)
    }

    pub open spec fn pointing_quiet(&self, g: int, d: int) -> bool {
        forall|i: int, j: int, r: int, c: int, e: int|
            on_grid(r, c) && is_digit(e) ==> !#[trigger] self.pointing_elim(g, d, i, j, r, c, e)
    }

    /// No pointing pair that removes anything comes before digit `d` of line
    /// `g` when scanning from line `lo`: lines, then digits, in order.
    pub open spec fn pointing_first(&self, lo: int, g: int, d: int) -> bool {
        forall|g2: int, d2: int| lo <= g2 && (g2 < g || (g2 == g && d2 < d)) ==> #[trigger] self.pointing_quiet(g2, d2)
    }

    /// `res` removes exactly what the pointing pair of `d` at cells `i`, `j` of line `g` removes.
    pub open spec fn is_pointing_pair(&self, res: &RemovalResult, g: int, d: int, i: int, j: int) -> bool {
        forall|r: int, c: int, e: int|
            on_grid(r, c) && is_digit(e) ==> (#[trigger] res.removes(r, c, e) <==> self.pointing_elim(g, d, i, j, r, c, e))
    }

    /// The first pointing pair, scanning lines `lo..hi` in order and digits in
    /// order, that removes at least one candidate.
    pub fn find_pointing_pair_in(&self, lo: usize, hi: usize) -> (res: RemovalResult)
        requires
            self.wf(),
            lo <= hi <= 18,
        ensures
            res.sets_cell.is_none(),
            self.applicable(&res),
            res.fires() ==> exists|g: int, d: int, i: int, j: int|
                lo <= g < hi && #[trigger] self.is_pointing_pair(&res, g, d, i, j) && self.pointing_first(lo as int, g, d),
            !res.fires() ==> forall|g: int, d: int| lo <= g < hi ==> #[trigger] self.pointing_quiet(g, d),
    {
        let mut g: usize = lo;
        while g < hi
            invariant
                self.wf(),
                lo <= g <= hi <= 18,
                forall|g2: int, d: int| lo <= g2 < g ==> #[trigger] self.pointing_quiet(g2, d),
            decreases hi - g,
        {
            let mut d: u8 = 1;
            while d <= 9
                invariant
                    self.wf(),
                    lo <= g < hi <= 18,
                    1 <= d <= 10,
                    forall|g2: int, d2: int| lo <= g2 < g ==> #[trigger] self.pointing_quiet(g2, d2),
                    forall|d2: int| d2 < d ==> #[trigger] self.pointing_quiet(g as int, d2),
                decreases 10 - d,
            {
                let (n, i, j) = self.places_of(g, d);
                let mut fired = false;
                if n == 2 {
                    let (ri, ci) = member(g, i);
                    let (rj, cj) = member(g, j);
                    if ri / 3 == rj / 3 && ci / 3 == cj / 3 {
                        let b = 18 + 3 * (ri / 3) + ci / 3;
                        let boxed = group_cells(b);
                        let line = group_cells(g);
                        let cells = mask_minus(&boxed, &line);
                        let digits = digit_only(d);
                        let res = self.collect_masked(&cells, &digits);
                        proof {
                            assert forall|r: int, c: int, e: int|
                                on_grid(r, c) && is_digit(e) implies (#[trigger] res.removes(r, c, e)
                                    <==> self.pointing_elim(g as int, d as int, i as int, j as int, r, c, e)) by {
                                assert(at(cells@, r, c) == (at(boxed@, r, c) && !at(line@, r, c)));
                                assert(in_group(b as int, r, c) == same_box(r, c, ri as int, ci as int));
                            }
                        }
                        if res.will_remove_candidates() {
                            assert(self.pointing_first(lo as int, g as int, d as int));
                            assert(self.is_pointing_pair(&res, g as int, d as int, i as int, j as int));
                            return res;
                        }
                        proof {
                            assert forall|i2: int, j2: int, r: int, c: int, e: int|
                                on_grid(r, c) && is_digit(e) implies !#[trigger] self.pointing_elim(g as int, d as int, i2, j2, r, c, e) by {
                                if self.pointing_elim(g as int, d as int, i2, j2, r, c, e) {
                                    assert(self.only_at(g as int, d as int, i2, j2));
                                    assert(!res.removes(r, c, e));
                                }
                            }
                        }
                    } else {
                        proof {
                            assert forall|i2: int, j2: int, r: int, c: int, e: int|
                                on_grid(r, c) && is_digit(e) implies !#[trigger] self.pointing_elim(g as int, d as int, i2, j2, r, c, e) by {
                                if self.pointing_elim(g as int, d as int, i2, j2, r, c, e) {
                                    assert(self.only_at(g as int, d as int, i2, j2));
                                }
                            }
                        }
                    }
                } else {
                    proof {
                        assert forall|i2: int, j2: int, r: int, c: int, e: int|
                            on_grid(r, c) && is_digit(e) implies !#[trigger] self.pointing_elim(g as int, d as int, i2, j2, r, c, e) by {
                            if self.pointing_elim(g as int, d as int, i2, j2, r, c, e) {
                                assert(self.only_at(g as int, d as int, i2, j2));
                            }
                        }
                    }
                }
                d = d + 1;
            }
            proof {
                assert forall|d2: int| true implies #[trigger] self.pointing_quiet(g as int, d2) by {
                    if d2 > 9 {
                        assert forall|i2: int, j2: int, r: int, c: int, e: int|
                            on_grid(r, c) && is_digit(e) implies !#[trigger] self.pointing_elim(g as int, d2, i2, j2, r, c, e) by {
                        }
                    }
                }
            }
            g = g + 1;
        }
        RemovalResult::empty()
    }

    pub fn find_pointing_pair_in_rows(&self) -> (res: RemovalResult)
        requires
            self.wf(),
        ensures
            res.sets_cell.is_none(),
            self.applicable(&res),
            res.fires() ==> exists|g: int, d: int, i: int, j: int|
                0 <= g < 9 && #[trigger] self.is_pointing_pair(&res, g, d, i, j) && self.pointing_first(0, g, d),
            !res.fires() ==> forall|g: int, d: int| 0 <= g < 9 ==> #[trigger] self.pointing_quiet(g, d),
    {
        self.find_pointing_pair_in(0, 9)
    }

    pub fn find_pointing_pair_in_cols(&self) -> (res: RemovalResult)
        requires
            self.wf(),
        ensures
            res.sets_cell.is_none(),
            self.applicable(&res),
            res.fires() ==> exists|g: int, d: int, i: int, j: int|
                9 <= g < 18 && #[trigger] self.is_pointing_pair(&res, g, d, i, j) && self.pointing_first(9, g, d),
            !res.fires() ==> forall|g: int, d: int| 9 <= g < 18 ==> #[trigger] self.pointing_quiet(g, d),
    {
        self.find_pointing_pair_in(9, 18)
    }

    /// Pointing pairs: rows first, then columns.
    pub fn find_pointing_pair(&self) -> (res: StrategyResult)
        requires
            self.wf(),
        ensures
            res.strategy == Strategy::PointingPair,
            res.removals.sets_cell.is_none(),
            self.applicable(&res.removals),
            res.removals.fires() ==> exists|g: int, d: int, i: int, j: int|
                0 <= g < 18 && #[trigger] self.is_pointing_pair(&res.removals, g, d, i, j) && self.pointing_first(0, g, d),
            !res.removals.fires() ==> forall|g: int, d: int| 0 <= g < 18 ==> #[trigger] self.pointing_quiet(g, d),
    {
        let removals = self.find_pointing_pair_in_rows();
        if removals.will_remove_candidates() {
            return StrategyResult { strategy: Strategy::PointingPair, removals };
        }
        let removals2 = self.find_pointing_pair_in_cols();
        proof {
            if removals2.fires() {
                let (g, d, i, j) = choose|g: int, d: int, i: int, j: int|
                    9 <= g < 18 && #[trigger] self.is_pointing_pair(&removals2, g, d, i, j) && self.pointing_first(9, g, d);
                assert(self.pointing_first(0, g, d));
            }
            if !removals2.fires() {
                assert forall|g: int, d: int| 0 <= g < 18 implies #[trigger] self.pointing_quiet(g, d) by {
                    if g < 9 {
                        assert(self.pointing_quiet(g, d));
                    } else {
                        assert(self.pointing_quiet(g, d));
                    }
                }
            }
        }
        StrategyResult { strategy: Strategy::PointingPair, removals: removals2 }
    }
}

/// The single digit `d`, as nine flags.
pub fn digit_only(d: u8) -> (m: Vec<bool>)
    ensures
        m@.len() == 9,
        forall|e: int| is_digit(e) ==> #[trigger] m@[e - 1] == (e == d),
{
    let mut m: Vec<bool> = Vec::new();
    let mut e: u8 = 1;
    while e <= 9
        invariant
            1 <= e <= 10,
            m@.len() == e - 1,
            forall|x: int| 1 <= x < e ==> #[trigger] m@[x - 1] == (x == d),
        decreases 10 - e,
    {
        m.push(e == d);
        e = e + 1;
    }
    m
}

} // verus!
