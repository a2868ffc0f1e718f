use vstd::prelude::*;
use crate::grid::{on_grid, is_digit};
use crate::groups::{
    is_group, in_group, member_row, member_col, member, group_cells, single_cell, mask_minus,
    at, mask_union,
};
use crate::removal::{RemovalResult, StrategyResult};
use crate::strategy::Strategy;
use crate::sudoku::Sudoku;

verus! {

impl Sudoku {
    /// `(r1, c1)` and `(r2, c2)` have the same candidates.
    pub open spec fn same_notes(&self, r1: int, c1: int, r2: int, c2: int) -> bool {
        forall|d: int| is_digit(d) ==> #[trigger] self.has(r1, c1, d) == self.has(r2, c2, d)
    }

    /// What the obvious pair formed by cells `i < j` of group `g` removes: when
    /// both cells hold the same two candidates, those digits leave every other
    /// cell of the group.
    pub open spec fn obvious_elim(&self, g: int, i: int, j: int, r: int, c: int, d: int) -> bool {
        let (ri, ci) = (member_row(g, i), member_col(g, i));
        let (rj, cj) = (member_row(g, j), member_col(g, j));
        &&& is_group(g)
        &&& 0 <= i < j < 9
        &&& self.cand_count(ri, ci) == 2
        &&& self.same_notes(ri, ci, rj, cj)
        &&& in_group(g, r, c)
        &&& !(r == ri && c == ci)
        &&& !(r == rj && c == cj)
        &&& self.has(ri, ci, d)
        &&& self.has(r, c, d)
    }

    /// The obvious pair at cells `i`, `j` of group `g` removes nothing.
    pub open spec fn obvious_quiet(&self, g: int, i: int, j: int) -> bool {
        forall|r: int, c: int, d: int| on_grid(r, c) && is_digit(d) ==> !#[trigger] self.obvious_elim(g, i, j, r, c, d)
    }

    /// No obvious pair that removes anything comes before cells `i`, `j` of
    /// group `g` when scanning from group `lo`.
    pub open spec fn obvious_first(&self, lo: int, g: int, i: int, j: int) -> bool {
        forall|g2: int, i2: int, j2: int|
            lo <= g2 && (g2 < g || (g2 == g && (i2 < i || (i2 == i && j2 < j)))) ==> #[trigger] self.obvious_quiet(g2, i2, j2)
    }

    /// `res` removes exactly what the obvious pair at `i`, `j` of group `g` removes.
    pub open spec fn is_obvious_pair(&self, res: &RemovalResult, g: int, i: int, j: int) -> bool {
        forall|r: int, c: int, d: int|
            on_grid(r, c) && is_digit(d) ==> (#[trigger] res.removes(r, c, d) <==> self.obvious_elim(g, i, j, r, c, d))
    }

    /// The digits 1..=9 flagged by whether each is a candidate of `(row, col)`.
    pub fn candidate_flags(&self, row: usize, col: usize) -> (m: Vec<bool>)
        requires
            self.wf(),
            row < 9,
            col < 9,
        ensures
            m@.len() == 9,
            forall|d: int| is_digit(d) ==> #[trigger] m@[d - 1] == self.has(row as int, col as int, d),
    {
        let mut m: Vec<bool> = Vec::new();
        let mut d: u8 = 1;
        while d <= 9
            invariant
                self.wf(),
                row < 9,
                col < 9,
                1 <= d <= 10,
                m@.len() == d - 1,
                forall|e: int| 1 <= e < d ==> #[trigger] m@[e - 1] == self.has(row as int, col as int, e),
            decreases 10 - d,
        {
            m.push(self.has_candidate(row, col, d));
            d = d + 1;
        }
        m
    }

    /// Whether two cells have the same candidates.
    pub fn same_candidates(&self, r1: usize, c1: usize, r2: usize, c2: usize) -> (b: bool)
        requires
            self.wf(),
            r1 < 9,
            c1 < 9,
            r2 < 9,
            c2 < 9,
        ensures
            b == self.same_notes(r1 as int, c1 as int, r2 as int, c2 as int),
    {
        let mut d: u8 = 1;
        while d <= 9
            invariant
                self.wf(),
                r1 < 9,
                c1 < 9,
                r2 < 9,
                c2 < 9,
                1 <= d <= 10,
                forall|e: int| 1 <= e < d ==> #[trigger] self.has(r1 as int, c1 as int, e) == self.has(r2 as int, c2 as int, e),
            decreases 10 - d,
        {
            if self.has_candidate(r1, c1, d) != self.has_candidate(r2, c2, d) {
                return false;
            }
            d = d + 1;
        }
        true
    }

    /// The first obvious pair, scanning groups `lo..hi` in order, cells of a
    /// group in order, that removes at least one candidate.
    pub fn find_obvious_pair_in(&self, lo: usize, hi: usize) -> (res: RemovalResult)
        requires
            self.wf(),
            lo <= hi <= 27,
        ensures
            res.sets_cell.is_none(),
            self.applicable(&res),
            res.fires() ==> exists|g: int, i: int, j: int|
                lo <= g < hi && #[trigger] self.is_obvious_pair(&res, g, i, j) && self.obvious_first(lo as int, g, i, j),
            !res.fires() ==> forall|g: int, i: int, j: int| lo <= g < hi ==> #[trigger] self.obvious_quiet(g, i, j),
    {
        let mut g: usize = lo;
        while g < hi
            invariant
                self.wf(),
                lo <= g <= hi <= 27,
                forall|g2: int, i: int, j: int| lo <= g2 < g ==> #[trigger] self.obvious_quiet(g2, i, j),
            decreases hi - g,
        {
            let mut i: usize = 0;
            while i < 9
                invariant
                    self.wf(),
                    lo <= g < hi <= 27,
                    0 <= i <= 9,
                    forall|g2: int, i2: int, j: int| lo <= g2 < g ==> #[trigger] self.obvious_quiet(g2, i2, j),
                    forall|i2: int, j: int| 0 <= i2 < i ==> #[trigger] self.obvious_quiet(g as int, i2, j),
                decreases 9 - i,
            {
                let (ri, ci) = member(g, i);
                let notes = self.get_notes(ri, ci);
                if notes.len() == 2 {
                    let mut j: usize = i + 1;
                    while j < 9
                        invariant
                            self.wf(),
                            lo <= g < hi <= 27,
                            0 <= i < j <= 9,
                            ri as int == member_row(g as int, i as int),
                            ci as int == member_col(g as int, i as int),
                            ri < 9,
                            ci < 9,
                            self.cand_count(ri as int, ci as int) == 2,
                            forall|g2: int, i2: int, j2: int| lo <= g2 < g ==> #[trigger] self.obvious_quiet(g2, i2, j2),
                            forall|i2: int, j2: int| 0 <= i2 < i ==> #[trigger] self.obvious_quiet(g as int, i2, j2),
                            forall|j2: int| j2 < j ==> #[trigger] self.obvious_quiet(g as int, i as int, j2),
                        decreases 9 - j,
                    {
                        let (rj, cj) = member(g, j);
                        if self.same_candidates(ri, ci, rj, cj) {
                            let group = group_cells(g);
                            let first = single_cell(ri, ci);
                            let second = single_cell(rj, cj);
                            let rest = mask_minus(&group, &first);
                            let cells = mask_minus(&rest, &second);
                            let digits = self.candidate_flags(ri, ci);
                            let res = self.collect_masked(&cells, &digits);
                            proof {
                                assert forall|r: int, c: int, d: int|
                                    on_grid(r, c) && is_digit(d) implies (#[trigger] res.removes(r, c, d)
                                        <==> self.obvious_elim(g as int, i as int, j as int, r, c, d)) by {
                                    assert(at(cells@, r, c) == (at(group@, r, c) && !at(first@, r, c) && !at(second@, r, c)));
                                }
                            }
                            if res.will_remove_candidates() {
                                assert(self.obvious_first(lo as int, g as int, i as int, j as int));
                                assert(self.is_obvious_pair(&res, g as int, i as int, j as int));
                                return res;
                            }
                            proof {
                                assert forall|r: int, c: int, d: int| on_grid(r, c) && is_digit(d) implies !#[trigger] self.obvious_elim(
                                    g as int,
                                    i as int,
                                    j as int,
                                    r,
                                    c,
                                    d,
                                ) by {
                                    assert(!res.removes(r, c, d));
                                }
                            }
                        }
                        j = j + 1;
                    }
                }
                proof {
                    assert forall|j2: int| true implies #[trigger] self.obvious_quiet(g as int, i as int, j2) by {
                        if j2 >= 9 || j2 <= i as int {
                        } else {
                            assert(notes@.len() != 2 || j2 < 9);
                        }
                    }
                }
                i = i + 1;
            }
            g = g + 1;
        }
        RemovalResult::empty()
    }

    pub fn find_obvious_pair_in_rows(&self) -> (res: RemovalResult)
        requires
            self.wf(),
        ensures
            res.sets_cell.is_none(),
            self.applicable(&res),
            res.fires() ==> exists|g: int, i: int, j: int|
                0 <= g < 9 && #[trigger] self.is_obvious_pair(&res, g, i, j) && self.obvious_first(0, g, i, j),
            !res.fires() ==> forall|g: int, i: int, j: int| 0 <= g < 9 ==> #[trigger] self.obvious_quiet(g, i, j),
    {
        self.find_obvious_pair_in(0, 9)
    }

    pub fn find_obvious_pair_in_cols(&self) -> (res: RemovalResult)
        requires
            self.wf(),
        ensures
            res.sets_cell.is_none(),
            self.applicable(&res),
            res.fires() ==> exists|g: int, i: int, j: int|
                9 <= g < 18 && #[trigger] self.is_obvious_pair(&res, g, i, j) && self.obvious_first(9, g, i, j),
            !res.fires() ==> forall|g: int, i: int, j: int| 9 <= g < 18 ==> #[trigger] self.obvious_quiet(g, i, j),
    {
        self.find_obvious_pair_in(9, 18)
    }

    pub fn find_obvious_pair_in_boxes(&self) -> (res: RemovalResult)
        requires
            self.wf(),
        ensures
            res.sets_cell.is_none(),
            self.applicable(&res),
            res.fires() ==> exists|g: int, i: int, j: int|
                18 <= g < 27 && #[trigger] self.is_obvious_pair(&res, g, i, j) && self.obvious_first(18, g, i, j),
            !res.fires() ==> forall|g: int, i: int, j: int| 18 <= g < 27 ==> #[trigger] self.obvious_quiet(g, i, j),
    {
        self.find_obvious_pair_in(18, 27)
    }

    /// Obvious pairs: rows first, then columns, then boxes.
    pub fn find_obvious_pair(&self) -> (res: StrategyResult)
        requires
            self.wf(),
        ensures
            res.strategy == Strategy::ObviousPair,
            res.removals.sets_cell.is_none(),
            self.applicable(&res.removals),
            res.removals.fires() ==> exists|g: int, i: int, j: int|
                0 <= g < 27 && #[trigger] self.is_obvious_pair(&res.removals, g, i, j) && self.obvious_first(0, g, i, j),
            !res.removals.fires() ==> forall|g: int, i: int, j: int| 0 <= g < 27 ==> #[trigger] self.obvious_quiet(g, i, j),
    {
        let removals = self.find_obvious_pair_in_rows();
        if removals.will_remove_candidates() {
            return StrategyResult { strategy: Strategy::ObviousPair, removals };
        }
        let removals2 = self.find_obvious_pair_in_cols();
        if removals2.will_remove_candidates() {
            proof {
                let (g, i, j) = choose|g: int, i: int, j: int|
                    9 <= g < 18 && #[trigger] self.is_obvious_pair(&removals2, g, i, j) && self.obvious_first(9, g, i, j);
                assert(self.obvious_first(0, g, i, j));
            }
            return StrategyResult { strategy: Strategy::ObviousPair, removals: removals2 };
        }
        let removals3 = self.find_obvious_pair_in_boxes();
        proof {
            if removals3.fires() {
                let (g, i, j) = choose|g: int, i: int, j: int|
                    18 <= g < 27 && #[trigger] self.is_obvious_pair(&removals3, g, i, j) && self.obvious_first(18, g, i, j);
                assert forall|g2: int, i2: int, j2: int|
                    0 <= g2 && (g2 < g || (g2 == g && (i2 < i || (i2 == i && j2 < j)))) implies #[trigger] self.obvious_quiet(g2, i2, j2) by {
                    if g2 < 9 {
                    } else if g2 < 18 {
                    }
                }
            }
            if !removals3.fires() {
                assert forall|g: int, i: int, j: int| 0 <= g < 27 implies #[trigger] self.obvious_quiet(g, i, j) by {
                    if g < 9 {
                        assert(self.obvious_quiet(g, i, j));
                    } else if g < 18 {
                        assert(self.obvious_quiet(g, i, j));
                    }
                }
            }
        }
        StrategyResult { strategy: Strategy::ObviousPair, removals: removals3 }
    }

    /// Digit `d` is a candidate of cells `i < j` of group `g` and of no other cell there.
    pub open spec fn only_at(&self, g: int, d: int, i: int, j: int) -> bool {
        &&& 0 <= i < j < 9
        &&& self.has(member_row(g, i), member_col(g, i), d)
        &&& self.has(member_row(g, j), member_col(g, j), d)
        &&& forall|k: int| 0 <= k < 9 && k != i && k != j ==> !#[trigger] self.has(member_row(g, k), member_col(g, k), d)
    }

    /// Digit `d` is a candidate of cell `i` of group `g` and of no other cell there.
    pub open spec fn only_one(&self, g: int, d: int, i: int) -> bool {
        &&& 0 <= i < 9
        &&& self.has(member_row(g, i), member_col(g, i), d)
        &&& forall|k: int| 0 <= k < 9 && k != i ==> !#[trigger] self.has(member_row(g, k), member_col(g, k), d)
    }

    /// What the hidden pair of digits `a < b` at cells `i`, `j` of group `g`
    /// removes: when both digits can go only in those two cells, every other
    /// candidate leaves the two cells.
    pub open spec fn hidden_elim(&self, g: int, a: int, b: int, i: int, j: int, r: int, c: int, d: int) -> bool {
        &&& is_group(g)
        &&& is_digit(a)
        &&& is_digit(b)
        &&& a < b
        &&& self.only_at(g, a, i, j)
        &&& self.only_at(g, b, i, j)
        &&& ((r == member_row(g, i) && c == member_col(g, i)) || (r == member_row(g, j) && c == member_col(g, j)))
        &&& d != a
        &&& d != b
        &&& self.has(r, c, d)
    }

    pub open spec fn hidden_quiet(&self, g: int, a: int, b: int) -> bool {
        forall|i: int, j: int, r: int, c: int, d: int|
            on_grid(r, c) && is_digit(d) ==> !#[trigger] self.hidden_elim(g, a, b, i, j, r, c, d)
    }

    /// No hidden pair that removes anything comes before digits `a`, `b` of
    /// group `g` when scanning from group `lo`: groups, then digit pairs, in order.
    pub open spec fn hidden_first(&self, lo: int, g: int, a: int, b: int) -> bool {
        forall|g2: int, a2: int, b2: int|
            lo <= g2 && (g2 < g || (g2 == g && (a2 < a || (a2 == a && b2 < b)))) ==> #[trigger] self.hidden_quiet(g2, a2, b2)
    }

    /// The same in the full scan: boxes first, then rows, then columns.
    pub open spec fn hidden_scan_first(&self, g: int, a: int, b: int) -> bool {
        if 18 <= g {
            self.hidden_first(18, g, a, b)
        } else {
            &&& self.hidden_first(0, g, a, b)
            &&& forall|g2: int, a2: int, b2: int| 18 <= g2 < 27 ==> #[trigger] self.hidden_quiet(g2, a2, b2)
        }
    }

    /// `res` removes exactly what the hidden pair `a`, `b` at cells `i`, `j` of group `g` removes.
    pub open spec fn is_hidden_pair(&self, res: &RemovalResult, g: int, a: int, b: int, i: int, j: int) -> bool {
        forall|r: int, c: int, d: int|
            on_grid(r, c) && is_digit(d) ==> (#[trigger] res.removes(r, c, d) <==> self.hidden_elim(g, a, b, i, j, r, c, d))
    }

    /// Where digit `d` is a candidate in group `g`: the count, capped at 3, and
    /// the first two places.
    pub fn places_of(&self, g: usize, d: u8) -> (res: (usize, usize, usize))
        requires
            self.wf(),
            g < 27,
        ensures
            forall|i: int, j: int| #[trigger] self.only_at(g as int, d as int, i, j) <==> (res.0 == 2 && i == res.1 && j == res.2),
            forall|i: int| #[trigger] self.only_one(g as int, d as int, i) <==> (res.0 == 1 && i == res.1),
            res.0 == 2 ==> res.1 < res.2 < 9,
            res.0 == 1 ==> res.1 < 9,
    {
        let mut n: usize = 0;
        let mut first: usize = 0;
        let mut second: usize = 0;
        let mut third: usize = 0;
        let mut k: usize = 0;
        while k < 9
            invariant
                self.wf(),
                g < 27,
                0 <= k <= 9,
                n <= 3,
                n >= 1 ==> first < k && self.has(member_row(g as int, first as int), member_col(g as int, first as int), d as int),
                n >= 2 ==> first < second < k && self.has(member_row(g as int, second as int), member_col(g as int, second as int), d as int),
                n >= 3 ==> second < third < k && self.has(member_row(g as int, third as int), member_col(g as int, third as int), d as int),
                n < 3 ==> forall|k2: int| 0 <= k2 < k && (n < 1 || k2 != first) && (n < 2 || k2 != second) ==> !#[trigger] self.has(
                    member_row(g as int, k2),
                    member_col(g as int, k2),
                    d as int,
                ),
            decreases 9 - k,
        {
            let (r, c) = member(g, k);
            if self.has_candidate(r, c, d) {
                if n == 0 {
                    first = k;
                    n = 1;
                } else if n == 1 {
                    second = k;
                    n = 2;
                } else if n == 2 {
                    third = k;
                    n = 3;
                }
            }
            k = k + 1;
        }
        proof {
            assert forall|i: int, j: int| #[trigger] self.only_at(g as int, d as int, i, j) <==> (n == 2 && i == first && j == second) by {
                if self.only_at(g as int, d as int, i, j) {
                    if n == 3 {
                        assert(first == i || first == j);
                        assert(second == i || second == j);
                        assert(third == i || third == j);
                    }
                    if n < 3 {
                        assert(n >= 1 && (first == i || first == j));
                        assert(n >= 2 && (second == i || second == j));
                    }
                }
            }
            assert forall|i: int| #[trigger] self.only_one(g as int, d as int, i) <==> (n == 1 && i == first) by {
                if self.only_one(g as int, d as int, i) {
                    if n >= 2 {
                        assert(first == i);
                        assert(second == i);
                    }
                    if n < 3 {
                        assert(n >= 1 && first == i);
                    }
                }
            }
        }
        (n, first, second)
    }

    /// The first hidden pair, scanning groups `lo..hi` in order and digit pairs
    /// `a < b` in order, that removes at least one candidate.
    pub fn find_hidden_pair_in(&self, lo: usize, hi: usize) -> (res: RemovalResult)
        requires
            self.wf(),
            lo <= hi <= 27,
        ensures
            res.sets_cell.is_none(),
            self.applicable(&res),
            res.fires() ==> exists|g: int, a: int, b: int, i: int, j: int|
                lo <= g < hi && #[trigger] self.is_hidden_pair(&res, g, a, b, i, j) && self.hidden_first(lo as int, g, a, b),
            !res.fires() ==> forall|g: int, a: int, b: int| lo <= g < hi ==> #[trigger] self.hidden_quiet(g, a, b),
    {
        let mut g: usize = lo;
        while g < hi
            invariant
                self.wf(),
                lo <= g <= hi <= 27,
                forall|g2: int, a: int, b: int| lo <= g2 < g ==> #[trigger] self.hidden_quiet(g2, a, b),
            decreases hi - g,
        {
            let mut a: u8 = 1;
            while a <= 9
                invariant
                    self.wf(),
                    lo <= g < hi <= 27,
                    1 <= a <= 10,
                    forall|g2: int, a2: int, b: int| lo <= g2 < g ==> #[trigger] self.hidden_quiet(g2, a2, b),
                    forall|a2: int, b: int| a2 < a ==> #[trigger] self.hidden_quiet(g as int, a2, b),
                decreases 10 - a,
            {
                let (na, ia, ja) = self.places_of(g, a);
                let mut b: u8 = a + 1;
                while b <= 9
                    invariant
                        self.wf(),
                        lo <= g < hi <= 27,
                        1 <= a <= 9,
                        a < b <= 10,
                        forall|i: int, j: int| #[trigger] self.only_at(g as int, a as int, i, j) <==> (na == 2 && i == ia && j == ja),
                        na == 2 ==> ia < ja < 9,
                        forall|g2: int, a2: int, b2: int| lo <= g2 < g ==> #[trigger] self.hidden_quiet(g2, a2, b2),
                        forall|a2: int, b2: int| a2 < a ==> #[trigger] self.hidden_quiet(g as int, a2, b2),
                        forall|b2: int| b2 < b ==> #[trigger] self.hidden_quiet(g as int, a as int, b2),
                    decreases 10 - b,
                {
                    let (nb, ib, jb) = self.places_of(g, b);
                    if na == 2 && nb == 2 && ia == ib && ja == jb {
                        let (r1, c1) = member(g, ia);
                        let (r2, c2) = member(g, ja);
                        let first = single_cell(r1, c1);
                        let second = single_cell(r2, c2);
                        let cells = mask_union(&first, &second);
                        let digits = digits_except(a, b);
                        let res = self.collect_masked(&cells, &digits);
                        proof {
                            assert forall|r: int, c: int, d: int|
                                on_grid(r, c) && is_digit(d) implies (#[trigger] res.removes(r, c, d)
                                    <==> self.hidden_elim(g as int, a as int, b as int, ia as int, ja as int, r, c, d)) by {
                                assert(at(cells@, r, c) == (at(first@, r, c) || at(second@, r, c)));
                                assert(self.only_at(g as int, a as int, ia as int, ja as int));
                                assert(self.only_at(g as int, b as int, ia as int, ja as int));
                            }
                        }
                        if res.will_remove_candidates() {
                            assert(self.hidden_first(lo as int, g as int, a as int, b as int));
                            assert(self.is_hidden_pair(&res, g as int, a as int, b as int, ia as int, ja as int));
                            return res;
                        }
                        proof {
                            assert forall|i: int, j: int, r: int, c: int, d: int|
                                on_grid(r, c) && is_digit(d) implies !#[trigger] self.hidden_elim(g as int, a as int, b as int, i, j, r, c, d) by {
                                if self.hidden_elim(g as int, a as int, b as int, i, j, r, c, d) {
                                    assert(self.only_at(g as int, a as int, i, j));
                                    assert(i == ia && j == ja);
                                    assert(!res.removes(r, c, d));
                                }
                            }
                        }
                    } else {
                        proof {
                            assert forall|i: int, j: int, r: int, c: int, d: int|
                                on_grid(r, c) && is_digit(d) implies !#[trigger] self.hidden_elim(g as int, a as int, b as int, i, j, r, c, d) by {
                                if self.hidden_elim(g as int, a as int, b as int, i, j, r, c, d) {
                                    assert(self.only_at(g as int, a as int, i, j));
                                    assert(self.only_at(g as int, b as int, i, j));
                                }
                            }
                        }
                    }
                    b = b + 1;
                }
                proof {
                    assert forall|b2: int| true implies #[trigger] self.hidden_quiet(g as int, a as int, b2) by {
                        if b2 > 9 {
                            assert forall|i: int, j: int, r: int, c: int, d: int|
                                on_grid(r, c) && is_digit(d) implies !#[trigger] self.hidden_elim(g as int, a as int, b2, i, j, r, c, d) by {
                            }
                        }
                    }
                }
                a = a + 1;
            }
            proof {
                assert forall|a2: int, b2: int| true implies #[trigger] self.hidden_quiet(g as int, a2, b2) by {
                    if a2 > 9 {
                        assert forall|i: int, j: int, r: int, c: int, d: int|
                            on_grid(r, c) && is_digit(d) implies !#[trigger] self.hidden_elim(g as int, a2, b2, i, j, r, c, d) by {
                        }
                    }
                }
            }
            g = g + 1;
        }
        RemovalResult::empty()
    }

    pub fn find_hidden_pair_in_boxes(&self) -> (res: RemovalResult)
        requires
            self.wf(),
        ensures
            res.sets_cell.is_none(),
            self.applicable(&res),
            res.fires() ==> exists|g: int, a: int, b: int, i: int, j: int|
                18 <= g < 27 && #[trigger] self.is_hidden_pair(&res, g, a, b, i, j) && self.hidden_first(18, g, a, b),
            !res.fires() ==> forall|g: int, a: int, b: int| 18 <= g < 27 ==> #[trigger] self.hidden_quiet(g, a, b),
    {
        self.find_hidden_pair_in(18, 27)
    }

    pub fn find_hidden_pair_in_rows(&self) -> (res: RemovalResult)
        requires
            self.wf(),
        ensures
            res.sets_cell.is_none(),
            self.applicable(&res),
            res.fires() ==> exists|g: int, a: int, b: int, i: int, j: int|
                0 <= g < 9 && #[trigger] self.is_hidden_pair(&res, g, a, b, i, j) && self.hidden_first(0, g, a, b),
            !res.fires() ==> forall|g: int, a: int, b: int| 0 <= g < 9 ==> #[trigger] self.hidden_quiet(g, a, b),
    {
        self.find_hidden_pair_in(0, 9)
    }

    pub fn find_hidden_pair_in_cols(&self) -> (res: RemovalResult)
        requires
            self.wf(),
        ensures
            res.sets_cell.is_none(),
            self.applicable(&res),
            res.fires() ==> exists|g: int, a: int, b: int, i: int, j: int|
                9 <= g < 18 && #[trigger] self.is_hidden_pair(&res, g, a, b, i, j) && self.hidden_first(9, g, a, b),
            !res.fires() ==> forall|g: int, a: int, b: int| 9 <= g < 18 ==> #[trigger] self.hidden_quiet(g, a, b),
    {
        self.find_hidden_pair_in(9, 18)
    }

    /// Hidden pairs: boxes first, then rows, then columns.
    pub fn find_hidden_pair(&self) -> (res: StrategyResult)
        requires
            self.wf(),
        ensures
            res.strategy == Strategy::HiddenPair,
            res.removals.sets_cell.is_none(),
            self.applicable(&res.removals),
            res.removals.fires() ==> exists|g: int, a: int, b: int, i: int, j: int|
                0 <= g < 27 && #[trigger] self.is_hidden_pair(&res.removals, g, a, b, i, j) && self.hidden_scan_first(g, a, b),
            !res.removals.fires() ==> forall|g: int, a: int, b: int| 0 <= g < 27 ==> #[trigger] self.hidden_quiet(g, a, b),
    {
        let removals = self.find_hidden_pair_in_boxes();
        if removals.will_remove_candidates() {
            return StrategyResult { strategy: Strategy::HiddenPair, removals };
        }
        let removals2 = self.find_hidden_pair_in_rows();
        if removals2.will_remove_candidates() {
            return StrategyResult { strategy: Strategy::HiddenPair, removals: removals2 };
        }
        let removals3 = self.find_hidden_pair_in_cols();
        proof {
            if removals3.fires() {
                let (g, a, b, i, j) = choose|g: int, a: int, b: int, i: int, j: int|
                    9 <= g < 18 && #[trigger] self.is_hidden_pair(&removals3, g, a, b, i, j) && self.hidden_first(9, g, a, b);
                assert(self.hidden_first(0, g, a, b));
                assert(self.hidden_scan_first(g, a, b));
            }
            if !removals3.fires() {
                assert forall|g: int, a: int, b: int| 0 <= g < 27 implies #[trigger] self.hidden_quiet(g, a, b) by {
                    if g < 9 {
                        assert(self.hidden_quiet(g, a, b));
                    } else if g < 18 {
                        assert(self.hidden_quiet(g, a, b));
                    } else {
                        assert(self.hidden_quiet(g, a, b));
                    }
                }
            }
        }
        StrategyResult { strategy: Strategy::HiddenPair, removals: removals3 }
    }
}

/// The digits 1..=9 other than `a` and `b`, as nine flags.
pub fn digits_except(a: u8, b: u8) -> (m: Vec<bool>)
    ensures
        m@.len() == 9,
        forall|d: int| is_digit(d) ==> #[trigger] m@[d - 1] == (d != a && d != b),
{
    let mut m: Vec<bool> = Vec::new();
    let mut d: u8 = 1;
    while d <= 9
        invariant
            1 <= d <= 10,
            m@.len() == d - 1,
            forall|e: int| 1 <= e < d ==> #[trigger] m@[e - 1] == (e != a && e != b),
        decreases 10 - d,
    {
        m.push(d != a && d != b);
        d = d + 1;
    }
    m
}

} // verus!
