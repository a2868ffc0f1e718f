use vstd::prelude::*;
use crate::grid::{
    is_solution, on_grid, pos, extends, is_consistent, true_count, lemma_true_count_shrinks,
    lemma_place_consistent, lemma_extends_trans,
};
use crate::groups::{member_row, member_col};
use crate::removal::{RemovalResult, StrategyResult, lists, cand_key};
use crate::strategy::Strategy;
use crate::sudoku::Sudoku;
use crate::soundness::{
    law_fresh_grid_agrees_with_solutions, law_deduction_is_sound, lemma_apply_keeps_agreement,
    lemma_agrees_extends, lemma_full_consistent_is_solution,
    law_human_solution_is_the_backtracking_solution,
};

verus! {

/// Order in which the solver tries the strategies; 0 for none.
pub open spec fn rank(s: Strategy) -> int {
    match s {
        Strategy::NoDeduction => 0,
        Strategy::LastDigit => 1,
        Strategy::ObviousSingle => 2,
        Strategy::HiddenSingle => 3,
        Strategy::PointingPair => 4,
        Strategy::ObviousPair => 5,
        Strategy::HiddenPair => 6,
        Strategy::XWing => 7,
    }
}

impl Sudoku {
    /// Strategy `s` finds nothing to remove on this grid.
    pub open spec fn quiet_for(&self, s: Strategy) -> bool {
        match s {
            Strategy::LastDigit => forall|g: int, i: int, m: int| 0 <= g < 27 ==> !#[trigger] self.last_digit(g, i, m),
            Strategy::ObviousSingle => forall|r: int, c: int, m: int| !#[trigger] self.obvious_single(r, c, m),
            Strategy::HiddenSingle => forall|g: int, i: int, d: int| 0 <= g < 27 ==> !#[trigger] self.hidden_single(g, i, d),
            Strategy::PointingPair => forall|g: int, d: int| 0 <= g < 18 ==> #[trigger] self.pointing_quiet(g, d),
            Strategy::ObviousPair => forall|g: int, i: int, j: int| 0 <= g < 27 ==> #[trigger] self.obvious_quiet(g, i, j),
            Strategy::HiddenPair => forall|g: int, a: int, b: int| 0 <= g < 27 ==> #[trigger] self.hidden_quiet(g, a, b),
            Strategy::XWing => forall|lo: int, d: int, g1: int, g2: int|
                (lo == 0 || lo == 9) ==> #[trigger] self.xwing_quiet(lo, d, g1, g2),
            Strategy::NoDeduction => true,
        }
    }

    /// `res` is the deduction of strategy `s` on this grid: the first one, in
    /// the strategy's scan order, that removes anything.
    pub open spec fn deduces(&self, s: Strategy, res: &RemovalResult) -> bool {
        match s {
            Strategy::LastDigit => exists|g: int, i: int, m: int|
                0 <= g < 27 && #[trigger] self.last_digit(g, i, m)
                    && self.is_placement(res, member_row(g, i), member_col(g, i), m) && self.last_digit_first(0, g),
            Strategy::ObviousSingle => exists|r: int, c: int, m: int|
                #[trigger] self.obvious_single(r, c, m) && self.is_placement(res, r, c, m) && self.obvious_single_first(r, c),
            Strategy::HiddenSingle => exists|g: int, i: int, d: int|
                0 <= g < 27 && #[trigger] self.hidden_single(g, i, d)
                    && self.is_placement(res, member_row(g, i), member_col(g, i), d) && self.hidden_single_scan_first(g, i, d),
            Strategy::PointingPair => res.sets_cell.is_none() && exists|g: int, d: int, i: int, j: int|
                0 <= g < 18 && #[trigger] self.is_pointing_pair(res, g, d, i, j) && self.pointing_first(0, g, d),
            Strategy::ObviousPair => res.sets_cell.is_none() && exists|g: int, i: int, j: int|
                0 <= g < 27 && #[trigger] self.is_obvious_pair(res, g, i, j) && self.obvious_first(0, g, i, j),
            Strategy::HiddenPair => res.sets_cell.is_none() && exists|g: int, a: int, b: int, i: int, j: int|
                0 <= g < 27 && #[trigger] self.is_hidden_pair(res, g, a, b, i, j) && self.hidden_scan_first(g, a, b),
            Strategy::XWing => res.sets_cell.is_none() && exists|lo: int, d: int, g1: int, g2: int, i: int, j: int|
                (lo == 0 || lo == 9) && #[trigger] self.is_xwing(res, lo, d, g1, g2, i, j)
                    && self.xwing_scan_first(lo, d, g1, g2),
            Strategy::NoDeduction => false,
        }
    }

    /// No strategy finds anything to remove: the solver gives up here.
    pub open spec fn stuck(&self) -> bool {
        &&& self.quiet_for(Strategy::LastDigit)
        &&& self.quiet_for(Strategy::ObviousSingle)
        &&& self.quiet_for(Strategy::HiddenSingle)
        &&& self.quiet_for(Strategy::PointingPair)
        &&& self.quiet_for(Strategy::ObviousPair)
        &&& self.quiet_for(Strategy::HiddenPair)
        &&& self.quiet_for(Strategy::XWing)
    }

    /// The next deduction: the first strategy, in the order last digit,
    /// obvious single, hidden single, pointing pair, obvious pair, hidden pair,
    /// X-Wing, that fires, with what it removes; `NoDeduction` when none fires.
    pub fn next_step(&self) -> (res: StrategyResult)
        requires
            self.wf(),
        ensures
            self.applicable(&res.removals),
            res.strategy != Strategy::NoDeduction <==> res.removals.fires(),
            res.strategy != Strategy::NoDeduction ==> self.deduces(res.strategy, &res.removals),
            forall|s: Strategy| rank(s) < rank(res.strategy) ==> #[trigger] self.quiet_for(s),
            res.strategy == Strategy::NoDeduction ==> self.stuck() && res.removals.sets_cell.is_none(),
    {
        let result = self.find_last_digit();
        if result.removals.will_remove_candidates() {
            return result;
        }
        let result = self.find_obvious_single();
        if result.removals.will_remove_candidates() {
            return result;
        }
        let result = self.find_hidden_single();
        if result.removals.will_remove_candidates() {
            return result;
        }
        let result = self.find_pointing_pair();
        if result.removals.will_remove_candidates() {
            return result;
        }
        let result = self.find_obvious_pair();
        if result.removals.will_remove_candidates() {
            return result;
        }
        let result = self.find_hidden_pair();
        if result.removals.will_remove_candidates() {
            return result;
        }
        self.find_xwing()
    }

    /// Solves the way a person does: computes the candidate grid afresh,
    /// empties the ledger, then applies `next_step` until the board is full or
    /// no strategy fires. Returns whether the board is full.
    pub fn solve_like_a_human(&mut self) -> (solved: bool)
        requires
            old(self).wf(),
        ensures
            final(self).wf(),
            solved == final(self).is_solved_spec(),
            !solved ==> final(self).stuck(),
            final(self).origin() == old(self).origin(),
            extends(final(self).cells(), old(self).cells()),
            is_consistent(old(self).cells()) ==> is_consistent(final(self).cells()),
            forall|r: int, c: int, d: int| on_grid(r, c) && #[trigger] final(self).has(r, c, d) ==> old(self).allowed(r, c, d),
            old(self).is_solved_spec() ==> final(self).cells() == old(self).cells(),
            old(self).is_solved_spec() ==> final(self).counts() == Seq::new(8, |i: int| 0usize),
            forall|b: Seq<u8>| is_solution(b) && #[trigger] extends(b, old(self).cells()) ==> final(self).agrees_with(b)
                && extends(b, final(self).cells()),
    {
        self.clear_rating();
        let ghost cleared = *self;
        self.calc_all_notes();
        let ghost start = *self;
        proof {
            assert forall|r: int, c: int, d: int| on_grid(r, c) && #[trigger] self.has(r, c, d) implies old(self).allowed(r, c, d) by {
                assert(cleared.allowed(r, c, d));
                assert forall|r2: int, c2: int| on_grid(r2, c2) && crate::grid::sees(r, c, r2, c2) implies #[trigger] old(self).cell(r2, c2) != d by {
                    assert(cleared.cell(r2, c2) != d);
                }
            }
            assert forall|b: Seq<u8>| is_solution(b) && #[trigger] extends(b, old(self).cells()) implies self.agrees_with(b) by {
                law_fresh_grid_agrees_with_solutions(*self, b);
            }
        }
        let mut stuck = false;
        while !stuck && self.unsolved()
            invariant
                self.wf(),
                start.cells() == old(self).cells(),
                self.origin() == old(self).origin(),
                extends(self.cells(), old(self).cells()),
                is_consistent(old(self).cells()) ==> is_consistent(self.cells()),
                forall|r: int, c: int, d: int| on_grid(r, c) && #[trigger] self.has(r, c, d) ==> old(self).allowed(r, c, d),
                stuck ==> self.stuck(),
                old(self).is_solved_spec() ==> self.cells() == old(self).cells(),
                old(self).is_solved_spec() ==> self.counts() == Seq::new(8, |i: int| 0usize),
                forall|b: Seq<u8>| is_solution(b) && #[trigger] extends(b, old(self).cells()) ==> self.agrees_with(b),
            decreases true_count(self.notes(), 729), if stuck { 0int } else { 1int },
        {
            let step = self.next_step();
            if step.strategy == Strategy::NoDeduction {
                stuck = true;
            } else {
                let ghost before = *self;
                let v = Ghost(step.removals.candidates_about_to_be_removed@);
                self.apply(&step);
                proof {
                    let x = v@[0];
                    assert(before.has(x.row as int, x.col as int, x.num as int));
                    assert(lists(v@, cand_key(x)));
                    lemma_true_count_shrinks(before.notes(), self.notes(), 729, cand_key(x));
                    match step.removals.sets_cell {
                        Some(cell) => {
                            assert forall|r2: int, c2: int| on_grid(r2, c2) && crate::grid::sees(cell.row as int, cell.col as int, r2, c2) implies #[trigger] before.cells()[pos(r2, c2)] != cell.num by {
                                assert(before.cell(r2, c2) != cell.num);
                            }
                            lemma_place_consistent(before.cells(), cell.row as int, cell.col as int, cell.num);
                            lemma_extends_trans(old(self).cells(), before.cells(), self.cells());
                        },
                        None => {},
                    }
                    assert forall|r: int, c: int, d: int| on_grid(r, c) && #[trigger] self.has(r, c, d) implies old(self).allowed(r, c, d) by {
                        assert(before.has(r, c, d));
                    }
                    assert forall|b: Seq<u8>| is_solution(b) && #[trigger] extends(b, old(self).cells()) implies self.agrees_with(b) by {
                        assert(before.agrees_with(b));
                        law_deduction_is_sound(before, b, step.strategy, &step.removals);
                        lemma_apply_keeps_agreement(before, *self, &step.removals, b);
                    }
                }
            }
        }
        proof {
            assert forall|b: Seq<u8>| is_solution(b) && #[trigger] extends(b, old(self).cells()) implies extends(b, self.cells()) by {
                lemma_agrees_extends(*self, b);
            }
        }
        self.is_solved()
    }

    /// Solves the board the way a person does, and returns a copy of the board
    /// as it was, solved by backtracking, against which to check the result.
    /// The copy holds a completion of the board when one exists and the board
    /// unchanged otherwise.
    pub fn solve_puzzle(&mut self) -> (oracle: Sudoku)
        requires
            old(self).wf(),
        ensures
            final(self).wf(),
            !final(self).is_solved_spec() ==> final(self).stuck(),
            final(self).origin() == old(self).origin(),
            extends(final(self).cells(), old(self).cells()),
            is_consistent(old(self).cells()) ==> is_consistent(final(self).cells()),
            forall|r: int, c: int, d: int| on_grid(r, c) && #[trigger] final(self).has(r, c, d) ==> old(self).allowed(r, c, d),
            oracle.wf(),
            oracle.origin() == old(self).origin(),
            extends(oracle.cells(), old(self).cells()),
            oracle.is_solved_spec() || oracle.cells() == old(self).cells(),
            oracle.is_solved_spec() && is_consistent(old(self).cells()) ==> is_solution(oracle.cells()),
            !oracle.is_solved_spec() ==> forall|b: Seq<u8>| is_solution(b) ==> !#[trigger] extends(b, old(self).cells()),
            final(self).is_solved_spec() && is_consistent(old(self).cells()) ==> oracle.cells() == final(self).cells(),
    {
        let mut oracle = self.duplicate();
        self.solve_like_a_human();
        let found = oracle.solve_by_backtracking();
        proof {
            if !found {
                assert(extends(oracle.cells(), old(self).cells()));
            }
            if self.is_solved_spec() && is_consistent(old(self).cells()) {
                lemma_full_consistent_is_solution(self.cells());
                assert(extends(self.cells(), old(self).cells()));
                assert(found);
                law_human_solution_is_the_backtracking_solution(old(self).cells(), self.cells(), oracle.cells());
            }
        }
        oracle
    }
}

} // verus!
