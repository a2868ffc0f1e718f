use vstd::prelude::*;
use crate::grid::{
    EMPTY, on_grid, is_digit, sees, is_puzzle_text, board_of_text, text_of_board,
};
use crate::removal::StrategyResult;
use crate::strategy::Strategy;
use crate::sudoku::Sudoku;

verus! {

/// A placement that `apply` accepts puts its digit where `can_place` allows it:
/// the cell is empty and no cell that sees it holds the digit.
pub proof fn law_placement_can_be_placed(s: Sudoku, step: StrategyResult)
    requires
        s.wf(),
        s.applicable(&step.removals),
        step.removals.sets_cell.is_some(),
    ensures
        ({
            let cell = step.removals.sets_cell.unwrap();
            s.can_place_spec(cell.row as int, cell.col as int, cell.num as int)
        }),
{
    let cell = step.removals.sets_cell.unwrap();
    let (r, c, n) = (cell.row as int, cell.col as int, cell.num as int);
    assert(s.voided_by(r, c, n, r, c, n));
    assert(step.removals.removes(r, c, n));
    let j = choose|j: int|
        0 <= j < step.removals.candidates_about_to_be_removed@.len() && #[trigger] crate::removal::cand_key(
            step.removals.candidates_about_to_be_removed@[j],
        ) == crate::grid::key(r, c, n);
    let x = step.removals.candidates_about_to_be_removed@[j];
    crate::grid::lemma_key_injective(x.row as int, x.col as int, x.num as int, r, c, n);
    assert(s.has(r, c, n));
}

/// Every candidate of a well-formed grid is a digit that the placed digits
/// allow: its cell is empty and no cell that sees it holds the digit.
pub proof fn law_candidates_respect_peers(s: Sudoku)
    requires
        s.wf(),
    ensures
        forall|r: int, c: int, d: int|
            on_grid(r, c) && #[trigger] s.has(r, c, d) ==> is_digit(d) && s.cell(r, c) == EMPTY && forall|r2: int, c2: int|
                on_grid(r2, c2) && sees(r, c, r2, c2) ==> #[trigger] s.cell(r2, c2) != d,
{
    assert forall|r: int, c: int, d: int| on_grid(r, c) && #[trigger] s.has(r, c, d) implies is_digit(d) && s.cell(r, c)
        == EMPTY && forall|r2: int, c2: int| on_grid(r2, c2) && sees(r, c, r2, c2) ==> #[trigger] s.cell(r2, c2) != d by {
        assert(s.allowed(r, c, d));
    }
}

/// A cell that holds a digit has no candidate.
pub proof fn law_placed_cell_has_no_candidates(s: Sudoku, r: int, c: int)
    requires
        s.wf(),
        on_grid(r, c),
        s.cell(r, c) != EMPTY,
    ensures
        forall|d: int| !#[trigger] s.has(r, c, d),
{
    assert forall|d: int| !#[trigger] s.has(r, c, d) by {
        if s.has(r, c, d) {
            assert(s.allowed(r, c, d));
        }
    }
}

/// Loading a puzzle string and writing the board out gives the string back.
pub proof fn law_load_then_serialize(text: Seq<char>)
    requires
        is_puzzle_text(text),
    ensures
        text_of_board(board_of_text(text)) == text,
{
    assert(text_of_board(board_of_text(text)) =~= text);
}

/// On an empty board every digit is allowed in every cell, so computing the
/// candidates gives each cell all of 1..=9, and the board is unsolved.
pub proof fn law_empty_board_allows_everything(s: Sudoku)
    requires
        s.wf(),
        forall|i: int| 0 <= i < 81 ==> #[trigger] s.cells()[i] == EMPTY,
    ensures
        forall|r: int, c: int, d: int| on_grid(r, c) && is_digit(d) ==> #[trigger] s.allowed(r, c, d),
        !s.is_solved_spec(),
{
    assert(s.cells()[0] == EMPTY);
}

/// On a full board no cell has a candidate and no strategy fires.
pub proof fn law_full_board_is_stuck(s: Sudoku)
    requires
        s.wf(),
        s.is_solved_spec(),
    ensures
        forall|r: int, c: int, d: int| on_grid(r, c) ==> !#[trigger] s.has(r, c, d),
        s.stuck(),
{
    assert forall|r: int, c: int, d: int| on_grid(r, c) implies !#[trigger] s.has(r, c, d) by {
        assert(s.cells()[crate::grid::pos(r, c)] != EMPTY);
        law_placed_cell_has_no_candidates(s, r, c);
    }
    assert(s.quiet_for(Strategy::LastDigit)) by {
        assert forall|g: int, i: int, m: int| 0 <= g < 27 implies !#[trigger] s.last_digit(g, i, m) by {
            if s.last_digit(g, i, m) {
                crate::groups::lemma_member(g, i);
            }
        }
    }
    assert(s.quiet_for(Strategy::HiddenSingle)) by {
        assert forall|g: int, i: int, d: int| 0 <= g < 27 implies !#[trigger] s.hidden_single(g, i, d) by {
            if s.hidden_single(g, i, d) {
                crate::groups::lemma_member(g, i);
            }
        }
    }
    assert(s.quiet_for(Strategy::PointingPair)) by {
        assert forall|g: int, d: int| 0 <= g < 18 implies #[trigger] s.pointing_quiet(g, d) by {
            assert forall|i: int, j: int, r: int, c: int, e: int|
                on_grid(r, c) && is_digit(e) implies !#[trigger] s.pointing_elim(g, d, i, j, r, c, e) by {
            }
        }
    }
    assert(s.quiet_for(Strategy::ObviousPair)) by {
        assert forall|g: int, i: int, j: int| 0 <= g < 27 implies #[trigger] s.obvious_quiet(g, i, j) by {
            assert forall|r: int, c: int, d: int| on_grid(r, c) && is_digit(d) implies !#[trigger] s.obvious_elim(g, i, j, r, c, d) by {
            }
        }
    }
    assert(s.quiet_for(Strategy::HiddenPair)) by {
        assert forall|g: int, a: int, b: int| 0 <= g < 27 implies #[trigger] s.hidden_quiet(g, a, b) by {
            assert forall|i: int, j: int, r: int, c: int, d: int|
                on_grid(r, c) && is_digit(d) implies !#[trigger] s.hidden_elim(g, a, b, i, j, r, c, d) by {
            }
        }
    }
    assert(s.quiet_for(Strategy::XWing)) by {
        assert forall|lo: int, d: int, g1: int, g2: int| (lo == 0 || lo == 9) implies #[trigger] s.xwing_quiet(lo, d, g1, g2) by {
            assert forall|i: int, j: int, r: int, c: int, e: int|
                on_grid(r, c) && is_digit(e) implies !#[trigger] s.xwing_elim(lo, d, g1, g2, i, j, r, c, e) by {
            }
        }
    }
}

} // verus!
