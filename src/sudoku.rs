use vstd::prelude::*;
use vstd::string::*;
use crate::removal::{
    Cell, Candidate, RemovalResult, StrategyResult, Resolution, cand_key, cand_on_grid, in_key_order, distinct_on_grid,
    lists, lemma_lists_push,
};
use crate::strategy::{Strategy, slot, weight, strategy_in_slot};
use crate::groups::{is_mask, at};
use crate::grid::{
    EMPTY, pos, key, on_grid, is_digit, sees, is_board, is_puzzle_text, board_of_text,
    text_of_board, cells_see, digit_text, is_solution, is_consistent, extends, empty_in,
    empty_count, lemma_empty_in_update, lemma_key_injective, lemma_pos_injective,
};

verus! {

/// Why a puzzle was refused.
#[derive(Clone, Copy, Debug, PartialEq, Eq, Structural)]
pub enum SudokuError {
    /// The text is not exactly 81 ASCII digits.
    InvalidInput,
}

/// A 9x9 board, the board as it was loaded, the candidate grid and the
/// ledger of strategies used.
#[derive(Clone, Debug)]
pub struct Sudoku {
    board: Vec<u8>,
    original_board: Vec<u8>,
    candidates: Vec<bool>,
    rating: Vec<usize>,
}

impl Sudoku {
    /// The board, row-major: 0 for an empty cell.
    pub closed spec fn cells(&self) -> Seq<u8> {
        self.board@
    }

    /// The board as it was loaded.
    pub closed spec fn origin(&self) -> Seq<u8> {
        self.original_board@
    }

    /// The candidate grid: flag `key(r, c, d)` is set while `d` is a candidate of `(r, c)`.
    pub closed spec fn notes(&self) -> Seq<bool> {
        self.candidates@
    }

    /// The ledger: one counter per strategy slot.
    pub closed spec fn counts(&self) -> Seq<usize> {
        self.rating@
    }

    pub open spec fn cell(&self, r: int, c: int) -> u8 {
        self.cells()[pos(r, c)]
    }

    pub open spec fn has(&self, r: int, c: int, d: int) -> bool {
        is_digit(d) && self.notes()[key(r, c, d)]
    }

    /// `n` could go at `(r, c)`: the cell is empty and no cell that sees it holds `n`.
    pub open spec fn can_place_spec(&self, r: int, c: int, n: int) -> bool {
        &&& self.cell(r, c) == EMPTY
        &&& forall|r2: int, c2: int|
            on_grid(r2, c2) && sees(r, c, r2, c2) ==> #[trigger] self.cell(r2, c2) != n
    }

    /// `d` is a digit that the placed digits still allow at `(r, c)`.
    pub open spec fn allowed(&self, r: int, c: int, d: int) -> bool {
        is_digit(d) && self.can_place_spec(r, c, d)
    }

    /// Every candidate is allowed by the placed digits: a placed cell has no
    /// candidate, and no candidate repeats a digit that a cell it sees holds.
    pub open spec fn notes_sound(&self) -> bool {
        forall|r: int, c: int, d: int| on_grid(r, c) && #[trigger] self.has(r, c, d) ==> self.allowed(r, c, d)
    }

    pub open spec fn wf(&self) -> bool {
        &&& is_board(self.cells())
        &&& is_board(self.origin())
        &&& self.notes().len() == 729
        &&& self.counts().len() == 8
        &&& self.notes_sound()
    }

    /// Number of candidates of `(r, c)` among the digits 1..=n.
    pub open spec fn count_upto(&self, r: int, c: int, n: int) -> nat
        decreases n,
    {
        if n <= 0 {
            0
        } else {
            self.count_upto(r, c, n - 1) + if self.has(r, c, n) { 1nat } else { 0nat }
        }
    }

    pub open spec fn cand_count(&self, r: int, c: int) -> nat {
        self.count_upto(r, c, 9)
    }

    pub open spec fn no_notes(&self) -> bool {
        forall|k: int| 0 <= k < 729 ==> !#[trigger] self.notes()[k]
    }

    /// The candidate grid as a set of (row, column, digit).
    pub open spec fn candidate_set(&self) -> Set<(int, int, int)> {
        Set::new(|t: (int, int, int)| on_grid(t.0, t.1) && self.has(t.0, t.1, t.2))
    }

    pub open spec fn is_solved_spec(&self) -> bool {
        forall|i: int| 0 <= i < 81 ==> #[trigger] self.cells()[i] != EMPTY
    }

    /// Candidate `d` of `(r, c)` is voided when `n` is placed at `(row, col)`:
    /// it is `n` itself or another candidate of that cell, or `n` at a cell that
    /// sees it.
    pub open spec fn voided_by(&self, row: int, col: int, n: int, r: int, c: int, d: int) -> bool {
        ||| r == row && c == col && (d == n || self.has(r, c, d))
        ||| sees(row, col, r, c) && d == n && self.has(r, c, d)
    }

    /// A deduction that `apply` can carry out: its candidates are distinct and
    /// all present, and a placement lists exactly what it voids.
    pub open spec fn applicable(&self, res: &RemovalResult) -> bool {
        &&& distinct_on_grid(res.candidates_about_to_be_removed@)
        &&& forall|i: int|
            0 <= i < res.candidates_about_to_be_removed@.len() ==> {
                let x = #[trigger] res.candidates_about_to_be_removed@[i];
                self.has(x.row as int, x.col as int, x.num as int)
            }
        &&& match res.sets_cell {
            Some(cell) => {
                &&& on_grid(cell.row as int, cell.col as int)
                &&& is_digit(cell.num as int)
                &&& forall|r: int, c: int, d: int|
                    on_grid(r, c) && is_digit(d) ==> (#[trigger] res.removes(r, c, d) <==> self.voided_by(
                        cell.row as int,
                        cell.col as int,
                        cell.num as int,
                        r,
                        c,
                        d,
                    ))
            },
            None => true,
        }
    }

    /// An empty board with no candidates and an empty ledger.
    pub fn new() -> (s: Sudoku)
        ensures
            s.wf(),
            s.cells() == Seq::new(81, |i: int| EMPTY),
            s.origin() == Seq::new(81, |i: int| EMPTY),
            s.no_notes(),
            s.counts() == Seq::new(8, |i: int| 0usize),
    {
        let s = Sudoku {
            board: zeros(81),
            original_board: zeros(81),
            candidates: no_candidates(),
            rating: counters(),
        };
        proof {
            assert(s.board@ =~= Seq::new(81, |i: int| EMPTY));
            assert(s.original_board@ =~= Seq::new(81, |i: int| EMPTY));
            assert(s.rating@ =~= Seq::new(8, |i: int| 0usize));
        }
        s
    }

    /// Empties the board, the candidate grid and the ledger; the loaded board is kept.
    pub fn clear(&mut self)
        requires
            old(self).wf(),
        ensures
            final(self).wf(),
            final(self).cells() == Seq::new(81, |i: int| EMPTY),
            final(self).origin() == old(self).origin(),
            final(self).no_notes(),
            final(self).counts() == Seq::new(8, |i: int| 0usize),
    {
        self.candidates = no_candidates();
        self.board = zeros(81);
        self.rating = counters();
        proof {
            assert(self.board@ =~= Seq::new(81, |i: int| EMPTY));
            assert(self.rating@ =~= Seq::new(8, |i: int| 0usize));
        }
    }

    /// Loads a puzzle of exactly 81 ASCII digits, row-major, 0 for empty.
    /// The board and the loaded board take its digits and the candidate grid
    /// is emptied; any other text is refused and nothing changes.
    pub fn from_string(&mut self, board_string: &str) -> (r: Result<(), SudokuError>)
        requires
            old(self).wf(),
        ensures
            final(self).wf(),
            r.is_ok() <==> is_puzzle_text(board_string@),
            r.is_ok() ==> final(self).cells() == board_of_text(board_string@),
            r.is_ok() ==> final(self).origin() == board_of_text(board_string@),
            r.is_ok() ==> final(self).no_notes(),
            r.is_ok() ==> final(self).counts() == old(self).counts(),
            r.is_err() ==> r == Err::<(), SudokuError>(SudokuError::InvalidInput),
            r.is_err() ==> *final(self) == *old(self),
    {
        let n = board_string.unicode_len();
        if n != 81 {
            return Err(SudokuError::InvalidInput);
        }
        let mut digits: Vec<u8> = Vec::new();
        let mut i: usize = 0;
        while i < 81
            invariant
                0 <= i <= 81,
                self.wf(),
                board_string@.len() == 81,
                digits@.len() == i,
                forall|j: int| 0 <= j < i ==> '0' <= #[trigger] board_string@[j] <= '9',
                forall|j: int| 0 <= j < i ==> #[trigger] digits@[j] == board_of_text(board_string@)[j],
                forall|j: int| 0 <= j < i ==> #[trigger] digits@[j] <= 9,
            decreases 81 - i,
        {
            let ch = board_string.get_char(i);
            if ch < '0' || ch > '9' {
                return Err(SudokuError::InvalidInput);
            }
            let d = ((ch as u32) - ('0' as u32)) as u8;
            digits.push(d);
            i = i + 1;
        }
        proof {
            assert(digits@ =~= board_of_text(board_string@));
        }
        self.original_board = digits.clone();
        self.board = digits;
        self.candidates = no_candidates();
        Ok(())
    }

    /// Loads the board again from the loaded board.
    pub fn restore(&mut self)
        requires
            old(self).wf(),
        ensures
            final(self).wf(),
            final(self).cells() == old(self).origin(),
            final(self).origin() == old(self).origin(),
            final(self).no_notes(),
            final(self).counts() == old(self).counts(),
    {
        self.board = self.original_board.clone();
        self.candidates = no_candidates();
    }

    /// The board as a puzzle string.
    pub fn serialized(&self) -> (r: String)
        requires
            self.wf(),
        ensures
            r@ == text_of_board(self.cells()),
    {
        board_text(&self.board)
    }

    /// The loaded board as a puzzle string.
    pub fn original_board(&self) -> (r: String)
        requires
            self.wf(),
        ensures
            r@ == text_of_board(self.origin()),
    {
        board_text(&self.original_board)
    }

    /// The digit at `(row, col)`, 0 when empty.
    pub fn get_num(&self, row: usize, col: usize) -> (r: u8)
        requires
            self.wf(),
            row < 9,
            col < 9,
        ensures
            r == self.cell(row as int, col as int),
    {
        self.board[9 * row + col]
    }

    /// Whether `num` is a candidate of `(row, col)`.
    pub fn has_candidate(&self, row: usize, col: usize, num: u8) -> (r: bool)
        requires
            self.wf(),
            row < 9,
            col < 9,
        ensures
            r == self.has(row as int, col as int, num as int),
    {
        if num < 1 || num > 9 {
            false
        } else {
            self.candidates[81 * row + 9 * col + (num as usize) - 1]
        }
    }

    /// The candidates of `(row, col)`, in increasing order.
    pub fn get_notes(&self, row: usize, col: usize) -> (r: Vec<u8>)
        requires
            self.wf(),
            row < 9,
            col < 9,
        ensures
            forall|d: int| r@.contains(d as u8) && 0 <= d < 256 <==> #[trigger] self.has(row as int, col as int, d),
            forall|i: int, j: int| 0 <= i < j < r@.len() ==> r@[i] < r@[j],
            forall|i: int| 0 <= i < r@.len() ==> #[trigger] self.has(row as int, col as int, r@[i] as int),
            r@.len() == self.cand_count(row as int, col as int),
    {
        let mut r: Vec<u8> = Vec::new();
        let mut d: u8 = 1;
        while d <= 9
            invariant
                1 <= d <= 10,
                self.wf(),
                row < 9,
                col < 9,
                forall|i: int| 0 <= i < r@.len() ==> 1 <= #[trigger] r@[i] < d,
                forall|i: int, j: int| 0 <= i < j < r@.len() ==> r@[i] < r@[j],
                forall|e: int| 1 <= e < d ==> (r@.contains(e as u8) <==> #[trigger] self.has(row as int, col as int, e)),
                forall|i: int| 0 <= i < r@.len() ==> #[trigger] self.has(row as int, col as int, r@[i] as int),
                r@.len() == self.count_upto(row as int, col as int, d - 1),
            decreases 10 - d,
        {
            let ghost prev = r@;
            if self.has_candidate(row, col, d) {
                r.push(d);
                proof {
                    assert forall|e: int| 1 <= e <= d implies (r@.contains(e as u8) <==> #[trigger] self.has(
                        row as int,
                        col as int,
                        e,
                    )) by {
                        if e < d {
                            if prev.contains(e as u8) {
                                let j = choose|j: int| 0 <= j < prev.len() && prev[j] == e as u8;
                                assert(r@[j] == e as u8);
                            }
                            if r@.contains(e as u8) {
                                let j = choose|j: int| 0 <= j < r@.len() && r@[j] == e as u8;
                                assert(j < prev.len());
                                assert(prev[j] == e as u8);
                            }
                        } else {
                            assert(r@[prev.len() as int] == d);
                        }
                    }
                }
            } else {
                proof {
                    assert forall|e: int| 1 <= e <= d implies (r@.contains(e as u8) <==> #[trigger] self.has(
                        row as int,
                        col as int,
                        e,
                    )) by {
                        if e == d && r@.contains(e as u8) {
                            let j = choose|j: int| 0 <= j < r@.len() && r@[j] == e as u8;
                            assert(r@[j] < d);
                        }
                    }
                }
            }
            d = d + 1;
        }
        r
    }

    /// Takes `num` out of the candidates of `(row, col)`.
    pub fn remove_candidate(&mut self, row: usize, col: usize, num: u8)
        requires
            old(self).wf(),
            row < 9,
            col < 9,
        ensures
            final(self).wf(),
            final(self).cells() == old(self).cells(),
            final(self).origin() == old(self).origin(),
            final(self).counts() == old(self).counts(),
            forall|r: int, c: int, d: int|
                on_grid(r, c) ==> #[trigger] final(self).has(r, c, d) == (old(self).has(r, c, d) && !(r
                    == row && c == col && d == num)),
    {
        if 1 <= num && num <= 9 {
            self.candidates.set(81 * row + 9 * col + (num as usize) - 1, false);
            proof {
                assert forall|r: int, c: int, d: int|
                    on_grid(r, c) implies #[trigger] self.has(r, c, d) == (old(self).has(r, c, d) && !(r
                        == row && c == col && d == num)) by {
                    if is_digit(d) && key(r, c, d) == key(row as int, col as int, num as int) {
                        lemma_key_injective(r, c, d, row as int, col as int, num as int);
                    }
                }
                assert(self.cells() == old(self).cells());
                assert forall|r: int, c: int, d: int|
                    on_grid(r, c) && #[trigger] self.has(r, c, d) implies self.allowed(r, c, d) by {
                    assert(old(self).has(r, c, d));
                    assert forall|r2: int, c2: int| on_grid(r2, c2) && sees(r, c, r2, c2) implies #[trigger] self.cell(r2, c2) != d by {
                        assert(old(self).cell(r2, c2) != d);
                    }
                }
            }
        }
    }

    /// Whether no cell is empty.
    pub fn is_solved(&self) -> (r: bool)
        requires
            self.wf(),
        ensures
            r == self.is_solved_spec(),
    {
        !self.unsolved()
    }

    /// Whether some cell is empty.
    pub fn unsolved(&self) -> (r: bool)
        requires
            self.wf(),
        ensures
            r == !self.is_solved_spec(),
    {
        let mut i: usize = 0;
        while i < 81
            invariant
                self.wf(),
                0 <= i <= 81,
                forall|j: int| 0 <= j < i ==> #[trigger] self.cells()[j] != EMPTY,
            decreases 81 - i,
        {
            if self.board[i] == EMPTY {
                return true;
            }
            i = i + 1;
        }
        false
    }

    /// Whether `num` can go at `(row, col)`: the cell is empty and no cell in its
    /// row, column or box holds `num`.
    pub fn can_place(&self, row: usize, col: usize, num: u8) -> (r: bool)
        requires
            self.wf(),
            row < 9,
            col < 9,
        ensures
            r == self.can_place_spec(row as int, col as int, num as int),
    {
        if self.board[9 * row + col] != EMPTY {
            return false;
        }
        let mut r: usize = 0;
        while r < 9
            invariant
                self.wf(),
                row < 9,
                col < 9,
                0 <= r <= 9,
                forall|r2: int, c2: int|
                    0 <= r2 < r && 0 <= c2 < 9 && sees(row as int, col as int, r2, c2) ==> #[trigger] self.cell(r2, c2) != num,
            decreases 9 - r,
        {
            let mut c: usize = 0;
            while c < 9
                invariant
                    self.wf(),
                    row < 9,
                    col < 9,
                    0 <= r < 9,
                    0 <= c <= 9,
                    forall|r2: int, c2: int|
                        0 <= r2 < r && 0 <= c2 < 9 && sees(row as int, col as int, r2, c2) ==> #[trigger] self.cell(r2, c2) != num,
                    forall|c2: int|
                        0 <= c2 < c && sees(row as int, col as int, r as int, c2) ==> #[trigger] self.cell(r as int, c2) != num,
                decreases 9 - c,
            {
                if cells_see(row, col, r, c) && self.board[9 * r + c] == num {
                    proof {
                        assert(self.cell(r as int, c as int) == num);
                    }
                    return false;
                }
                c = c + 1;
            }
            r = r + 1;
        }
        true
    }

    /// Fills the candidate grid from scratch: each empty cell gets every digit
    /// that no cell in its row, column or box holds.
    pub fn calc_all_notes(&mut self)
        requires
            old(self).wf(),
        ensures
            final(self).wf(),
            final(self).cells() == old(self).cells(),
            final(self).origin() == old(self).origin(),
            final(self).counts() == old(self).counts(),
            forall|r: int, c: int, d: int|
                on_grid(r, c) ==> #[trigger] final(self).has(r, c, d) == old(self).allowed(r, c, d),
            forall|r: int, c: int, d: int|
                on_grid(r, c) ==> #[trigger] final(self).has(r, c, d) == final(self).allowed(r, c, d),
    {
        let mut notes: Vec<bool> = Vec::new();
        let mut r: usize = 0;
        while r < 9
            invariant
                self.wf(),
                0 <= r <= 9,
                notes@.len() == 81 * r,
                forall|r2: int, c2: int, d2: int|
                    on_grid(r2, c2) && is_digit(d2) && key(r2, c2, d2) < notes@.len() ==> #[trigger] notes@[key(r2, c2, d2)]
                        == self.allowed(r2, c2, d2),
            decreases 9 - r,
        {
            let mut c: usize = 0;
            while c < 9
                invariant
                    self.wf(),
                    0 <= r < 9,
                    0 <= c <= 9,
                    notes@.len() == 81 * r + 9 * c,
                    forall|r2: int, c2: int, d2: int|
                        on_grid(r2, c2) && is_digit(d2) && key(r2, c2, d2) < notes@.len() ==> #[trigger] notes@[key(r2, c2, d2)]
                            == self.allowed(r2, c2, d2),
                decreases 9 - c,
            {
                let mut d: u8 = 1;
                while d <= 9
                    invariant
                        self.wf(),
                        0 <= r < 9,
                        0 <= c < 9,
                        1 <= d <= 10,
                        notes@.len() == 81 * r + 9 * c + d - 1,
                        forall|r2: int, c2: int, d2: int|
                            on_grid(r2, c2) && is_digit(d2) && key(r2, c2, d2) < notes@.len() ==> #[trigger] notes@[key(r2, c2, d2)]
                                == self.allowed(r2, c2, d2),
                    decreases 10 - d,
                {
                    let ok = self.can_place(r, c, d);
                    notes.push(ok);
                    d = d + 1;
                }
                c = c + 1;
            }
            r = r + 1;
        }
        let ghost before = *self;
        self.candidates = notes;
        proof {
            assert(self.cells() == before.cells());
            assert forall|r: int, c: int, d: int|
                on_grid(r, c) implies #[trigger] self.has(r, c, d) == before.allowed(r, c, d) by {
                if is_digit(d) {
                    assert(notes@[key(r, c, d)] == before.allowed(r, c, d));
                }
            }
            assert forall|r: int, c: int, d: int|
                on_grid(r, c) && #[trigger] self.allowed(r, c, d) implies self.has(r, c, d) by {
                assert(self.cell(r, c) == before.cell(r, c));
                assert forall|r2: int, c2: int| on_grid(r2, c2) && sees(r, c, r2, c2) implies #[trigger] before.cell(r2, c2) != d by {
                    assert(self.cell(r2, c2) != d);
                }
                assert(before.allowed(r, c, d));
            }
            assert forall|r: int, c: int, d: int|
                on_grid(r, c) && #[trigger] self.has(r, c, d) implies self.allowed(r, c, d) by {
                assert(before.allowed(r, c, d));
                assert(self.cell(r, c) == before.cell(r, c));
                assert forall|r2: int, c2: int| on_grid(r2, c2) && sees(r, c, r2, c2) implies #[trigger] self.cell(r2, c2) != d by {
                    assert(before.cell(r2, c2) != d);
                }
            }
        }
    }
}

impl Sudoku {
    /// The placement of `num` at `(row, col)` together with every candidate it
    /// voids: the candidates of that cell, `num` there, and `num` at each cell
    /// that sees it.
    pub fn collect_set_num(&self, num: u8, row: usize, col: usize) -> (res: RemovalResult)
        requires
            self.wf(),
            row < 9,
            col < 9,
            1 <= num <= 9,
        ensures
            res.sets_cell == Some(Cell { row, col, num }),
            in_key_order(res.candidates_about_to_be_removed@),
            forall|r: int, c: int, d: int|
                on_grid(r, c) && is_digit(d) ==> (#[trigger] res.removes(r, c, d) <==> self.voided_by(
                    row as int,
                    col as int,
                    num as int,
                    r,
                    c,
                    d,
                )),
            self.has(row as int, col as int, num as int) ==> self.applicable(&res),
    {
        let mut v: Vec<Candidate> = Vec::new();
        let mut r: usize = 0;
        while r < 9
            invariant
                self.wf(),
                row < 9,
                col < 9,
                1 <= num <= 9,
                0 <= r <= 9,
                in_key_order(v@),
                forall|i: int| 0 <= i < v@.len() ==> cand_key(#[trigger] v@[i]) < key(r as int, 0, 1),
                forall|i: int| 0 <= i < v@.len() ==> {
                    let x = #[trigger] v@[i];
                    self.voided_by(row as int, col as int, num as int, x.row as int, x.col as int, x.num as int)
                },
                forall|r2: int, c2: int, d2: int|
                    on_grid(r2, c2) && is_digit(d2) && key(r2, c2, d2) < key(r as int, 0, 1) ==> (
                    #[trigger] lists(v@, key(r2, c2, d2)) <==> self.voided_by(
                        row as int,
                        col as int,
                        num as int,
                        r2,
                        c2,
                        d2,
                    )),
            decreases 9 - r,
        {
            let mut c: usize = 0;
            while c < 9
                invariant
                    self.wf(),
                    row < 9,
                    col < 9,
                    1 <= num <= 9,
                    0 <= r < 9,
                    0 <= c <= 9,
                    in_key_order(v@),
                    forall|i: int| 0 <= i < v@.len() ==> cand_key(#[trigger] v@[i]) < key(r as int, c as int, 1),
                    forall|i: int| 0 <= i < v@.len() ==> {
                        let x = #[trigger] v@[i];
                        self.voided_by(row as int, col as int, num as int, x.row as int, x.col as int, x.num as int)
                    },
                    forall|r2: int, c2: int, d2: int|
                        on_grid(r2, c2) && is_digit(d2) && key(r2, c2, d2) < key(r as int, c as int, 1) ==> (
                        #[trigger] lists(v@, key(r2, c2, d2)) <==> self.voided_by(
                            row as int,
                            col as int,
                            num as int,
                            r2,
                            c2,
                            d2,
                        )),
                decreases 9 - c,
            {
                let here = r == row && c == col;
                let seen = cells_see(row, col, r, c);
                let mut d: u8 = 1;
                while d <= 9
                    invariant
                        self.wf(),
                        row < 9,
                        col < 9,
                        1 <= num <= 9,
                        0 <= r < 9,
                        0 <= c < 9,
                        1 <= d <= 10,
                        here == (r == row && c == col),
                        seen == sees(row as int, col as int, r as int, c as int),
                        in_key_order(v@),
                        forall|i: int| 0 <= i < v@.len() ==> cand_key(#[trigger] v@[i]) < key(r as int, c as int, d as int),
                        forall|i: int| 0 <= i < v@.len() ==> {
                            let x = #[trigger] v@[i];
                            self.voided_by(row as int, col as int, num as int, x.row as int, x.col as int, x.num as int)
                        },
                        forall|r2: int, c2: int, d2: int|
                            on_grid(r2, c2) && is_digit(d2) && key(r2, c2, d2) < key(r as int, c as int, d as int) ==> (
                            #[trigger] lists(v@, key(r2, c2, d2)) <==> self.voided_by(
                                row as int,
                                col as int,
                                num as int,
                                r2,
                                c2,
                                d2,
                            )),
                    decreases 10 - d,
                {
                    let present = self.has_candidate(r, c, d);
                    let take = (here && (d == num || present)) || (seen && d == num && present);
                    let ghost prev = v@;
                    if take {
                        v.push(Candidate { row: r, col: c, num: d });
                    }
                    proof {
                        assert forall|r2: int, c2: int, d2: int|
                            on_grid(r2, c2) && is_digit(d2) && key(r2, c2, d2) < key(r as int, c as int, d + 1) implies (
                            #[trigger] lists(v@, key(r2, c2, d2)) <==> self.voided_by(
                                row as int,
                                col as int,
                                num as int,
                                r2,
                                c2,
                                d2,
                            )) by {
                            if take {
                                lemma_lists_push(prev, Candidate { row: r, col: c, num: d }, key(r2, c2, d2));
                            }
                            if key(r2, c2, d2) == key(r as int, c as int, d as int) {
                                lemma_key_injective(r2, c2, d2, r as int, c as int, d as int);
                                if !take && lists(prev, key(r2, c2, d2)) {
                                    let j = choose|j: int| 0 <= j < prev.len() && #[trigger] cand_key(prev[j]) == key(r2, c2, d2);
                                }
                            }
                        }
                    }
                    d = d + 1;
                }
                c = c + 1;
            }
            r = r + 1;
        }
        let res = RemovalResult { sets_cell: Some(Cell { row, col, num }), candidates_about_to_be_removed: v };
        proof {
            assert forall|r2: int, c2: int, d2: int|
                on_grid(r2, c2) && is_digit(d2) implies (#[trigger] res.removes(r2, c2, d2) <==> self.voided_by(
                    row as int,
                    col as int,
                    num as int,
                    r2,
                    c2,
                    d2,
                )) by {
                assert(key(r2, c2, d2) < key(9, 0, 1));
            }
            if self.has(row as int, col as int, num as int) {
                assert forall|i: int| 0 <= i < v@.len() implies {
                    let x = #[trigger] v@[i];
                    self.has(x.row as int, x.col as int, x.num as int)
                } by {
                    let x = v@[i];
                }
            }
        }
        res
    }

    /// Candidate `d` of `(r, c)` is present, `(r, c)` is in `cells` and `d` in `digits`.
    pub open spec fn masked(&self, cells: Seq<bool>, digits: Seq<bool>, r: int, c: int, d: int) -> bool {
        at(cells, r, c) && digits[d - 1] && self.has(r, c, d)
    }

    /// The elimination of every present candidate whose cell is in `cells`
    /// (81 flags, row-major) and whose digit `d` has `digits[d - 1]` set.
    pub fn collect_masked(&self, cells: &Vec<bool>, digits: &Vec<bool>) -> (res: RemovalResult)
        requires
            self.wf(),
            is_mask(cells@),
            digits@.len() == 9,
        ensures
            res.sets_cell.is_none(),
            self.applicable(&res),
            forall|r: int, c: int, d: int|
                on_grid(r, c) && is_digit(d) ==> (#[trigger] res.removes(r, c, d) <==> self.masked(cells@, digits@, r, c, d)),
    {
        let mut v: Vec<Candidate> = Vec::new();
        let mut r: usize = 0;
        while r < 9
            invariant
                self.wf(),
                is_mask(cells@),
                digits@.len() == 9,
                0 <= r <= 9,
                in_key_order(v@),
                forall|i: int| 0 <= i < v@.len() ==> cand_key(#[trigger] v@[i]) < key(r as int, 0, 1),
                forall|i: int| 0 <= i < v@.len() ==> {
                    let x = #[trigger] v@[i];
                    self.masked(cells@, digits@, x.row as int, x.col as int, x.num as int)
                },
                forall|r2: int, c2: int, d2: int|
                    on_grid(r2, c2) && is_digit(d2) && key(r2, c2, d2) < key(r as int, 0, 1) ==> (
                    #[trigger] lists(v@, key(r2, c2, d2)) <==> self.masked(cells@, digits@, r2, c2, d2)),
            decreases 9 - r,
        {
            let mut c: usize = 0;
            while c < 9
                invariant
                    self.wf(),
                    is_mask(cells@),
                    digits@.len() == 9,
                    0 <= r < 9,
                    0 <= c <= 9,
                    in_key_order(v@),
                    forall|i: int| 0 <= i < v@.len() ==> cand_key(#[trigger] v@[i]) < key(r as int, c as int, 1),
                    forall|i: int| 0 <= i < v@.len() ==> {
                        let x = #[trigger] v@[i];
                        self.masked(cells@, digits@, x.row as int, x.col as int, x.num as int)
                    },
                    forall|r2: int, c2: int, d2: int|
                        on_grid(r2, c2) && is_digit(d2) && key(r2, c2, d2) < key(r as int, c as int, 1) ==> (
                        #[trigger] lists(v@, key(r2, c2, d2)) <==> self.masked(cells@, digits@, r2, c2, d2)),
                decreases 9 - c,
            {
                let inside = cells[9 * r + c];
                let mut d: u8 = 1;
                while d <= 9
                    invariant
                        self.wf(),
                        is_mask(cells@),
                        digits@.len() == 9,
                        0 <= r < 9,
                        0 <= c < 9,
                        1 <= d <= 10,
                        inside == at(cells@, r as int, c as int),
                        in_key_order(v@),
                        forall|i: int| 0 <= i < v@.len() ==> cand_key(#[trigger] v@[i]) < key(r as int, c as int, d as int),
                        forall|i: int| 0 <= i < v@.len() ==> {
                            let x = #[trigger] v@[i];
                            self.masked(cells@, digits@, x.row as int, x.col as int, x.num as int)
                        },
                        forall|r2: int, c2: int, d2: int|
                            on_grid(r2, c2) && is_digit(d2) && key(r2, c2, d2) < key(r as int, c as int, d as int) ==> (
                            #[trigger] lists(v@, key(r2, c2, d2)) <==> self.masked(cells@, digits@, r2, c2, d2)),
                    decreases 10 - d,
                {
                    let take = inside && digits[(d - 1) as usize] && self.has_candidate(r, c, d);
                    let ghost prev = v@;
                    if take {
                        v.push(Candidate { row: r, col: c, num: d });
                    }
                    proof {
                        assert forall|r2: int, c2: int, d2: int|
                            on_grid(r2, c2) && is_digit(d2) && key(r2, c2, d2) < key(r as int, c as int, d + 1) implies (
                            #[trigger] lists(v@, key(r2, c2, d2)) <==> self.masked(cells@, digits@, r2, c2, d2)) by {
                            if take {
                                lemma_lists_push(prev, Candidate { row: r, col: c, num: d }, key(r2, c2, d2));
                            }
                            if key(r2, c2, d2) == key(r as int, c as int, d as int) {
                                lemma_key_injective(r2, c2, d2, r as int, c as int, d as int);
                                if !take && lists(prev, key(r2, c2, d2)) {
                                    let j = choose|j: int| 0 <= j < prev.len() && #[trigger] cand_key(prev[j]) == key(r2, c2, d2);
                                }
                            }
                        }
                    }
                    d = d + 1;
                }
                c = c + 1;
            }
            r = r + 1;
        }
        let res = RemovalResult { sets_cell: None, candidates_about_to_be_removed: v };
        proof {
            assert forall|r2: int, c2: int, d2: int|
                on_grid(r2, c2) && is_digit(d2) implies (#[trigger] res.removes(r2, c2, d2) <==> self.masked(cells@, digits@, r2, c2, d2)) by {
                assert(key(r2, c2, d2) < key(9, 0, 1));
            }
            assert forall|i: int| 0 <= i < v@.len() implies {
                let x = #[trigger] v@[i];
                self.has(x.row as int, x.col as int, x.num as int)
            } by {
                let x = v@[i];
            }
        }
        res
    }

    /// Carries out a deduction: removes its candidates, places its digit if it
    /// has one, and adds to the ledger of its strategy 1 for a placement or the
    /// number of candidates removed otherwise (saturating).
    pub fn apply(&mut self, strategy_result: &StrategyResult) -> (res: Resolution)
        requires
            old(self).wf(),
            old(self).applicable(&strategy_result.removals),
        ensures
            final(self).wf(),
            res.nums_removed == strategy_result.removals.candidates_about_to_be_removed@.len(),
            res.strategy == strategy_result.strategy,
            final(self).origin() == old(self).origin(),
            forall|r: int, c: int, d: int|
                on_grid(r, c) ==> #[trigger] final(self).has(r, c, d) == (old(self).has(r, c, d)
                    && !strategy_result.removals.removes(r, c, d)),
            final(self).candidate_set().subset_of(old(self).candidate_set()),
            final(self).notes().len() == 729,
            forall|k: int| 0 <= k < 729 ==> #[trigger] final(self).notes()[k] == (old(self).notes()[k]
                && !lists(strategy_result.removals.candidates_about_to_be_removed@, k)),
            match strategy_result.removals.sets_cell {
                Some(cell) => {
                    &&& final(self).cells() == old(self).cells().update(
                        pos(cell.row as int, cell.col as int),
                        cell.num,
                    )
                    &&& old(self).can_place_spec(cell.row as int, cell.col as int, cell.num as int)
                },
                None => final(self).cells() == old(self).cells(),
            },
            final(self).counts() == old(self).counts().update(
                slot(strategy_result.strategy),
                ledger_add(
                    old(self).counts()[slot(strategy_result.strategy)],
                    if strategy_result.removals.sets_cell.is_some() {
                        1
                    } else {
                        strategy_result.removals.candidates_about_to_be_removed@.len() as int
                    },
                ),
            ),
    {
        let removals = &strategy_result.removals;
        let v = &removals.candidates_about_to_be_removed;
        let n = v.len();
        let ghost before = *self;
        let mut i: usize = 0;
        while i < n
            invariant
                0 <= i <= n,
                n == v@.len(),
                before.wf(),
                before.applicable(removals),
                *v == removals.candidates_about_to_be_removed,
                self.cells() == before.cells(),
                self.origin() == before.origin(),
                self.counts() == before.counts(),
                self.notes().len() == 729,
                forall|k: int| 0 <= k < 729 ==> #[trigger] self.notes()[k] == (before.notes()[k] && !lists(v@.subrange(0, i as int), k)),
            decreases n - i,
        {
            let x = v[i];
            proof {
                assert(v@.subrange(0, i + 1) == v@.subrange(0, i as int).push(x));
                assert(cand_on_grid(x));
            }
            self.candidates.set(81 * x.row + 9 * x.col + (x.num as usize) - 1, false);
            i = i + 1;
            proof {
                assert forall|k: int| 0 <= k < 729 implies #[trigger] self.notes()[k] == (before.notes()[k] && !lists(v@.subrange(0, i as int), k)) by {
                    lemma_lists_push(v@.subrange(0, i - 1), x, k);
                }
            }
        }
        proof {
            assert(v@.subrange(0, n as int) == v@);
            assert forall|r: int, c: int, d: int|
                on_grid(r, c) implies #[trigger] self.has(r, c, d) == (before.has(r, c, d) && !removals.removes(r, c, d)) by {
                if is_digit(d) {
                    assert(self.notes()[key(r, c, d)] == (before.notes()[key(r, c, d)] && !lists(v@, key(r, c, d))));
                }
            }
        }
        let ghost mid = *self;
        match removals.sets_cell {
            Some(cell) => {
                proof {
                    assert(removals.removes(cell.row as int, cell.col as int, cell.num as int));
                    let j = choose|j: int| 0 <= j < v@.len() && #[trigger] cand_key(v@[j]) == key(cell.row as int, cell.col as int, cell.num as int);
                    let x = v@[j];
                    lemma_key_injective(x.row as int, x.col as int, x.num as int, cell.row as int, cell.col as int, cell.num as int);
                    assert(before.has(cell.row as int, cell.col as int, cell.num as int));
                }
                self.board.set(9 * cell.row + cell.col, cell.num);
                let k = strategy_result.strategy.slot();
                let c = self.rating[k];
                let c2 = if c == usize::MAX { c } else { c + 1 };
                self.rating.set(k, c2);
                proof {
                    let (row, col, num) = (cell.row as int, cell.col as int, cell.num as int);
                    assert(self.cells() == before.cells().update(pos(row, col), cell.num));
                    assert forall|r: int, c: int, d: int| on_grid(r, c) && #[trigger] self.has(r, c, d) implies self.allowed(r, c, d) by {
                        assert(mid.has(r, c, d));
                        assert(before.has(r, c, d));
                        assert(before.allowed(r, c, d));
                        assert(!before.voided_by(row, col, num, r, c, d));
                        assert(!(r == row && c == col));
                        if pos(r, c) == pos(row, col) {
                            lemma_pos_injective(r, c, row, col);
                        }
                        assert(self.cell(r, c) == EMPTY);
                        assert forall|r2: int, c2: int| on_grid(r2, c2) && sees(r, c, r2, c2) implies #[trigger] self.cell(r2, c2) != d by {
                            if pos(r2, c2) == pos(row, col) {
                                lemma_pos_injective(r2, c2, row, col);
                                assert(sees(row, col, r, c));
                            } else {
                                assert(before.cell(r2, c2) != d);
                            }
                        }
                    }
                    assert forall|i: int| 0 <= i < 81 implies #[trigger] self.cells()[i] <= 9 by {
                        if i != pos(row, col) {
                            assert(self.cells()[i] == before.cells()[i]);
                        }
                    }
                }
            },
            None => {
                let k = strategy_result.strategy.slot();
                let c = self.rating[k];
                let c2 = if c > usize::MAX - n { usize::MAX } else { c + n };
                self.rating.set(k, c2);
                proof {
                    assert forall|r: int, c: int, d: int| on_grid(r, c) && #[trigger] self.has(r, c, d) implies self.allowed(r, c, d) by {
                        assert(mid.has(r, c, d));
                        assert(before.has(r, c, d));
                        assert(before.allowed(r, c, d));
                        assert forall|r2: int, c2: int| on_grid(r2, c2) && sees(r, c, r2, c2) implies #[trigger] self.cell(r2, c2) != d by {
                            assert(before.cell(r2, c2) != d);
                        }
                    }
                }
            },
        }
        proof {
            assert forall|t: (int, int, int)| self.candidate_set().contains(t) implies before.candidate_set().contains(t) by {
                assert(self.has(t.0, t.1, t.2));
            }
        }
        Resolution { nums_removed: n, strategy: strategy_result.strategy }
    }
}

impl Sudoku {
    /// Sets every ledger counter to zero.
    pub fn clear_rating(&mut self)
        requires
            old(self).wf(),
        ensures
            final(self).wf(),
            final(self).cells() == old(self).cells(),
            final(self).origin() == old(self).origin(),
            final(self).notes() == old(self).notes(),
            final(self).counts() == Seq::new(8, |i: int| 0usize),
    {
        self.rating = counters();
        proof {
            assert forall|r: int, c: int, d: int| on_grid(r, c) && #[trigger] self.has(r, c, d) implies self.allowed(r, c, d) by {
                assert(old(self).has(r, c, d));
                assert(old(self).allowed(r, c, d));
                assert forall|r2: int, c2: int| on_grid(r2, c2) && sees(r, c, r2, c2) implies #[trigger] self.cell(r2, c2) != d by {
                    assert(old(self).cell(r2, c2) != d);
                }
            }
        }
    }

    /// How many times strategy `s` counted in the ledger.
    pub fn count_of(&self, s: Strategy) -> (r: usize)
        requires
            self.wf(),
        ensures
            r == self.counts()[slot(s)],
    {
        self.rating[s.slot()]
    }

    /// The ledger: each strategy with a nonzero count, in slot order.
    pub fn rating(&self) -> (r: Vec<(Strategy, usize)>)
        requires
            self.wf(),
        ensures
            forall|i: int, j: int| 0 <= i < j < r@.len() ==> slot(r@[i].0) < slot(r@[j].0),
            forall|i: int| 0 <= i < r@.len() ==> #[trigger] r@[i].1 == self.counts()[slot(r@[i].0)] && r@[i].1 > 0,
            forall|k: int| 0 <= k < 8 && #[trigger] self.counts()[k] > 0 ==> exists|i: int| 0 <= i < r@.len() && #[trigger] slot(r@[i].0) == k,
    {
        let mut r: Vec<(Strategy, usize)> = Vec::new();
        let mut k: usize = 0;
        while k < 8
            invariant
                self.wf(),
                0 <= k <= 8,
                forall|i: int, j: int| 0 <= i < j < r@.len() ==> slot(r@[i].0) < slot(r@[j].0),
                forall|i: int| 0 <= i < r@.len() ==> slot(#[trigger] r@[i].0) < k,
                forall|i: int| 0 <= i < r@.len() ==> #[trigger] r@[i].1 == self.counts()[slot(r@[i].0)] && r@[i].1 > 0,
                forall|k2: int| 0 <= k2 < k && #[trigger] self.counts()[k2] > 0 ==> exists|i: int| 0 <= i < r@.len() && #[trigger] slot(r@[i].0) == k2,
            decreases 8 - k,
        {
            let c = self.rating[k];
            if c > 0 {
                let s = Strategy::from_slot(k);
                let ghost prev = r@;
                r.push((s, c));
                proof {
                    assert forall|k2: int| 0 <= k2 <= k && #[trigger] self.counts()[k2] > 0 implies exists|i: int| 0 <= i < r@.len() && #[trigger] slot(r@[i].0) == k2 by {
                        if k2 < k {
                            let i = choose|i: int| 0 <= i < prev.len() && #[trigger] slot(prev[i].0) == k2;
                            assert(r@[i] == prev[i]);
                        } else {
                            assert(slot(r@[prev.len() as int].0) == k2);
                        }
                    }
                }
            }
            k = k + 1;
        }
        r
    }

    /// The weighted sum of the ledger: each count times its strategy's weight.
    /// Divided by the number of originally empty cells it gives the difficulty.
    pub fn weighted_score(&self) -> (r: u128)
        requires
            self.wf(),
        ensures
            r as int == score_upto(self.counts(), 8),
    {
        let mut total: u128 = 0;
        let mut k: usize = 0;
        while k < 8
            invariant
                self.wf(),
                0 <= k <= 8,
                total as int == score_upto(self.counts(), k as int),
                0 <= total <= k * (140 * 18446744073709551615int),
            decreases 8 - k,
        {
            let s = Strategy::from_slot(k);
            let w = s.difficulty() as u128;
            let c = self.rating[k] as u128;
            proof {
                assert(0 <= w <= 140);
                assert(c <= 18446744073709551615int);
                assert(w * c <= 140 * 18446744073709551615int) by (nonlinear_arith)
                    requires
                        0 <= w <= 140,
                        0 <= c <= 18446744073709551615int,
                ;
            }
            total = total + w * c;
            k = k + 1;
        }
        total
    }

    /// Number of cells that were empty in the loaded board.
    pub fn original_empty_cells(&self) -> (r: usize)
        requires
            self.wf(),
        ensures
            r as int == empty_count(self.origin()),
    {
        let mut n: usize = 0;
        let mut i: usize = 0;
        while i < 81
            invariant
                self.wf(),
                0 <= i <= 81,
                n as int == empty_in(self.origin(), i as int),
                n <= i,
            decreases 81 - i,
        {
            if self.original_board[i] == EMPTY {
                n = n + 1;
            }
            i = i + 1;
        }
        n
    }

    /// Solves the board by depth-first search: the first empty cell, row-major,
    /// takes each digit 1..=9 that can go there in turn. Returns whether a
    /// completion was found; if so the board holds it, otherwise the board is
    /// unchanged and no solution extends it. The candidate grid, which the
    /// search does not keep up to date, is emptied.
    pub fn solve_by_backtracking(&mut self) -> (r: bool)
        requires
            old(self).wf(),
        ensures
            final(self).wf(),
            final(self).origin() == old(self).origin(),
            final(self).no_notes(),
            final(self).counts() == old(self).counts(),
            r ==> extends(final(self).cells(), old(self).cells()) && final(self).is_solved_spec(),
            r && is_consistent(old(self).cells()) ==> is_solution(final(self).cells()),
            !r ==> final(self).cells() == old(self).cells(),
            !r ==> forall|b: Seq<u8>| is_solution(b) ==> !#[trigger] extends(b, old(self).cells()),
    {
        self.candidates = no_candidates();
        self.solve()
    }

    fn solve(&mut self) -> (r: bool)
        requires
            old(self).wf(),
            old(self).no_notes(),
        ensures
            final(self).wf(),
            final(self).origin() == old(self).origin(),
            final(self).notes() == old(self).notes(),
            final(self).counts() == old(self).counts(),
            r ==> extends(final(self).cells(), old(self).cells()) && final(self).is_solved_spec(),
            r && is_consistent(old(self).cells()) ==> is_solution(final(self).cells()),
            !r ==> final(self).cells() == old(self).cells(),
            !r ==> forall|b: Seq<u8>| is_solution(b) ==> !#[trigger] extends(b, old(self).cells()),
        decreases empty_count(old(self).cells()),
    {
        let mut found = false;
        let mut row: usize = 0;
        let mut col: usize = 0;
        let mut r: usize = 0;
        while r < 9 && !found
            invariant
                self.wf(),
                0 <= r <= 9,
                found ==> row < 9 && col < 9 && self.cell(row as int, col as int) == EMPTY,
                !found ==> forall|r2: int, c2: int| 0 <= r2 < r && 0 <= c2 < 9 ==> #[trigger] self.cell(r2, c2) != EMPTY,
            decreases 9 - r + if found { 0int } else { 1int },
        {
            let mut c: usize = 0;
            while c < 9 && !found
                invariant
                    self.wf(),
                    0 <= r < 9,
                    0 <= c <= 9,
                    found ==> row < 9 && col < 9 && self.cell(row as int, col as int) == EMPTY,
                    !found ==> forall|r2: int, c2: int| 0 <= r2 < r && 0 <= c2 < 9 ==> #[trigger] self.cell(r2, c2) != EMPTY,
                    !found ==> forall|c2: int| 0 <= c2 < c ==> #[trigger] self.cell(r as int, c2) != EMPTY,
                decreases 9 - c + if found { 0int } else { 1int },
            {
                if self.board[9 * r + c] == EMPTY {
                    row = r;
                    col = c;
                    found = true;
                } else {
                    c = c + 1;
                }
            }
            if !found {
                r = r + 1;
            }
        }
        if !found {
            proof {
                assert forall|i: int| 0 <= i < 81 implies #[trigger] self.cells()[i] != EMPTY by {
                    assert(self.cell(i / 9, i % 9) != EMPTY);
                }
                if is_consistent(self.cells()) {
                    assert forall|r1: int, c1: int| on_grid(r1, c1) implies is_digit(#[trigger] self.cells()[pos(r1, c1)] as int) by {
                        assert(self.cells()[pos(r1, c1)] != EMPTY);
                    }
                }
            }
            return true;
        }
        let ghost start = *self;
        let p = 9 * row + col;
        let mut num: u8 = 1;
        while num <= 9
            invariant
                start.wf(),
                start.no_notes(),
                start == *old(self),
                self.cells() == start.cells(),
                self.notes() == start.notes(),
                self.origin() == start.origin(),
                self.counts() == start.counts(),
                row < 9,
                col < 9,
                p == pos(row as int, col as int),
                start.cell(row as int, col as int) == EMPTY,
                1 <= num <= 10,
                forall|b: Seq<u8>| is_solution(b) && #[trigger] extends(b, start.cells()) ==> !(1 <= b[p as int] < num),
            decreases 10 - num,
        {
            let fits = self.can_place(row, col, num);
            proof {
                if fits {
                    assert forall|r2: int, c2: int| on_grid(r2, c2) && sees(row as int, col as int, r2, c2) implies #[trigger] start.cell(r2, c2) != num by {
                        assert(self.cell(r2, c2) != num);
                    }
                } else {
                    let (r2, c2) = choose|r2: int, c2: int| on_grid(r2, c2) && sees(row as int, col as int, r2, c2) && #[trigger] self.cell(r2, c2) == num;
                    assert(start.cell(r2, c2) == num);
                }
                assert(fits == start.can_place_spec(row as int, col as int, num as int));
            }
            if fits {
                self.board.set(p, num);
                proof {
                    lemma_empty_in_update(start.cells(), p as int, num, 81);
                    assert(self.cells() == start.cells().update(p as int, num));
                    assert forall|i: int| 0 <= i < 81 implies #[trigger] self.cells()[i] <= 9 by {
                        if i != p {
                            assert(self.cells()[i] == start.cells()[i]);
                        }
                    }
                    assert forall|r2: int, c2: int, d: int| on_grid(r2, c2) && #[trigger] self.has(r2, c2, d) implies self.allowed(r2, c2, d) by {
                        if is_digit(d) {
                            assert(!start.notes()[crate::grid::key(r2, c2, d)]);
                        }
                    }
                }
                let ghost mid = *self;
                assert(empty_count(self.cells()) < empty_count(old(self).cells()));
                if self.solve() {
                    proof {
                        assert forall|i: int| 0 <= i < 81 && start.cells()[i] != EMPTY implies #[trigger] self.cells()[i] == start.cells()[i] by {
                            assert(mid.cells()[i] == start.cells()[i]);
                        }
                        if is_consistent(start.cells()) {
                            assert forall|r1: int, c1: int, r2: int, c2: int|
                                on_grid(r1, c1) && on_grid(r2, c2) && sees(r1, c1, r2, c2) && #[trigger] mid.cells()[pos(r1, c1)] != EMPTY implies mid.cells()[pos(r1, c1)] != #[trigger] mid.cells()[pos(r2, c2)] by {
                                if pos(r1, c1) == p {
                                    lemma_pos_injective(r1, c1, row as int, col as int);
                                    if pos(r2, c2) != p {
                                        assert(start.cell(r2, c2) != num);
                                    }
                                } else if pos(r2, c2) == p {
                                    lemma_pos_injective(r2, c2, row as int, col as int);
                                    assert(sees(row as int, col as int, r1, c1));
                                    assert(start.cell(r1, c1) != num);
                                }
                            }
                        }
                    }
                    return true;
                }
                self.board.set(p, EMPTY);
                proof {
                    assert(self.cells() =~= start.cells());
                    assert forall|b: Seq<u8>| is_solution(b) && #[trigger] extends(b, start.cells()) implies !(1 <= b[p as int] < num + 1) by {
                        if b[p as int] == num {
                            assert(extends(b, mid.cells()));
                        }
                    }
                }
            } else {
                proof {
                    assert forall|b: Seq<u8>| is_solution(b) && #[trigger] extends(b, start.cells()) implies !(1 <= b[p as int] < num + 1) by {
                        if b[p as int] == num {
                            let (r2, c2) = choose|r2: int, c2: int| on_grid(r2, c2) && sees(row as int, col as int, r2, c2) && #[trigger] start.cell(r2, c2) == num;
                            assert(b[pos(r2, c2)] == num);
                            assert(b[pos(row as int, col as int)] == num);
                        }
                    }
                }
            }
            num = num + 1;
        }
        proof {
            assert forall|b: Seq<u8>| is_solution(b) implies !#[trigger] extends(b, start.cells()) by {
                if extends(b, start.cells()) {
                    assert(is_digit(b[pos(row as int, col as int)] as int));
                }
            }
        }
        false
    }
}

impl Default for Sudoku {
    fn default() -> (s: Sudoku)
        ensures
            s.wf(),
            s.cells() == Seq::new(81, |i: int| EMPTY),
            s.origin() == Seq::new(81, |i: int| EMPTY),
            s.no_notes(),
            s.counts() == Seq::new(8, |i: int| 0usize),
    {
        Sudoku::new()
    }
}

impl Sudoku {
    /// A copy of the board, the loaded board, the candidate grid and the ledger.
    pub fn duplicate(&self) -> (s: Sudoku)
        requires
            self.wf(),
        ensures
            s.wf(),
            s.cells() == self.cells(),
            s.origin() == self.origin(),
            s.notes() == self.notes(),
            s.counts() == self.counts(),
    {
        let s = Sudoku {
            board: self.board.clone(),
            original_board: self.original_board.clone(),
            candidates: self.candidates.clone(),
            rating: self.rating.clone(),
        };
        proof {
            assert forall|r: int, c: int, d: int| on_grid(r, c) && #[trigger] s.has(r, c, d) implies s.allowed(r, c, d) by {
                assert(self.has(r, c, d));
                assert(self.allowed(r, c, d));
                assert forall|r2: int, c2: int| on_grid(r2, c2) && sees(r, c, r2, c2) implies #[trigger] s.cell(r2, c2) != d by {
                    assert(self.cell(r2, c2) != d);
                }
            }
        }
        s
    }
}

/// The weighted sum of the first `n` ledger slots.
pub open spec fn score_upto(counts: Seq<usize>, n: int) -> int
    decreases n,
{
    if n <= 0 {
        0
    } else {
        score_upto(counts, n - 1) + weight(strategy_in_slot(n - 1)) * counts[n - 1]
    }
}

/// A ledger counter after adding `k`, capped at the largest `usize`.
pub open spec fn ledger_add(c: usize, k: int) -> usize {
    if c + k > usize::MAX {
        usize::MAX
    } else {
        (c + k) as usize
    }
}

fn zeros(n: usize) -> (v: Vec<u8>)
    ensures
        v@ == Seq::new(n as nat, |i: int| EMPTY),
{
    let mut v: Vec<u8> = Vec::new();
    let mut i: usize = 0;
    while i < n
        invariant
            0 <= i <= n,
            v@ == Seq::new(i as nat, |j: int| EMPTY),
        decreases n - i,
    {
        v.push(EMPTY);
        i = i + 1;
        proof {
            assert(v@ =~= Seq::new(i as nat, |j: int| EMPTY));
        }
    }
    v
}

fn no_candidates() -> (v: Vec<bool>)
    ensures
        v@.len() == 729,
        forall|k: int| 0 <= k < 729 ==> !#[trigger] v@[k],
{
    let mut v: Vec<bool> = Vec::new();
    let mut i: usize = 0;
    while i < 729
        invariant
            0 <= i <= 729,
            v@.len() == i,
            forall|k: int| 0 <= k < i ==> !#[trigger] v@[k],
        decreases 729 - i,
    {
        v.push(false);
        i = i + 1;
    }
    v
}

fn counters() -> (v: Vec<usize>)
    ensures
        v@ == Seq::new(8, |i: int| 0usize),
{
    let mut v: Vec<usize> = Vec::new();
    let mut i: usize = 0;
    while i < 8
        invariant
            0 <= i <= 8,
            v@ == Seq::new(i as nat, |j: int| 0usize),
        decreases 8 - i,
    {
        v.push(0);
        i = i + 1;
        proof {
            assert(v@ =~= Seq::new(i as nat, |j: int| 0usize));
        }
    }
    v
}

fn board_text(b: &Vec<u8>) -> (r: String)
    requires
        is_board(b@),
    ensures
        r@ == text_of_board(b@),
{
    let mut r = String::new();
    let mut i: usize = 0;
    while i < 81
        invariant
            is_board(b@),
            0 <= i <= 81,
            r@ == text_of_board(b@).subrange(0, i as int),
        decreases 81 - i,
    {
        let t = digit_text(b[i]);
        r.append(t);
        i = i + 1;
        proof {
            assert(r@ =~= text_of_board(b@).subrange(0, i as int));
        }
    }
    proof {
        assert(text_of_board(b@).subrange(0, 81) =~= text_of_board(b@));
    }
    r
}

} // verus!
