use vstd::prelude::*;
use vstd::set_lib::{set_int_range, lemma_int_range, lemma_map_size, lemma_subset_equality};
use crate::grid::{
    EMPTY, pos, on_grid, is_digit, sees, is_solution, extends, lemma_pos_injective, is_board, is_consistent,
};
use crate::strategy::Strategy;
use crate::groups::{is_group, in_group, member_row, member_col, lemma_member, lemma_member_injective};
use crate::removal::RemovalResult;
use crate::sudoku::Sudoku;

verus! {

/// Two different cells of one group see each other.
pub proof fn lemma_members_see(g: int, i: int, j: int)
    requires
        is_group(g),
        0 <= i < 9,
        0 <= j < 9,
        i != j,
    ensures
        sees(member_row(g, i), member_col(g, i), member_row(g, j), member_col(g, j)),
{
    lemma_member(g, i);
    lemma_member(g, j);
    if member_row(g, i) == member_row(g, j) && member_col(g, i) == member_col(g, j) {
        lemma_member_injective(g, i, j);
    }
}

/// Two cells of one group see each other unless they are the same.
pub proof fn lemma_group_cells_see(g: int, r1: int, c1: int, r2: int, c2: int)
    requires
        is_group(g),
        on_grid(r1, c1),
        on_grid(r2, c2),
        in_group(g, r1, c1),
        in_group(g, r2, c2),
        r1 != r2 || c1 != c2,
    ensures
        sees(r1, c1, r2, c2),
{
}

/// The digit of solution `b` in cell `k` of group `g`.
pub open spec fn group_value(b: Seq<u8>, g: int, k: int) -> int {
    b[pos(member_row(g, k), member_col(g, k))] as int
}

/// Every group of a solution holds every digit.
pub proof fn lemma_solution_has_every_digit(b: Seq<u8>, g: int, d: int)
    requires
        is_solution(b),
        is_group(g),
        is_digit(d),
    ensures
        exists|k: int| 0 <= k < 9 && #[trigger] group_value(b, g, k) == d,
{
    let x = set_int_range(0, 9);
    let f = |k: int| group_value(b, g, k);
    lemma_int_range(0, 9);
    lemma_int_range(1, 10);
    assert forall|k1: int, k2: int| x.contains(k1) && x.contains(k2) && #[trigger] f(k1) == #[trigger] f(k2) implies k1 == k2 by {
        if k1 != k2 {
            lemma_members_see(g, k1, k2);
            lemma_member(g, k1);
            lemma_member(g, k2);
        }
    }
    let y = x.map(f);
    lemma_map_size(x, y, f);
    assert forall|v: int| y.contains(v) implies set_int_range(1, 10).contains(v) by {
        let k = choose|k: int| x.contains(k) && f(k) == v;
        lemma_member(g, k);
    }
    lemma_subset_equality(y, set_int_range(1, 10));
    assert(set_int_range(1, 10).contains(d));
    assert(y.contains(d));
    let k = choose|k: int| x.contains(k) && f(k) == d;
    assert(group_value(b, g, k) == d);
}

impl Sudoku {
    /// The grid agrees with solution `b`: each placed digit is `b`'s, and `b`'s
    /// digit of each empty cell is still a candidate there.
    pub open spec fn agrees_with(&self, b: Seq<u8>) -> bool {
        forall|r: int, c: int|
            on_grid(r, c) ==> if #[trigger] self.cell(r, c) != EMPTY {
                b[pos(r, c)] == self.cell(r, c)
            } else {
                self.has(r, c, b[pos(r, c)] as int)
            }
    }
}

/// A freshly computed candidate grid agrees with every solution that keeps the
/// placed digits.
pub proof fn law_fresh_grid_agrees_with_solutions(s: Sudoku, b: Seq<u8>)
    requires
        s.wf(),
        forall|r: int, c: int, d: int| on_grid(r, c) ==> #[trigger] s.has(r, c, d) == s.allowed(r, c, d),
        is_solution(b),
        extends(b, s.cells()),
    ensures
        s.agrees_with(b),
{
    assert forall|r: int, c: int| on_grid(r, c) implies if #[trigger] s.cell(r, c) != EMPTY {
        b[pos(r, c)] == s.cell(r, c)
    } else {
        s.has(r, c, b[pos(r, c)] as int)
    } by {
        if s.cell(r, c) == EMPTY {
            let d = b[pos(r, c)] as int;
            assert(is_digit(d));
            assert forall|r2: int, c2: int| on_grid(r2, c2) && sees(r, c, r2, c2) implies #[trigger] s.cell(r2, c2) != d by {
                if s.cell(r2, c2) != EMPTY {
                    assert(b[pos(r2, c2)] == s.cell(r2, c2));
                    assert(b[pos(r, c)] != b[pos(r2, c2)]);
                }
            }
            assert(s.allowed(r, c, d));
        }
    }
}

/// Two different candidates make at least two.
pub proof fn lemma_count_two(s: Sudoku, r: int, c: int, x: int, y: int, n: int)
    requires
        is_digit(x),
        is_digit(y),
        x != y,
        s.has(r, c, x),
        s.has(r, c, y),
    ensures
        s.count_upto(r, c, n) >= (if x <= n { 1int } else { 0int }) + (if y <= n { 1int } else { 0int }),
    decreases n,
{
    if n > 0 {
        lemma_count_two(s, r, c, x, y, n - 1);
    }
}

/// Three different candidates make at least three.
pub proof fn lemma_count_three(s: Sudoku, r: int, c: int, x: int, y: int, z: int, n: int)
    requires
        is_digit(x),
        is_digit(y),
        is_digit(z),
        x != y,
        x != z,
        y != z,
        s.has(r, c, x),
        s.has(r, c, y),
        s.has(r, c, z),
    ensures
        s.count_upto(r, c, n) >= (if x <= n { 1int } else { 0int }) + (if y <= n { 1int } else { 0int }) + (if z
            <= n { 1int } else { 0int }),
    decreases n,
{
    if n > 0 {
        lemma_count_three(s, r, c, x, y, z, n - 1);
    }
}

impl Sudoku {
    /// What `res` does agrees with solution `b`: a placed digit is `b`'s, and
    /// every other candidate it removes is not `b`'s digit of its cell.
    pub open spec fn sound_for(&self, res: &RemovalResult, b: Seq<u8>) -> bool {
        &&& match res.sets_cell {
            Some(cell) => b[pos(cell.row as int, cell.col as int)] == cell.num,
            None => true,
        }
        &&& forall|r: int, c: int, d: int|
            on_grid(r, c) && is_digit(d) && #[trigger] res.removes(r, c, d) && !placed_at(res, r, c) ==> b[pos(r, c)] != d
    }
}

/// `res` places a digit at `(r, c)`.
pub open spec fn placed_at(res: &RemovalResult, r: int, c: int) -> bool {
    match res.sets_cell {
        Some(cell) => cell.row == r && cell.col == c,
        None => false,
    }
}

/// The digit of `b` in an empty cell of an agreeing grid is one of its candidates.
pub proof fn lemma_agree_empty(s: Sudoku, b: Seq<u8>, r: int, c: int)
    requires
        s.wf(),
        s.agrees_with(b),
        on_grid(r, c),
        s.cell(r, c) == EMPTY,
    ensures
        s.has(r, c, b[pos(r, c)] as int),
{
    assert(s.cell(r, c) == EMPTY);
}

/// A placement of `b`'s own digit removes nothing else that `b` needs.
pub proof fn lemma_placement_sound(s: Sudoku, b: Seq<u8>, res: &RemovalResult, row: int, col: int, m: int)
    requires
        s.wf(),
        is_solution(b),
        s.is_placement(res, row, col, m),
        on_grid(row, col),
        is_digit(m),
        b[pos(row, col)] == m,
    ensures
        s.sound_for(res, b),
{
    assert forall|r: int, c: int, d: int|
        on_grid(r, c) && is_digit(d) && #[trigger] res.removes(r, c, d) && !placed_at(res, r, c) implies b[pos(r, c)] != d by {
        assert(s.voided_by(row, col, m, r, c, d));
        if !(r == row && c == col) {
            assert(sees(row, col, r, c));
            assert(b[pos(row, col)] != b[pos(r, c)]);
        }
    }
}

/// Cell `k` of group `g` holds digit `d` in solution `b` while `d` is a
/// candidate of another cell `i` of the group: then cell `k` is empty and has `d`.
pub proof fn lemma_solution_digit_is_candidate(s: Sudoku, b: Seq<u8>, g: int, i: int, k: int, d: int)
    requires
        s.wf(),
        is_solution(b),
        s.agrees_with(b),
        is_group(g),
        0 <= i < 9,
        0 <= k < 9,
        i != k,
        s.has(member_row(g, i), member_col(g, i), d),
        group_value(b, g, k) == d,
    ensures
        s.has(member_row(g, k), member_col(g, k), d),
{
    lemma_member(g, i);
    lemma_member(g, k);
    lemma_members_see(g, i, k);
    let (ri, ci) = (member_row(g, i), member_col(g, i));
    let (rk, ck) = (member_row(g, k), member_col(g, k));
    assert(s.allowed(ri, ci, d));
    assert(s.cell(rk, ck) != d);
    if s.cell(rk, ck) != EMPTY {
        assert(b[pos(rk, ck)] == s.cell(rk, ck));
    } else {
        lemma_agree_empty(s, b, rk, ck);
    }
}

pub proof fn lemma_obvious_single_sound(s: Sudoku, b: Seq<u8>, res: &RemovalResult, r: int, c: int, m: int)
    requires
        s.wf(),
        is_solution(b),
        s.agrees_with(b),
        s.obvious_single(r, c, m),
        s.is_placement(res, r, c, m),
    ensures
        s.sound_for(res, b),
{
    assert(s.allowed(r, c, m));
    lemma_agree_empty(s, b, r, c);
    let v = b[pos(r, c)] as int;
    if v != m {
        lemma_count_two(s, r, c, v, m, 9);
    }
    lemma_placement_sound(s, b, res, r, c, m);
}

pub proof fn lemma_last_digit_sound(s: Sudoku, b: Seq<u8>, res: &RemovalResult, g: int, i: int, m: int)
    requires
        s.wf(),
        is_solution(b),
        s.agrees_with(b),
        s.last_digit(g, i, m),
        s.is_placement(res, member_row(g, i), member_col(g, i), m),
    ensures
        s.sound_for(res, b),
{
    lemma_member(g, i);
    let (ri, ci) = (member_row(g, i), member_col(g, i));
    let v = b[pos(ri, ci)] as int;
    assert(is_digit(v));
    assert(!s.group_holds(g, v)) by {
        if s.group_holds(g, v) {
            let k = choose|k: int| 0 <= k < 9 && #[trigger] s.cell(member_row(g, k), member_col(g, k)) == v;
            lemma_member(g, k);
            if k == i {
                assert(s.cell(ri, ci) == EMPTY);
            } else {
                lemma_members_see(g, i, k);
                assert(s.cell(member_row(g, k), member_col(g, k)) != EMPTY);
                assert(b[pos(member_row(g, k), member_col(g, k))] == v);
            }
        }
    }
    lemma_placement_sound(s, b, res, ri, ci, m);
}

pub proof fn lemma_hidden_single_sound(s: Sudoku, b: Seq<u8>, res: &RemovalResult, g: int, i: int, d: int)
    requires
        s.wf(),
        is_solution(b),
        s.agrees_with(b),
        s.hidden_single(g, i, d),
        s.is_placement(res, member_row(g, i), member_col(g, i), d),
    ensures
        s.sound_for(res, b),
{
    lemma_member(g, i);
    lemma_solution_has_every_digit(b, g, d);
    let k = choose|k: int| 0 <= k < 9 && #[trigger] group_value(b, g, k) == d;
    if k != i {
        lemma_solution_digit_is_candidate(s, b, g, i, k, d);
    }
    lemma_placement_sound(s, b, res, member_row(g, i), member_col(g, i), d);
}

pub proof fn lemma_obvious_pair_sound(s: Sudoku, b: Seq<u8>, res: &RemovalResult, g: int, i: int, j: int)
    requires
        s.wf(),
        is_solution(b),
        s.agrees_with(b),
        res.sets_cell.is_none(),
        s.is_obvious_pair(res, g, i, j),
    ensures
        s.sound_for(res, b),
{
    assert forall|r: int, c: int, d: int|
        on_grid(r, c) && is_digit(d) && #[trigger] res.removes(r, c, d) && !placed_at(res, r, c) implies b[pos(r, c)] != d by {
        assert(s.obvious_elim(g, i, j, r, c, d));
        lemma_member(g, i);
        lemma_member(g, j);
        lemma_members_see(g, i, j);
        let (ri, ci) = (member_row(g, i), member_col(g, i));
        let (rj, cj) = (member_row(g, j), member_col(g, j));
        assert(s.allowed(ri, ci, d));
        assert(s.cell(ri, ci) == EMPTY);
        assert(s.has(rj, cj, d));
        assert(s.allowed(rj, cj, d));
        lemma_agree_empty(s, b, ri, ci);
        lemma_agree_empty(s, b, rj, cj);
        let vi = b[pos(ri, ci)] as int;
        let vj = b[pos(rj, cj)] as int;
        assert(s.has(ri, ci, vj));
        assert(vi != vj);
        if d != vi && d != vj {
            lemma_count_three(s, ri, ci, vi, vj, d, 9);
        }
        lemma_group_cells_see(g, r, c, ri, ci);
        lemma_group_cells_see(g, r, c, rj, cj);
    }
}

/// In solution `b` the digit `d`, which can go only in cells `i` and `j` of
/// group `g`, sits in one of them.
pub proof fn lemma_only_at_holds_digit(s: Sudoku, b: Seq<u8>, g: int, d: int, i: int, j: int) -> (k: int)
    requires
        s.wf(),
        is_solution(b),
        s.agrees_with(b),
        is_group(g),
        is_digit(d),
        s.only_at(g, d, i, j),
    ensures
        k == i || k == j,
        group_value(b, g, k) == d,
{
    lemma_solution_has_every_digit(b, g, d);
    let k = choose|k: int| 0 <= k < 9 && #[trigger] group_value(b, g, k) == d;
    if k != i {
        lemma_solution_digit_is_candidate(s, b, g, i, k, d);
    }
    k
}

pub proof fn lemma_hidden_pair_sound(s: Sudoku, b: Seq<u8>, res: &RemovalResult, g: int, a: int, a2: int, i: int, j: int)
    requires
        s.wf(),
        is_solution(b),
        s.agrees_with(b),
        res.sets_cell.is_none(),
        s.is_hidden_pair(res, g, a, a2, i, j),
    ensures
        s.sound_for(res, b),
{
    assert forall|r: int, c: int, d: int|
        on_grid(r, c) && is_digit(d) && #[trigger] res.removes(r, c, d) && !placed_at(res, r, c) implies b[pos(r, c)] != d by {
        assert(s.hidden_elim(g, a, a2, i, j, r, c, d));
        let k = lemma_only_at_holds_digit(s, b, g, a, i, j);
        let k2 = lemma_only_at_holds_digit(s, b, g, a2, i, j);
        assert(k != k2);
    }
}

pub proof fn lemma_pointing_pair_sound(s: Sudoku, b: Seq<u8>, res: &RemovalResult, g: int, d: int, i: int, j: int)
    requires
        s.wf(),
        is_solution(b),
        s.agrees_with(b),
        res.sets_cell.is_none(),
        s.is_pointing_pair(res, g, d, i, j),
    ensures
        s.sound_for(res, b),
{
    assert forall|r: int, c: int, e: int|
        on_grid(r, c) && is_digit(e) && #[trigger] res.removes(r, c, e) && !placed_at(res, r, c) implies b[pos(r, c)] != e by {
        assert(s.pointing_elim(g, d, i, j, r, c, e));
        let k = lemma_only_at_holds_digit(s, b, g, d, i, j);
        lemma_member(g, k);
        let (rk, ck) = (member_row(g, k), member_col(g, k));
        assert(!(r == rk && c == ck));
        assert(sees(r, c, rk, ck));
        assert(b[pos(r, c)] != b[pos(rk, ck)]);
    }
}

pub proof fn lemma_xwing_sound(s: Sudoku, b: Seq<u8>, res: &RemovalResult, lo: int, d: int, g1: int, g2: int, i: int, j: int)
    requires
        s.wf(),
        is_solution(b),
        s.agrees_with(b),
        res.sets_cell.is_none(),
        s.is_xwing(res, lo, d, g1, g2, i, j),
    ensures
        s.sound_for(res, b),
{
    assert forall|r: int, c: int, e: int|
        on_grid(r, c) && is_digit(e) && #[trigger] res.removes(r, c, e) && !placed_at(res, r, c) implies b[pos(r, c)] != e by {
        assert(s.xwing_elim(lo, d, g1, g2, i, j, r, c, e));
        let k1 = lemma_only_at_holds_digit(s, b, g1, d, i, j);
        let k2 = lemma_only_at_holds_digit(s, b, g2, d, i, j);
        lemma_member(g1, k1);
        lemma_member(g2, k2);
        let (r1, c1) = (member_row(g1, k1), member_col(g1, k1));
        let (r2, c2) = (member_row(g2, k2), member_col(g2, k2));
        if k1 == k2 {
            assert(sees(r1, c1, r2, c2));
            assert(b[pos(r1, c1)] != b[pos(r2, c2)]);
        }
        let p = if crate::groups::in_group(crate::xwing::cross(lo, i), r, c) { i } else { j };
        if p == k1 {
            assert(sees(r, c, r1, c1));
            assert(b[pos(r, c)] != b[pos(r1, c1)]);
        } else {
            assert(p == k2);
            assert(sees(r, c, r2, c2));
            assert(b[pos(r, c)] != b[pos(r2, c2)]);
        }
    }
}

/// Every deduction that a strategy finds agrees with every solution that the
/// grid agrees with.
pub proof fn law_deduction_is_sound(s: Sudoku, b: Seq<u8>, strategy: Strategy, res: &RemovalResult)
    requires
        s.wf(),
        is_solution(b),
        s.agrees_with(b),
        s.deduces(strategy, res),
    ensures
        s.sound_for(res, b),
{
    match strategy {
        Strategy::LastDigit => {
            let (g, i, m) = choose|g: int, i: int, m: int|
                0 <= g < 27 && #[trigger] s.last_digit(g, i, m) && s.is_placement(res, member_row(g, i), member_col(g, i), m);
            lemma_last_digit_sound(s, b, res, g, i, m);
        },
        Strategy::ObviousSingle => {
            let (r, c, m) = choose|r: int, c: int, m: int| #[trigger] s.obvious_single(r, c, m) && s.is_placement(res, r, c, m);
            lemma_obvious_single_sound(s, b, res, r, c, m);
        },
        Strategy::HiddenSingle => {
            let (g, i, d) = choose|g: int, i: int, d: int|
                0 <= g < 27 && #[trigger] s.hidden_single(g, i, d) && s.is_placement(res, member_row(g, i), member_col(g, i), d);
            lemma_hidden_single_sound(s, b, res, g, i, d);
        },
        Strategy::PointingPair => {
            let (g, d, i, j) = choose|g: int, d: int, i: int, j: int| 0 <= g < 18 && #[trigger] s.is_pointing_pair(res, g, d, i, j);
            lemma_pointing_pair_sound(s, b, res, g, d, i, j);
        },
        Strategy::ObviousPair => {
            let (g, i, j) = choose|g: int, i: int, j: int| 0 <= g < 27 && #[trigger] s.is_obvious_pair(res, g, i, j);
            lemma_obvious_pair_sound(s, b, res, g, i, j);
        },
        Strategy::HiddenPair => {
            let (g, a, a2, i, j) = choose|g: int, a: int, a2: int, i: int, j: int|
                0 <= g < 27 && #[trigger] s.is_hidden_pair(res, g, a, a2, i, j);
            lemma_hidden_pair_sound(s, b, res, g, a, a2, i, j);
        },
        Strategy::XWing => {
            let (lo, d, g1, g2, i, j) = choose|lo: int, d: int, g1: int, g2: int, i: int, j: int|
                (lo == 0 || lo == 9) && #[trigger] s.is_xwing(res, lo, d, g1, g2, i, j);
            lemma_xwing_sound(s, b, res, lo, d, g1, g2, i, j);
        },
        Strategy::NoDeduction => {},
    }
}

/// Carrying out a deduction that agrees with solution `b` keeps the grid in
/// agreement with `b`.
pub proof fn lemma_apply_keeps_agreement(before: Sudoku, after: Sudoku, res: &RemovalResult, b: Seq<u8>)
    requires
        before.wf(),
        after.wf(),
        is_solution(b),
        before.agrees_with(b),
        before.sound_for(res, b),
        forall|r: int, c: int, d: int|
            on_grid(r, c) ==> #[trigger] after.has(r, c, d) == (before.has(r, c, d) && !res.removes(r, c, d)),
        match res.sets_cell {
            Some(cell) => after.cells() == before.cells().update(pos(cell.row as int, cell.col as int), cell.num)
                && on_grid(cell.row as int, cell.col as int),
            None => after.cells() == before.cells(),
        },
    ensures
        after.agrees_with(b),
{
    assert forall|r: int, c: int| on_grid(r, c) implies if #[trigger] after.cell(r, c) != EMPTY {
        b[pos(r, c)] == after.cell(r, c)
    } else {
        after.has(r, c, b[pos(r, c)] as int)
    } by {
        let v = b[pos(r, c)] as int;
        assert(is_digit(v));
        if placed_at(res, r, c) {
            let cell = res.sets_cell.unwrap();
            assert(after.cell(r, c) == cell.num);
        } else {
            match res.sets_cell {
                Some(cell) => {
                    if pos(r, c) == pos(cell.row as int, cell.col as int) {
                        lemma_pos_injective(r, c, cell.row as int, cell.col as int);
                    }
                },
                None => {},
            }
            assert(after.cell(r, c) == before.cell(r, c));
            if before.cell(r, c) == EMPTY {
                lemma_agree_empty(before, b, r, c);
                assert(!res.removes(r, c, v));
            }
        }
    }
}

/// The digits placed on an agreeing grid are those of the solution.
pub proof fn lemma_agrees_extends(s: Sudoku, b: Seq<u8>)
    requires
        s.wf(),
        is_solution(b),
        s.agrees_with(b),
    ensures
        extends(b, s.cells()),
{
    assert forall|i: int| 0 <= i < 81 && s.cells()[i] != EMPTY implies #[trigger] b[i] == s.cells()[i] by {
        assert(s.cell(i / 9, i % 9) != EMPTY);
    }
}

/// A full board with no two cells that see each other holding the same digit
/// is a solution.
pub proof fn lemma_full_consistent_is_solution(b: Seq<u8>)
    requires
        is_board(b),
        is_consistent(b),
        forall|i: int| 0 <= i < 81 ==> #[trigger] b[i] != EMPTY,
    ensures
        is_solution(b),
{
    assert forall|r: int, c: int| on_grid(r, c) implies is_digit(#[trigger] b[pos(r, c)] as int) by {
        assert(b[pos(r, c)] != EMPTY);
    }
    assert forall|r1: int, c1: int, r2: int, c2: int|
        on_grid(r1, c1) && on_grid(r2, c2) && sees(r1, c1, r2, c2) implies #[trigger] b[pos(r1, c1)] != #[trigger] b[pos(r2, c2)] by {
        assert(b[pos(r1, c1)] != EMPTY);
    }
}

/// On a freshly computed grid whose board has a single empty cell `(row, col)`
/// and a solution `b`, the row of that cell is a last digit for `b`'s digit, so
/// the last-digit strategy fires.
pub proof fn law_single_empty_cell_is_last_digit(s: Sudoku, b: Seq<u8>, row: int, col: int)
    requires
        s.wf(),
        forall|r: int, c: int, d: int| on_grid(r, c) ==> #[trigger] s.has(r, c, d) == s.allowed(r, c, d),
        is_solution(b),
        extends(b, s.cells()),
        on_grid(row, col),
        forall|i: int| 0 <= i < 81 ==> (#[trigger] s.cells()[i] == EMPTY <==> i == pos(row, col)),
    ensures
        s.last_digit(row, col, b[pos(row, col)] as int),
        !s.quiet_for(Strategy::LastDigit),
{
    law_fresh_grid_agrees_with_solutions(s, b);
    let v = b[pos(row, col)] as int;
    assert(s.cells()[pos(row, col)] == EMPTY);
    lemma_agree_empty(s, b, row, col);
    assert forall|k: int| 0 <= k < 9 implies (#[trigger] s.cell(member_row(row, k), member_col(row, k)) == EMPTY <==> k == col) by {
        lemma_member(row, k);
        if pos(row, k) == pos(row, col) {
            lemma_pos_injective(row, k, row, col);
        }
    }
    assert(!s.group_holds(row, v)) by {
        if s.group_holds(row, v) {
            let k = choose|k: int| 0 <= k < 9 && #[trigger] s.cell(member_row(row, k), member_col(row, k)) == v;
            lemma_member(row, k);
            if k != col {
                assert(b[pos(row, k)] == v);
                assert(sees(row, col, row, k));
            }
        }
    }
    assert forall|e: int| is_digit(e) && !#[trigger] s.group_holds(row, e) implies e == v by {
        lemma_solution_has_every_digit(b, row, e);
        let k = choose|k: int| 0 <= k < 9 && #[trigger] group_value(b, row, k) == e;
        lemma_member(row, k);
        if k != col {
            assert(s.cell(row, k) != EMPTY);
            assert(s.cell(member_row(row, k), member_col(row, k)) == e);
        }
    }
    assert(s.last_digit(row, col, v));
}

/// When the human-style solver fills a consistent board, the board it fills
/// is the only solution of the puzzle: any solution that backtracking finds
/// from the same puzzle is that board.
pub proof fn law_human_solution_is_the_backtracking_solution(start: Seq<u8>, human: Seq<u8>, found: Seq<u8>)
    requires
        is_consistent(start),
        is_board(human),
        forall|i: int| 0 <= i < 81 ==> #[trigger] human[i] != EMPTY,
        forall|b: Seq<u8>| is_solution(b) && #[trigger] extends(b, start) ==> extends(b, human),
        is_solution(found),
        extends(found, start),
    ensures
        found == human,
{
    assert(extends(found, human));
    assert(found =~= human);
}

} // verus!
