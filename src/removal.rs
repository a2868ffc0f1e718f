use vstd::prelude::*;
use crate::grid::{key, on_grid, is_digit};
use crate::strategy::Strategy;

verus! {

/// A digit at a position: the digit a step places.
#[derive(Clone, Copy, Debug, PartialEq, Eq, Structural)]
pub struct Cell {
    pub row: usize,
    pub col: usize,
    pub num: u8,
}

/// One entry of the candidate grid: digit `num` still allowed at `(row, col)`.
#[derive(Clone, Copy, Debug, PartialEq, Eq, Structural)]
pub struct Candidate {
    pub row: usize,
    pub col: usize,
    pub num: u8,
}

pub open spec fn cand_key(c: Candidate) -> int {
    key(c.row as int, c.col as int, c.num as int)
}

pub open spec fn cand_on_grid(c: Candidate) -> bool {
    on_grid(c.row as int, c.col as int) && is_digit(c.num as int)
}

/// Candidates on the grid, listed by increasing key (row, then column, then
/// digit), hence without repeats.
pub open spec fn in_key_order(v: Seq<Candidate>) -> bool {
    &&& forall|i: int| 0 <= i < v.len() ==> cand_on_grid(#[trigger] v[i])
    &&& forall|i: int, j: int| 0 <= i < j < v.len() ==> cand_key(#[trigger] v[i]) < cand_key(#[trigger] v[j])
}

/// Some entry of `v` has key `k`.
pub open spec fn lists(v: Seq<Candidate>, k: int) -> bool {
    exists|j: int| 0 <= j < v.len() && #[trigger] cand_key(v[j]) == k
}

pub proof fn lemma_lists_push(v: Seq<Candidate>, x: Candidate, k: int)
    ensures
        lists(v.push(x), k) == (lists(v, k) || cand_key(x) == k),
{
    let w = v.push(x);
    if lists(v, k) {
        let j = choose|j: int| 0 <= j < v.len() && #[trigger] cand_key(v[j]) == k;
        assert(w[j] == v[j]);
    }
    if cand_key(x) == k {
        assert(w[v.len() as int] == x);
    }
    if lists(w, k) {
        let j = choose|j: int| 0 <= j < w.len() && #[trigger] cand_key(w[j]) == k;
        if j < v.len() {
            assert(w[j] == v[j]);
        }
    }
}

/// Candidates on the grid, without repeats.
pub open spec fn distinct_on_grid(v: Seq<Candidate>) -> bool {
    &&& forall|i: int| 0 <= i < v.len() ==> cand_on_grid(#[trigger] v[i])
    &&& forall|i: int, j: int| 0 <= i < j < v.len() ==> cand_key(#[trigger] v[i]) != cand_key(#[trigger] v[j])
}

/// What one deduction would change: an optional placement and the candidates
/// it removes.
#[derive(Debug)]
pub struct RemovalResult {
    pub sets_cell: Option<Cell>,
    pub candidates_about_to_be_removed: Vec<Candidate>,
}

impl RemovalResult {
    /// Whether the result lists candidate `d` of cell `(r, c)`.
    pub open spec fn removes(&self, r: int, c: int, d: int) -> bool {
        lists(self.candidates_about_to_be_removed@, key(r, c, d))
    }

    pub open spec fn fires(&self) -> bool {
        self.candidates_about_to_be_removed@.len() > 0
    }

    pub fn empty() -> (r: Self)
        ensures
            r.sets_cell.is_none(),
            r.candidates_about_to_be_removed@.len() == 0,
    {
        RemovalResult { sets_cell: None, candidates_about_to_be_removed: Vec::new() }
    }

    /// Whether the deduction removes anything, that is, whether it fires.
    pub fn will_remove_candidates(&self) -> (r: bool)
        ensures
            r == self.fires(),
    {
        self.candidates_about_to_be_removed.len() > 0
    }

    pub fn clear(&mut self)
        ensures
            final(self).sets_cell.is_none(),
            final(self).candidates_about_to_be_removed@.len() == 0,
    {
        self.sets_cell = None;
        self.candidates_about_to_be_removed.clear();
    }
}

/// A deduction together with the strategy that found it.
#[derive(Debug)]
pub struct StrategyResult {
    pub strategy: Strategy,
    pub removals: RemovalResult,
}

impl StrategyResult {
    pub fn new(strategy: Strategy) -> (r: Self)
        ensures
            r.strategy == strategy,
            r.removals.sets_cell.is_none(),
            r.removals.candidates_about_to_be_removed@.len() == 0,
    {
        StrategyResult { strategy, removals: RemovalResult::empty() }
    }

    pub fn empty() -> (r: Self)
        ensures
            r.strategy == Strategy::NoDeduction,
            r.removals.sets_cell.is_none(),
            r.removals.candidates_about_to_be_removed@.len() == 0,
    {
        StrategyResult { strategy: Strategy::NoDeduction, removals: RemovalResult::empty() }
    }

    pub fn clear(&mut self)
        ensures
            final(self).strategy == old(self).strategy,
            final(self).removals.sets_cell.is_none(),
            final(self).removals.candidates_about_to_be_removed@.len() == 0,
    {
        self.removals.clear();
    }
}

/// What applying a deduction did.
#[derive(Debug)]
pub struct Resolution {
    pub nums_removed: usize,
    pub strategy: Strategy,
}

} // verus!
