use vstd::prelude::*;
use crate::grid::{pos, on_grid, box_of, lemma_pos_injective};

verus! {

/// The 27 groups: rows are 0..9, columns 9..18, boxes 18..27.
pub open spec fn is_group(g: int) -> bool {
    0 <= g < 27
}

pub open spec fn in_group(g: int, r: int, c: int) -> bool {
    if g < 9 {
        r == g
    } else if g < 18 {
        c == g - 9
    } else {
        box_of(r, c) == g - 18
    }
}

/// Row of the `i`-th cell of group `g` (row-major within a box).
pub open spec fn member_row(g: int, i: int) -> int {
    if g < 9 {
        g
    } else if g < 18 {
        i
    } else {
        3 * ((g - 18) / 3) + i / 3
    }
}

/// Column of the `i`-th cell of group `g`.
pub open spec fn member_col(g: int, i: int) -> int {
    if g < 9 {
        i
    } else if g < 18 {
        g - 9
    } else {
        3 * ((g - 18) % 3) + i % 3
    }
}

/// The place of cell `(r, c)` within a group that holds it.
pub open spec fn index_in(g: int, r: int, c: int) -> int {
    if g < 9 {
        c
    } else if g < 18 {
        r
    } else {
        3 * (r % 3) + c % 3
    }
}

pub proof fn lemma_member(g: int, i: int)
    requires
        is_group(g),
        0 <= i < 9,
    ensures
        on_grid(member_row(g, i), member_col(g, i)),
        in_group(g, member_row(g, i), member_col(g, i)),
        index_in(g, member_row(g, i), member_col(g, i)) == i,
{
}

pub proof fn lemma_member_injective(g: int, i: int, j: int)
    requires
        is_group(g),
        0 <= i < 9,
        0 <= j < 9,
        member_row(g, i) == member_row(g, j),
        member_col(g, i) == member_col(g, j),
    ensures
        i == j,
{
    lemma_member(g, i);
    lemma_member(g, j);
}

/// The cell `i` of group `g`.
pub fn member(g: usize, i: usize) -> (rc: (usize, usize))
    requires
        g < 27,
        i < 9,
    ensures
        rc.0 as int == member_row(g as int, i as int),
        rc.1 as int == member_col(g as int, i as int),
        rc.0 < 9,
        rc.1 < 9,
{
    proof {
        lemma_member(g as int, i as int);
    }
    if g < 9 {
        (g, i)
    } else if g < 18 {
        (i, g - 9)
    } else {
        (3 * ((g - 18) / 3) + i / 3, 3 * ((g - 18) % 3) + i % 3)
    }
}

/// A set of cells, as 81 flags in row-major order.
pub open spec fn is_mask(m: Seq<bool>) -> bool {
    m.len() == 81
}

pub open spec fn at(m: Seq<bool>, r: int, c: int) -> bool {
    m[pos(r, c)]
}

/// The cells of group `g`.
pub fn group_cells(g: usize) -> (m: Vec<bool>)
    requires
        g < 27,
    ensures
        is_mask(m@),
        forall|r: int, c: int| on_grid(r, c) ==> #[trigger] at(m@, r, c) == in_group(g as int, r, c),
{
    let mut m: Vec<bool> = Vec::new();
    let mut r: usize = 0;
    while r < 9
        invariant
            g < 27,
            0 <= r <= 9,
            m@.len() == 9 * r,
            forall|r2: int, c2: int| on_grid(r2, c2) && pos(r2, c2) < m@.len() ==> #[trigger] at(m@, r2, c2) == in_group(g as int, r2, c2),
        decreases 9 - r,
    {
        let mut c: usize = 0;
        while c < 9
            invariant
                g < 27,
                0 <= r < 9,
                0 <= c <= 9,
                m@.len() == 9 * r + c,
                forall|r2: int, c2: int| on_grid(r2, c2) && pos(r2, c2) < m@.len() ==> #[trigger] at(m@, r2, c2) == in_group(g as int, r2, c2),
            decreases 9 - c,
        {
            let inside = if g < 9 {
                r == g
            } else if g < 18 {
                c == g - 9
            } else {
                3 * (r / 3) + c / 3 == g - 18
            };
            let ghost prev = m@;
            m.push(inside);
            proof {
                assert forall|r2: int, c2: int| on_grid(r2, c2) && pos(r2, c2) < m@.len() implies #[trigger] at(m@, r2, c2) == in_group(g as int, r2, c2) by {
                    if pos(r2, c2) == pos(r as int, c as int) {
                        lemma_pos_injective(r2, c2, r as int, c as int);
                    } else {
                        assert(m@[pos(r2, c2)] == prev[pos(r2, c2)]);
                        assert(at(prev, r2, c2) == in_group(g as int, r2, c2));
                    }
                }
            }
            c = c + 1;
        }
        r = r + 1;
    }
    m
}

/// The single cell `(row, col)`.
pub fn single_cell(row: usize, col: usize) -> (m: Vec<bool>)
    requires
        row < 9,
        col < 9,
    ensures
        is_mask(m@),
        forall|r: int, c: int| on_grid(r, c) ==> #[trigger] at(m@, r, c) == (r == row && c == col),
{
    let mut m: Vec<bool> = Vec::new();
    let mut k: usize = 0;
    while k < 81
        invariant
            row < 9,
            col < 9,
            0 <= k <= 81,
            m@.len() == k,
            forall|j: int| 0 <= j < k ==> #[trigger] m@[j] == (j == pos(row as int, col as int)),
        decreases 81 - k,
    {
        m.push(k == 9 * row + col);
        k = k + 1;
    }
    proof {
        assert forall|r: int, c: int| on_grid(r, c) implies #[trigger] at(m@, r, c) == (r == row && c == col) by {
            if pos(r, c) == pos(row as int, col as int) {
                lemma_pos_injective(r, c, row as int, col as int);
            }
        }
    }
    m
}

/// The cells of `a` that are not in `b`.
pub fn mask_minus(a: &Vec<bool>, b: &Vec<bool>) -> (m: Vec<bool>)
    requires
        is_mask(a@),
        is_mask(b@),
    ensures
        is_mask(m@),
        forall|k: int| 0 <= k < 81 ==> #[trigger] m@[k] == (a@[k] && !b@[k]),
{
    let mut m: Vec<bool> = Vec::new();
    let mut k: usize = 0;
    while k < 81
        invariant
            is_mask(a@),
            is_mask(b@),
            0 <= k <= 81,
            m@.len() == k,
            forall|j: int| 0 <= j < k ==> #[trigger] m@[j] == (a@[j] && !b@[j]),
        decreases 81 - k,
    {
        m.push(a[k] && !b[k]);
        k = k + 1;
    }
    m
}

/// The cells of `a` or of `b`.
pub fn mask_union(a: &Vec<bool>, b: &Vec<bool>) -> (m: Vec<bool>)
    requires
        is_mask(a@),
        is_mask(b@),
    ensures
        is_mask(m@),
        forall|k: int| 0 <= k < 81 ==> #[trigger] m@[k] == (a@[k] || b@[k]),
{
    let mut m: Vec<bool> = Vec::new();
    let mut k: usize = 0;
    while k < 81
        invariant
            is_mask(a@),
            is_mask(b@),
            0 <= k <= 81,
            m@.len() == k,
            forall|j: int| 0 <= j < k ==> #[trigger] m@[j] == (a@[j] || b@[j]),
        decreases 81 - k,
    {
        m.push(a[k] || b[k]);
        k = k + 1;
    }
    m
}

} // verus!
