use vstd::prelude::*;

verus! {

/// The digit that marks an empty cell.
pub const EMPTY: u8 = 0;

/// Position of cell `(r, c)` in a row-major board of 81 cells.
pub open spec fn pos(r: int, c: int) -> int {
    9 * r + c
}

/// Position of the candidate `d` of cell `(r, c)` in a table of 729 flags.
pub open spec fn key(r: int, c: int, d: int) -> int {
    81 * r + 9 * c + d - 1
}

pub open spec fn on_grid(r: int, c: int) -> bool {
    0 <= r < 9 && 0 <= c < 9
}

pub open spec fn is_digit(d: int) -> bool {
    1 <= d <= 9
}

pub open spec fn box_of(r: int, c: int) -> int {
    3 * (r / 3) + c / 3
}

pub open spec fn same_box(r1: int, c1: int, r2: int, c2: int) -> bool {
    r1 / 3 == r2 / 3 && c1 / 3 == c2 / 3
}

/// Two distinct cells that share a row, a column or a box.
pub open spec fn sees(r1: int, c1: int, r2: int, c2: int) -> bool {
    (r1 != r2 || c1 != c2) && (r1 == r2 || c1 == c2 || same_box(r1, c1, r2, c2))
}

/// The character that stands for digit `d` in a puzzle string.
pub open spec fn digit_char(d: u8) -> char {
    ((d as int) + ('0' as int)) as char
}

/// A puzzle string: exactly 81 ASCII digits.
pub open spec fn is_puzzle_text(s: Seq<char>) -> bool {
    s.len() == 81 && forall|i: int| 0 <= i < 81 ==> '0' <= #[trigger] s[i] <= '9'
}

/// The board that a puzzle string describes, row-major.
pub open spec fn board_of_text(s: Seq<char>) -> Seq<u8> {
    Seq::new(s.len(), |i: int| ((s[i] as int) - ('0' as int)) as u8)
}

/// The puzzle string of a board, row-major.
pub open spec fn text_of_board(b: Seq<u8>) -> Seq<char> {
    Seq::new(b.len(), |i: int| digit_char(b[i]))
}

/// A board of 81 cells, each 0 or a digit.
pub open spec fn is_board(b: Seq<u8>) -> bool {
    b.len() == 81 && forall|i: int| 0 <= i < 81 ==> #[trigger] b[i] <= 9
}

/// A complete and consistent board: every cell holds a digit and no two cells
/// that see each other hold the same one.
pub open spec fn is_solution(b: Seq<u8>) -> bool {
    &&& b.len() == 81
    &&& forall|r: int, c: int| on_grid(r, c) ==> is_digit(#[trigger] b[pos(r, c)] as int)
    &&& forall|r1: int, c1: int, r2: int, c2: int|
        on_grid(r1, c1) && on_grid(r2, c2) && sees(r1, c1, r2, c2) ==> #[trigger] b[pos(r1, c1)]
            != #[trigger] b[pos(r2, c2)]
}

/// No two cells that see each other hold the same digit.
pub open spec fn is_consistent(b: Seq<u8>) -> bool {
    forall|r1: int, c1: int, r2: int, c2: int|
        on_grid(r1, c1) && on_grid(r2, c2) && sees(r1, c1, r2, c2) && #[trigger] b[pos(r1, c1)] != EMPTY ==> b[pos(
            r1,
            c1,
        )] != #[trigger] b[pos(r2, c2)]
}

/// `b` keeps every digit that `a` holds.
pub open spec fn extends(b: Seq<u8>, a: Seq<u8>) -> bool {
    b.len() == a.len() && forall|i: int| 0 <= i < a.len() && a[i] != EMPTY ==> #[trigger] b[i] == a[i]
}

/// Number of empty cells among the first `n` cells of a board.
pub open spec fn empty_in(b: Seq<u8>, n: int) -> nat
    decreases n,
{
    if n <= 0 {
        0
    } else {
        empty_in(b, n - 1) + if b[n - 1] == EMPTY { 1nat } else { 0nat }
    }
}

pub open spec fn empty_count(b: Seq<u8>) -> nat {
    empty_in(b, b.len() as int)
}

/// Number of set flags among the first `n`.
pub open spec fn true_count(s: Seq<bool>, n: int) -> nat
    decreases n,
{
    if n <= 0 {
        0
    } else {
        true_count(s, n - 1) + if s[n - 1] { 1nat } else { 0nat }
    }
}

pub proof fn lemma_true_count_shrinks(a: Seq<bool>, b: Seq<bool>, n: int, k0: int)
    requires
        0 <= n <= a.len(),
        a.len() == b.len(),
        forall|k: int| 0 <= k < n && #[trigger] b[k] ==> a[k],
    ensures
        true_count(b, n) <= true_count(a, n),
        0 <= k0 < n && a[k0] && !b[k0] ==> true_count(b, n) < true_count(a, n),
    decreases n,
{
    if n > 0 {
        lemma_true_count_shrinks(a, b, n - 1, k0);
    }
}

/// Placing `n` in an empty cell that no cell holding `n` sees keeps a board consistent.
pub proof fn lemma_place_consistent(b: Seq<u8>, r: int, c: int, n: u8)
    requires
        b.len() == 81,
        on_grid(r, c),
        b[pos(r, c)] == EMPTY,
        forall|r2: int, c2: int| on_grid(r2, c2) && sees(r, c, r2, c2) ==> #[trigger] b[pos(r2, c2)] != n,
    ensures
        is_consistent(b) ==> is_consistent(b.update(pos(r, c), n)),
        extends(b.update(pos(r, c), n), b),
{
    let nb = b.update(pos(r, c), n);
    if is_consistent(b) {
    assert forall|r1: int, c1: int, r2: int, c2: int|
        on_grid(r1, c1) && on_grid(r2, c2) && sees(r1, c1, r2, c2) && #[trigger] nb[pos(r1, c1)] != EMPTY implies nb[pos(r1, c1)]
            != #[trigger] nb[pos(r2, c2)] by {
        if pos(r1, c1) == pos(r, c) {
            lemma_pos_injective(r1, c1, r, c);
            if pos(r2, c2) != pos(r, c) {
                assert(b[pos(r2, c2)] != n);
            }
        } else if pos(r2, c2) == pos(r, c) {
            lemma_pos_injective(r2, c2, r, c);
            assert(sees(r, c, r1, c1));
            assert(b[pos(r1, c1)] != n);
        }
    }
    }
}

pub proof fn lemma_extends_trans(a: Seq<u8>, b: Seq<u8>, c: Seq<u8>)
    requires
        extends(b, a),
        extends(c, b),
    ensures
        extends(c, a),
{
}

pub proof fn lemma_empty_in_update(b: Seq<u8>, p: int, v: u8, n: int)
    requires
        0 <= p < b.len(),
        0 <= n <= b.len(),
        b[p] == EMPTY,
        v != EMPTY,
    ensures
        p < n ==> empty_in(b.update(p, v), n) + 1 == empty_in(b, n),
        p >= n ==> empty_in(b.update(p, v), n) == empty_in(b, n),
    decreases n,
{
    if n > 0 {
        lemma_empty_in_update(b, p, v, n - 1);
    }
}

pub proof fn lemma_key_injective(r1: int, c1: int, d1: int, r2: int, c2: int, d2: int)
    requires
        on_grid(r1, c1),
        on_grid(r2, c2),
        is_digit(d1),
        is_digit(d2),
        key(r1, c1, d1) == key(r2, c2, d2),
    ensures
        r1 == r2,
        c1 == c2,
        d1 == d2,
{
}

pub proof fn lemma_pos_injective(r1: int, c1: int, r2: int, c2: int)
    requires
        on_grid(r1, c1),
        on_grid(r2, c2),
        pos(r1, c1) == pos(r2, c2),
    ensures
        r1 == r2,
        c1 == c2,
{
}

/// Whether cells `(r1, c1)` and `(r2, c2)` see each other.
pub fn cells_see(r1: usize, c1: usize, r2: usize, c2: usize) -> (r: bool)
    requires
        r1 < 9,
        c1 < 9,
        r2 < 9,
        c2 < 9,
    ensures
        r == sees(r1 as int, c1 as int, r2 as int, c2 as int),
{
    (r1 != r2 || c1 != c2) && (r1 == r2 || c1 == c2 || (r1 / 3 == r2 / 3 && c1 / 3 == c2 / 3))
}

/// The one-character text of a board cell.
pub fn digit_text(d: u8) -> (r: &'static str)
    requires
        d <= 9,
    ensures
        r@ == seq![digit_char(d)],
{
    proof {
        reveal_strlit("0");
        reveal_strlit("1");
        reveal_strlit("2");
        reveal_strlit("3");
        reveal_strlit("4");
        reveal_strlit("5");
        reveal_strlit("6");
        reveal_strlit("7");
        reveal_strlit("8");
        reveal_strlit("9");
    }
    if d == 0 {
        "0"
    } else if d == 1 {
        "1"
    } else if d == 2 {
        "2"
    } else if d == 3 {
        "3"
    } else if d == 4 {
        "4"
    } else if d == 5 {
        "5"
    } else if d == 6 {
        "6"
    } else if d == 7 {
        "7"
    } else if d == 8 {
        "8"
    } else {
        "9"
    }
}

} // verus!
