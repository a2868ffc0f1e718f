use rate_my_sudoku::removal::StrategyResult;
use rate_my_sudoku::strategy::Strategy;
use rate_my_sudoku::sudoku::{Sudoku, SudokuError};

const SANITY: &str = "860001000009250006000000008010020760040000000608000053080075024050002000300000000";
const SINGLES: &str = "000004028406000005100030600000301000087000140000709000002010003900000507670400000";
const NEEDS_HIDDEN_PAIR: &str =
    "720096003000205000080004020000000060106503807040000000030800090000702000200430018";
const NEEDS_XWING: &str = "041729030760003402032640719403900170607004903195370024214567398376090541958431267";
const SOLVED: &str = "865431297479258316231697548513824769947563182628719453186375924754982631392146875";

fn load(text: &str) -> Sudoku {
    let mut sudoku = Sudoku::new();
    sudoku.from_string(text).unwrap();
    sudoku
}

fn difficulty(s: &Sudoku) -> f64 {
    s.weighted_score() as f64 / s.original_empty_cells() as f64
}

fn candidate_total(s: &Sudoku) -> usize {
    let mut n = 0;
    for r in 0..9 {
        for c in 0..9 {
            n += s.get_notes(r, c).len();
        }
    }
    n
}

#[test]
fn load_then_serialize_gives_the_text_back() {
    for text in [SANITY, SINGLES, SOLVED, NEEDS_XWING] {
        let sudoku = load(text);
        assert_eq!(sudoku.serialized(), text);
        assert_eq!(sudoku.original_board(), text);
    }
}

#[test]
fn short_text_is_refused() {
    let mut sudoku = load(SANITY);
    assert_eq!(sudoku.from_string("12345"), Err(SudokuError::InvalidInput));
    assert_eq!(sudoku.serialized(), SANITY);
}

#[test]
fn text_with_a_non_digit_is_refused() {
    let mut sudoku = Sudoku::new();
    let text = format!("x{}", &SANITY[1..]);
    assert_eq!(sudoku.from_string(&text), Err(SudokuError::InvalidInput));
    let spaced = format!("{} ", SANITY);
    assert_eq!(sudoku.from_string(&spaced), Err(SudokuError::InvalidInput));
}

#[test]
fn empty_board_gets_every_candidate() {
    let mut sudoku = load(&"0".repeat(81));
    assert!(sudoku.unsolved());
    sudoku.calc_all_notes();
    for r in 0..9 {
        for c in 0..9 {
            assert_eq!(sudoku.get_notes(r, c), vec![1, 2, 3, 4, 5, 6, 7, 8, 9]);
        }
    }
}

#[test]
fn full_board_needs_no_step() {
    let mut sudoku = load(SOLVED);
    assert!(!sudoku.unsolved());
    sudoku.calc_all_notes();
    let step = sudoku.next_step();
    assert_eq!(step.strategy, Strategy::NoDeduction);
    assert!(!step.removals.will_remove_candidates());
    assert!(sudoku.solve_like_a_human());
    assert!(sudoku.rating().is_empty());
    assert_eq!(sudoku.weighted_score(), 0);
}

#[test]
fn one_empty_cell_is_a_last_digit() {
    let text = format!("0{}", &SOLVED[1..]);
    let mut sudoku = load(&text);
    sudoku.calc_all_notes();
    let step = sudoku.next_step();
    assert_eq!(step.strategy, Strategy::LastDigit);
    sudoku.apply(&step);
    assert!(sudoku.is_solved());
    assert_eq!(sudoku.serialized(), SOLVED);
}

#[test]
fn placed_digits_were_allowed_and_cells_lose_their_candidates() {
    let mut sudoku = load(SINGLES);
    sudoku.calc_all_notes();
    let mut previous = candidate_total(&sudoku);
    loop {
        let step = sudoku.next_step();
        if step.strategy == Strategy::NoDeduction {
            break;
        }
        if let Some(cell) = step.removals.sets_cell {
            assert!(sudoku.can_place(cell.row, cell.col, cell.num));
            assert!(sudoku.get_notes(cell.row, cell.col).contains(&cell.num));
        }
        let done = sudoku.apply(&step);
        assert_eq!(done.strategy, step.strategy);
        if let Some(cell) = step.removals.sets_cell {
            assert_eq!(sudoku.get_num(cell.row, cell.col), cell.num);
            assert!(sudoku.get_notes(cell.row, cell.col).is_empty());
        }
        let now = candidate_total(&sudoku);
        assert_eq!(now + done.nums_removed, previous);
        previous = now;
        for r in 0..9 {
            for c in 0..9 {
                for d in sudoku.get_notes(r, c) {
                    assert_eq!(sudoku.get_num(r, c), 0);
                    assert!(sudoku.can_place(r, c, d));
                }
            }
        }
    }
    assert!(sudoku.is_solved());
}

#[test]
fn human_solution_agrees_with_backtracking() {
    for text in [SANITY, SINGLES, NEEDS_HIDDEN_PAIR, NEEDS_XWING] {
        let mut human = load(text);
        assert!(human.solve_like_a_human());
        let mut machine = load(text);
        assert!(machine.solve_by_backtracking());
        assert_eq!(human.serialized(), machine.serialized());
    }
}

#[test]
fn solve_puzzle_returns_the_oracle() {
    let mut sudoku = load(SANITY);
    let oracle = sudoku.solve_puzzle();
    assert!(oracle.is_solved());
    assert_eq!(oracle.serialized(), SOLVED);
    assert_eq!(sudoku.serialized(), SOLVED);
}

#[test]
fn backtracking_reports_an_impossible_board() {
    let text = format!("{}{}", "12345678", &"0".repeat(73));
    let mut chars: Vec<char> = text.chars().collect();
    chars[17] = '9';
    let text: String = chars.into_iter().collect();
    let mut sudoku = load(&text);
    assert!(!sudoku.solve_by_backtracking());
    assert_eq!(sudoku.serialized(), text);
}

#[test]
fn singles_rate_below_pairs_and_wings() {
    let mut easy = Vec::new();
    for text in [SANITY, SINGLES] {
        let mut s = load(text);
        assert!(s.solve_like_a_human());
        assert_eq!(s.count_of(Strategy::HiddenPair), 0);
        assert_eq!(s.count_of(Strategy::XWing), 0);
        easy.push(difficulty(&s));
    }
    let mut hard = Vec::new();
    let mut s = load(NEEDS_HIDDEN_PAIR);
    assert!(s.solve_like_a_human());
    assert!(s.count_of(Strategy::HiddenPair) > 0);
    hard.push(difficulty(&s));
    let mut s = load(NEEDS_XWING);
    assert!(s.solve_like_a_human());
    assert!(s.count_of(Strategy::XWing) > 0);
    hard.push(difficulty(&s));
    for e in &easy {
        for h in &hard {
            assert!(e < h);
        }
    }
}

#[test]
fn rating_counts_placements_and_removals() {
    let mut s = load(NEEDS_XWING);
    assert!(s.solve_like_a_human());
    let rating = s.rating();
    assert_eq!(
        rating,
        vec![(Strategy::LastDigit, 16), (Strategy::ObviousSingle, 5), (Strategy::XWing, 1)]
    );
    assert_eq!(s.weighted_score(), 16 * 4 + 5 * 5 + 140);
    assert_eq!(s.original_empty_cells(), 21);
}

#[test]
fn weights_and_names_of_every_strategy() {
    let table = [
        (Strategy::NoDeduction, "None", 0),
        (Strategy::LastDigit, "Last Digit", 4),
        (Strategy::ObviousSingle, "Obvious Single", 5),
        (Strategy::HiddenSingle, "Hidden Single", 14),
        (Strategy::PointingPair, "Pointing Pair", 50),
        (Strategy::ObviousPair, "Obvious Pair", 60),
        (Strategy::HiddenPair, "Hidden Pair", 70),
        (Strategy::XWing, "X-Wing", 140),
    ];
    for (s, name, weight) in table {
        assert_eq!(s.to_string(), name);
        assert_eq!(s.difficulty(), weight);
        assert_eq!(Strategy::from_slot(s.slot()), s);
    }
}

#[test]
fn obvious_pair_clears_the_rest_of_the_row() {
    let mut s = load(&"0".repeat(81));
    s.calc_all_notes();
    for d in 3..=9 {
        s.remove_candidate(0, 0, d);
        s.remove_candidate(0, 1, d);
    }
    let step = s.find_obvious_pair();
    assert_eq!(step.strategy, Strategy::ObviousPair);
    assert!(step.removals.sets_cell.is_none());
    assert_eq!(step.removals.candidates_about_to_be_removed.len(), 14);
    s.apply(&step);
    for c in 2..9 {
        assert!(!s.get_notes(0, c).contains(&1));
        assert!(!s.get_notes(0, c).contains(&2));
    }
    assert_eq!(s.count_of(Strategy::ObviousPair), 14);
}

#[test]
fn hidden_pair_clears_the_two_cells() {
    let mut s = load(&"0".repeat(81));
    s.calc_all_notes();
    for (r, c) in [(0, 2), (1, 0), (1, 1), (1, 2), (2, 0), (2, 1), (2, 2)] {
        s.remove_candidate(r, c, 1);
        s.remove_candidate(r, c, 2);
    }
    let step = s.find_hidden_pair();
    assert_eq!(step.strategy, Strategy::HiddenPair);
    assert_eq!(step.removals.candidates_about_to_be_removed.len(), 14);
    s.apply(&step);
    assert_eq!(s.get_notes(0, 0), vec![1, 2]);
    assert_eq!(s.get_notes(0, 1), vec![1, 2]);
}

#[test]
fn pointing_pair_clears_the_rest_of_the_box() {
    let mut s = load(&"0".repeat(81));
    s.calc_all_notes();
    for c in 2..9 {
        s.remove_candidate(0, c, 5);
    }
    let step = s.find_pointing_pair();
    assert_eq!(step.strategy, Strategy::PointingPair);
    assert_eq!(step.removals.candidates_about_to_be_removed.len(), 6);
    s.apply(&step);
    for r in 1..3 {
        for c in 0..3 {
            assert!(!s.get_notes(r, c).contains(&5));
        }
    }
    assert!(s.get_notes(0, 0).contains(&5));
}

#[test]
fn xwing_clears_the_two_columns() {
    let mut s = load(&"0".repeat(81));
    s.calc_all_notes();
    for r in [0, 4] {
        for c in 0..9 {
            if c != 1 && c != 7 {
                s.remove_candidate(r, c, 6);
            }
        }
    }
    let step = s.find_xwing();
    assert_eq!(step.strategy, Strategy::XWing);
    assert_eq!(step.removals.candidates_about_to_be_removed.len(), 14);
    s.apply(&step);
    for r in 0..9 {
        if r != 0 && r != 4 {
            assert!(!s.get_notes(r, 1).contains(&6));
            assert!(!s.get_notes(r, 7).contains(&6));
        }
    }
}

#[test]
fn collecting_candidates_of_a_row_column_and_box() {
    let mut s = load(&"0".repeat(81));
    s.calc_all_notes();
    let nums = vec![4, 7];
    assert_eq!(s.collect_candidates_in_row(&nums, 3).candidates_about_to_be_removed.len(), 18);
    assert_eq!(s.collect_candidates_in_col(&nums, 3).candidates_about_to_be_removed.len(), 18);
    assert_eq!(s.collect_candidates_in_box(&nums, 3, 3).candidates_about_to_be_removed.len(), 18);
    assert_eq!(s.collect_candidates(&nums, 3, 3).candidates_about_to_be_removed.len(), 42);
    let placed = s.collect_set_num(4, 3, 3);
    assert_eq!(placed.candidates_about_to_be_removed.len(), 29);
}

#[test]
fn restore_and_clear() {
    let mut s = load(SANITY);
    assert!(s.solve_like_a_human());
    s.restore();
    assert_eq!(s.serialized(), SANITY);
    assert!(s.get_notes(0, 2).is_empty());
    s.clear();
    assert_eq!(s.serialized(), "0".repeat(81));
    assert_eq!(s.original_board(), SANITY);
    assert!(s.rating().is_empty());
}

#[test]
fn prev_step_changes_nothing() {
    let mut s = load(SANITY);
    let r = s.prev_step();
    assert_eq!(r.nums_removed, 0);
    assert_eq!(r.strategy, Strategy::NoDeduction);
    assert_eq!(s.serialized(), SANITY);
}

#[test]
fn empty_results_do_not_fire() {
    let mut r = StrategyResult::new(Strategy::XWing);
    assert!(!r.removals.will_remove_candidates());
    r.clear();
    assert_eq!(r.strategy, Strategy::XWing);
    let e = StrategyResult::empty();
    assert_eq!(e.strategy, Strategy::NoDeduction);
    assert!(e.removals.sets_cell.is_none());
}

#[test]
fn digits_present_in_row_column_and_box() {
    let s = load(SANITY);
    assert_eq!(s.calc_nums_in_row(0), vec![1, 6, 8]);
    assert_eq!(s.calc_nums_in_col(0), vec![3, 6, 8]);
    assert_eq!(s.calc_nums_in_box(0), vec![6, 8, 9]);
    assert_eq!(s.calc_nums_in_box(8), vec![2, 4]);
}

#[test]
fn the_first_single_in_row_major_order_is_taken() {
    let mut s = load(&"0".repeat(81));
    s.calc_all_notes();
    for d in 1..=9 {
        if d != 4 {
            s.remove_candidate(5, 5, d);
        }
        if d != 7 {
            s.remove_candidate(2, 6, d);
        }
    }
    let step = s.find_obvious_single();
    let cell = step.removals.sets_cell.unwrap();
    assert_eq!((cell.row, cell.col, cell.num), (2, 6, 7));
}
