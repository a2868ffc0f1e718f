use rate_my_sudoku::strategy::Strategy;
use rate_my_sudoku::sudoku::Sudoku;

fn load(text: &str) -> Sudoku {
    let mut sudoku = Sudoku::new();
    sudoku.from_string(text).unwrap();
    sudoku
}

#[test]
fn test_sudoku_solver() {
    let board_string =
        "860001000009250006000000008010020760040000000608000053080075024050002000300000000"
            .to_string();
    let mut sudoku = Sudoku::new();
    sudoku.from_string(&board_string).unwrap();
    sudoku.solve_by_backtracking();

    assert_eq!(
        sudoku.serialized(),
        "865431297479258316231697548513824769947563182628719453186375924754982631392146875"
    );
}

#[test]
fn test_from_string() {
    let sudoku =
        load("123456789000000000000000000000000000000000000000000000000000000000000000000000000");
    for i in 0..9 {
        assert_eq!(sudoku.get_num(0, i), (i + 1) as u8);
    }
}

#[test]
fn test_serialized() {
    let board_string =
        "123456789000000000000000000000000000000000000000000000000000000000000000000000000"
            .to_string();
    let sudoku = load(&board_string);
    assert_eq!(sudoku.serialized(), board_string);
}

#[test]
fn test_unsolved() {
    let sudoku =
        load("000000000000000000000000000000000000000000000000000000000000000000000000000000000");
    assert!(sudoku.unsolved());

    let sudoku =
        load("123456789123456789123456789123456789123456789123456789123456789123456789123456789");
    assert!(!sudoku.unsolved());
}

#[test]
fn test_can_place() {
    let sudoku =
        load("123456789000000000000000000000000000000000000000000000000000000000000000000000000");
    for j in 0..9 {
        for i in 0..9 {
            assert!(!sudoku.can_place(j, i, i as u8 + 1));
        }
    }
}

#[test]
fn test_calc_all_notes() {
    let mut sudoku =
        load("120000000000000000000000000000000000000000000000000000000000000000000000000000000");
    sudoku.calc_all_notes();

    assert_eq!(sudoku.get_notes(0, 0).len(), 0);
    assert_eq!(sudoku.get_notes(0, 1).len(), 0);
    assert!(!sudoku.get_notes(0, 2).contains(&1));
    assert!(!sudoku.get_notes(0, 2).contains(&2));
    assert!(!sudoku.get_notes(1, 0).contains(&1));
    assert!(!sudoku.get_notes(1, 1).contains(&2));
    assert!(!sudoku.get_notes(1, 1).contains(&1));
}

#[test]
fn test_resolve_obvious_single() {
    let mut sudoku =
        load("120000000000000000000000000000000000000000000000000000000000000000000000000000000");
    sudoku.calc_all_notes();

    for num in 1..=9 {
        if num != 3 {
            sudoku.remove_candidate(0, 2, num);
        }
    }

    let result = sudoku.find_obvious_single();
    sudoku.apply(&result);
    assert_eq!(result.removals.candidates_about_to_be_removed.len(), 19);
    assert_eq!(sudoku.get_num(0, 2), 3);
}

#[test]
fn test_resolve_last_digit() {
    let mut sudoku =
        load("123456780000000000000000000000000000000000000000000000000000000000000000000000000");
    sudoku.calc_all_notes();

    let result = sudoku.find_last_digit();
    sudoku.apply(&result);
    assert_eq!(result.removals.candidates_about_to_be_removed.len(), 13);
    assert_eq!(sudoku.get_num(0, 8), 9);
}

#[test]
fn test_strategy_enum() {
    assert_eq!(Strategy::LastDigit.to_string(), "Last Digit");
    assert_eq!(Strategy::ObviousSingle.to_string(), "Obvious Single");
    assert_eq!(Strategy::HiddenSingle.to_string(), "Hidden Single");

    assert_eq!(Strategy::LastDigit.difficulty(), 4);
    assert_eq!(Strategy::ObviousSingle.difficulty(), 5);
    assert_eq!(Strategy::XWing.difficulty(), 140);
}

#[test]
fn test_simple_sudoku_solution() {
    let board_string =
        "123456789456789123789123456234567891567891234891234567345678912678912345912345678";
    let mut chars: Vec<char> = board_string.chars().collect();
    chars[0] = '0';
    let board_string: String = chars.into_iter().collect();

    let mut sudoku = load(&board_string);
    sudoku.solve_puzzle();
    assert_eq!(sudoku.get_num(0, 0), 1);
    assert!(!sudoku.unsolved());
}

#[test]
fn test_resolve_hidden_single() {
    let mut sudoku =
        load("000000000000000000000000000000000000000000000000000000000000000000000000000000000");
    sudoku.calc_all_notes();

    for i in 1..9 {
        sudoku.remove_candidate(0, i, 1);
    }

    let result = sudoku.find_hidden_single();
    sudoku.apply(&result);
    assert!(result.removals.candidates_about_to_be_removed.len() > 0);
    assert_eq!(sudoku.get_num(0, 0), 1);
}
