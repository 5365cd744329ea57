use sudoku_core::{generate, generate_seeded, is_valid_placement, solve, validate};
use sudoku_core::{Board, Difficulty};

fn solved_board() -> Board {
    let cells: Vec<u8> = vec![
        5,3,4, 6,7,8, 9,1,2,
        6,7,2, 1,9,5, 3,4,8,
        1,9,8, 3,4,2, 5,6,7,
        8,5,9, 7,6,1, 4,2,3,
        4,2,6, 8,5,3, 7,9,1,
        7,1,3, 9,2,4, 8,5,6,
        9,6,1, 5,3,7, 2,8,4,
        2,8,7, 4,1,9, 6,3,5,
        3,4,5, 2,8,6, 1,7,9,
    ];
    Board { cells, givens: vec![true; 81] }
}

#[test]
fn test_validate_solved_board() {
    let board = solved_board();
    let result = validate(&board);
    assert!(result.is_complete);
    assert!(!result.has_errors);
    assert!(result.error_cells.is_empty());
}

#[test]
fn test_validate_detects_row_duplicate() {
    let mut board = solved_board();
    board.cells[1] = 5;
    let result = validate(&board);
    assert!(result.has_errors);
    assert!(result.error_cells.contains(&0));
    assert!(result.error_cells.contains(&1));
}

#[test]
fn test_validate_detects_col_duplicate() {
    let mut board = solved_board();
    board.cells[9] = 5;
    let result = validate(&board);
    assert!(result.has_errors);
}

#[test]
fn test_validate_incomplete_board() {
    let mut board = solved_board();
    board.cells[0] = 0;
    let result = validate(&board);
    assert!(!result.is_complete);
    assert!(!result.has_errors);
}

#[test]
fn test_solver_solves_easy_puzzle() {
    let mut puzzle = generate_seeded(Difficulty::Easy, 42);
    let empty_before = puzzle.cells.iter().filter(|&&v| v == 0).count();
    assert!(empty_before > 0);
    let solved = solve(&mut puzzle);
    assert!(solved);
    let result = validate(&puzzle);
    assert!(result.is_complete);
    assert!(!result.has_errors);
}

#[test]
fn test_solver_solves_hard_puzzle() {
    let mut puzzle = generate_seeded(Difficulty::Hard, 99);
    let solved = solve(&mut puzzle);
    assert!(solved);
    let result = validate(&puzzle);
    assert!(result.is_complete);
    assert!(!result.has_errors);
}

#[test]
fn test_generate_easy_has_correct_givens() {
    let board = generate_seeded(Difficulty::Easy, 1);
    let given_count = board.givens.iter().filter(|&&g| g).count();
    assert_eq!(given_count, 81 - Difficulty::Easy.cells_to_remove());
}

#[test]
fn test_generate_hard_has_fewer_givens_than_easy() {
    let easy = generate_seeded(Difficulty::Easy, 7);
    let hard = generate_seeded(Difficulty::Hard, 7);
    let easy_givens = easy.givens.iter().filter(|&&g| g).count();
    let hard_givens = hard.givens.iter().filter(|&&g| g).count();
    assert!(hard_givens <= easy_givens);
}

#[test]
fn test_is_valid_placement() {
    let board = Board::new();
    assert!(is_valid_placement(&board, 0, 0, 5));
    let mut b2 = Board::new();
    b2.set(0, 3, 5);
    assert!(!is_valid_placement(&b2, 0, 0, 5));
    assert!(!is_valid_placement(&b2, 4, 3, 5));
    assert!(!is_valid_placement(&b2, 2, 4, 5));
}

#[test]
fn test_difficulty_from_str() {
    assert_eq!("easy".parse::<Difficulty>().unwrap(), Difficulty::Easy);
    assert_eq!("MEDIUM".parse::<Difficulty>().unwrap(), Difficulty::Medium);
    assert_eq!("hard".parse::<Difficulty>().unwrap(), Difficulty::Hard);
    assert!("extreme".parse::<Difficulty>().is_err());
}
