use sudoku_core::api::{new_puzzle, puzzle_difficulty, solution_of};
use sudoku_core::clock::format_time;
use sudoku_core::game::{
    cell_style, puzzle_reply, solve_reply, validation_reply, Action, AppState, Message, Reply,
};
use sudoku_core::generator::remove_cells_in_order;
use sudoku_core::rules::is_consistent;
use sudoku_core::ValidationResult;
use sudoku_core::{generate, generate_seeded, is_valid_placement, solve, validate};
use sudoku_core::{Board, Difficulty};

fn grid(rows: [[u8; 9]; 9]) -> Board {
    let mut cells = Vec::new();
    for r in rows.iter() {
        cells.extend_from_slice(r);
    }
    Board { cells, givens: vec![false; 81] }
}

fn solved_grid() -> Board {
    grid([
        [5, 3, 4, 6, 7, 8, 9, 1, 2],
        [6, 7, 2, 1, 9, 5, 3, 4, 8],
        [1, 9, 8, 3, 4, 2, 5, 6, 7],
        [8, 5, 9, 7, 6, 1, 4, 2, 3],
        [4, 2, 6, 8, 5, 3, 7, 9, 1],
        [7, 1, 3, 9, 2, 4, 8, 5, 6],
        [9, 6, 1, 5, 3, 7, 2, 8, 4],
        [2, 8, 7, 4, 1, 9, 6, 3, 5],
        [3, 4, 5, 2, 8, 6, 1, 7, 9],
    ])
}

fn count_empty(b: &Board) -> usize {
    b.cells.iter().take(81).filter(|&&v| v == 0).count()
}

fn is_valid_solution_of(puzzle: &Board, sol: &Board) -> bool {
    let r = validate(sol);
    r.is_complete
        && puzzle
            .cells
            .iter()
            .zip(sol.cells.iter())
            .all(|(&p, &s)| p == 0 || p == s)
}

// ─── Board ───────────────────────────────────────────────────────────────────

#[test]
fn board_new_is_empty() {
    let b = Board::new();
    assert_eq!(b.cells, vec![0u8; 81]);
    assert_eq!(b.givens, vec![false; 81]);
    assert_eq!(b, Board::default());
}

#[test]
fn board_get_set_is_given() {
    let mut b = Board::new();
    b.set(8, 8, 7);
    assert_eq!(b.get(8, 8), 7);
    assert_eq!(b.cells[80], 7);
    assert_eq!(b.get(0, 0), 0);
    b.givens[10] = true;
    assert!(b.is_given(1, 1));
    assert!(!b.is_given(1, 2));
}

// ─── Difficulty ──────────────────────────────────────────────────────────────

#[test]
fn cells_to_remove_values() {
    assert_eq!(Difficulty::Easy.cells_to_remove(), 36);
    assert_eq!(Difficulty::Medium.cells_to_remove(), 46);
    assert_eq!(Difficulty::Hard.cells_to_remove(), 52);
}

#[test]
fn from_name_is_case_insensitive() {
    assert_eq!(Difficulty::from_name("HaRd"), Ok(Difficulty::Hard));
    assert_eq!(Difficulty::from_name("Easy"), Ok(Difficulty::Easy));
}

#[test]
fn from_name_error_quotes_lowercased_name() {
    assert_eq!(
        Difficulty::from_name("ExTrEmE"),
        Err("unknown difficulty: extreme".to_string())
    );
    assert_eq!(Difficulty::from_name(""), Err("unknown difficulty: ".to_string()));
}

#[test]
fn harder_difficulties_leave_fewer_givens() {
    let easy = 81 - Difficulty::Easy.cells_to_remove();
    let medium = 81 - Difficulty::Medium.cells_to_remove();
    let hard = 81 - Difficulty::Hard.cells_to_remove();
    assert!(hard <= medium && medium <= easy);
}

// ─── Placement ───────────────────────────────────────────────────────────────

#[test]
fn placement_checks_row_column_and_box() {
    let mut b = Board::new();
    b.set(4, 4, 9);
    assert!(!is_valid_placement(&b, 4, 0, 9));
    assert!(!is_valid_placement(&b, 0, 4, 9));
    assert!(!is_valid_placement(&b, 3, 5, 9));
    assert!(is_valid_placement(&b, 3, 6, 9));
    assert!(is_valid_placement(&b, 4, 4, 8));
    // the cell itself counts
    assert!(!is_valid_placement(&b, 4, 4, 9));
}

// ─── Validator ───────────────────────────────────────────────────────────────

#[test]
fn validate_empty_board() {
    let r = validate(&Board::new());
    assert!(!r.is_complete);
    assert!(!r.has_errors);
    assert!(r.error_cells.is_empty());
}

#[test]
fn validate_lists_all_conflicts_sorted() {
    let mut b = Board::new();
    b.cells[0] = 4; // (0,0)
    b.cells[10] = 4; // (1,1): same box as (0,0)
    b.cells[72] = 4; // (8,0): same column as (0,0)
    b.cells[40] = 3; // (4,4): alone
    let r = validate(&b);
    assert!(r.has_errors);
    assert!(!r.is_complete);
    assert_eq!(r.error_cells, vec![0, 10, 72]);
}

#[test]
fn validate_three_in_a_row_marks_each_once() {
    let mut b = Board::new();
    b.cells[3] = 6;
    b.cells[5] = 6;
    b.cells[8] = 6;
    let r = validate(&b);
    assert_eq!(r.error_cells, vec![3, 5, 8]);
}

#[test]
fn validate_complete_needs_every_cell() {
    let mut b = solved_grid();
    b.cells.push(0);
    let r = validate(&b);
    assert!(!r.has_errors);
    assert!(!r.is_complete);
}

// ─── Solver ──────────────────────────────────────────────────────────────────

#[test]
fn solve_completes_a_puzzle_with_one_hole() {
    let full = solved_grid();
    let mut b = full.clone();
    b.cells[40] = 0;
    assert!(solve(&mut b));
    assert_eq!(b.cells, full.cells);
}

#[test]
fn solve_empty_board() {
    let mut b = Board::new();
    assert!(solve(&mut b));
    assert!(is_valid_solution_of(&Board::new(), &b));
}

#[test]
fn solve_fails_and_leaves_board_unchanged() {
    // (0,8) cannot hold anything: its row holds 1-8 and its column holds 9.
    let mut b = Board::new();
    for c in 0..8 {
        b.cells[c] = (c + 1) as u8;
    }
    b.cells[9 * 8 + 8] = 9;
    b.givens[0] = true;
    let before = b.clone();
    assert!(!solve(&mut b));
    assert_eq!(b, before);
}

#[test]
fn solve_keeps_givens_mask() {
    let mut b = solved_grid();
    b.cells[0] = 0;
    b.givens[1] = true;
    let mask = b.givens.clone();
    assert!(solve(&mut b));
    assert_eq!(b.givens, mask);
    assert_eq!(b.cells[0], 5);
}

// ─── Generator ───────────────────────────────────────────────────────────────

#[test]
fn generated_puzzle_shape() {
    for (d, seed) in [(Difficulty::Easy, 3u64), (Difficulty::Medium, 4), (Difficulty::Hard, 5)] {
        let p = generate_seeded(d, seed);
        assert_eq!(p.cells.len(), 81);
        assert_eq!(p.givens.len(), 81);
        assert_eq!(count_empty(&p), d.cells_to_remove());
        for i in 0..81 {
            assert_eq!(p.givens[i], p.cells[i] != 0);
            assert!(p.cells[i] <= 9);
        }
        let r = validate(&p);
        assert!(!r.has_errors);
        let mut s = p.clone();
        assert!(solve(&mut s));
        assert!(is_valid_solution_of(&p, &s));
    }
}

#[test]
fn generate_random_puzzle() {
    let p = generate(Difficulty::Medium);
    assert_eq!(count_empty(&p), 46);
    assert!(!validate(&p).has_errors);
}

#[test]
fn same_seed_same_puzzle() {
    assert_eq!(
        generate_seeded(Difficulty::Hard, 11),
        generate_seeded(Difficulty::Hard, 11)
    );
}

// ─── Service ─────────────────────────────────────────────────────────────────

#[test]
fn puzzle_difficulty_defaults_to_medium() {
    assert_eq!(puzzle_difficulty(None), Difficulty::Medium);
    assert_eq!(puzzle_difficulty(Some("HARD")), Difficulty::Hard);
    assert_eq!(puzzle_difficulty(Some("easy")), Difficulty::Easy);
    assert_eq!(puzzle_difficulty(Some("bogus")), Difficulty::Medium);
}

#[test]
fn new_puzzle_uses_requested_difficulty() {
    let (board, d) = new_puzzle(Some("easy"));
    assert_eq!(d, Difficulty::Easy);
    assert_eq!(count_empty(&board), 36);
}

#[test]
fn solution_of_some_and_none() {
    let mut p = solved_grid();
    p.cells[0] = 0;
    p.cells[80] = 0;
    let s = solution_of(p.clone()).unwrap();
    assert_eq!(s.cells, solved_grid().cells);
    let mut bad = Board::new();
    for c in 0..8 {
        bad.cells[c] = (c + 1) as u8;
    }
    bad.cells[80] = 9;
    assert_eq!(solution_of(bad), None);
}

// ─── Clock ───────────────────────────────────────────────────────────────────

#[test]
fn clock_text() {
    assert_eq!(format_time(0), "00:00");
    assert_eq!(format_time(7), "00:07");
    assert_eq!(format_time(59), "00:59");
    assert_eq!(format_time(61), "01:01");
    assert_eq!(format_time(725), "12:05");
    assert_eq!(format_time(6000), "100:00");
    assert_eq!(format_time(u32::MAX), "71582788:15");
}

// ─── Game state ──────────────────────────────────────────────────────────────

fn puzzle() -> Board {
    let mut b = solved_grid();
    for i in [1usize, 2, 40, 80] {
        b.cells[i] = 0;
    }
    for i in 0..81 {
        b.givens[i] = b.cells[i] != 0;
    }
    b
}

#[test]
fn new_game_resets_everything() {
    let mut s = AppState::default();
    s.elapsed_secs = 30;
    s.game_won = true;
    s.loading = true;
    s.error_cells = vec![3];
    let s = s.reduce(Action::SetBoard(puzzle()));
    assert_eq!(s.board, Some(puzzle()));
    assert_eq!(s.original, Some(puzzle()));
    assert_eq!(s.selected, None);
    assert!(s.error_cells.is_empty());
    assert!(!s.loading && !s.game_won);
    assert_eq!(s.elapsed_secs, 0);
    assert_eq!(s.message, Message::Info("New game started!".to_string()));
}

#[test]
fn select_and_enter_digit() {
    let s = AppState::default().reduce(Action::SetBoard(puzzle()));
    // a given cannot be selected
    let s = s.reduce(Action::SelectCell(0));
    assert_eq!(s.selected, None);
    let s = s.reduce(Action::SelectCell(40));
    assert_eq!(s.selected, Some(40));
    let s = s.reduce(Action::EnterDigit(5));
    assert_eq!(s.board.as_ref().unwrap().cells[40], 5);
    assert_eq!(s.message, Message::Blank);
}

#[test]
fn digit_without_selection_does_nothing() {
    let s = AppState::default().reduce(Action::SetBoard(puzzle()));
    let t = s.clone().reduce(Action::EnterDigit(5));
    assert_eq!(t, s);
}

#[test]
fn reset_clears_entries_only() {
    let s = AppState::default().reduce(Action::SetBoard(puzzle()));
    let s = s.reduce(Action::SelectCell(1));
    let s = s.reduce(Action::EnterDigit(3));
    let s = s.reduce(Action::SelectCell(80));
    let s = s.reduce(Action::EnterDigit(9));
    let s = s.reduce(Action::Reset);
    assert_eq!(s.board, Some(puzzle()));
    assert_eq!(s.selected, None);
    assert_eq!(s.message, Message::Info("Board reset.".to_string()));
}

#[test]
fn clock_ticks_only_while_playing() {
    let s = AppState::default().reduce(Action::Tick);
    assert_eq!(s.elapsed_secs, 0);
    let s = s.reduce(Action::SetBoard(puzzle()));
    let s = s.reduce(Action::Tick).reduce(Action::Tick).reduce(Action::Tick);
    assert_eq!(s.elapsed_secs, 3);
    let s = s.reduce(Action::SetLoading(true)).reduce(Action::Tick);
    assert_eq!(s.elapsed_secs, 3);
    let s = s.reduce(Action::SetLoading(false)).reduce(Action::SetWon).reduce(Action::Tick);
    assert_eq!(s.elapsed_secs, 3);
    assert!(s.game_won);
    assert_eq!(
        s.message,
        Message::Success("Congratulations! Solved in 00:03!".to_string())
    );
}

#[test]
fn error_messages() {
    let s = AppState::default().reduce(Action::SetBoard(puzzle()));
    let s = s.reduce(Action::SetErrors(vec![2, 7]));
    assert_eq!(s.error_cells, vec![2, 7]);
    assert_eq!(s.message, Message::Error("There are errors on the board.".to_string()));
    let s = s.reduce(Action::SetErrors(vec![]));
    assert_eq!(s.message, Message::Info("Looking good so far!".to_string()));
    let s = s.reduce(Action::SetMessage(Message::Error("x".to_string())));
    assert_eq!(s.message, Message::Error("x".to_string()));
    let s = s.reduce(Action::SetDifficulty(Difficulty::Hard));
    assert_eq!(s.difficulty, Difficulty::Hard);
}

#[test]
fn solved_board_ends_the_game() {
    let s = AppState::default().reduce(Action::SetBoard(puzzle()));
    let s = s.reduce(Action::SetErrors(vec![1]));
    let s = s.reduce(Action::SetSolved(solved_grid()));
    assert_eq!(s.board, Some(solved_grid()));
    assert!(s.game_won);
    assert!(s.error_cells.is_empty());
    assert_eq!(s.message, Message::Info("Board solved for you.".to_string()));
    // a won game accepts no selection
    let s = s.reduce(Action::SelectCell(1));
    assert_eq!(s.selected, None);
}

#[test]
fn can_apply_detects_bad_indices() {
    let s = AppState::default().reduce(Action::SetBoard(puzzle()));
    assert!(s.can_apply(&Action::SelectCell(80)));
    assert!(!s.can_apply(&Action::SelectCell(81)));
    assert!(s.can_apply(&Action::Reset));
    let mut t = s.clone();
    t.elapsed_secs = u32::MAX;
    assert!(!t.can_apply(&Action::Tick));
    assert!(AppState::default().can_apply(&Action::SelectCell(500)));
}

#[test]
fn cell_style_flags() {
    let b = puzzle();
    let errors = vec![2usize];
    let given = cell_style(&b, Some(40), &errors, 0);
    assert!(given.given && !given.user_input && !given.empty && !given.selected);
    assert!(!given.highlighted && !given.error);
    let sel = cell_style(&b, Some(40), &errors, 40);
    assert!(sel.selected && !sel.highlighted && sel.empty);
    let same_row = cell_style(&b, Some(40), &errors, 36);
    assert!(same_row.highlighted);
    let same_box = cell_style(&b, Some(40), &errors, 30);
    assert!(same_box.highlighted);
    let other = cell_style(&b, Some(40), &errors, 2);
    assert!(!other.highlighted && other.error && other.empty);
    let mut entered = b.clone();
    entered.cells[1] = 3;
    assert!(cell_style(&entered, None, &errors, 1).user_input);
}

#[test]
fn different_seeds_give_different_puzzles() {
    let a = generate_seeded(Difficulty::Easy, 1);
    let b = generate_seeded(Difficulty::Easy, 2);
    assert_ne!(a.cells, b.cells);
}

#[test]
fn cleared_cells_are_spread_over_the_grid() {
    let p = generate_seeded(Difficulty::Easy, 42);
    let first_block_empty = p.cells[..36].iter().all(|&v| v == 0);
    assert!(!first_block_empty);
}

#[test]
fn valid_placement_keeps_board_error_free() {
    let mut p = generate_seeded(Difficulty::Medium, 8);
    let idx = (0..81).find(|&i| p.cells[i] == 0).unwrap();
    let (row, col) = (idx / 9, idx % 9);
    let val = (1u8..=9).find(|&v| is_valid_placement(&p, row, col, v)).unwrap();
    p.set(row, col, val);
    assert!(!validate(&p).has_errors);
}

// ─── Solver on boards without a solution ─────────────────────────────────────

#[test]
fn solve_rejects_full_board_with_repeat() {
    let mut b = solved_grid();
    b.cells[1] = 5; // repeats (0,0) in row 0
    let before = b.clone();
    assert!(!solve(&mut b));
    assert_eq!(b, before);
}

#[test]
fn solve_rejects_partial_board_with_repeat() {
    let mut b = Board::new();
    b.cells[0] = 7;
    b.cells[80] = 0;
    b.cells[8] = 7;
    let before = b.clone();
    assert!(!solve(&mut b));
    assert_eq!(b, before);
    assert_eq!(solution_of(before), None);
}

#[test]
fn consistency_check() {
    assert!(is_consistent(&Board::new()));
    assert!(is_consistent(&solved_grid()));
    let mut b = Board::new();
    b.cells[0] = 3;
    b.cells[20] = 3; // (2,2): same box as (0,0)
    assert!(!is_consistent(&b));
    b.cells[20] = 4;
    assert!(is_consistent(&b));
}

// ─── Difficulty names ────────────────────────────────────────────────────────

#[test]
fn from_lowercase_needs_lowercase() {
    assert_eq!(Difficulty::from_lowercase("medium"), Ok(Difficulty::Medium));
    assert_eq!(
        Difficulty::from_lowercase("EASY"),
        Err("unknown difficulty: EASY".to_string())
    );
}

// ─── Removal in a given order ────────────────────────────────────────────────

#[test]
fn remove_in_order_clears_the_first_cells() {
    let full = solved_grid();
    let mut b = full.clone();
    remove_cells_in_order(&mut b, 2, &vec![5, 3, 80]);
    for i in 0..81 {
        let expected = if i == 5 || i == 3 { 0 } else { full.cells[i] };
        assert_eq!(b.cells[i], expected);
    }
    let mut c = full.clone();
    remove_cells_in_order(&mut c, 10, &vec![5, 3, 80]);
    assert_eq!(count_empty(&c), 3);
}

#[test]
fn remove_in_order_repeated_cell_counts_twice() {
    let mut b = solved_grid();
    remove_cells_in_order(&mut b, 2, &vec![7, 7, 9]);
    assert_eq!(count_empty(&b), 1);
    assert_eq!(b.cells[7], 0);
}

#[test]
fn remove_in_order_keeps_cells_whose_removal_leaves_no_solution() {
    let mut b = solved_grid();
    b.cells[1] = 5; // conflicts with (0,0)
    let before = b.clone();
    remove_cells_in_order(&mut b, 1, &vec![40]);
    assert_eq!(b, before);
    remove_cells_in_order(&mut b, 1, &vec![1]);
    assert_eq!(b.cells[1], 0);
}

// ─── Server replies ──────────────────────────────────────────────────────────

#[test]
fn puzzle_replies() {
    let actions = puzzle_reply(Reply::Received(puzzle()));
    assert_eq!(actions.len(), 1);
    assert!(matches!(&actions[0], Action::SetBoard(b) if *b == puzzle()));
    let actions = puzzle_reply(Reply::Unreadable);
    assert!(matches!(&actions[0], Action::SetMessage(Message::Error(m)) if m == "Failed to parse puzzle."));
    assert!(matches!(&actions[1], Action::SetLoading(false)));
    let actions = puzzle_reply(Reply::Unreachable);
    assert!(matches!(&actions[0], Action::SetMessage(Message::Error(m)) if m == "Network error fetching puzzle."));
    assert!(matches!(&actions[1], Action::SetLoading(false)));
}

#[test]
fn validation_replies() {
    let done = ValidationResult { is_complete: true, has_errors: false, error_cells: vec![] };
    let actions = validation_reply(Reply::Received(done));
    assert!(actions.len() == 1 && matches!(actions[0], Action::SetWon));
    let bad = ValidationResult { is_complete: false, has_errors: true, error_cells: vec![4, 9] };
    let actions = validation_reply(Reply::Received(bad));
    assert!(matches!(&actions[0], Action::SetErrors(e) if *e == vec![4, 9]));
    assert!(validation_reply(Reply::Unreadable).is_empty());
    let actions = validation_reply(Reply::Unreachable);
    assert!(matches!(&actions[0], Action::SetMessage(Message::Error(m)) if m == "Validation request failed."));
}

#[test]
fn solve_replies() {
    let actions = solve_reply(Reply::Received(Some(solved_grid())));
    assert!(matches!(&actions[0], Action::SetSolved(b) if *b == solved_grid()));
    let actions = solve_reply(Reply::Received(None));
    assert!(matches!(&actions[0], Action::SetMessage(Message::Error(m)) if m == "No solution found."));
    assert!(solve_reply(Reply::Unreadable).is_empty());
    let actions = solve_reply(Reply::Unreachable);
    assert!(matches!(&actions[0], Action::SetMessage(Message::Error(m)) if m == "Solve request failed."));
}
