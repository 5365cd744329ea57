//! Backtracking solver that always branches on the most constrained empty cell.

use vstd::prelude::*;
use crate::board::{Board, CellValue};
use crate::rules::{
    can_fill, can_place, cell, consistent, coord, extends, has_solution, is_complete, is_filling,
    is_consistent, is_solution, is_valid_placement, lemma_can_fill_iff_has_solution,
    lemma_filling_is_solution, lemma_solvable_is_consistent, same_unit,
};

verus! {

/// The digits among 1..=`n` that can be placed at (`row`, `col`), in increasing order.
pub open spec fn candidates_upto(cells: Seq<u8>, row: int, col: int, n: int) -> Seq<u8>
    decreases n,
{
    if n <= 0 {
        Seq::empty()
    } else {
        let prev = candidates_upto(cells, row, col, n - 1);
        if can_place(cells, row, col, n as u8) {
            prev.push(n as u8)
        } else {
            prev
        }
    }
}

/// The digits 1-9 that can be placed at (`row`, `col`), in increasing order.
pub open spec fn candidate_values(cells: Seq<u8>, row: int, col: int) -> Seq<u8> {
    candidates_upto(cells, row, col, 9)
}

/// How many digits can be placed at the cell with flat index `i`.
pub open spec fn candidate_count(cells: Seq<u8>, i: int) -> nat {
    candidate_values(cells, i / 9, i % 9).len()
}

/// `p` is the first empty cell with the fewest candidates.
pub open spec fn is_best_empty(cells: Seq<u8>, p: int) -> bool {
    &&& 0 <= p < 81
    &&& cells[p] == 0
    &&& forall|j: int|
        0 <= j < 81 && #[trigger] cells[j] == 0 ==> {
            &&& candidate_count(cells, p) <= candidate_count(cells, j)
            &&& j < p ==> candidate_count(cells, p) < candidate_count(cells, j)
        }
}

/// The number of empty cells among the first `n`.
pub open spec fn num_empty(cells: Seq<u8>, n: int) -> nat
    decreases n,
{
    if n <= 0 {
        0
    } else {
        num_empty(cells, n - 1) + if cells[n - 1] == 0 { 1nat } else { 0nat }
    }
}

pub(crate) proof fn lemma_num_empty_fill(cells: Seq<u8>, pos: int, v: u8, n: int)
    requires
        0 <= pos < n <= cells.len(),
        cells[pos] == 0,
        v != 0,
    ensures
        num_empty(cells.update(pos, v), n) + 1 == num_empty(cells, n),
    decreases n,
{
    if n - 1 > pos {
        lemma_num_empty_fill(cells, pos, v, n - 1);
    } else {
        lemma_num_empty_same(cells, cells.update(pos, v), n - 1);
    }
}

proof fn lemma_num_empty_same(a: Seq<u8>, b: Seq<u8>, n: int)
    requires
        0 <= n <= a.len(),
        n <= b.len(),
        forall|i: int| 0 <= i < n ==> a[i] == b[i],
    ensures
        num_empty(a, n) == num_empty(b, n),
    decreases n,
{
    if n > 0 {
        lemma_num_empty_same(a, b, n - 1);
    }
}

proof fn lemma_candidates_len(cells: Seq<u8>, row: int, col: int, n: int)
    requires
        n >= 0,
    ensures
        candidates_upto(cells, row, col, n).len() <= n,
    decreases n,
{
    if n > 0 {
        lemma_candidates_len(cells, row, col, n - 1);
    }
}

/// Writing a value that the placement check allows keeps a consistent grid
/// consistent.
pub proof fn lemma_place_keeps_consistent(cells: Seq<u8>, row: int, col: int, val: u8)
    requires
        cells.len() >= 81,
        coord(row),
        coord(col),
        consistent(cells),
        can_place(cells, row, col, val),
    ensures
        consistent(cells.update(row * 9 + col, val)),
{
    let next = cells.update(row * 9 + col, val);
    assert forall|r1: int, c1: int, r2: int, c2: int|
        coord(r1) && coord(c1) && coord(r2) && coord(c2) && (r1 != r2 || c1 != c2)
            && same_unit(r1, c1, r2, c2) && cell(next, r1, c1) != 0
        implies #[trigger] cell(next, r1, c1) != #[trigger] cell(next, r2, c2) by {
        if r1 == row && c1 == col {
            assert(cell(cells, r2, c2) != val);
        } else if r2 == row && c2 == col {
            assert(same_unit(row, col, r1, c1));
            assert(cell(cells, r1, c1) != val);
        } else {
            assert(cell(cells, r1, c1) != cell(cells, r2, c2));
        }
    }
}

/// A filling of a puzzle passes through a branch of the search: its value at an
/// empty cell can be placed there, and it fills the puzzle with that value written.
pub(crate) proof fn lemma_filling_branch(puzzle: Seq<u8>, filled: Seq<u8>, row: int, col: int)
    requires
        puzzle.len() >= 81,
        coord(row),
        coord(col),
        puzzle[row * 9 + col] == 0,
        is_filling(puzzle, filled),
    ensures
        1 <= filled[row * 9 + col] <= 9,
        can_place(puzzle, row, col, filled[row * 9 + col]),
        is_filling(puzzle.update(row * 9 + col, filled[row * 9 + col]), filled),
{
    let pos = row * 9 + col;
    let val = filled[pos];
    assert(filled[pos] != 0);
    assert forall|r: int, c: int|
        coord(r) && coord(c) && same_unit(row, col, r, c) implies #[trigger] cell(puzzle, r, c) != val by {
        if r == row && c == col {
        } else if cell(puzzle, r, c) == val {
            assert(filled[r * 9 + c] == puzzle[r * 9 + c]);
            assert(cell(filled, row, col) != cell(filled, r, c));
        }
    }
    let next = puzzle.update(pos, val);
    assert forall|i: int| 0 <= i < next.len() implies {
        &&& next[i] != 0 ==> #[trigger] filled[i] == next[i]
        &&& next[i] == 0 ==> (filled[i] == 0 || (i < 81 && 1 <= filled[i] <= 9))
    } by {
        if i != pos {
            assert(puzzle[i] == next[i]);
        }
    }
    assert forall|r1: int, c1: int, r2: int, c2: int|
        coord(r1) && coord(c1) && coord(r2) && coord(c2) && (r1 != r2 || c1 != c2)
            && same_unit(r1, c1, r2, c2) && cell(next, r1, c1) == 0
        implies #[trigger] cell(filled, r1, c1) != #[trigger] cell(filled, r2, c2) by {
        assert(r1 * 9 + c1 != pos);
        assert(cell(puzzle, r1, c1) == 0);
    }
}

/// A filling found after a placement allowed by `can_place` also fills the
/// puzzle before the placement.
pub(crate) proof fn lemma_filling_lift(puzzle: Seq<u8>, row: int, col: int, val: u8, filled: Seq<u8>)
    requires
        puzzle.len() >= 81,
        coord(row),
        coord(col),
        puzzle[row * 9 + col] == 0,
        1 <= val <= 9,
        can_place(puzzle, row, col, val),
        is_filling(puzzle.update(row * 9 + col, val), filled),
    ensures
        is_filling(puzzle, filled),
{
    let pos = row * 9 + col;
    let placed = puzzle.update(pos, val);
    assert forall|i: int| 0 <= i < puzzle.len() implies {
        &&& puzzle[i] != 0 ==> #[trigger] filled[i] == puzzle[i]
        &&& puzzle[i] == 0 ==> (filled[i] == 0 || (i < 81 && 1 <= filled[i] <= 9))
    } by {
        if i != pos {
            assert(placed[i] == puzzle[i]);
        } else {
            assert(placed[i] == val);
        }
    }
    assert forall|r1: int, c1: int, r2: int, c2: int|
        coord(r1) && coord(c1) && coord(r2) && coord(c2) && (r1 != r2 || c1 != c2)
            && same_unit(r1, c1, r2, c2) && cell(puzzle, r1, c1) == 0
        implies #[trigger] cell(filled, r1, c1) != #[trigger] cell(filled, r2, c2) by {
        if r1 == row && c1 == col {
            assert(cell(filled, r1, c1) == val);
            if cell(placed, r2, c2) == 0 {
                assert(same_unit(r2, c2, r1, c1));
                assert(cell(filled, r2, c2) != cell(filled, r1, c1));
            } else {
                assert(r2 * 9 + c2 != pos);
                assert(cell(filled, r2, c2) == cell(puzzle, r2, c2));
                assert(cell(puzzle, r2, c2) != val);
            }
        } else {
            assert(r1 * 9 + c1 != pos);
            assert(cell(placed, r1, c1) == 0);
        }
    }
}

/// The digits 1-9 that can be placed at (`row`, `col`), in increasing order.
fn candidates(board: &Board, row: usize, col: usize) -> (cands: Vec<CellValue>)
    requires
        board.cells.len() >= 81,
        row < 9,
        col < 9,
    ensures
        cands@ == candidate_values(board.cells@, row as int, col as int),
        cands.len() <= 9,
{
    let mut out: Vec<CellValue> = Vec::new();
    let mut v: u8 = 1;
    while v <= 9
        invariant
            board.cells.len() >= 81,
            row < 9,
            col < 9,
            1 <= v <= 10,
            out@ == candidates_upto(board.cells@, row as int, col as int, v - 1),
        decreases 10 - v,
    {
        if is_valid_placement(board, row, col, v) {
            out.push(v);
        }
        v += 1;
    }
    proof {
        lemma_candidates_len(board.cells@, row as int, col as int, 9);
    }
    out
}

/// The first empty cell with the fewest candidates, or `None` on a full grid.
fn best_empty_cell(board: &Board) -> (best: Option<usize>)
    requires
        board.cells.len() >= 81,
    ensures
        best is None <==> is_complete(board.cells@),
        best matches Some(p) ==> is_best_empty(board.cells@, p as int),
{
    let ghost cells = board.cells@;
    let mut best_pos: Option<usize> = None;
    let mut best_count: usize = 10;
    for i in 0..81
        invariant
            board.cells@ == cells,
            cells.len() >= 81,
            best_pos is None <==> (forall|j: int| 0 <= j < i ==> #[trigger] cells[j] != 0),
            best_pos is None ==> best_count == 10,
            best_pos matches Some(p) ==> {
                &&& p < i
                &&& cells[p as int] == 0
                &&& best_count == candidate_count(cells, p as int)
                &&& forall|j: int|
                    0 <= j < i && #[trigger] cells[j] == 0 ==> {
                        &&& candidate_count(cells, p as int) <= candidate_count(cells, j)
                        &&& j < p ==> candidate_count(cells, p as int) < candidate_count(cells, j)
                    }
            },
            forall|j: int| 0 <= j < i && #[trigger] cells[j] == 0 ==> candidate_count(cells, j) > 0,
    {
        if board.cells[i] == 0 {
            let count = candidates(board, i / 9, i % 9).len();
            if count == 0 {
                return Some(i);
            }
            if count < best_count {
                best_count = count;
                best_pos = Some(i);
            }
        }
    }
    best_pos
}

/// Solve the puzzle in-place. Returns `true` if a solution was found: it
/// succeeds exactly when the puzzle has a solution, and then leaves one on the
/// board. On failure the board is unchanged.
pub fn solve(board: &mut Board) -> (solved: bool)
    requires
        old(board).cells.len() >= 81,
    ensures
        final(board).givens@ == old(board).givens@,
        solved <==> has_solution(old(board).cells@),
        solved ==> is_solution(old(board).cells@, final(board).cells@),
        !solved ==> final(board).cells@ == old(board).cells@,
{
    if !is_consistent(board) {
        proof {
            if has_solution(board.cells@) {
                lemma_solvable_is_consistent(board.cells@);
            }
        }
        return false;
    }
    proof {
        lemma_can_fill_iff_has_solution(board.cells@);
    }
    let solved = solve_internal(board);
    proof {
        if solved {
            lemma_filling_is_solution(old(board).cells@, board.cells@);
        }
    }
    solved
}

/// The search behind `solve`: it succeeds exactly when the board can be
/// completed by placements the rules allow, and then leaves such a completion;
/// on failure the board is unchanged.
fn solve_internal(board: &mut Board) -> (solved: bool)
    requires
        old(board).cells.len() >= 81,
    ensures
        final(board).givens@ == old(board).givens@,
        solved <==> can_fill(old(board).cells@),
        solved ==> is_filling(old(board).cells@, final(board).cells@),
        !solved ==> final(board).cells@ == old(board).cells@,
        consistent(old(board).cells@) ==> (solved <==> has_solution(old(board).cells@)),
        solved && consistent(old(board).cells@) ==> is_solution(old(board).cells@, final(board).cells@),
    decreases num_empty(old(board).cells@, 81),
{
    let ghost start = board.cells@;
    let pos = match best_empty_cell(board) {
        Some(p) => p,
        None => {
            proof {
                assert(extends(start, start));
                assert(is_filling(start, start));
                if consistent(start) {
                    lemma_can_fill_iff_has_solution(start);
                    lemma_filling_is_solution(start, start);
                }
            }
            return true;
        },
    };
    let row = pos / 9;
    let col = pos % 9;
    assert(pos == row * 9 + col);
    let mut val: u8 = 1;
    while val <= 9
        invariant
            board.cells@ == start,
            start == old(board).cells@,
            board.givens@ == old(board).givens@,
            start.len() >= 81,
            pos < 81,
            pos == row * 9 + col,
            row < 9,
            col < 9,
            start[pos as int] == 0,
            1 <= val <= 10,
            forall|f: Seq<u8>| #[trigger] is_filling(start, f) ==> f[pos as int] >= val,
        decreases 10 - val,
    {
        if is_valid_placement(board, row, col, val) {
            board.cells.set(pos, val);
            proof {
                lemma_num_empty_fill(start, pos as int, val, 81);
            }
            if solve_internal(board) {
                proof {
                    let fin = board.cells@;
                    lemma_filling_lift(start, row as int, col as int, val, fin);
                    if consistent(start) {
                        lemma_can_fill_iff_has_solution(start);
                        lemma_filling_is_solution(start, fin);
                    }
                }
                return true;
            }
            board.cells.set(pos, 0);
            assert(board.cells@ =~= start);
        }
        assert forall|f: Seq<u8>| #[trigger] is_filling(start, f) implies f[pos as int] != val by {
            if f[pos as int] == val {
                lemma_filling_branch(start, f, row as int, col as int);
            }
        }
        val += 1;
    }
    assert forall|f: Seq<u8>| #[trigger] is_filling(start, f) implies false by {
        lemma_filling_branch(start, f, row as int, col as int);
    }
    proof {
        if consistent(start) {
            lemma_can_fill_iff_has_solution(start);
        }
    }
    false
}

} // verus!
