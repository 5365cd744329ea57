//! The rules of Sudoku over the flat cell sequence, and the placement check.

use vstd::prelude::*;
use crate::board::{Board, CellValue};

verus! {

/// The value at (`r`, `c`) of a row-major grid.
pub open spec fn cell(cells: Seq<u8>, r: int, c: int) -> u8 {
    cells[r * 9 + c]
}

/// `r` is a valid row (or column) coordinate.
pub open spec fn coord(r: int) -> bool {
    0 <= r < 9
}

/// Two coordinates share a row, a column or a 3×3 box.
pub open spec fn same_unit(r1: int, c1: int, r2: int, c2: int) -> bool {
    ||| r1 == r2
    ||| c1 == c2
    ||| (r1 / 3 == r2 / 3 && c1 / 3 == c2 / 3)
}

/// `val` occurs nowhere in the row, the column or the box of (`row`, `col`),
/// the cell itself included.
pub open spec fn can_place(cells: Seq<u8>, row: int, col: int, val: u8) -> bool {
    forall|r: int, c: int|
        coord(r) && coord(c) && same_unit(row, col, r, c) ==> #[trigger] cell(cells, r, c) != val
}

/// No two distinct cells of a row, column or box hold the same non-zero value.
pub open spec fn consistent(cells: Seq<u8>) -> bool {
    forall|r1: int, c1: int, r2: int, c2: int|
        coord(r1) && coord(c1) && coord(r2) && coord(c2) && (r1 != r2 || c1 != c2)
            && same_unit(r1, c1, r2, c2) && cell(cells, r1, c1) != 0
            ==> #[trigger] cell(cells, r1, c1) != #[trigger] cell(cells, r2, c2)
}

/// Every one of the 81 cells holds a value.
pub open spec fn is_complete(cells: Seq<u8>) -> bool {
    forall|i: int| 0 <= i < 81 ==> #[trigger] cells[i] != 0
}

/// `filled` keeps every value of `puzzle` and writes only digits 1-9, and
/// only into empty cells of the grid.
pub open spec fn extends(puzzle: Seq<u8>, filled: Seq<u8>) -> bool {
    &&& filled.len() == puzzle.len()
    &&& forall|i: int|
        0 <= i < puzzle.len() ==> {
            &&& puzzle[i] != 0 ==> #[trigger] filled[i] == puzzle[i]
            &&& puzzle[i] == 0 ==> (filled[i] == 0 || (i < 81 && 1 <= filled[i] <= 9))
        }
}

/// `sol` is a solution of `puzzle`: a complete, consistent grid that keeps
/// every value of `puzzle`.
pub open spec fn is_solution(puzzle: Seq<u8>, sol: Seq<u8>) -> bool {
    &&& extends(puzzle, sol)
    &&& is_complete(sol)
    &&& consistent(sol)
}

/// Some solution of `puzzle` exists.
pub open spec fn has_solution(puzzle: Seq<u8>) -> bool {
    exists|sol: Seq<u8>| #[trigger] is_solution(puzzle, sol)
}

/// Each cell that `puzzle` leaves empty holds, in `filled`, a value found in no
/// other cell of its row, its column or its box.
pub open spec fn new_cells_fit(puzzle: Seq<u8>, filled: Seq<u8>) -> bool {
    forall|r1: int, c1: int, r2: int, c2: int|
        coord(r1) && coord(c1) && coord(r2) && coord(c2) && (r1 != r2 || c1 != c2)
            && same_unit(r1, c1, r2, c2) && cell(puzzle, r1, c1) == 0
            ==> #[trigger] cell(filled, r1, c1) != #[trigger] cell(filled, r2, c2)
}

/// `filled` completes `puzzle` with placements that the rules allow: it keeps
/// every value of `puzzle`, fills every empty cell with a digit, and no filled
/// cell repeats a value of its row, column or box.
pub open spec fn is_filling(puzzle: Seq<u8>, filled: Seq<u8>) -> bool {
    &&& extends(puzzle, filled)
    &&& is_complete(filled)
    &&& new_cells_fit(puzzle, filled)
}

/// Some filling of `puzzle` exists.
pub open spec fn can_fill(puzzle: Seq<u8>) -> bool {
    exists|filled: Seq<u8>| #[trigger] is_filling(puzzle, filled)
}

/// On a consistent puzzle, the fillings are exactly the solutions.
pub proof fn lemma_filling_is_solution(puzzle: Seq<u8>, filled: Seq<u8>)
    requires
        puzzle.len() >= 81,
        consistent(puzzle),
    ensures
        is_filling(puzzle, filled) <==> is_solution(puzzle, filled),
{
    if is_filling(puzzle, filled) {
        assert forall|r1: int, c1: int, r2: int, c2: int|
            coord(r1) && coord(c1) && coord(r2) && coord(c2) && (r1 != r2 || c1 != c2)
                && same_unit(r1, c1, r2, c2) && cell(filled, r1, c1) != 0
            implies #[trigger] cell(filled, r1, c1) != #[trigger] cell(filled, r2, c2) by {
            if cell(puzzle, r1, c1) != 0 && cell(puzzle, r2, c2) != 0 {
                assert(filled[r1 * 9 + c1] == puzzle[r1 * 9 + c1]);
                assert(filled[r2 * 9 + c2] == puzzle[r2 * 9 + c2]);
                assert(cell(puzzle, r1, c1) != cell(puzzle, r2, c2));
            } else if cell(puzzle, r1, c1) == 0 {
            } else {
                assert(same_unit(r2, c2, r1, c1));
                assert(cell(filled, r2, c2) != cell(filled, r1, c1));
            }
        }
    }
}

/// On a consistent puzzle, a filling exists exactly when a solution does.
pub proof fn lemma_can_fill_iff_has_solution(puzzle: Seq<u8>)
    requires
        puzzle.len() >= 81,
        consistent(puzzle),
    ensures
        can_fill(puzzle) <==> has_solution(puzzle),
{
    if can_fill(puzzle) {
        let f = choose|f: Seq<u8>| is_filling(puzzle, f);
        lemma_filling_is_solution(puzzle, f);
    }
    if has_solution(puzzle) {
        let f = choose|f: Seq<u8>| is_solution(puzzle, f);
        lemma_filling_is_solution(puzzle, f);
    }
}

/// Clearing cells of a consistent grid keeps it consistent.
pub proof fn lemma_sub_consistent(part: Seq<u8>, full: Seq<u8>)
    requires
        part.len() >= 81,
        extends(part, full),
        consistent(full),
    ensures
        consistent(part),
{
    assert forall|r1: int, c1: int, r2: int, c2: int|
        coord(r1) && coord(c1) && coord(r2) && coord(c2) && (r1 != r2 || c1 != c2)
            && same_unit(r1, c1, r2, c2) && cell(part, r1, c1) != 0
        implies #[trigger] cell(part, r1, c1) != #[trigger] cell(part, r2, c2) by {
        assert(full[r1 * 9 + c1] == part[r1 * 9 + c1]);
        if cell(part, r2, c2) != 0 {
            assert(full[r2 * 9 + c2] == part[r2 * 9 + c2]);
            assert(cell(full, r1, c1) != cell(full, r2, c2));
        }
    }
}

/// A puzzle that has a solution is consistent.
pub proof fn lemma_solvable_is_consistent(puzzle: Seq<u8>)
    requires
        puzzle.len() >= 81,
        has_solution(puzzle),
    ensures
        consistent(puzzle),
{
    let s = choose|s: Seq<u8>| is_solution(puzzle, s);
    lemma_sub_consistent(puzzle, s);
}

/// Two distinct cells, given by flat index, share a unit and a non-zero value.
pub open spec fn clash(cells: Seq<u8>, i: int, j: int) -> bool {
    &&& i != j
    &&& same_unit(i / 9, i % 9, j / 9, j % 9)
    &&& cells[i] != 0
    &&& cells[i] == cells[j]
}

proof fn lemma_coords(r: int, c: int)
    requires
        coord(r),
        coord(c),
    ensures
        (r * 9 + c) / 9 == r,
        (r * 9 + c) % 9 == c,
{
}

/// Whether no two distinct cells of a row, column or box hold the same non-zero value.
pub fn is_consistent(board: &Board) -> (ok: bool)
    requires
        board.cells.len() >= 81,
    ensures
        ok == consistent(board.cells@),
{
    let ghost cells = board.cells@;
    for i in 0..81usize
        invariant
            board.cells@ == cells,
            cells.len() >= 81,
            forall|i2: int, j: int| 0 <= i2 < i && 0 <= j < 81 ==> !#[trigger] clash(cells, i2, j),
    {
        let v = board.cells[i];
        if v != 0 {
            let (r1, c1) = (i / 9, i % 9);
            for j in 0..81usize
                invariant
                    board.cells@ == cells,
                    cells.len() >= 81,
                    i < 81,
                    v == cells[i as int],
                    v != 0,
                    r1 == i / 9,
                    c1 == i % 9,
                    forall|i2: int, j2: int| 0 <= i2 < i && 0 <= j2 < 81 ==> !#[trigger] clash(cells, i2, j2),
                    forall|j2: int| 0 <= j2 < j ==> !#[trigger] clash(cells, i as int, j2),
            {
                let (r2, c2) = (j / 9, j % 9);
                if j != i && (r1 == r2 || c1 == c2 || (r1 / 3 == r2 / 3 && c1 / 3 == c2 / 3))
                    && board.cells[j] == v {
                    proof {
                        assert(clash(cells, i as int, j as int));
                        assert(i == r1 * 9 + c1 && j == r2 * 9 + c2);
                        assert(cell(cells, r1 as int, c1 as int) == cell(cells, r2 as int, c2 as int));
                    }
                    return false;
                }
            }
        }
    }
    assert forall|r1: int, c1: int, r2: int, c2: int|
        coord(r1) && coord(c1) && coord(r2) && coord(c2) && (r1 != r2 || c1 != c2)
            && same_unit(r1, c1, r2, c2) && cell(cells, r1, c1) != 0
        implies #[trigger] cell(cells, r1, c1) != #[trigger] cell(cells, r2, c2) by {
        lemma_coords(r1, c1);
        lemma_coords(r2, c2);
        assert(!clash(cells, r1 * 9 + c1, r2 * 9 + c2));
    }
    true
}

/// Whether `val` can be written at (`row`, `col`) without repeating a value
/// of its row, its column or its 3×3 box.
pub fn is_valid_placement(board: &Board, row: usize, col: usize, val: CellValue) -> (ok: bool)
    requires
        board.cells.len() >= 81,
        row < 9,
        col < 9,
    ensures
        ok == can_place(board.cells@, row as int, col as int, val),
{
    let ghost cells = board.cells@;
    for c in 0..9
        invariant
            board.cells@ == cells,
            cells.len() >= 81,
            row < 9,
            forall|c2: int| 0 <= c2 < c ==> #[trigger] cell(cells, row as int, c2) != val,
    {
        if board.get(row, c) == val {
            assert(cell(cells, row as int, c as int) == val);
            return false;
        }
    }
    for r in 0..9
        invariant
            board.cells@ == cells,
            cells.len() >= 81,
            col < 9,
            forall|r2: int| 0 <= r2 < r ==> #[trigger] cell(cells, r2, col as int) != val,
    {
        if board.get(r, col) == val {
            assert(cell(cells, r as int, col as int) == val);
            return false;
        }
    }
    let box_row = (row / 3) * 3;
    let box_col = (col / 3) * 3;
    for r in box_row..box_row + 3
        invariant
            board.cells@ == cells,
            cells.len() >= 81,
            box_row == (row / 3) * 3,
            box_col == (col / 3) * 3,
            row < 9,
            col < 9,
            forall|r2: int, c2: int|
                box_row <= r2 < r && box_col <= c2 < box_col + 3 ==> #[trigger] cell(cells, r2, c2) != val,
    {
        for c in box_col..box_col + 3
            invariant
                board.cells@ == cells,
                cells.len() >= 81,
                box_row == (row / 3) * 3,
                box_col == (col / 3) * 3,
                row < 9,
                col < 9,
                box_row <= r < box_row + 3,
                forall|r2: int, c2: int|
                    box_row <= r2 < r && box_col <= c2 < box_col + 3 ==> #[trigger] cell(cells, r2, c2) != val,
                forall|c2: int| box_col <= c2 < c ==> #[trigger] cell(cells, r as int, c2) != val,
        {
            if board.get(r, c) == val {
                assert(cell(cells, r as int, c as int) == val);
                return false;
            }
        }
    }
    assert forall|r: int, c: int|
        coord(r) && coord(c) && same_unit(row as int, col as int, r, c) implies #[trigger] cell(cells, r, c) != val by {
        if r == row {
        } else if c == col {
        } else {
            assert(box_row <= r < box_row + 3);
            assert(box_col <= c < box_col + 3);
        }
    }
    true
}

} // verus!
