//! Puzzle generation: fill a grid by randomized backtracking, then clear cells.

use vstd::prelude::*;
use rand::rngs::SmallRng;
use rand::seq::SliceRandom;
use rand::SeedableRng;
use crate::board::{copy_board, removal_count, Board, CellValue, Difficulty};
use crate::rules::{
    can_fill, cell, consistent, coord, extends, has_solution, is_filling, is_solution,
    is_valid_placement, lemma_can_fill_iff_has_solution, lemma_filling_is_solution,
    lemma_sub_consistent, same_unit,
};
use crate::solver::{
    lemma_filling_branch, lemma_filling_lift, lemma_num_empty_fill, num_empty, solve,
};

verus! {

#[verifier::external_type_specification]
#[verifier::external_body]
pub struct ExSmallRng(SmallRng);

/// Calls `SmallRng::seed_from_u64`. Nothing is stated of the generator it returns.
#[verifier::external_body]
fn seeded_rng(seed: u64) -> SmallRng {
    SmallRng::seed_from_u64(seed)
}

/// Calls `rand::random::<u64>()`. Nothing is stated of the number it returns. The
/// call panics only when the operating system's random source cannot seed the
/// thread-local generator.
#[verifier::external_body]
fn random_seed() -> u64 {
    rand::random::<u64>()
}

/// Calls `SliceRandom::shuffle` on the vector's elements. Trusted: the elements
/// afterwards are a permutation of those before (the same multiset); their order
/// is not stated.
#[verifier::external_body]
fn shuffle<T>(items: &mut Vec<T>, rng: &mut SmallRng)
    ensures
        final(items)@.to_multiset() == old(items)@.to_multiset(),
{
    items.shuffle(rng)
}

/// The value of a fixed solved grid at (`r`, `c`).
spec fn pattern_value(r: int, c: int) -> int {
    (3 * (r % 3) + r / 3 + c) % 9 + 1
}

/// A fixed solved grid.
spec fn pattern_grid() -> Seq<u8> {
    Seq::new(81, |i: int| pattern_value(i / 9, i % 9) as u8)
}

proof fn lemma_mod9_distinct(a1: int, a2: int)
    requires
        0 <= a1,
        0 <= a2,
        a1 != a2,
        -9 < a1 - a2 < 9,
    ensures
        a1 % 9 != a2 % 9,
{
    let q1 = a1 / 9;
    let q2 = a2 / 9;
    assert(a1 == 9 * q1 + a1 % 9);
    assert(a2 == 9 * q2 + a2 % 9);
    if a1 % 9 == a2 % 9 {
        assert(a1 - a2 == 9 * (q1 - q2));
        assert(q1 - q2 == 0);
    }
}

proof fn lemma_pattern_distinct(r1: int, c1: int, r2: int, c2: int)
    requires
        coord(r1),
        coord(c1),
        coord(r2),
        coord(c2),
        r1 != r2 || c1 != c2,
        same_unit(r1, c1, r2, c2),
    ensures
        pattern_value(r1, c1) != pattern_value(r2, c2),
{
    let x1 = r1 % 3;
    let y1 = r1 / 3;
    let x2 = r2 % 3;
    let y2 = r2 / 3;
    assert(r1 == 3 * y1 + x1);
    assert(r2 == 3 * y2 + x2);
    let a1 = 3 * x1 + y1 + c1;
    let a2 = 3 * x2 + y2 + c2;
    if r1 == r2 {
        assert(a1 - a2 == c1 - c2);
    } else if c1 == c2 {
        assert(x1 != x2 || y1 != y2);
        assert(a1 - a2 == 3 * (x1 - x2) + (y1 - y2));
    } else {
        let u1 = c1 % 3;
        let u2 = c2 % 3;
        assert(c1 == 3 * (c1 / 3) + u1);
        assert(c2 == 3 * (c2 / 3) + u2);
        assert(y1 == y2);
        assert(x1 != x2 || u1 != u2);
        assert(a1 - a2 == 3 * (x1 - x2) + (u1 - u2));
    }
    lemma_mod9_distinct(a1, a2);
}

/// The empty grid has a solution.
proof fn lemma_empty_has_solution()
    ensures
        has_solution(Seq::new(81, |i: int| 0u8)),
{
    let empty = Seq::new(81, |i: int| 0u8);
    let grid = pattern_grid();
    assert forall|r: int, c: int| coord(r) && coord(c) implies #[trigger] cell(grid, r, c)
        == pattern_value(r, c) && 1 <= pattern_value(r, c) <= 9 by {
        let i = r * 9 + c;
        assert(i / 9 == r && i % 9 == c);
    }
    assert forall|r1: int, c1: int, r2: int, c2: int|
        coord(r1) && coord(c1) && coord(r2) && coord(c2) && (r1 != r2 || c1 != c2)
            && same_unit(r1, c1, r2, c2) && cell(grid, r1, c1) != 0
        implies #[trigger] cell(grid, r1, c1) != #[trigger] cell(grid, r2, c2) by {
        lemma_pattern_distinct(r1, c1, r2, c2);
    }
    assert forall|i: int| 0 <= i < 81 implies 1 <= #[trigger] grid[i] <= 9 by {
        assert(cell(grid, i / 9, i % 9) == grid[i]);
    }
    assert(is_solution(empty, grid));
}


/// Fills the empty cells by backtracking, trying the digits of each cell in a
/// random order. The contract is that of `solve`: it succeeds exactly when the
/// board can be completed by placements the rules allow, and then leaves such a
/// completion (a solution, on a consistent board); on failure the board is
/// unchanged.
fn fill_board(board: &mut Board, rng: &mut SmallRng) -> (filled: bool)
    requires
        old(board).cells.len() >= 81,
    ensures
        final(board).givens@ == old(board).givens@,
        filled <==> can_fill(old(board).cells@),
        filled ==> is_filling(old(board).cells@, final(board).cells@),
        !filled ==> final(board).cells@ == old(board).cells@,
        consistent(old(board).cells@) ==> (filled <==> has_solution(old(board).cells@)),
        filled && consistent(old(board).cells@) ==> is_solution(old(board).cells@, final(board).cells@),
    decreases num_empty(old(board).cells@, 81),
{
    let ghost start = board.cells@;
    let mut pos: usize = 0;
    while pos < 81 && board.cells[pos] != 0
        invariant
            board.cells@ == start,
            start.len() >= 81,
            pos <= 81,
            forall|j: int| 0 <= j < pos ==> #[trigger] start[j] != 0,
        decreases 81 - pos,
    {
        pos += 1;
    }
    if pos == 81 {
        proof {
            assert(extends(start, start));
            assert(is_filling(start, start));
            if consistent(start) {
                lemma_can_fill_iff_has_solution(start);
                lemma_filling_is_solution(start, start);
            }
        }
        return true;
    }
    let row = pos / 9;
    let col = pos % 9;
    assert(pos == row * 9 + col);

    let mut candidates: Vec<CellValue> = Vec::new();
    for v in 1..10u8
        invariant
            candidates.len() == v - 1,
            forall|k: int| 0 <= k < candidates.len() ==> #[trigger] candidates@[k] == k + 1,
    {
        candidates.push(v);
    }
    let ghost digits = candidates@;
    shuffle(&mut candidates, rng);
    proof {
        let shuffled = candidates@;
        digits.to_multiset_ensures();
        shuffled.to_multiset_ensures();
        assert forall|v: u8| 1 <= v <= 9 implies #[trigger] shuffled.contains(v) by {
            assert(digits[v - 1] == v);
            assert(digits.contains(v));
            assert(digits.to_multiset().count(v) > 0);
            assert(shuffled.to_multiset().count(v) > 0);
        }
        assert forall|k: int| 0 <= k < shuffled.len() implies 1 <= #[trigger] shuffled[k] <= 9 by {
            let v = shuffled[k];
            assert(shuffled.contains(v));
            assert(shuffled.to_multiset().count(v) > 0);
            assert(digits.to_multiset().count(v) > 0);
            assert(digits.contains(v));
        }
    }

    let n = candidates.len();
    for k in 0..n
        invariant
            board.cells@ == start,
            start == old(board).cells@,
            board.givens@ == old(board).givens@,
            start.len() >= 81,
            pos < 81,
            pos == row * 9 + col,
            row < 9,
            col < 9,
            start[pos as int] == 0,
            n == candidates.len(),
            forall|j: int| 0 <= j < n ==> 1 <= #[trigger] candidates@[j] <= 9,
            forall|f: Seq<u8>, j: int|
                #[trigger] is_filling(start, f) && 0 <= j < k ==> f[pos as int] != #[trigger] candidates@[j],
    {
        let val = candidates[k];
        if is_valid_placement(board, row, col, val) {
            board.cells.set(pos, val);
            proof {
                lemma_num_empty_fill(start, pos as int, val, 81);
            }
            if fill_board(board, rng) {
                proof {
                    let fin = board.cells@;
                    lemma_filling_lift(start, row as int, col as int, val, fin);
                    if consistent(start) {
                        lemma_can_fill_iff_has_solution(start);
                        lemma_filling_is_solution(start, fin);
                    }
                }
                return true;
            }
            board.cells.set(pos, 0);
            assert(board.cells@ =~= start);
        }
        assert forall|f: Seq<u8>| #[trigger] is_filling(start, f) implies f[pos as int] != val by {
            if f[pos as int] == val {
                lemma_filling_branch(start, f, row as int, col as int);
            }
        }
    }
    assert forall|f: Seq<u8>| #[trigger] is_filling(start, f) implies false by {
        lemma_filling_branch(start, f, row as int, col as int);
        let v = f[pos as int];
        assert(candidates@.contains(v));
        let j = choose|j: int| 0 <= j < candidates.len() && candidates@[j] == v;
        assert(f[pos as int] != candidates@[j]);
    }
    proof {
        if consistent(start) {
            lemma_can_fill_iff_has_solution(start);
        }
    }
    false
}

/// Every one of the 81 cells holds a digit 1-9 and no row, column or box repeats one.
pub open spec fn is_filled_grid(cells: Seq<u8>) -> bool {
    &&& cells.len() >= 81
    &&& forall|i: int| 0 <= i < 81 ==> 1 <= #[trigger] cells[i] <= 9
    &&& consistent(cells)
}

/// The number of `true` entries among the first `n`.
pub open spec fn num_givens(givens: Seq<bool>, n: int) -> nat
    decreases n,
{
    if n <= 0 {
        0
    } else {
        num_givens(givens, n - 1) + if givens[n - 1] { 1nat } else { 0nat }
    }
}

proof fn lemma_num_empty_none(cells: Seq<u8>, n: int)
    requires
        0 <= n <= cells.len(),
        forall|i: int| 0 <= i < n ==> #[trigger] cells[i] != 0,
    ensures
        num_empty(cells, n) == 0,
    decreases n,
{
    if n > 0 {
        lemma_num_empty_none(cells, n - 1);
    }
}

proof fn lemma_givens_complement(cells: Seq<u8>, givens: Seq<bool>, n: int)
    requires
        0 <= n <= cells.len(),
        n <= givens.len(),
        forall|i: int| 0 <= i < n ==> #[trigger] givens[i] == (cells[i] != 0),
    ensures
        num_givens(givens, n) + num_empty(cells, n) == n,
    decreases n,
{
    if n > 0 {
        lemma_givens_complement(cells, givens, n - 1);
    }
}

/// The grid after visiting the cells `order` in turn while fewer than `count`
/// cells have been cleared: each visited cell is cleared, and stays cleared
/// (counting towards `count`) only if the grid still has a solution.
pub open spec fn cleared_by(cells: Seq<u8>, count: int, order: Seq<usize>) -> Seq<u8>
    decreases order.len(),
{
    if order.len() == 0 || count <= 0 {
        cells
    } else {
        let tried = cells.update(order[0] as int, 0);
        if has_solution(tried) {
            cleared_by(tried, count - 1, order.drop_first())
        } else {
            cleared_by(cells, count, order.drop_first())
        }
    }
}

/// Cell `i` is among the first `k` entries of `order`.
pub open spec fn visited(order: Seq<usize>, k: int, i: int) -> bool {
    exists|m: int| 0 <= m < k && #[trigger] order[m] == i
}

/// Clears up to `count` cells, visiting them in the given order and keeping a
/// cell cleared only if the board still has a solution. On a filled grid every
/// visited cell stays cleared, the first `min(count, order.len())` cells of
/// `order` are exactly the ones cleared, and the grid it started from solves
/// the result.
pub fn remove_cells_in_order(board: &mut Board, count: usize, order: &Vec<usize>)
    requires
        old(board).cells.len() >= 81,
        forall|m: int| 0 <= m < order.len() ==> #[trigger] order@[m] < 81,
    ensures
        final(board).givens@ == old(board).givens@,
        final(board).cells@ == cleared_by(old(board).cells@, count as int, order@),
        final(board).cells.len() == old(board).cells.len(),
        forall|i: int|
            0 <= i < old(board).cells.len() ==> #[trigger] final(board).cells@[i] == old(board).cells@[i]
                || (i < 81 && final(board).cells@[i] == 0),
        is_filled_grid(old(board).cells@) ==> {
            &&& is_solution(final(board).cells@, old(board).cells@)
            &&& forall|i: int|
                0 <= i < old(board).cells.len() ==> #[trigger] final(board).cells@[i] == if visited(
                    order@,
                    if count < order.len() { count as int } else { order.len() as int },
                    i,
                ) {
                    0u8
                } else {
                    old(board).cells@[i]
                }
        },
        is_filled_grid(old(board).cells@) && order@.no_duplicates() ==> num_empty(
            final(board).cells@,
            81,
        ) == if count < order.len() { count as int } else { order.len() as int },
{
    let ghost start = board.cells@;
    let ghost full = is_filled_grid(start);
    let ghost distinct = order@.no_duplicates();
    proof {
        if full {
            lemma_num_empty_none(start, 81);
            assert forall|i: int| 0 <= i < start.len() implies #[trigger] board.cells@[i] == if visited(
                order@,
                0,
                i,
            ) {
                0u8
            } else {
                start[i]
            } by {}
        }
        assert(order@.skip(0) =~= order@);
    }
    let n = order.len();
    let mut removed: usize = 0;
    let mut k: usize = 0;
    while k < n && removed < count
        invariant
            start == old(board).cells@,
            board.givens@ == old(board).givens@,
            board.cells.len() == start.len(),
            start.len() >= 81,
            n == order.len(),
            0 <= k <= n,
            removed <= count,
            forall|m: int| 0 <= m < n ==> #[trigger] order@[m] < 81,
            cleared_by(board.cells@, count - removed, order@.skip(k as int)) == cleared_by(
                start,
                count as int,
                order@,
            ),
            forall|i: int|
                0 <= i < start.len() ==> #[trigger] board.cells@[i] == start[i] || (i < 81
                    && board.cells@[i] == 0),
            full == is_filled_grid(start),
            distinct == order@.no_duplicates(),
            full ==> {
                &&& removed == k
                &&& forall|i: int|
                    0 <= i < start.len() ==> #[trigger] board.cells@[i] == if visited(order@, k as int, i) {
                        0u8
                    } else {
                        start[i]
                    }
            },
            full && distinct ==> num_empty(board.cells@, 81) == k,
        decreases n - k,
    {
        let idx = order[k];
        let backup = board.cells[idx];
        let ghost pre = board.cells@;
        let ghost rest = order@.skip(k as int);
        board.cells.set(idx, 0);
        let ghost cleared = board.cells@;
        let mut tmp = copy_board(board);
        proof {
            assert(rest[0] == idx);
            assert(rest.drop_first() =~= order@.skip(k + 1));
            assert(cleared == pre.update(rest[0] as int, 0));
            if full {
                assert(extends(cleared, start));
                lemma_sub_consistent(cleared, start);
                assert(is_solution(cleared, start));
                if distinct {
                    assert(!visited(order@, k as int, idx as int));
                    assert(backup != 0);
                    lemma_num_empty_fill(cleared, idx as int, backup, 81);
                    assert(cleared.update(idx as int, backup) =~= pre);
                }
                assert forall|i: int| 0 <= i < start.len() implies #[trigger] cleared[i] == if visited(
                    order@,
                    k + 1,
                    i,
                ) {
                    0u8
                } else {
                    start[i]
                } by {
                    if i == idx {
                        assert(order@[k as int] == i);
                    } else {
                        if visited(order@, k + 1, i) {
                            let m = choose|m: int| 0 <= m < k + 1 && #[trigger] order@[m] == i;
                            assert(m != k);
                            assert(visited(order@, k as int, i));
                        }
                        if visited(order@, k as int, i) {
                            let m = choose|m: int| 0 <= m < k && #[trigger] order@[m] == i;
                            assert(visited(order@, k + 1, i));
                        }
                    }
                }
            }
        }
        if solve(&mut tmp) {
            removed += 1;
        } else {
            board.cells.set(idx, backup);
            assert(board.cells@ =~= pre);
        }
        k += 1;
    }
    proof {
        assert(cleared_by(board.cells@, count - removed, order@.skip(k as int)) == board.cells@);
        if full {
            let fin = board.cells@;
            assert(extends(fin, start));
        }
    }
}

/// Clears up to `count` cells, visiting the cells in a random order and keeping a
/// cell cleared only if the board still has a solution. Only cells of the grid
/// are cleared. On a filled grid every visited cell stays cleared: exactly
/// `min(count, 81)` cells end up empty, and the grid it started from solves the result.
fn remove_cells(board: &mut Board, count: usize, rng: &mut SmallRng)
    requires
        old(board).cells.len() >= 81,
    ensures
        final(board).givens@ == old(board).givens@,
        final(board).cells.len() == old(board).cells.len(),
        forall|i: int|
            0 <= i < old(board).cells.len() ==> #[trigger] final(board).cells@[i] == old(board).cells@[i]
                || (i < 81 && final(board).cells@[i] == 0),
        is_filled_grid(old(board).cells@) ==> {
            &&& num_empty(final(board).cells@, 81) == if count < 81 { count as int } else { 81 }
            &&& is_solution(final(board).cells@, old(board).cells@)
        },
{
    let mut indices: Vec<usize> = Vec::new();
    for i in 0..81usize
        invariant
            indices.len() == i,
            forall|m: int| 0 <= m < i ==> #[trigger] indices@[m] == m,
    {
        indices.push(i);
    }
    let ghost order = indices@;
    proof {
        assert(order.no_duplicates());
        order.lemma_multiset_has_no_duplicates();
    }
    shuffle(&mut indices, rng);
    proof {
        let shuffled = indices@;
        order.to_multiset_ensures();
        shuffled.to_multiset_ensures();
        assert forall|x: usize| shuffled.to_multiset().contains(x) implies shuffled.to_multiset().count(
            x,
        ) == 1 by {
            assert(order.to_multiset().contains(x));
        }
        shuffled.lemma_multiset_has_no_duplicates_conv();
        assert forall|m: int| 0 <= m < shuffled.len() implies #[trigger] shuffled[m] < 81 by {
            let x = shuffled[m];
            assert(shuffled.contains(x));
            assert(shuffled.to_multiset().count(x) > 0);
            assert(order.contains(x));
        }
    }
    remove_cells_in_order(board, count, &indices);
}

/// Generate a puzzle with an explicit seed (useful for tests). The puzzle
/// leaves exactly `cells_to_remove` cells empty, marks every other cell as a
/// given, holds only digits, repeats no digit in a unit, and has a solution.
pub fn generate_seeded(difficulty: Difficulty, seed: u64) -> (puzzle: Board)
    ensures
        puzzle.wf(),
        forall|i: int| 0 <= i < 81 ==> #[trigger] puzzle.givens@[i] == (puzzle.cells@[i] != 0),
        forall|i: int| 0 <= i < 81 ==> #[trigger] puzzle.cells@[i] <= 9,
        num_empty(puzzle.cells@, 81) == removal_count(difficulty),
        num_givens(puzzle.givens@, 81) == 81 - removal_count(difficulty),
        consistent(puzzle.cells@),
        has_solution(puzzle.cells@),
{
    let mut rng = seeded_rng(seed);
    let mut solution = Board::new();
    proof {
        lemma_empty_has_solution();
        assert(solution.cells@ =~= Seq::new(81, |i: int| 0u8));
    }
    fill_board(&mut solution, &mut rng);
    let mut puzzle = copy_board(&solution);
    proof {
        let sol = solution.cells@;
        assert forall|i: int| 0 <= i < 81 implies 1 <= #[trigger] sol[i] <= 9 by {
            assert(sol[i] != 0);
        }
        assert(is_filled_grid(sol));
    }
    let to_remove = difficulty.cells_to_remove();
    remove_cells(&mut puzzle, to_remove, &mut rng);
    let ghost cells = puzzle.cells@;
    proof {
        lemma_sub_consistent(cells, solution.cells@);
        assert forall|i: int| 0 <= i < 81 implies #[trigger] cells[i] <= 9 by {
            assert(cells[i] == solution.cells@[i] || cells[i] == 0);
        }
    }
    for i in 0..81
        invariant
            puzzle.cells@ == cells,
            cells.len() == 81,
            puzzle.givens.len() == 81,
            forall|j: int| 0 <= j < i ==> #[trigger] puzzle.givens@[j] == (cells[j] != 0),
    {
        let given = puzzle.cells[i] != 0;
        puzzle.givens.set(i, given);
    }
    proof {
        lemma_givens_complement(cells, puzzle.givens@, 81);
    }
    puzzle
}

/// Generate a new Sudoku puzzle with the given difficulty, from a random seed.
/// The contract is that of `generate_seeded`.
pub fn generate(difficulty: Difficulty) -> (puzzle: Board)
    ensures
        puzzle.wf(),
        forall|i: int| 0 <= i < 81 ==> #[trigger] puzzle.givens@[i] == (puzzle.cells@[i] != 0),
        forall|i: int| 0 <= i < 81 ==> #[trigger] puzzle.cells@[i] <= 9,
        num_empty(puzzle.cells@, 81) == removal_count(difficulty),
        num_givens(puzzle.givens@, 81) == 81 - removal_count(difficulty),
        consistent(puzzle.cells@),
        has_solution(puzzle.cells@),
{
    let seed = random_seed();
    generate_seeded(difficulty, seed)
}

} // verus!
