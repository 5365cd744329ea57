//! Board validation: which cells repeat a value of their row, column or box.

use vstd::prelude::*;
use crate::board::Board;
use crate::rules::{cell, consistent, coord, is_solution, same_unit};

verus! {

/// The outcome of checking a board.
#[derive(Debug, Clone, PartialEq, Eq)]
pub struct ValidationResult {
    pub is_complete: bool,
    pub has_errors: bool,
    pub error_cells: Vec<usize>,
}

/// (`r`, `c`) holds a value that occurs again in its row, its column or its box.
pub open spec fn in_conflict(cells: Seq<u8>, r: int, c: int) -> bool {
    &&& cell(cells, r, c) != 0
    &&& exists|r2: int, c2: int|
        coord(r2) && coord(c2) && (r2 != r || c2 != c) && same_unit(r, c, r2, c2)
            && #[trigger] cell(cells, r2, c2) == cell(cells, r, c)
}

/// The cell with flat index `i` is in conflict.
pub open spec fn conflict_at(cells: Seq<u8>, i: int) -> bool {
    in_conflict(cells, i / 9, i % 9)
}

/// (`r`, `c`) repeats a value of its row.
pub open spec fn row_dup(cells: Seq<u8>, r: int, c: int) -> bool {
    &&& cell(cells, r, c) != 0
    &&& exists|c2: int| coord(c2) && c2 != c && #[trigger] cell(cells, r, c2) == cell(cells, r, c)
}

/// (`r`, `c`) repeats a value of its column.
pub open spec fn col_dup(cells: Seq<u8>, r: int, c: int) -> bool {
    &&& cell(cells, r, c) != 0
    &&& exists|r2: int| coord(r2) && r2 != r && #[trigger] cell(cells, r2, c) == cell(cells, r, c)
}

/// (`r`, `c`) repeats a value of its 3×3 box.
pub open spec fn box_dup(cells: Seq<u8>, r: int, c: int) -> bool {
    &&& cell(cells, r, c) != 0
    &&& exists|r2: int, c2: int|
        coord(r2) && coord(c2) && (r2 != r || c2 != c) && r2 / 3 == r / 3 && c2 / 3 == c / 3
            && #[trigger] cell(cells, r2, c2) == cell(cells, r, c)
}

/// Positions `m` and `m2` of the group `g` are distinct and name cells with the same
/// non-zero value.
pub open spec fn group_pair(cells: Seq<u8>, g: Seq<usize>, m: int, m2: int) -> bool {
    &&& 0 <= m < g.len()
    &&& 0 <= m2 < g.len()
    &&& m != m2
    &&& cells[g[m] as int] != 0
    &&& cells[g[m2] as int] == cells[g[m] as int]
}

/// Among the first `k` positions of `g`, cell `i` shares its non-zero value with another.
pub open spec fn dup_in_prefix(cells: Seq<u8>, g: Seq<usize>, k: int, i: int) -> bool {
    exists|m: int, m2: int| m < k && m2 < k && #[trigger] group_pair(cells, g, m, m2) && g[m] == i
}

/// Cell `i` shares its non-zero value with another cell of the group `g`.
pub open spec fn dup_in_group(cells: Seq<u8>, g: Seq<usize>, i: int) -> bool {
    dup_in_prefix(cells, g, g.len() as int, i)
}

/// Marks in `errors` every cell of the group `indices` whose value repeats in the group.
fn check_group(board: &Board, indices: Vec<usize>, errors: &mut Vec<bool>)
    requires
        board.cells.len() >= 81,
        forall|i: int| 0 <= i < 81 ==> #[trigger] board.cells@[i] <= 9,
        forall|m: int| 0 <= m < indices.len() ==> #[trigger] indices@[m] < 81,
        old(errors).len() == 81,
    ensures
        final(errors).len() == 81,
        forall|i: int|
            0 <= i < 81 ==> #[trigger] final(errors)@[i] == (old(errors)@[i] || dup_in_group(
                board.cells@,
                indices@,
                i,
            )),
{
    let ghost cells = board.cells@;
    let ghost g = indices@;
    let mut seen: Vec<Option<usize>> = Vec::new();
    for _v in 0..10
        invariant
            forall|v: int| 0 <= v < seen.len() ==> #[trigger] seen@[v] is None,
            seen.len() == _v,
    {
        seen.push(None);
    }
    let n = indices.len();
    for k in 0..n
        invariant
            board.cells@ == cells,
            indices@ == g,
            n == g.len(),
            cells.len() >= 81,
            forall|i: int| 0 <= i < 81 ==> #[trigger] cells[i] <= 9,
            forall|m: int| 0 <= m < g.len() ==> #[trigger] g[m] < 81,
            seen.len() == 10,
            forall|v: int|
                1 <= v <= 9 ==> match #[trigger] seen@[v] {
                    Some(x) => exists|p: int| 0 <= p < k && g[p] == x && cells[x as int] == v,
                    None => forall|m: int| 0 <= m < k ==> cells[#[trigger] g[m] as int] != v,
                },
            errors.len() == 81,
            forall|i: int|
                0 <= i < 81 ==> #[trigger] errors@[i] == (old(errors)@[i] || dup_in_prefix(
                    cells,
                    g,
                    k as int,
                    i,
                )),
    {
        let idx = indices[k];
        let val = board.cells[idx] as usize;
        if val != 0 {
            match seen[val] {
                Some(prev) => {
                    let ghost p = choose|p: int| 0 <= p < k && g[p] == prev && cells[prev as int] == val;
                    errors.set(prev, true);
                    errors.set(idx, true);
                    proof {
                        assert(group_pair(cells, g, p, k as int));
                        assert(group_pair(cells, g, k as int, p));
                        assert forall|i: int| 0 <= i < 81 implies #[trigger] errors@[i] == (old(
                            errors,
                        )@[i] || dup_in_prefix(cells, g, k + 1, i)) by {
                            if dup_in_prefix(cells, g, k + 1, i) && !dup_in_prefix(cells, g, k as int, i) {
                                let (m, m2) = choose|m: int, m2: int|
                                    m < k + 1 && m2 < k + 1 && #[trigger] group_pair(cells, g, m, m2) && g[m] == i;
                                if m != k && m != p {
                                    assert(group_pair(cells, g, m, p));
                                }
                            }
                        }
                    }
                },
                None => {
                    seen.set(val, Some(idx));
                    proof {
                        assert forall|i: int| 0 <= i < 81 implies #[trigger] errors@[i] == (old(
                            errors,
                        )@[i] || dup_in_prefix(cells, g, k + 1, i)) by {
                            if dup_in_prefix(cells, g, k + 1, i) {
                                let (m, m2) = choose|m: int, m2: int|
                                    m < k + 1 && m2 < k + 1 && #[trigger] group_pair(cells, g, m, m2) && g[m] == i;
                                assert(cells[g[m] as int] != val || m != k);
                                assert(m != k && m2 != k);
                                assert(dup_in_prefix(cells, g, k as int, i));
                            }
                        }
                        assert forall|v: int| 1 <= v <= 9 implies match #[trigger] seen@[v] {
                            Some(x) => exists|p: int| 0 <= p < k + 1 && g[p] == x && cells[x as int] == v,
                            None => forall|m: int| 0 <= m < k + 1 ==> cells[#[trigger] g[m] as int] != v,
                        } by {
                            if v == val {
                                assert(g[k as int] == idx);
                            }
                        }
                    }
                },
            }
        } else {
            assert forall|i: int| 0 <= i < 81 implies #[trigger] errors@[i] == (old(errors)@[i]
                || dup_in_prefix(cells, g, k + 1, i)) by {
                if dup_in_prefix(cells, g, k + 1, i) {
                    let (m, m2) = choose|m: int, m2: int|
                        m < k + 1 && m2 < k + 1 && #[trigger] group_pair(cells, g, m, m2) && g[m] == i;
                    assert(m != k && m2 != k);
                    assert(dup_in_prefix(cells, g, k as int, i));
                }
            }
        }
    }
}

/// The cells of row `r`, left to right.
pub open spec fn row_group(r: int) -> Seq<usize> {
    Seq::new(9, |m: int| (r * 9 + m) as usize)
}

/// The cells of column `c`, top to bottom.
pub open spec fn col_group(c: int) -> Seq<usize> {
    Seq::new(9, |m: int| (m * 9 + c) as usize)
}

/// The cells of the box in box-row `br` and box-column `bc`, row by row.
pub open spec fn box_group(br: int, bc: int) -> Seq<usize> {
    Seq::new(9, |m: int| ((br * 3 + m / 3) * 9 + bc * 3 + m % 3) as usize)
}

proof fn lemma_row_group(cells: Seq<u8>, r: int)
    requires
        coord(r),
        cells.len() >= 81,
    ensures
        forall|i: int|
            0 <= i < 81 ==> (dup_in_group(cells, row_group(r), i) <==> (i / 9 == r && row_dup(
                cells,
                i / 9,
                i % 9,
            ))),
{
    let g = row_group(r);
    assert forall|i: int| 0 <= i < 81 implies (dup_in_group(cells, g, i) <==> (i / 9 == r
        && row_dup(cells, i / 9, i % 9))) by {
        if dup_in_group(cells, g, i) {
            let (m, m2) = choose|m: int, m2: int|
                m < 9 && m2 < 9 && #[trigger] group_pair(cells, g, m, m2) && g[m] == i;
            assert(i == r * 9 + m);
            assert(cell(cells, r, m2) == cells[g[m2] as int]);
        }
        if i / 9 == r && row_dup(cells, i / 9, i % 9) {
            let c2 = choose|c2: int| coord(c2) && c2 != i % 9 && #[trigger] cell(cells, r, c2) == cell(cells, r, i % 9);
            assert(group_pair(cells, g, i % 9, c2));
        }
    }
}

proof fn lemma_col_group(cells: Seq<u8>, c: int)
    requires
        coord(c),
        cells.len() >= 81,
    ensures
        forall|i: int|
            0 <= i < 81 ==> (dup_in_group(cells, col_group(c), i) <==> (i % 9 == c && col_dup(
                cells,
                i / 9,
                i % 9,
            ))),
{
    let g = col_group(c);
    assert forall|i: int| 0 <= i < 81 implies (dup_in_group(cells, g, i) <==> (i % 9 == c
        && col_dup(cells, i / 9, i % 9))) by {
        if dup_in_group(cells, g, i) {
            let (m, m2) = choose|m: int, m2: int|
                m < 9 && m2 < 9 && #[trigger] group_pair(cells, g, m, m2) && g[m] == i;
            assert(i == m * 9 + c);
            assert(cell(cells, m2, c) == cells[g[m2] as int]);
        }
        if i % 9 == c && col_dup(cells, i / 9, i % 9) {
            let r2 = choose|r2: int| coord(r2) && r2 != i / 9 && #[trigger] cell(cells, r2, c) == cell(cells, i / 9, c);
            assert(group_pair(cells, g, i / 9, r2));
        }
    }
}

proof fn lemma_div_mod(q: int, r: int, d: int)
    requires
        0 <= r < d,
        q >= 0,
        d == 3 || d == 9,
    ensures
        (q * d + r) / d == q,
        (q * d + r) % d == r,
{
}

proof fn lemma_box_cell(cells: Seq<u8>, br: int, bc: int, i: int)
    requires
        0 <= br < 3,
        0 <= bc < 3,
        0 <= i < 81,
        cells.len() >= 81,
    ensures
        dup_in_group(cells, box_group(br, bc), i) <==> (i / 9 / 3 == br && i % 9 / 3 == bc && box_dup(
            cells,
            i / 9,
            i % 9,
        )),
{
    let g = box_group(br, bc);
    let r = i / 9;
    let c = i % 9;
    lemma_div_mod(r, c, 9);
    assert(i == r * 9 + c);
    if dup_in_group(cells, g, i) {
        let (m, m2) = choose|m: int, m2: int|
            m < 9 && m2 < 9 && #[trigger] group_pair(cells, g, m, m2) && g[m] == i;
        lemma_div_mod(m / 3, m % 3, 3);
        lemma_div_mod(m2 / 3, m2 % 3, 3);
        let r1 = br * 3 + m / 3;
        let c1 = bc * 3 + m % 3;
        let r2 = br * 3 + m2 / 3;
        let c2 = bc * 3 + m2 % 3;
        lemma_div_mod(r1, c1, 9);
        lemma_div_mod(br, m / 3, 3);
        lemma_div_mod(bc, m % 3, 3);
        lemma_div_mod(br, m2 / 3, 3);
        lemma_div_mod(bc, m2 % 3, 3);
        assert(g[m] as int == r1 * 9 + c1);
        assert(r == r1 && c == c1);
        assert(g[m2] as int == r2 * 9 + c2);
        assert(cell(cells, r2, c2) == cells[g[m2] as int]);
        assert(m == (m / 3) * 3 + m % 3);
        assert(m2 == (m2 / 3) * 3 + m2 % 3);
        assert(r2 != r || c2 != c);
        assert(box_dup(cells, r, c));
    }
    if r / 3 == br && c / 3 == bc && box_dup(cells, r, c) {
        let (r2, c2) = choose|r2: int, c2: int|
            coord(r2) && coord(c2) && (r2 != r || c2 != c) && r2 / 3 == r / 3 && c2 / 3 == c / 3
                && #[trigger] cell(cells, r2, c2) == cell(cells, r, c);
        let m = (r % 3) * 3 + c % 3;
        let m2 = (r2 % 3) * 3 + c2 % 3;
        lemma_div_mod(r % 3, c % 3, 3);
        lemma_div_mod(r2 % 3, c2 % 3, 3);
        assert(r == br * 3 + r % 3);
        assert(c == bc * 3 + c % 3);
        assert(r2 == br * 3 + r2 % 3);
        assert(c2 == bc * 3 + c2 % 3);
        assert(g[m] as int == (br * 3 + m / 3) * 9 + bc * 3 + m % 3);
        assert(g[m] as int == i);
        assert(g[m2] as int == r2 * 9 + c2);
        assert(m != m2);
        assert(group_pair(cells, g, m, m2));
    }
}

proof fn lemma_box_group(cells: Seq<u8>, br: int, bc: int)
    requires
        0 <= br < 3,
        0 <= bc < 3,
        cells.len() >= 81,
    ensures
        forall|i: int|
            0 <= i < 81 ==> (dup_in_group(cells, box_group(br, bc), i) <==> (i / 9 / 3 == br && i % 9
                / 3 == bc && box_dup(cells, i / 9, i % 9))),
{
    assert forall|i: int| 0 <= i < 81 implies (dup_in_group(cells, box_group(br, bc), i) <==> (i / 9
        / 3 == br && i % 9 / 3 == bc && box_dup(cells, i / 9, i % 9))) by {
        lemma_box_cell(cells, br, bc, i);
    }
}

/// A cell is in conflict exactly when it repeats a value of its row, column or box.
proof fn lemma_conflict_split(cells: Seq<u8>, r: int, c: int)
    requires
        coord(r),
        coord(c),
    ensures
        in_conflict(cells, r, c) <==> (row_dup(cells, r, c) || col_dup(cells, r, c) || box_dup(
            cells,
            r,
            c,
        )),
{
    if in_conflict(cells, r, c) {
        let (r2, c2) = choose|r2: int, c2: int|
            coord(r2) && coord(c2) && (r2 != r || c2 != c) && same_unit(r, c, r2, c2)
                && #[trigger] cell(cells, r2, c2) == cell(cells, r, c);
        if r2 == r {
            assert(row_dup(cells, r, c));
        } else if c2 == c {
            assert(col_dup(cells, r, c));
        } else {
            assert(box_dup(cells, r, c));
        }
    }
    if row_dup(cells, r, c) {
        let c2 = choose|c2: int| coord(c2) && c2 != c && #[trigger] cell(cells, r, c2) == cell(cells, r, c);
        assert(same_unit(r, c, r, c2));
    }
    if col_dup(cells, r, c) {
        let r2 = choose|r2: int| coord(r2) && r2 != r && #[trigger] cell(cells, r2, c) == cell(cells, r, c);
        assert(same_unit(r, c, r2, c));
    }
}

/// A grid is consistent exactly when none of its 81 cells is in conflict.
pub proof fn lemma_consistent_iff_no_conflict(cells: Seq<u8>)
    ensures
        consistent(cells) <==> (forall|i: int| 0 <= i < 81 ==> !#[trigger] conflict_at(cells, i)),
{
    if consistent(cells) {
        assert forall|i: int| 0 <= i < 81 implies !#[trigger] conflict_at(cells, i) by {
            if conflict_at(cells, i) {
                let r = i / 9;
                let c = i % 9;
                let (r2, c2) = choose|r2: int, c2: int|
                    coord(r2) && coord(c2) && (r2 != r || c2 != c) && same_unit(r, c, r2, c2)
                        && #[trigger] cell(cells, r2, c2) == cell(cells, r, c);
                assert(cell(cells, r, c) != cell(cells, r2, c2));
            }
        }
    }
    if !consistent(cells) {
        let (r1, c1, r2, c2) = choose|r1: int, c1: int, r2: int, c2: int|
            !(coord(r1) && coord(c1) && coord(r2) && coord(c2) && (r1 != r2 || c1 != c2)
                && same_unit(r1, c1, r2, c2) && cell(cells, r1, c1) != 0
                ==> #[trigger] cell(cells, r1, c1) != #[trigger] cell(cells, r2, c2));
        let i = r1 * 9 + c1;
        assert(i / 9 == r1 && i % 9 == c1);
        assert(cell(cells, r2, c2) == cell(cells, r1, c1));
        assert(conflict_at(cells, i));
    }
}

fn row_indices(row: usize) -> (g: Vec<usize>)
    requires
        row < 9,
    ensures
        g@ == row_group(row as int),
{
    let mut g: Vec<usize> = Vec::new();
    for col in 0..9
        invariant
            row < 9,
            g.len() == col,
            forall|m: int| 0 <= m < col ==> #[trigger] g@[m] == row_group(row as int)[m],
    {
        g.push(row * 9 + col);
    }
    assert(g@ =~= row_group(row as int));
    g
}

fn col_indices(col: usize) -> (g: Vec<usize>)
    requires
        col < 9,
    ensures
        g@ == col_group(col as int),
{
    let mut g: Vec<usize> = Vec::new();
    for row in 0..9
        invariant
            col < 9,
            g.len() == row,
            forall|m: int| 0 <= m < row ==> #[trigger] g@[m] == col_group(col as int)[m],
    {
        g.push(row * 9 + col);
    }
    assert(g@ =~= col_group(col as int));
    g
}

fn box_indices(box_row: usize, box_col: usize) -> (g: Vec<usize>)
    requires
        box_row < 3,
        box_col < 3,
    ensures
        g@ == box_group(box_row as int, box_col as int),
{
    let mut g: Vec<usize> = Vec::new();
    for r in 0..3usize
        invariant
            box_row < 3,
            box_col < 3,
            g.len() == r * 3,
            forall|m: int| 0 <= m < g.len() ==> #[trigger] g@[m] == box_group(box_row as int, box_col as int)[m],
    {
        for c in 0..3usize
            invariant
                box_row < 3,
                box_col < 3,
                r < 3,
                g.len() == r * 3 + c,
                forall|m: int| 0 <= m < g.len() ==> #[trigger] g@[m] == box_group(box_row as int, box_col as int)[m],
        {
            assert((r * 3 + c) / 3 == r && (r * 3 + c) % 3 == c);
            g.push((box_row * 3 + r) * 9 + (box_col * 3 + c));
        }
    }
    assert(g@ =~= box_group(box_row as int, box_col as int));
    g
}

/// Checks every row, column and box. `error_cells` lists, in increasing order and
/// once each, exactly the cells in conflict; `has_errors` says whether there is
/// any, which is whether the grid is inconsistent; `is_complete` says that there
/// is none and that no cell is empty.
pub fn validate(board: &Board) -> (res: ValidationResult)
    requires
        board.cells.len() >= 81,
        forall|i: int| 0 <= i < 81 ==> #[trigger] board.cells@[i] <= 9,
    ensures
        forall|k: int|
            0 <= k < res.error_cells.len() ==> res.error_cells@[k] < 81 && conflict_at(
                board.cells@,
                #[trigger] res.error_cells@[k] as int,
            ),
        forall|i: int|
            0 <= i < 81 && #[trigger] conflict_at(board.cells@, i) ==> res.error_cells@.contains(
                i as usize,
            ),
        forall|a: int, b: int|
            0 <= a < b < res.error_cells.len() ==> res.error_cells@[a] < res.error_cells@[b],
        res.has_errors == (res.error_cells.len() > 0),
        res.has_errors == !consistent(board.cells@),
        res.is_complete == (consistent(board.cells@) && forall|i: int|
            0 <= i < board.cells.len() ==> #[trigger] board.cells@[i] != 0),
{
    let ghost cells = board.cells@;
    let mut errors: Vec<bool> = vec![false; 81];
    for row in 0..9
        invariant
            board.cells@ == cells,
            cells.len() >= 81,
            forall|i: int| 0 <= i < 81 ==> #[trigger] cells[i] <= 9,
            errors.len() == 81,
            forall|i: int|
                0 <= i < 81 ==> #[trigger] errors@[i] == (i / 9 < row && row_dup(cells, i / 9, i % 9)),
    {
        let g = row_indices(row);
        proof {
            lemma_row_group(cells, row as int);
        }
        check_group(board, g, &mut errors);
    }
    for col in 0..9
        invariant
            board.cells@ == cells,
            cells.len() >= 81,
            forall|i: int| 0 <= i < 81 ==> #[trigger] cells[i] <= 9,
            errors.len() == 81,
            forall|i: int|
                0 <= i < 81 ==> #[trigger] errors@[i] == (row_dup(cells, i / 9, i % 9) || (i % 9 < col
                    && col_dup(cells, i / 9, i % 9))),
    {
        let g = col_indices(col);
        proof {
            lemma_col_group(cells, col as int);
        }
        check_group(board, g, &mut errors);
    }
    for box_row in 0..3
        invariant
            board.cells@ == cells,
            cells.len() >= 81,
            forall|i: int| 0 <= i < 81 ==> #[trigger] cells[i] <= 9,
            errors.len() == 81,
            forall|i: int|
                0 <= i < 81 ==> #[trigger] errors@[i] == (row_dup(cells, i / 9, i % 9) || col_dup(
                    cells,
                    i / 9,
                    i % 9,
                ) || (i / 9 / 3 < box_row && box_dup(cells, i / 9, i % 9))),
    {
        for box_col in 0..3
            invariant
                board.cells@ == cells,
                cells.len() >= 81,
                forall|i: int| 0 <= i < 81 ==> #[trigger] cells[i] <= 9,
                errors.len() == 81,
                box_row < 3,
                forall|i: int|
                    0 <= i < 81 ==> #[trigger] errors@[i] == (row_dup(cells, i / 9, i % 9) || col_dup(
                        cells,
                        i / 9,
                        i % 9,
                    ) || ((i / 9 / 3 < box_row || (i / 9 / 3 == box_row && i % 9 / 3 < box_col))
                        && box_dup(cells, i / 9, i % 9))),
        {
            let g = box_indices(box_row, box_col);
            proof {
                lemma_box_group(cells, box_row as int, box_col as int);
            }
            check_group(board, g, &mut errors);
        }
    }
    assert forall|i: int| 0 <= i < 81 implies #[trigger] errors@[i] == conflict_at(cells, i) by {
        lemma_conflict_split(cells, i / 9, i % 9);
    }
    let mut error_cells: Vec<usize> = Vec::new();
    for i in 0..81
        invariant
            errors.len() == 81,
            forall|j: int| 0 <= j < 81 ==> #[trigger] errors@[j] == conflict_at(cells, j),
            forall|k: int|
                0 <= k < error_cells.len() ==> #[trigger] error_cells@[k] < i && errors@[error_cells@[k] as int],
            forall|a: int, b: int|
                0 <= a < b < error_cells.len() ==> error_cells@[a] < error_cells@[b],
            forall|j: int| 0 <= j < i && #[trigger] errors@[j] ==> error_cells@.contains(j as usize),
    {
        let ghost before = error_cells@;
        if errors[i] {
            error_cells.push(i);
            assert(error_cells@[error_cells.len() - 1] == i);
        }
        assert forall|j: int| 0 <= j < i + 1 && #[trigger] errors@[j] implies error_cells@.contains(
            j as usize,
        ) by {
            if j < i {
                assert(before.contains(j as usize));
                let k = choose|k: int| 0 <= k < before.len() && before[k] == j as usize;
                assert(error_cells@[k] == before[k]);
            }
        }
    }
    let has_errors = error_cells.len() > 0;
    assert forall|i: int| 0 <= i < 81 && #[trigger] conflict_at(cells, i) implies error_cells@.contains(
        i as usize,
    ) by {
        assert(errors@[i]);
    }
    proof {
        lemma_consistent_iff_no_conflict(cells);
        if has_errors {
            assert(conflict_at(cells, error_cells@[0] as int));
        } else {
            assert forall|i: int| 0 <= i < 81 implies !#[trigger] conflict_at(cells, i) by {
                if conflict_at(cells, i) {
                    assert(errors@[i]);
                    assert(error_cells@.contains(i as usize));
                }
            }
        }
    }
    let mut all_filled = true;
    let len = board.cells.len();
    for i in 0..len
        invariant
            board.cells@ == cells,
            len == cells.len(),
            all_filled == (forall|j: int| 0 <= j < i ==> #[trigger] cells[j] != 0),
    {
        if board.cells[i] == 0 {
            all_filled = false;
        }
    }
    let is_complete = !has_errors && all_filled;
    ValidationResult { is_complete, has_errors, error_cells }
}

/// A solution of an 81-cell puzzle whose values are at most 9 can be validated,
/// and validation finds it complete and free of errors.
pub proof fn lemma_solution_validates(puzzle: Seq<u8>, sol: Seq<u8>)
    requires
        puzzle.len() == 81,
        forall|i: int| 0 <= i < 81 ==> #[trigger] puzzle[i] <= 9,
        is_solution(puzzle, sol),
    ensures
        sol.len() == 81,
        forall|i: int| 0 <= i < 81 ==> #[trigger] sol[i] <= 9,
        consistent(sol),
        forall|i: int| 0 <= i < sol.len() ==> #[trigger] sol[i] != 0,
{
    assert forall|i: int| 0 <= i < 81 implies #[trigger] sol[i] <= 9 by {
        if puzzle[i] != 0 {
            assert(sol[i] == puzzle[i]);
        }
    }
}

} // verus!
