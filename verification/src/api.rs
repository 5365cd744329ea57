//! What the web service computes for its puzzle and solve endpoints.

use vstd::prelude::*;
use crate::board::{difficulty_named, lowercase, removal_count, Board, Difficulty};
use crate::generator::{generate, num_givens};
use crate::rules::{consistent, has_solution, is_solution};
use crate::solver::{num_empty, solve};

verus! {

/// The difficulty a request names, with `medium` when it names none and
/// `Medium` when the name is unknown.
pub open spec fn difficulty_for(requested: Option<Seq<char>>) -> Difficulty {
    let name = match requested {
        Some(n) => n,
        None => "medium"@,
    };
    match difficulty_named(lowercase(name)) {
        Some(d) => d,
        None => Difficulty::Medium,
    }
}

/// A request that names a difficulty, in any letter case, gets that difficulty;
/// one that names none that exists gets `Medium`.
pub proof fn lemma_requested_difficulty(s: Seq<char>, d: Difficulty)
    ensures
        difficulty_named(lowercase(s)) == Some(d) ==> difficulty_for(Some(s)) == d,
        difficulty_named(lowercase(s)) is None ==> difficulty_for(Some(s)) == Difficulty::Medium,
{
}

/// The difficulty of a puzzle request.
pub fn puzzle_difficulty(requested: Option<&str>) -> (d: Difficulty)
    ensures
        d == difficulty_for(
            match requested {
                Some(s) => Some(s@),
                None => None,
            },
        ),
{
    let name = match requested {
        Some(s) => s,
        None => "medium",
    };
    match Difficulty::from_name(name) {
        Ok(d) => d,
        Err(_) => Difficulty::Medium,
    }
}

/// A new puzzle for a request, and the difficulty it was made at.
pub fn new_puzzle(requested: Option<&str>) -> (res: (Board, Difficulty))
    ensures
        res.1 == difficulty_for(
            match requested {
                Some(s) => Some(s@),
                None => None,
            },
        ),
        res.0.wf(),
        forall|i: int| 0 <= i < 81 ==> #[trigger] res.0.givens@[i] == (res.0.cells@[i] != 0),
        forall|i: int| 0 <= i < 81 ==> #[trigger] res.0.cells@[i] <= 9,
        num_empty(res.0.cells@, 81) == removal_count(res.1),
        num_givens(res.0.givens@, 81) == 81 - removal_count(res.1),
        consistent(res.0.cells@),
        has_solution(res.0.cells@),
{
    let difficulty = puzzle_difficulty(requested);
    let board = generate(difficulty);
    (board, difficulty)
}

/// A solution of the board, or `None` when it has none.
pub fn solution_of(board: Board) -> (res: Option<Board>)
    requires
        board.cells.len() >= 81,
    ensures
        res is Some <==> has_solution(board.cells@),
        res matches Some(b) ==> b.givens@ == board.givens@ && is_solution(board.cells@, b.cells@),
{
    let mut board = board;
    if solve(&mut board) {
        Some(board)
    } else {
        None
    }
}

} // verus!
