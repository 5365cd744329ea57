//! The 9×9 board and the difficulty levels.

use vstd::prelude::*;
use vstd::string::StringExecFns;

verus! {

/// A single cell value: 1-9, or 0 meaning empty.
pub type CellValue = u8;

/// 9×9 board stored as a flat Vec of 81 cells, row-major order.
/// Index = row * 9 + col. Value 0 = empty.
#[derive(Debug, Clone, PartialEq, Eq)]
pub struct Board {
    /// Current cell values (0 = empty, 1-9 = digit).
    pub cells: Vec<CellValue>,
    /// Mask: true if the cell is a "given" (part of the puzzle as generated, not editable).
    pub givens: Vec<bool>,
}

/// The empty grid: 81 zeros.
pub open spec fn empty_cells() -> Seq<u8> {
    Seq::new(81, |i: int| 0u8)
}

/// The mask of a board with no givens: 81 times `false`.
pub open spec fn no_givens() -> Seq<bool> {
    Seq::new(81, |i: int| false)
}

/// The contents of a board.
pub struct GridView {
    pub cells: Seq<u8>,
    pub givens: Seq<bool>,
}

impl View for Board {
    type V = GridView;

    open spec fn view(&self) -> GridView {
        GridView { cells: self.cells@, givens: self.givens@ }
    }
}

impl Board {
    /// Both vectors hold exactly one entry per cell.
    pub open spec fn wf(&self) -> bool {
        &&& self.cells.len() == 81
        &&& self.givens.len() == 81
    }

    /// An empty board: every cell 0, no givens.
    pub fn new() -> (b: Self)
        ensures
            b.wf(),
            b.cells@ == empty_cells(),
            b.givens@ == no_givens(),
    {
        Self::default()
    }

    /// The value at (`row`, `col`).
    pub fn get(&self, row: usize, col: usize) -> (v: CellValue)
        requires
            row * 9 + col < self.cells.len(),
        ensures
            v == self.cells@[row * 9 + col],
    {
        self.cells[row * 9 + col]
    }

    /// Writes `val` at (`row`, `col`); nothing else changes.
    pub fn set(&mut self, row: usize, col: usize, val: CellValue)
        requires
            row * 9 + col < old(self).cells.len(),
        ensures
            final(self).cells@ == old(self).cells@.update(row * 9 + col, val),
            final(self).givens@ == old(self).givens@,
    {
        self.cells.set(row * 9 + col, val);
    }

    /// Whether (`row`, `col`) is part of the puzzle as generated.
    pub fn is_given(&self, row: usize, col: usize) -> (g: bool)
        requires
            row * 9 + col < self.givens.len(),
        ensures
            g == self.givens@[row * 9 + col],
    {
        self.givens[row * 9 + col]
    }
}

/// Copies a board value by value.
pub(crate) fn copy_board(board: &Board) -> (copy: Board)
    ensures
        copy.cells@ == board.cells@,
        copy.givens@ == board.givens@,
{
    let cells = board.cells.clone();
    let givens = board.givens.clone();
    assert(cells@ =~= board.cells@);
    assert(givens@ =~= board.givens@);
    Board { cells, givens }
}

impl Default for Board {
    fn default() -> (b: Self)
        ensures
            b.wf(),
            b.cells@ == empty_cells(),
            b.givens@ == no_givens(),
    {
        let cells: Vec<CellValue> = vec![0; 81];
        let givens: Vec<bool> = vec![false; 81];
        assert(cells@ == empty_cells());
        assert(givens@ == no_givens());
        Board { cells, givens }
    }
}

/// How hard a generated puzzle is.
#[derive(Debug, Clone, Copy, PartialEq, Eq, Structural)]
pub enum Difficulty {
    Easy,
    Medium,
    Hard,
}

/// How many cells a puzzle of difficulty `d` leaves empty.
pub open spec fn removal_count(d: Difficulty) -> nat {
    match d {
        Difficulty::Easy => 36,
        Difficulty::Medium => 46,
        Difficulty::Hard => 52,
    }
}

/// The position of `d` in the order Easy, Medium, Hard.
pub open spec fn level(d: Difficulty) -> int {
    match d {
        Difficulty::Easy => 0,
        Difficulty::Medium => 1,
        Difficulty::Hard => 2,
    }
}

/// A harder difficulty empties more cells, so its puzzles have fewer givens;
/// no difficulty empties more than the 81 cells of the grid.
pub proof fn lemma_harder_fewer_givens(easier: Difficulty, harder: Difficulty)
    requires
        level(easier) <= level(harder),
    ensures
        removal_count(easier) <= removal_count(harder) <= 81,
        81 - removal_count(harder) <= 81 - removal_count(easier),
{
}

/// The difficulty whose lowercase name is `name`, if any.
pub open spec fn difficulty_named(name: Seq<char>) -> Option<Difficulty> {
    if name == "easy"@ {
        Some(Difficulty::Easy)
    } else if name == "medium"@ {
        Some(Difficulty::Medium)
    } else if name == "hard"@ {
        Some(Difficulty::Hard)
    } else {
        None
    }
}

/// Each difficulty has a name, and no two names name the same difficulty.
pub proof fn lemma_difficulty_names(n1: Seq<char>, n2: Seq<char>, d: Difficulty)
    ensures
        exists|n: Seq<char>| #[trigger] difficulty_named(n) == Some(d),
        difficulty_named(n1) == Some(d) && difficulty_named(n2) == Some(d) ==> n1 == n2,
{
    match d {
        Difficulty::Easy => assert(difficulty_named("easy"@) == Some(d)),
        Difficulty::Medium => {
            reveal_strlit("easy");
            reveal_strlit("medium");
            assert("medium"@ != "easy"@) by {
                assert("medium"@.len() != "easy"@.len());
            }
            assert(difficulty_named("medium"@) == Some(d));
        },
        Difficulty::Hard => {
            reveal_strlit("easy");
            reveal_strlit("medium");
            reveal_strlit("hard");
            assert("hard"@ != "easy"@) by {
                assert("hard"@[0] != "easy"@[0]);
            }
            assert("hard"@ != "medium"@) by {
                assert("hard"@.len() != "medium"@.len());
            }
            assert(difficulty_named("hard"@) == Some(d));
        },
    }
}

/// The characters that `str::to_lowercase` returns for the characters `s`.
pub uninterp spec fn lowercase(s: Seq<char>) -> Seq<char>;

/// Calls `str::to_lowercase`. Trusted: the result is `lowercase` of the argument's
/// characters; which characters that mapping gives (Unicode's lowercase tables) is
/// not stated.
#[verifier::external_body]
fn to_lowercase(s: &str) -> (lower: String)
    ensures
        lower@ == lowercase(s@),
{
    s.to_lowercase()
}

impl Difficulty {
    /// Number of cells to *remove* from a fully solved board.
    pub fn cells_to_remove(self) -> (n: usize)
        ensures
            n == removal_count(self),
    {
        match self {
            Difficulty::Easy => 36,
            Difficulty::Medium => 46,
            Difficulty::Hard => 52,
        }
    }

    /// Reads a difficulty from its name, in any letter case; an unknown name is
    /// an error that quotes the lowercased name.
    pub fn from_name(s: &str) -> (r: Result<Difficulty, String>)
        ensures
            difficulty_named(lowercase(s@)) matches Some(d) ==> r == Ok::<Difficulty, String>(d),
            difficulty_named(lowercase(s@)) is None ==> (r matches Err(msg) && msg@
                == "unknown difficulty: "@ + lowercase(s@)),
    {
        let lower = to_lowercase(s);
        Difficulty::from_lowercase(lower.as_str())
    }

    /// Reads a difficulty from an already lowercased name; an unknown name is an
    /// error that quotes it.
    pub fn from_lowercase(lower: &str) -> (r: Result<Difficulty, String>)
        ensures
            difficulty_named(lower@) matches Some(d) ==> r == Ok::<Difficulty, String>(d),
            difficulty_named(lower@) is None ==> (r matches Err(msg) && msg@ == "unknown difficulty: "@
                + lower@),
    {
        let lower = String::from_str(lower);
        if lower == String::from_str("easy") {
            Ok(Difficulty::Easy)
        } else if lower == String::from_str("medium") {
            Ok(Difficulty::Medium)
        } else if lower == String::from_str("hard") {
            Ok(Difficulty::Hard)
        } else {
            let mut msg = String::from_str("unknown difficulty: ");
            msg.append(lower.as_str());
            Err(msg)
        }
    }
}

impl std::str::FromStr for Difficulty {
    type Err = String;

    fn from_str(s: &str) -> (r: Result<Self, Self::Err>)
        ensures
            difficulty_named(lowercase(s@)) matches Some(d) ==> r == Ok::<Difficulty, String>(d),
            difficulty_named(lowercase(s@)) is None ==> (r matches Err(msg) && msg@
                == "unknown difficulty: "@ + lowercase(s@)),
    {
        Difficulty::from_name(s)
    }
}

} // verus!
