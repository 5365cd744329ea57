//! The browser game's state machine: every user action or server reply is an
//! `Action`, and `AppState::reduce` computes the next state from it.

use vstd::prelude::*;
use vstd::string::StringExecFns;
use crate::board::{copy_board, Board, Difficulty, GridView};
use crate::clock::{clock_text, format_time};
use crate::validator::ValidationResult;
use crate::rules::same_unit;

verus! {

/// The status line shown under the controls.
#[derive(Debug, Clone, PartialEq)]
pub enum Message {
    Blank,
    Success(String),
    Error(String),
    Info(String),
}

/// The contents of a status line.
pub enum Notice {
    Blank,
    Success(Seq<char>),
    Error(Seq<char>),
    Info(Seq<char>),
}

impl View for Message {
    type V = Notice;

    open spec fn view(&self) -> Notice {
        match self {
            Message::Blank => Notice::Blank,
            Message::Success(s) => Notice::Success(s@),
            Message::Error(s) => Notice::Error(s@),
            Message::Info(s) => Notice::Info(s@),
        }
    }
}

/// Everything the page shows.
#[derive(Debug, Clone, PartialEq)]
pub struct AppState {
    pub board: Option<Board>,
    pub original: Option<Board>,
    pub selected: Option<usize>,
    pub error_cells: Vec<usize>,
    pub difficulty: Difficulty,
    pub loading: bool,
    pub elapsed_secs: u32,
    pub game_won: bool,
    pub message: Message,
}

/// The contents of an `AppState`.
pub struct GameView {
    pub board: Option<GridView>,
    pub original: Option<GridView>,
    pub selected: Option<usize>,
    pub error_cells: Seq<usize>,
    pub difficulty: Difficulty,
    pub loading: bool,
    pub elapsed_secs: u32,
    pub game_won: bool,
    pub message: Notice,
}

/// The contents of an optional board.
pub open spec fn grid_of(b: Option<Board>) -> Option<GridView> {
    match b {
        Some(b) => Some(b@),
        None => None,
    }
}

impl View for AppState {
    type V = GameView;

    open spec fn view(&self) -> GameView {
        GameView {
            board: grid_of(self.board),
            original: grid_of(self.original),
            selected: self.selected,
            error_cells: self.error_cells@,
            difficulty: self.difficulty,
            loading: self.loading,
            elapsed_secs: self.elapsed_secs,
            game_won: self.game_won,
            message: self.message@,
        }
    }
}

/// What can happen to the page.
pub enum Action {
    SetLoading(bool),
    SetBoard(Board),
    SelectCell(usize),
    EnterDigit(u8),
    SetErrors(Vec<usize>),
    SetWon,
    SetSolved(Board),
    SetMessage(Message),
    SetDifficulty(Difficulty),
    Tick,
    Reset,
}

/// The contents of an `Action`.
pub enum Event {
    SetLoading(bool),
    SetBoard(GridView),
    SelectCell(usize),
    EnterDigit(u8),
    SetErrors(Seq<usize>),
    SetWon,
    SetSolved(GridView),
    SetMessage(Notice),
    SetDifficulty(Difficulty),
    Tick,
    Reset,
}

impl View for Action {
    type V = Event;

    open spec fn view(&self) -> Event {
        match self {
            Action::SetLoading(v) => Event::SetLoading(*v),
            Action::SetBoard(b) => Event::SetBoard(b@),
            Action::SelectCell(i) => Event::SelectCell(*i),
            Action::EnterDigit(d) => Event::EnterDigit(*d),
            Action::SetErrors(e) => Event::SetErrors(e@),
            Action::SetWon => Event::SetWon,
            Action::SetSolved(b) => Event::SetSolved(b@),
            Action::SetMessage(m) => Event::SetMessage(m@),
            Action::SetDifficulty(d) => Event::SetDifficulty(*d),
            Action::Tick => Event::Tick,
            Action::Reset => Event::Reset,
        }
    }
}

/// The clock runs while a game is shown, not won, and no puzzle is loading.
pub open spec fn clock_running(s: GameView) -> bool {
    !s.game_won && s.board is Some && !s.loading
}

/// `board` with every cell that is not a given of `original` cleared.
pub open spec fn reset_grid(board: GridView, original: GridView) -> GridView {
    GridView {
        cells: Seq::new(
            board.cells.len(),
            |i: int|
                if i < 81 && !original.givens[i] {
                    0u8
                } else {
                    board.cells[i]
                },
        ),
        givens: board.givens,
    }
}

/// The state after `e` happens in state `s`.
pub open spec fn step(s: GameView, e: Event) -> GameView {
    match e {
        Event::SetLoading(v) => GameView { loading: v, ..s },
        Event::SetBoard(b) => GameView {
            board: Some(b),
            original: Some(b),
            selected: None,
            error_cells: Seq::empty(),
            loading: false,
            elapsed_secs: 0,
            game_won: false,
            message: Notice::Info("New game started!"@),
            ..s
        },
        Event::SelectCell(idx) => match s.board {
            Some(b) => if !b.givens[idx as int] && !s.game_won {
                GameView { selected: Some(idx), ..s }
            } else {
                s
            },
            None => s,
        },
        Event::EnterDigit(d) => match (s.board, s.selected) {
            (Some(b), Some(idx)) => if !b.givens[idx as int] {
                GameView {
                    board: Some(GridView { cells: b.cells.update(idx as int, d), givens: b.givens }),
                    message: Notice::Blank,
                    ..s
                }
            } else {
                s
            },
            _ => s,
        },
        Event::SetErrors(cells) => GameView {
            error_cells: cells,
            message: if cells.len() > 0 {
                Notice::Error("There are errors on the board."@)
            } else {
                Notice::Info("Looking good so far!"@)
            },
            ..s
        },
        Event::SetWon => GameView {
            game_won: true,
            error_cells: Seq::empty(),
            message: Notice::Success(
                "Congratulations! Solved in "@ + clock_text(s.elapsed_secs as nat) + "!"@,
            ),
            ..s
        },
        Event::SetSolved(b) => GameView {
            board: Some(b),
            error_cells: Seq::empty(),
            game_won: true,
            message: Notice::Info("Board solved for you."@),
            ..s
        },
        Event::SetMessage(m) => GameView { message: m, ..s },
        Event::SetDifficulty(d) => GameView { difficulty: d, ..s },
        Event::Tick => if clock_running(s) {
            GameView { elapsed_secs: (s.elapsed_secs + 1) as u32, ..s }
        } else {
            s
        },
        Event::Reset => match (s.board, s.original) {
            (Some(b), Some(o)) => GameView {
                board: Some(reset_grid(b, o)),
                error_cells: Seq::empty(),
                selected: None,
                message: Notice::Info("Board reset."@),
                ..s
            },
            _ => s,
        },
    }
}

/// `e` can happen in `s` without an index out of range or the clock overflowing.
pub open spec fn step_allowed(s: GameView, e: Event) -> bool {
    match e {
        Event::SelectCell(idx) => match s.board {
            Some(b) => idx < b.givens.len(),
            None => true,
        },
        Event::EnterDigit(_) => match (s.board, s.selected) {
            (Some(b), Some(idx)) => {
                &&& idx < b.givens.len()
                &&& !b.givens[idx as int] ==> idx < b.cells.len()
            },
            _ => true,
        },
        Event::Tick => clock_running(s) ==> s.elapsed_secs < u32::MAX,
        Event::Reset => match (s.board, s.original) {
            (Some(b), Some(o)) => {
                &&& o.givens.len() >= 81
                &&& forall|i: int| 0 <= i < 81 && !#[trigger] o.givens[i] ==> i < b.cells.len()
            },
            _ => true,
        },
        _ => true,
    }
}

impl Default for AppState {
    fn default() -> (s: Self)
        ensures
            s@ == (GameView {
                board: None,
                original: None,
                selected: None,
                error_cells: Seq::empty(),
                difficulty: Difficulty::Easy,
                loading: false,
                elapsed_secs: 0,
                game_won: false,
                message: Notice::Blank,
            }),
    {
        AppState {
            board: None,
            original: None,
            selected: None,
            error_cells: Vec::new(),
            difficulty: Difficulty::Easy,
            loading: false,
            elapsed_secs: 0,
            game_won: false,
            message: Message::Blank,
        }
    }
}

fn reset_fits(board: &Board, original: &Board) -> (ok: bool)
    ensures
        ok == (original.givens.len() >= 81 && forall|i: int|
            0 <= i < 81 && !#[trigger] original.givens@[i] ==> i < board.cells.len()),
{
    if original.givens.len() < 81 {
        return false;
    }
    let n = board.cells.len();
    for i in 0..81
        invariant
            original.givens.len() >= 81,
            n == board.cells.len(),
            forall|j: int| 0 <= j < i && !#[trigger] original.givens@[j] ==> j < n,
    {
        if !original.givens[i] && i >= n {
            return false;
        }
    }
    true
}

fn clear_non_givens(board: &mut Board, original: &Board)
    requires
        original.givens.len() >= 81,
        forall|i: int| 0 <= i < 81 && !#[trigger] original.givens@[i] ==> i < old(board).cells.len(),
    ensures
        final(board)@ == reset_grid(old(board)@, original@),
{
    let ghost start = board.cells@;
    for i in 0..81
        invariant
            original.givens.len() >= 81,
            forall|j: int| 0 <= j < 81 && !#[trigger] original.givens@[j] ==> j < start.len(),
            board.cells.len() == start.len(),
            board.givens@ == old(board).givens@,
            start == old(board).cells@,
            forall|j: int|
                0 <= j < start.len() ==> #[trigger] board.cells@[j] == if j < i && !original.givens@[j] {
                    0u8
                } else {
                    start[j]
                },
    {
        if !original.givens[i] {
            board.cells.set(i, 0);
        }
    }
    assert(board.cells@ =~= reset_grid(old(board)@, original@).cells);
}

impl AppState {
    /// Whether `reduce` accepts `action` in this state: every index it reads is
    /// in range and the clock does not overflow.
    pub fn can_apply(&self, action: &Action) -> (ok: bool)
        ensures
            ok == step_allowed(self@, action@),
    {
        match action {
            Action::SelectCell(idx) => match &self.board {
                Some(b) => *idx < b.givens.len(),
                None => true,
            },
            Action::EnterDigit(_) => match (&self.board, self.selected) {
                (Some(b), Some(idx)) => idx < b.givens.len() && (b.givens[idx] || idx < b.cells.len()),
                _ => true,
            },
            Action::Tick => !(!self.game_won && self.board.is_some() && !self.loading)
                || self.elapsed_secs < u32::MAX,
            Action::Reset => match (&self.board, &self.original) {
                (Some(b), Some(o)) => reset_fits(b, o),
                _ => true,
            },
            _ => true,
        }
    }

    /// Applies one action.
    pub fn reduce(self, action: Action) -> (next: AppState)
        requires
            step_allowed(self@, action@),
        ensures
            next@ == step(self@, action@),
    {
        let AppState {
            mut board,
            mut original,
            mut selected,
            mut error_cells,
            mut difficulty,
            mut loading,
            mut elapsed_secs,
            mut game_won,
            mut message,
        } = self;
        match action {
            Action::SetLoading(v) => {
                loading = v;
            },
            Action::SetBoard(new_board) => {
                board = Some(copy_board(&new_board));
                original = Some(new_board);
                selected = None;
                error_cells = Vec::new();
                loading = false;
                elapsed_secs = 0;
                game_won = false;
                message = Message::Info(String::from_str("New game started!"));
            },
            Action::SelectCell(idx) => {
                if let Some(b) = &board {
                    if !b.givens[idx] && !game_won {
                        selected = Some(idx);
                    }
                }
            },
            Action::EnterDigit(digit) => {
                match (board, selected) {
                    (Some(mut b), Some(idx)) => {
                        if !b.givens[idx] {
                            b.cells.set(idx, digit);
                            message = Message::Blank;
                        }
                        board = Some(b);
                    },
                    (b, _) => {
                        board = b;
                    },
                }
            },
            Action::SetErrors(cells) => {
                error_cells = cells;
                if error_cells.len() > 0 {
                    message = Message::Error(String::from_str("There are errors on the board."));
                } else {
                    message = Message::Info(String::from_str("Looking good so far!"));
                }
            },
            Action::SetWon => {
                game_won = true;
                error_cells = Vec::new();
                let mut text = String::from_str("Congratulations! Solved in ");
                text.append(format_time(elapsed_secs).as_str());
                text.append("!");
                message = Message::Success(text);
            },
            Action::SetSolved(new_board) => {
                board = Some(new_board);
                error_cells = Vec::new();
                game_won = true;
                message = Message::Info(String::from_str("Board solved for you."));
            },
            Action::SetMessage(msg) => {
                message = msg;
            },
            Action::SetDifficulty(diff) => {
                difficulty = diff;
            },
            Action::Tick => {
                if !game_won && board.is_some() && !loading {
                    elapsed_secs += 1;
                }
            },
            Action::Reset => {
                match (board, &original) {
                    (Some(mut b), Some(o)) => {
                        clear_non_givens(&mut b, o);
                        board = Some(b);
                        error_cells = Vec::new();
                        selected = None;
                        message = Message::Info(String::from_str("Board reset."));
                    },
                    (b, _) => {
                        board = b;
                    },
                }
            },
        }
        AppState {
            board,
            original,
            selected,
            error_cells,
            difficulty,
            loading,
            elapsed_secs,
            game_won,
            message,
        }
    }
}

/// What came back from a request to the server.
pub enum Reply<T> {
    /// The server answered with a readable body.
    Received(T),
    /// The server answered, but the body could not be read.
    Unreadable,
    /// The request failed.
    Unreachable,
}

/// The actions a reply to a puzzle request triggers.
pub fn puzzle_reply(reply: Reply<Board>) -> (actions: Vec<Action>)
    ensures
        match reply {
            Reply::Received(b) => actions.len() == 1 && actions@[0]@ == Event::SetBoard(b@),
            Reply::Unreadable => actions.len() == 2 && actions@[0]@ == Event::SetMessage(
                Notice::Error("Failed to parse puzzle."@),
            ) && actions@[1]@ == Event::SetLoading(false),
            Reply::Unreachable => actions.len() == 2 && actions@[0]@ == Event::SetMessage(
                Notice::Error("Network error fetching puzzle."@),
            ) && actions@[1]@ == Event::SetLoading(false),
        },
{
    let mut actions: Vec<Action> = Vec::new();
    match reply {
        Reply::Received(b) => {
            actions.push(Action::SetBoard(b));
        },
        Reply::Unreadable => {
            actions.push(
                Action::SetMessage(Message::Error(String::from_str("Failed to parse puzzle."))),
            );
            actions.push(Action::SetLoading(false));
        },
        Reply::Unreachable => {
            actions.push(
                Action::SetMessage(
                    Message::Error(String::from_str("Network error fetching puzzle.")),
                ),
            );
            actions.push(Action::SetLoading(false));
        },
    }
    actions
}

/// The actions a reply to a validation request triggers: a complete board wins
/// the game, anything else shows its error cells.
pub fn validation_reply(reply: Reply<ValidationResult>) -> (actions: Vec<Action>)
    ensures
        match reply {
            Reply::Received(r) => actions.len() == 1 && actions@[0]@ == if r.is_complete {
                Event::SetWon
            } else {
                Event::SetErrors(r.error_cells@)
            },
            Reply::Unreadable => actions.len() == 0,
            Reply::Unreachable => actions.len() == 1 && actions@[0]@ == Event::SetMessage(
                Notice::Error("Validation request failed."@),
            ),
        },
{
    let mut actions: Vec<Action> = Vec::new();
    match reply {
        Reply::Received(r) => {
            if r.is_complete {
                actions.push(Action::SetWon);
            } else {
                actions.push(Action::SetErrors(r.error_cells));
            }
        },
        Reply::Unreadable => {},
        Reply::Unreachable => {
            actions.push(
                Action::SetMessage(Message::Error(String::from_str("Validation request failed."))),
            );
        },
    }
    actions
}

/// The actions a reply to a solve request triggers.
pub fn solve_reply(reply: Reply<Option<Board>>) -> (actions: Vec<Action>)
    ensures
        match reply {
            Reply::Received(Some(b)) => actions.len() == 1 && actions@[0]@ == Event::SetSolved(b@),
            Reply::Received(None) => actions.len() == 1 && actions@[0]@ == Event::SetMessage(
                Notice::Error("No solution found."@),
            ),
            Reply::Unreadable => actions.len() == 0,
            Reply::Unreachable => actions.len() == 1 && actions@[0]@ == Event::SetMessage(
                Notice::Error("Solve request failed."@),
            ),
        },
{
    let mut actions: Vec<Action> = Vec::new();
    match reply {
        Reply::Received(Some(b)) => {
            actions.push(Action::SetSolved(b));
        },
        Reply::Received(None) => {
            actions.push(Action::SetMessage(Message::Error(String::from_str("No solution found."))));
        },
        Reply::Unreadable => {},
        Reply::Unreachable => {
            actions.push(
                Action::SetMessage(Message::Error(String::from_str("Solve request failed."))),
            );
        },
    }
    actions
}

/// How one cell of the board is drawn.
#[derive(Debug, Clone, Copy, PartialEq, Eq, Structural)]
pub struct CellStyle {
    pub given: bool,
    pub user_input: bool,
    pub empty: bool,
    pub selected: bool,
    pub highlighted: bool,
    pub error: bool,
}

/// The number of the 3×3 box that holds the cell with flat index `i`.
pub open spec fn box_of(i: int) -> int {
    (i / 9 / 3) * 3 + i % 9 / 3
}

/// The style of cell `idx`: given or entered or empty; selected; highlighted
/// when another cell of its row, column or box is selected; marked when listed
/// among `error_cells`.
pub fn cell_style(board: &Board, selected: Option<usize>, error_cells: &Vec<usize>, idx: usize) -> (st: CellStyle)
    requires
        idx < board.cells.len(),
        idx < board.givens.len(),
    ensures
        st.given == board.givens@[idx as int],
        st.user_input == (!st.given && board.cells@[idx as int] != 0),
        st.empty == (!st.given && board.cells@[idx as int] == 0),
        st.selected == (selected == Some(idx)),
        st.highlighted == (!st.selected && match selected {
            Some(s) => s / 9 == idx / 9 || s % 9 == idx % 9 || box_of(s as int) == box_of(idx as int),
            None => false,
        }),
        st.highlighted == (!st.selected && match selected {
            Some(s) => same_unit((s / 9) as int, (s % 9) as int, (idx / 9) as int, (idx % 9) as int),
            None => false,
        }),
        st.error == error_cells@.contains(idx),
{
    let row = idx / 9;
    let col = idx % 9;
    let box_idx = (row / 3) * 3 + (col / 3);
    let val = board.cells[idx];
    let is_given = board.givens[idx];
    let is_selected = match selected {
        Some(s) => s == idx,
        None => false,
    };
    let is_highlighted = !is_selected && match selected {
        Some(s) => s / 9 == row || s % 9 == col || (s / 9 / 3) * 3 + (s % 9 / 3) == box_idx,
        None => false,
    };
    proof {
        if let Some(s) = selected {
            lemma_highlight_is_same_unit(s as int, idx as int);
        }
    }
    let mut is_error = false;
    for k in 0..error_cells.len()
        invariant
            is_error == (exists|j: int| 0 <= j < k && #[trigger] error_cells@[j] == idx),
    {
        if error_cells[k] == idx {
            is_error = true;
        }
    }
    CellStyle {
        given: is_given,
        user_input: !is_given && val != 0,
        empty: !is_given && val == 0,
        selected: is_selected,
        highlighted: is_highlighted,
        error: is_error,
    }
}

/// Only a new or a solved board replaces the board: every other action keeps
/// its givens and the values of its given cells, provided the board marks the
/// same givens as the original puzzle.
pub proof fn lemma_givens_never_edited(s: GameView, e: Event)
    requires
        step_allowed(s, e),
        !(e is SetBoard),
        !(e is SetSolved),
        s.board is Some,
        s.original matches Some(o) ==> forall|i: int|
            0 <= i < 81 ==> #[trigger] o.givens[i] == s.board->Some_0.givens[i],
    ensures
        step(s, e).board matches Some(b2) && {
            let b = s.board->Some_0;
            &&& b2.givens == b.givens
            &&& b2.cells.len() == b.cells.len()
            &&& forall|i: int| 0 <= i < b.cells.len() && i < b.givens.len() && #[trigger] b.givens[i] ==> b2.cells[i] == b.cells[i]
        },
{
}

/// Reset undoes every digit the player entered: on a puzzle whose givens are
/// exactly its filled cells, and a board that still holds those givens, reset
/// gives back the puzzle's cells.
pub proof fn lemma_reset_restores_puzzle(s: GameView)
    requires
        s.board matches Some(b) && b.cells.len() == 81,
        s.original matches Some(o) && o.cells.len() == 81 && o.givens.len() == 81,
        forall|i: int| 0 <= i < 81 ==> #[trigger] s.original->Some_0.givens[i] == (s.original->Some_0.cells[i] != 0),
        forall|i: int| 0 <= i < 81 && #[trigger] s.original->Some_0.givens[i] ==> s.board->Some_0.cells[i] == s.original->Some_0.cells[i],
    ensures
        step_allowed(s, Event::Reset),
        step(s, Event::Reset).board matches Some(b2) && b2.cells == s.original->Some_0.cells,
{
    let b = s.board->Some_0;
    let o = s.original->Some_0;
    assert(reset_grid(b, o).cells =~= o.cells);
}

/// Two cells have the same box number exactly when they lie in the same 3×3
/// box: the same band of three rows and the same stack of three columns.
pub proof fn lemma_box_of_identifies_box(i: int, j: int)
    requires
        0 <= i,
        0 <= j,
    ensures
        box_of(i) == box_of(j) <==> (i / 9 / 3 == j / 9 / 3 && i % 9 / 3 == j % 9 / 3),
{
    let a = i / 9 / 3;
    let b = i % 9 / 3;
    let c = j / 9 / 3;
    let d = j % 9 / 3;
    assert(0 <= b < 3 && 0 <= d < 3);
    if box_of(i) == box_of(j) {
        assert(3 * a + b == 3 * c + d);
        assert(a == c) by {
            if a < c {
                assert(3 * a + b < 3 * c + d);
            } else if a > c {
                assert(3 * a + b > 3 * c + d);
            }
        }
    }
}

/// A cell is highlighted for a selected cell exactly when the two share a row,
/// a column or a 3×3 box.
pub proof fn lemma_highlight_is_same_unit(s: int, idx: int)
    requires
        0 <= s,
        0 <= idx,
    ensures
        (s / 9 == idx / 9 || s % 9 == idx % 9 || box_of(s) == box_of(idx)) <==> same_unit(
            s / 9,
            s % 9,
            idx / 9,
            idx % 9,
        ),
{
    lemma_box_of_identifies_box(s, idx);
}

/// Entering a digit, 0 included (which erases), into a selected cell that is
/// not a given writes exactly that digit there, changes no other cell or given,
/// and clears the message.
pub proof fn lemma_enter_digit_writes(s: GameView, d: u8)
    requires
        s.board is Some,
        s.selected is Some,
        s.selected->Some_0 < s.board->Some_0.givens.len(),
        s.selected->Some_0 < s.board->Some_0.cells.len(),
        !s.board->Some_0.givens[s.selected->Some_0 as int],
    ensures
        step_allowed(s, Event::EnterDigit(d)),
        ({
            let b = s.board->Some_0;
            let idx = s.selected->Some_0 as int;
            let n = step(s, Event::EnterDigit(d));
            &&& n.board is Some
            &&& n.board->Some_0.givens == b.givens
            &&& n.board->Some_0.cells.len() == b.cells.len()
            &&& n.board->Some_0.cells[idx] == d
            &&& forall|j: int|
                0 <= j < b.cells.len() && j != idx ==> #[trigger] n.board->Some_0.cells[j] == b.cells[j]
            &&& n.message == Notice::Blank
            &&& n.selected == s.selected
        }),
{
}

} // verus!
