use vstd::prelude::*;

use crate::grid::{unsolve_board, unsolved};
use crate::solver::{
    first_fill, givens_consistent, solvable, solve_board, trace, valid_completion, GameState, Shown,
    StepObserver,
};

verus! {

/// A command of the editor, with its coordinates and value counted from 1.
pub enum Command {
    Enter { row: i32, col: i32, val: i32 },
    Delete { row: i32, col: i32 },
    Reset,
    Solve,
    Visualize,
    Unsolve,
    Quit,
}

/// The kind of a command, as the user types it in one letter.
pub enum CommandKind {
    Enter,
    Delete,
    Reset,
    Solve,
    Visualize,
    Unsolve,
    Quit,
}

/// Reads a command letter: `E`, `D`, `R`, `S`, `V`, `U` or `Q`, upper case
/// only; any other character is no command.
pub fn command_kind(c: char) -> (r: Option<CommandKind>)
    ensures
        c == 'E' <==> r == Some(CommandKind::Enter),
        c == 'D' <==> r == Some(CommandKind::Delete),
        c == 'R' <==> r == Some(CommandKind::Reset),
        c == 'S' <==> r == Some(CommandKind::Solve),
        c == 'V' <==> r == Some(CommandKind::Visualize),
        c == 'U' <==> r == Some(CommandKind::Unsolve),
        c == 'Q' <==> r == Some(CommandKind::Quit),
{
    match c {
        'E' => Some(CommandKind::Enter),
        'D' => Some(CommandKind::Delete),
        'R' => Some(CommandKind::Reset),
        'S' => Some(CommandKind::Solve),
        'V' => Some(CommandKind::Visualize),
        'U' => Some(CommandKind::Unsolve),
        'Q' => Some(CommandKind::Quit),
        _ => None,
    }
}

/// A row, a column or a value as the user enters it: from 1 to 9.
pub open spec fn entry_ok(n: int) -> bool {
    1 <= n <= 9
}

/// Whether `n` is accepted as a row, a column or a value.
pub fn valid_entry(n: i32) -> (r: bool)
    ensures
        r == entry_ok(n as int),
{
    1 <= n && n <= 9
}

/// Index of the cell at row `row` and column `col`, both counted from 1.
pub open spec fn entry_index(row: int, col: int) -> int {
    (row - 1) * 9 + col - 1
}

/// Sets the cell at (`row`, `col`), counted from 1, to `val` and marks it as
/// a given.
pub fn add_number(board: &mut [i32; 81], constant_map: &mut [bool; 81], row: i32, col: i32, val: i32)
    requires
        entry_ok(row as int),
        entry_ok(col as int),
    ensures
        final(board)@ == old(board)@.update(entry_index(row as int, col as int), val),
        final(constant_map)@ == old(constant_map)@.update(entry_index(row as int, col as int), true),
{
    let i: usize = ((row - 1) * 9 + col - 1) as usize;
    board[i] = val;
    constant_map[i] = true;
}

/// Clears the cell at (`row`, `col`), counted from 1, and unmarks it.
pub fn delete_number(board: &mut [i32; 81], constant_map: &mut [bool; 81], row: i32, col: i32)
    requires
        entry_ok(row as int),
        entry_ok(col as int),
    ensures
        final(board)@ == old(board)@.update(entry_index(row as int, col as int), 0),
        final(constant_map)@ == old(constant_map)@.update(entry_index(row as int, col as int), false),
{
    let i: usize = ((row - 1) * 9 + col - 1) as usize;
    board[i] = 0;
    constant_map[i] = false;
}

/// Clears every cell and every given mark.
pub fn reset_board(board: &mut [i32; 81], constant_map: &mut [bool; 81])
    ensures
        forall|i: int| 0 <= i < 81 ==> final(board)@[i] == 0 && !final(constant_map)@[i],
{
    *board = [0; 81];
    *constant_map = [false; 81];
}

/// After the news that the grid was solved, the editor waits for entry.
pub fn is_solved(state: &mut GameState)
    ensures
        *final(state) is WaitingEntry,
{
    *state = GameState::WaitingEntry;
}

/// After the news that the grid has no solution, the editor waits for entry.
pub fn no_solution(state: &mut GameState)
    ensures
        *final(state) is WaitingEntry,
{
    *state = GameState::WaitingEntry;
}

/// Whether a command's coordinates and value are all accepted entries.
pub open spec fn command_ok(cmd: Command) -> bool {
    match cmd {
        Command::Enter { row, col, val } => entry_ok(row as int) && entry_ok(col as int)
            && entry_ok(val as int),
        Command::Delete { row, col } => entry_ok(row as int) && entry_ok(col as int),
        _ => true,
    }
}

/// Carries out one command on the grid, its given marks and the state.
pub fn apply_command<O: StepObserver>(
    board: &mut [i32; 81],
    constant_map: &mut [bool; 81],
    state: &mut GameState,
    cmd: Command,
    observer: &mut Shown<O>,
)
    requires
        command_ok(cmd),
    ensures
        match cmd {
            Command::Enter { row, col, val } => {
                &&& final(board)@ == old(board)@.update(entry_index(row as int, col as int), val)
                &&& final(constant_map)@ == old(constant_map)@.update(
                    entry_index(row as int, col as int),
                    true,
                )
                &&& *final(state) == *old(state)
                &&& *final(observer) == *old(observer)
            },
            Command::Delete { row, col } => {
                &&& final(board)@ == old(board)@.update(entry_index(row as int, col as int), 0)
                &&& final(constant_map)@ == old(constant_map)@.update(
                    entry_index(row as int, col as int),
                    false,
                )
                &&& *final(state) == *old(state)
                &&& *final(observer) == *old(observer)
            },
            Command::Reset => {
                &&& forall|i: int|
                    0 <= i < 81 ==> final(board)@[i] == 0 && !final(constant_map)@[i]
                &&& *final(state) == *old(state)
                &&& *final(observer) == *old(observer)
            },
            Command::Solve | Command::Visualize => {
                &&& final(constant_map)@ == old(constant_map)@
                &&& (cmd is Visualize && givens_consistent(old(board)@)
                    ==> final(observer).frames@ == old(observer).frames@ + trace(old(board)@))
                &&& (!(cmd is Visualize && givens_consistent(old(board)@)) ==> *final(observer)
                    == *old(observer))
                &&& (*final(state) is Solved <==> solvable(old(board)@))
                &&& (*final(state) is Solved || *final(state) is NotSolvable)
                &&& (*final(state) is Solved ==> valid_completion(final(board)@, old(board)@)
                    && first_fill(final(board)@, old(board)@))
                &&& (*final(state) is NotSolvable ==> final(board)@ == old(board)@)
            },
            Command::Unsolve => {
                &&& final(board)@ == unsolved(old(board)@, old(constant_map)@)
                &&& final(constant_map)@ == old(constant_map)@
                &&& *final(state) == *old(state)
                &&& *final(observer) == *old(observer)
            },
            Command::Quit => {
                &&& final(board)@ == old(board)@
                &&& final(constant_map)@ == old(constant_map)@
                &&& *final(state) is Quit
                &&& *final(observer) == *old(observer)
            },
        },
{
    match cmd {
        Command::Enter { row, col, val } => add_number(board, constant_map, row, col, val),
        Command::Delete { row, col } => delete_number(board, constant_map, row, col),
        Command::Reset => reset_board(board, constant_map),
        Command::Solve => solve_board(board, *constant_map, state, false, observer),
        Command::Visualize => solve_board(board, *constant_map, state, true, observer),
        Command::Unsolve => unsolve_board(board, *constant_map),
        Command::Quit => {
            *state = GameState::Quit;
        },
    }
}

} // verus!
