use smort::session::{
    add_number, apply_command, command_kind, delete_number, is_solved, no_solution, reset_board,
    valid_entry, Command, CommandKind,
};
use smort::solver::{GameState, NoDisplay, Shown};

#[test]
fn command_letters() {
    assert!(matches!(command_kind('E'), Some(CommandKind::Enter)));
    assert!(matches!(command_kind('D'), Some(CommandKind::Delete)));
    assert!(matches!(command_kind('R'), Some(CommandKind::Reset)));
    assert!(matches!(command_kind('S'), Some(CommandKind::Solve)));
    assert!(matches!(command_kind('V'), Some(CommandKind::Visualize)));
    assert!(matches!(command_kind('U'), Some(CommandKind::Unsolve)));
    assert!(matches!(command_kind('Q'), Some(CommandKind::Quit)));
    assert!(command_kind('e').is_none());
    assert!(command_kind('X').is_none());
}

#[test]
fn entry_range() {
    assert!(!valid_entry(0));
    assert!(valid_entry(1));
    assert!(valid_entry(9));
    assert!(!valid_entry(10));
    assert!(!valid_entry(-3));
}

#[test]
fn add_then_delete_number() {
    let mut board = [0i32; 81];
    let mut map = [false; 81];
    add_number(&mut board, &mut map, 2, 3, 7);
    assert_eq!(board[9 + 2], 7);
    assert!(map[9 + 2]);
    assert_eq!(board.iter().filter(|v| **v != 0).count(), 1);
    delete_number(&mut board, &mut map, 2, 3);
    assert_eq!(board, [0; 81]);
    assert_eq!(map, [false; 81]);
}

#[test]
fn add_number_corners() {
    let mut board = [0i32; 81];
    let mut map = [false; 81];
    add_number(&mut board, &mut map, 1, 1, 4);
    add_number(&mut board, &mut map, 9, 9, 8);
    assert_eq!(board[0], 4);
    assert_eq!(board[80], 8);
    assert!(map[0] && map[80]);
}

#[test]
fn reset_clears_board_and_givens() {
    let mut board = [0i32; 81];
    let mut map = [false; 81];
    add_number(&mut board, &mut map, 5, 5, 5);
    reset_board(&mut board, &mut map);
    assert_eq!(board, [0; 81]);
    assert_eq!(map, [false; 81]);
}

#[test]
fn status_returns_to_waiting() {
    let mut state = GameState::Solved;
    is_solved(&mut state);
    assert!(matches!(state, GameState::WaitingEntry));
    let mut state = GameState::NotSolvable;
    no_solution(&mut state);
    assert!(matches!(state, GameState::WaitingEntry));
}

#[test]
fn commands_drive_a_session() {
    let mut board = [0i32; 81];
    let mut map = [false; 81];
    let mut state = GameState::WaitingEntry;
    apply_command(&mut board, &mut map, &mut state, Command::Enter { row: 1, col: 1, val: 9 }, &mut Shown::new(NoDisplay));
    assert_eq!(board[0], 9);
    assert!(matches!(state, GameState::WaitingEntry));
    apply_command(&mut board, &mut map, &mut state, Command::Solve, &mut Shown::new(NoDisplay));
    assert!(matches!(state, GameState::Solved));
    assert_eq!(board[0], 9);
    assert!(board.iter().all(|v| (1..=9).contains(v)));
    apply_command(&mut board, &mut map, &mut state, Command::Unsolve, &mut Shown::new(NoDisplay));
    assert_eq!(board[0], 9);
    assert_eq!(board.iter().filter(|v| **v != 0).count(), 1);
    apply_command(&mut board, &mut map, &mut state, Command::Delete { row: 1, col: 1 }, &mut Shown::new(NoDisplay));
    assert_eq!(board, [0; 81]);
    apply_command(&mut board, &mut map, &mut state, Command::Quit, &mut Shown::new(NoDisplay));
    assert!(matches!(state, GameState::Quit));
}

#[test]
fn reset_command_clears_givens() {
    let mut board = [0i32; 81];
    let mut map = [false; 81];
    let mut state = GameState::WaitingEntry;
    apply_command(&mut board, &mut map, &mut state, Command::Enter { row: 3, col: 4, val: 2 }, &mut Shown::new(NoDisplay));
    apply_command(&mut board, &mut map, &mut state, Command::Reset, &mut Shown::new(NoDisplay));
    assert_eq!(board, [0; 81]);
    assert_eq!(map, [false; 81]);
}
