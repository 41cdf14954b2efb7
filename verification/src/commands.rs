//! The session protocol: the typed commands a session may issue, the text
//! grammar they are parsed from, and the dispatch of a command against the
//! session's board.

use vstd::prelude::*;

use crate::board::cell_index;
use crate::board::count_occupied;
use crate::board::spec_complete_after;
use crate::board::spec_hit_cells;
use crate::board::spec_hit_result;
use crate::board::Board;
use crate::board::BoardConfig;
use crate::geometry::in_grid;
use crate::geometry::Position;
use crate::ship::fleet_size;

verus! {

/// A parsed session command.
#[derive(PartialEq, Eq, Structural, Clone, Copy, Debug, Hash)]
pub enum GameCommand {
    /// Begin a new game on a randomly populated board.
    StartGame,
    /// Fire at the given coordinates of the current board.
    Cell(i32, i32),
    /// End the session.
    Quit,
    /// Anything that matched no rule of the grammar.
    InvalidCommand,
}

/// What dispatching one command yields, for the outer layer to serialize.
pub enum CommandResult {
    Success(String),
    Failure(String),
    Message(String),
    /// The game just ended; the score is a placeholder, always zero here.
    GameComplete(i32),
    /// A freshly set up board for the session to adopt.
    NewBoard(Board),
    /// Nothing to do.
    Nothing,
    Quit,
}

/// Whether `c` is a decimal digit.
pub open spec fn is_digit(c: char) -> bool {
    48 <= c as u32 <= 57
}

/// The value of a decimal digit character.
pub open spec fn digit_val(c: char) -> int {
    c as u32 - 48
}

/// The shot grammar: exactly `CELL:[x,y]` with two single digits.
pub open spec fn is_cell_command(s: Seq<char>) -> bool {
    &&& s.len() == 10
    &&& s[0] == 'C'
    &&& s[1] == 'E'
    &&& s[2] == 'L'
    &&& s[3] == 'L'
    &&& s[4] == ':'
    &&& s[5] == '['
    &&& is_digit(s[6])
    &&& s[7] == ','
    &&& is_digit(s[8])
    &&& s[9] == ']'
}

/// Character-for-character string comparison.
fn str_equal(a: &str, b: &str) -> (r: bool)
    ensures
        r == (a@ == b@),
{
    let na = a.unicode_len();
    let nb = b.unicode_len();
    if na != nb {
        return false;
    }
    let mut i: usize = 0;
    while i < na
        invariant
            na == a@.len(),
            na == b@.len(),
            i <= na,
            forall|j: int| 0 <= j < i ==> a@[j] == b@[j],
        decreases na - i,
    {
        if a.get_char(i) != b.get_char(i) {
            return false;
        }
        i = i + 1;
    }
    proof {
        assert(a@ =~= b@);
    }
    true
}

/// Parse one line of session text into a command: `STARTGAME`, a shot
/// `CELL:[x,y]` with single-digit coordinates, `QUIT`, or nothing
/// recognizable.
pub fn command_parser(cmd: &str) -> (r: GameCommand)
    ensures
        cmd@ == "STARTGAME"@ ==> r == GameCommand::StartGame,
        is_cell_command(cmd@) ==> r == GameCommand::Cell(
            digit_val(cmd@[6]) as i32,
            digit_val(cmd@[8]) as i32,
        ),
        cmd@ == "QUIT"@ ==> r == GameCommand::Quit,
        cmd@ != "STARTGAME"@ && !is_cell_command(cmd@) && cmd@ != "QUIT"@ ==> r
            == GameCommand::InvalidCommand,
{
    proof {
        reveal_strlit("STARTGAME");
        reveal_strlit("QUIT");
    }
    if str_equal(cmd, "STARTGAME") {
        return GameCommand::StartGame;
    }
    if cmd.unicode_len() == 10 {
        let c0 = cmd.get_char(0);
        let c1 = cmd.get_char(1);
        let c2 = cmd.get_char(2);
        let c3 = cmd.get_char(3);
        let c4 = cmd.get_char(4);
        let c5 = cmd.get_char(5);
        let c6 = cmd.get_char(6) as u32;
        let c7 = cmd.get_char(7);
        let c8 = cmd.get_char(8) as u32;
        let c9 = cmd.get_char(9);
        if c0 == 'C' && c1 == 'E' && c2 == 'L' && c3 == 'L' && c4 == ':' && c5 == '[' && 48 <= c6
            && c6 <= 57 && c7 == ',' && 48 <= c8 && c8 <= 57 && c9 == ']' {
            let x: i32 = (c6 - 48) as i32;
            let y: i32 = (c8 - 48) as i32;
            return GameCommand::Cell(x, y);
        }
    }
    if str_equal(cmd, "QUIT") {
        return GameCommand::Quit;
    }
    GameCommand::InvalidCommand
}

/// Dispatch one parsed command against the session's board (present or
/// not): start a fresh game, resolve a shot, quit, or do nothing. The board
/// is only ever replaced by the caller adopting a `NewBoard` result; a shot
/// mutates it in place exactly as `Board::hit_cell` says.
pub fn command_handler(board: &mut Option<Board>, cmd: GameCommand) -> (r: CommandResult)
    requires
        *old(board) matches Some(b) ==> b.wf(),
        *old(board) matches Some(b) ==> (cmd matches GameCommand::Cell(x, y) ==> (in_grid(
            Position { x, y },
        ) ==> b.cells@[cell_index(Position { x, y })].hitcount < usize::MAX)),
    ensures
        *final(board) matches Some(b2) ==> b2.wf(),
        cmd == GameCommand::StartGame ==> ({
            &&& *final(board) == *old(board)
            &&& (r matches CommandResult::NewBoard(nb) ==> nb.wf() && nb.ships@.len() == 4
                && count_occupied(nb.cells@) == fleet_size() && nb.progress_hits == 0
                && nb.progress_occupied == 0 && !nb.game_complete && forall|i: int|
                0 <= i < nb.cells@.len() ==> (#[trigger] nb.cells@[i]).hitcount == 0)
            &&& (r is NewBoard || r is Nothing)
        }),
        cmd matches GameCommand::Cell(x, y) ==> ({
            &&& (*old(board) is None ==> *final(board) is None && (r matches CommandResult::Failure(
                m,
            ) && m@ == "No game started yet."@))
            &&& (*old(board) matches Some(b) ==> ({
                let p = Position { x, y };
                let hit = spec_hit_result(b.cells@, p);
                &&& *final(board) matches Some(b2)
                &&& (in_grid(p) ==> b2.cells@ == spec_hit_cells(b.cells@, p) && b2.game_complete
                    == spec_complete_after(b2.cells@, b.game_complete))
                &&& (!in_grid(p) ==> b2 == b)
                &&& ((hit && b2.game_complete) ==> r == CommandResult::GameComplete(0))
                &&& ((hit && !b2.game_complete) ==> (r matches CommandResult::Success(m) && m@
                    == "HIT"@))
                &&& (!hit ==> (r matches CommandResult::Failure(m) && m@ == "MISS"@))
            }))
        }),
        cmd == GameCommand::Quit ==> r is Quit && *final(board) == *old(board),
        cmd == GameCommand::InvalidCommand ==> r is Nothing && *final(board) == *old(board),
{
    match cmd {
        GameCommand::StartGame => {
            let mut board_new = Board::new();
            let outcome = board_new.setup(BoardConfig::Auto);
            match outcome {
                Ok(_) => CommandResult::NewBoard(board_new),
                Err(_) => CommandResult::Nothing,
            }
        },
        GameCommand::Cell(x, y) => {
            match &mut *board {
                Option::None => CommandResult::Failure("No game started yet.".to_owned()),
                Option::Some(b) => {
                    let result = b.hit_cell(Position { x, y });
                    if result {
                        if b.is_game_complete() {
                            CommandResult::GameComplete(0)
                        } else {
                            CommandResult::Success("HIT".to_owned())
                        }
                    } else {
                        CommandResult::Failure("MISS".to_owned())
                    }
                },
            }
        },
        GameCommand::Quit => CommandResult::Quit,
        GameCommand::InvalidCommand => CommandResult::Nothing,
    }
}

} // verus!
