//! The play engine: applies one play to a board while enforcing
//! first-move safety and the terminal-state rules, and reports the
//! outcome of each turn.
use crate::board::Board;
use crate::board::Cell;
use crate::board::CellContent;
use crate::board::CellVis;
use crate::board::board_idx;
use crate::board::cell_at;
use crate::board::count_mines;
use crate::board::is_mine;
use crate::board::same_contents;
use crate::board::spec_won;
use crate::board::toggled_vis;
use crate::board::vis_monotone;
use vstd::prelude::*;

verus! {

/// What a play does: open a cell, or toggle a flag on it.
#[derive(Clone, Copy, PartialEq, Eq, Structural, Debug)]
pub enum PlayKind {
    Open,
    Flag,
}

/// One player input: a coordinate and the action to take there.
#[derive(Clone, Copy, PartialEq, Eq, Structural, Debug)]
pub struct Play {
    pub x: usize,
    pub y: usize,
    pub action: PlayKind,
}

/// The persisted state of a game: in progress, or finished one way or
/// the other. A finished game accepts no further plays.
#[derive(Clone, Copy, PartialEq, Eq, Structural, Debug)]
pub enum GameStatus {
    InProgress,
    Won,
    Lost,
}

/// The result of one accepted play. `Lost` carries the coordinate of
/// the mine that was opened.
#[derive(Clone, Copy, PartialEq, Eq, Structural, Debug)]
pub enum GameOutcome {
    Continuing,
    Won,
    Lost(usize, usize),
}

/// Rejected plays: a coordinate off the grid, or a play against a
/// finished game. Either way the board and status are left untouched.
#[derive(Clone, Copy, PartialEq, Eq, Structural, Debug)]
pub enum PlayError {
    OutOfBounds,
    GameAlreadyOver,
}

/// The status a board carries after a turn with the given outcome.
pub open spec fn status_after(o: GameOutcome) -> GameStatus {
    match o {
        GameOutcome::Continuing => GameStatus::InProgress,
        GameOutcome::Won => GameStatus::Won,
        GameOutcome::Lost(_, _) => GameStatus::Lost,
    }
}

/// Apply one play to a board in progress.
///
/// A play against a finished game fails with `GameAlreadyOver`, an
/// off-grid coordinate with `OutOfBounds`; both leave board and status
/// untouched. A flag play toggles the flag and always continues. An
/// open play first runs the deferred mine placement if this is the
/// first open (so it can never lose), then reveals: a flagged or
/// already opened target changes no visibility; an opened mine loses
/// and reveals every mine; otherwise the game is won exactly when every
/// safe cell has been opened.
pub fn apply(board: &mut Board, status: &mut GameStatus, play: Play) -> (r: Result<
    GameOutcome,
    PlayError,
>)
    requires
        old(board).wf(),
    ensures
        (r == Err::<GameOutcome, PlayError>(PlayError::GameAlreadyOver) <==> *old(status)
            != GameStatus::InProgress),
        (r == Err::<GameOutcome, PlayError>(PlayError::OutOfBounds) <==> *old(status)
            == GameStatus::InProgress && !(play.x < old(board).width && play.y < old(
            board,
        ).height)),
        r is Err ==> *final(board) == *old(board) && *final(status) == *old(status),
        r is Ok ==> {
            &&& final(board).wf()
            &&& final(board).width == old(board).width
            &&& final(board).height == old(board).height
            &&& final(board).mine_count == old(board).mine_count
            &&& final(board).seed == old(board).seed
            &&& (r matches Ok(o) && *final(status) == status_after(o))
        },
        r is Ok && play.action == PlayKind::Flag ==> {
            &&& r == Ok::<GameOutcome, PlayError>(GameOutcome::Continuing)
            &&& final(board).mines_pending == old(board).mines_pending
            &&& final(board).cells@ == old(board).cells@.update(
                board_idx(*old(board), play.x as int, play.y as int),
                Cell {
                    vis: toggled_vis(cell_at(*old(board), play.x as int, play.y as int).vis),
                    content: cell_at(*old(board), play.x as int, play.y as int).content,
                },
            )
        },
        r is Ok && play.action == PlayKind::Open ==> {
            &&& final(board).mines_pending == false
            &&& (old(board).mines_pending ==> (r == Ok::<GameOutcome, PlayError>(GameOutcome::Won)
                <==> spec_won(*final(board))))
            &&& (!old(board).mines_pending ==> (r == Ok::<GameOutcome, PlayError>(
                GameOutcome::Won,
            ) <==> !(cell_at(*old(board), play.x as int, play.y as int).vis == CellVis::Closed
                && cell_at(*old(board), play.x as int, play.y as int).content
                == CellContent::Mine) && spec_won(*final(board))))
            &&& (old(board).mines_pending ==> !(r matches Ok(GameOutcome::Lost(_, _))))
            &&& (old(board).mines_pending ==> count_mines(final(board).cells@) == old(
                board,
            ).mine_count)
            &&& (!old(board).mines_pending ==> same_contents(*old(board), *final(board)) && (r
                == Ok::<GameOutcome, PlayError>(
                GameOutcome::Lost(play.x, play.y),
            ) <==> cell_at(*old(board), play.x as int, play.y as int).vis == CellVis::Closed
                && cell_at(*old(board), play.x as int, play.y as int).content
                == CellContent::Mine))
        },
        r is Ok && play.action == PlayKind::Open && cell_at(
            *old(board),
            play.x as int,
            play.y as int,
        ).vis == CellVis::Flagged ==> forall|i: int|
            0 <= i < old(board).cells@.len() ==> (#[trigger] final(board).cells@[i]).vis == old(
                board,
            ).cells@[i].vis,
        r is Ok && play.action == PlayKind::Open && !old(board).mines_pending && cell_at(
            *old(board),
            play.x as int,
            play.y as int,
        ).vis == CellVis::Closed && cell_at(
            *old(board),
            play.x as int,
            play.y as int,
        ).content == CellContent::Mine ==> {
            &&& forall|i: int|
                0 <= i < old(board).cells@.len() && is_mine(#[trigger] old(board).cells@[i])
                    ==> final(board).cells@[i].vis == CellVis::Opened
            &&& forall|i: int|
                0 <= i < old(board).cells@.len() && !is_mine(#[trigger] old(board).cells@[i])
                    ==> final(board).cells@[i].vis == old(board).cells@[i].vis
        },
        r is Ok && play.action == PlayKind::Open && !old(board).mines_pending && cell_at(
            *old(board),
            play.x as int,
            play.y as int,
        ).vis == CellVis::Closed && cell_at(
            *old(board),
            play.x as int,
            play.y as int,
        ).content != CellContent::Mine ==> vis_monotone(*old(board), *final(board)) && cell_at(
            *final(board),
            play.x as int,
            play.y as int,
        ).vis == CellVis::Opened,
        r is Ok && play.action == PlayKind::Open && !old(board).mines_pending && cell_at(
            *old(board),
            play.x as int,
            play.y as int,
        ).vis != CellVis::Closed ==> final(board).cells@ == old(board).cells@,
{
    match *status {
        GameStatus::InProgress => {},
        _ => {
            return Err(PlayError::GameAlreadyOver);
        },
    }
    if !(play.x < board.width && play.y < board.height) {
        return Err(PlayError::OutOfBounds);
    }
    match play.action {
        PlayKind::Flag => {
            board.toggle_flag(play.x, play.y);
            Ok(GameOutcome::Continuing)
        },
        PlayKind::Open => {
            let ghost mid0: Board = *board;
            if board.mines_pending {
                board.place_deferred(play.x, play.y);
            }
            let ghost mid: Board = *board;
            proof {
                crate::board::lemma_idx(
                    mid.width as int,
                    mid.height as int,
                    play.x as int,
                    play.y as int,
                );
                assert(cell_at(mid, play.x as int, play.y as int).vis == cell_at(
                    *old(board),
                    play.x as int,
                    play.y as int,
                ).vis);
            }
            let c = board.cell(play.x, play.y);
            let hit_mine = match (c.vis, c.content) {
                (CellVis::Closed, CellContent::Mine) => true,
                _ => false,
            };
            if hit_mine {
                let ghost s0: Board = *board;
                let opened = board.open(play.x, play.y);
                let ghost s1: Board = *board;
                board.reveal_all_mines();
                *status = GameStatus::Lost;
                proof {
                    assert forall|i: int|
                        0 <= i < old(board).cells@.len() && !is_mine(
                            #[trigger] old(board).cells@[i],
                        ) implies board.cells@[i].vis == old(board).cells@[i].vis by {
                        assert(s1.cells@ == s0.cells@.update(
                            board_idx(s0, play.x as int, play.y as int),
                            Cell {
                                vis: CellVis::Opened,
                                content: cell_at(s0, play.x as int, play.y as int).content,
                            },
                        ));
                        if i == board_idx(s0, play.x as int, play.y as int) {
                            assert(is_mine(s0.cells@[i]));
                        }
                    }
                }
                Ok(GameOutcome::Lost(play.x, play.y))
            } else {
                let opened = board.open(play.x, play.y);
                if board.is_won() {
                    *status = GameStatus::Won;
                    Ok(GameOutcome::Won)
                } else {
                    Ok(GameOutcome::Continuing)
                }
            }
        },
    }
}

} // verus!
