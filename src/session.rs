//! A game: a board plus the not-started / in-progress / won / lost state.
use vstd::prelude::*;
use crate::board::{flag_toggled, in_grid, index_of, lemma_grid_indices, lemma_index_in_grid, Board};
use crate::cascade::lemma_same_cover;
use crate::cell::{Cell, CellChange, Coordinate, GameError};
use crate::layout::{count_true, mine_layout};

verus! {

#[derive(Clone, Copy, Debug, PartialEq, Eq, Structural)]
pub enum GameState {
    NotStarted,
    InProgress,
    Won,
    Lost,
}

/// What an action did: the resulting state, every cell whose visible state
/// changed, and, on a loss, every mine.
pub struct ActionResult {
    pub state: GameState,
    pub changes: Vec<CellChange>,
    pub mines: Vec<Coordinate>,
}

/// Seed used by `GameSession::new`.
pub const DEFAULT_SEED: u64 = 0x2545_F491_4F6C_DD1D;

/// One game: mines are placed on the first uncover, away from that cell.
pub struct GameSession {
    pub board: Board,
    pub state: GameState,
    pub mine_count: usize,
    pub seed: u64,
}

impl GameState {
    pub open spec fn is_over(self) -> bool {
        self == GameState::Won || self == GameState::Lost
    }
}

impl GameSession {
    pub open spec fn wf(self) -> bool {
        &&& self.board.wf()
        &&& self.board.len() <= isize::MAX
        &&& self.mine_count < self.board.len()
        &&& (self.state == GameState::NotStarted <==> !self.board.mines_placed)
        &&& self.board.mines_placed ==> count_true(self.board.mines(), self.board.len())
            == self.mine_count
        &&& self.state != GameState::Lost ==> forall|i: int|
            0 <= i < self.board.cells@.len() && (#[trigger] self.board.cells@[i]).is_mine
                ==> self.board.cells@[i].is_covered
        &&& self.state == GameState::Won ==> self.board.cleared()
        &&& self.state == GameState::NotStarted ==> forall|i: int|
            0 <= i < self.board.cells@.len() ==> (#[trigger] self.board.cells@[i]).is_covered
    }

    /// The uncover at `c` hit a mine: `c` was covered and unflagged, and
    /// holds a mine once mines are placed.
    pub open spec fn hit_at(self, before: Board, c: Coordinate) -> bool {
        &&& before.cell_at(c.x as int, c.y as int).is_covered
        &&& !before.cell_at(c.x as int, c.y as int).is_flagged
        &&& self.board.cell_at(c.x as int, c.y as int).is_mine
    }

    /// A game not started yet, whose mines will be drawn with `seed`.
    pub fn with_seed(width: usize, height: usize, mine_count: usize, seed: u64) -> (r: Result<
        GameSession,
        GameError,
    >)
        requires
            width * height <= isize::MAX,
        ensures
            r == Err::<GameSession, GameError>(GameError::InvalidDimensions) <==> (width == 0
                || height == 0),
            r == Err::<GameSession, GameError>(GameError::TooManyMines) <==> (width > 0 && height
                > 0 && mine_count >= width * height),
            r is Err ==> r == Err::<GameSession, GameError>(GameError::InvalidDimensions) || r
                == Err::<GameSession, GameError>(GameError::TooManyMines),
            r matches Ok(s) ==> {
                &&& s.wf()
                &&& s.state == GameState::NotStarted
                &&& s.board.width == width
                &&& s.board.height == height
                &&& s.mine_count == mine_count
                &&& s.seed == seed
                &&& forall|i: int| 0 <= i < s.board.cells@.len() ==> s.board.cells@[i] == Cell::fresh()
            },
    {
        let board = match Board::new(width, height) {
            Ok(b) => b,
            Err(e) => {
                return Err(e);
            },
        };
        if mine_count >= width * height {
            return Err(GameError::TooManyMines);
        }
        let s = GameSession { board, state: GameState::NotStarted, mine_count, seed };
        proof {
            assert forall|i: int| 0 <= i < s.board.cells@.len() && (#[trigger] s.board.cells@[i]).is_mine
                implies s.board.cells@[i].is_covered by {}
            assert forall|i: int| 0 <= i < s.board.cells@.len() implies (#[trigger] s.board.cells@[i]).is_covered by {}
        }
        Ok(s)
    }

    /// A game not started yet, with the default seed.
    pub fn new(width: usize, height: usize, mine_count: usize) -> (r: Result<GameSession, GameError>)
        requires
            width * height <= isize::MAX,
        ensures
            r == Err::<GameSession, GameError>(GameError::InvalidDimensions) <==> (width == 0
                || height == 0),
            r == Err::<GameSession, GameError>(GameError::TooManyMines) <==> (width > 0 && height
                > 0 && mine_count >= width * height),
            r is Err ==> r == Err::<GameSession, GameError>(GameError::InvalidDimensions) || r
                == Err::<GameSession, GameError>(GameError::TooManyMines),
            r matches Ok(s) ==> {
                &&& s.wf()
                &&& s.state == GameState::NotStarted
                &&& s.board.width == width
                &&& s.board.height == height
                &&& s.mine_count == mine_count
                &&& s.seed == DEFAULT_SEED
                &&& forall|i: int| 0 <= i < s.board.cells@.len() ==> s.board.cells@[i] == Cell::fresh()
            },
    {
        GameSession::with_seed(width, height, mine_count, DEFAULT_SEED)
    }

    /// `mine_count` minus the number of flags; negative when over-flagged.
    pub fn remaining_mine_estimate(&self) -> (r: isize)
        requires
            self.wf(),
        ensures
            r == self.mine_count - self.board.flagged_count(),
    {
        let f = self.board.count_flagged();
        assert(self.board.cells@.len() == self.board.len());
        (self.mine_count as isize) - (f as isize)
    }
    /// Uncovers `c`. The first uncover places the mines away from `c` and
    /// starts the game; uncovering a mine loses it, and uncovering the last
    /// safe cell wins it.
    pub fn uncover(&mut self, c: Coordinate) -> (r: Result<ActionResult, GameError>)
        requires
            old(self).wf(),
        ensures
            final(self).wf(),
            r == Err::<ActionResult, GameError>(GameError::GameOver) <==> old(self).state.is_over(),
            r == Err::<ActionResult, GameError>(GameError::OutOfBounds) <==> !old(self).state.is_over()
                && !old(self).board.contains(c),
            r is Err ==> r == Err::<ActionResult, GameError>(GameError::GameOver) || r == Err::<
                ActionResult,
                GameError,
            >(GameError::OutOfBounds),
            r is Err ==> *final(self) == *old(self),
            final(self).board.width == old(self).board.width,
            final(self).board.height == old(self).board.height,
            final(self).mine_count == old(self).mine_count,
            final(self).seed == old(self).seed,
            r matches Ok(a) ==> (a.state == final(self).state),
            r matches Ok(a) ==> (old(self).state == GameState::NotStarted ==> final(self).board.mines() == mine_layout(
                    old(self).board.width as int,
                    old(self).board.len(),
                    c,
                    old(self).seed,
                    old(self).mine_count as int,
                )),
            r matches Ok(a) ==> (old(self).state == GameState::InProgress ==> final(self).board.mines() == old(
                    self,
                ).board.mines()),
            r matches Ok(a) ==> (forall|i: int|
                    0 <= i < old(self).board.cells@.len() ==> {
                        &&& (#[trigger] final(self).board.cells@[i]).is_flagged == old(
                            self,
                        ).board.cells@[i].is_flagged
                        &&& !old(self).board.cells@[i].is_covered
                            ==> !final(self).board.cells@[i].is_covered
                    }),
            r matches Ok(a) ==> (final(self).board.changes_match(old(self).board.cells@, a.changes@)),
            r matches Ok(a) ==> ((!old(self).board.cell_at(c.x as int, c.y as int).is_covered || old(
                    self,
                ).board.cell_at(c.x as int, c.y as int).is_flagged) ==> a.changes@.len() == 0),
            r matches Ok(a) ==> ((final(self).state == GameState::Lost <==> final(self).hit_at(old(self).board, c))),
            r matches Ok(a) ==> ((final(self).state == GameState::Won <==> !final(self).hit_at(old(self).board, c)
                    && final(self).board.cleared())),
            r matches Ok(a) ==> (final(self).hit_at(old(self).board, c) ==> {
                    &&& forall|j: int|
                        0 <= j < a.mines@.len() ==> final(self).board.contains(#[trigger] a.mines@[j])
                            && final(self).board.cells@[final(self).board.idx(a.mines@[j])].is_mine
                    &&& forall|x: int, y: int|
                        in_grid(final(self).board.width as int, final(self).board.height as int, x, y)
                            && (#[trigger] final(self).board.cells@[index_of(
                            final(self).board.width as int,
                            x,
                            y,
                        )]).is_mine ==> exists|j: int|
                            0 <= j < a.mines@.len() && (#[trigger] a.mines@[j]).x == x && a.mines@[j].y
                                == y
                }),
            r matches Ok(a) ==> (!final(self).hit_at(old(self).board, c) ==> a.mines@.len() == 0),
            r matches Ok(a) ==> (!final(self).hit_at(old(self).board, c) ==> final(self).board.opened_from_origin(
                old(self).board.cells@,
                c,
            )),
            r matches Ok(a) ==> (!final(self).hit_at(old(self).board, c) ==> forall|x: int, y: int|
                    #[trigger] final(self).board.newly_at(old(self).board.cells@, x, y)
                        && final(self).board.cell_at(x, y).adjacent_mine_count == 0
                        ==> final(self).board.neighbours_open(x, y)),
            r matches Ok(a) ==> (old(self).board.cell_at(c.x as int, c.y as int).is_covered && !old(
                    self,
                ).board.cell_at(c.x as int, c.y as int).is_flagged ==> !final(self).board.cell_at(
                    c.x as int,
                    c.y as int,
                ).is_covered),
    {
        if self.state == GameState::Won || self.state == GameState::Lost {
            return Err(GameError::GameOver);
        }
        if !self.board.in_bounds(c) {
            return Err(GameError::OutOfBounds);
        }
        let ghost start = self.board.cells@;
        if self.state == GameState::NotStarted {
            match self.board.place_mines(self.mine_count, c, self.seed) {
                Ok(()) => {},
                Err(e) => {
                    return Err(e);
                },
            }
            self.state = GameState::InProgress;
        }
        let ghost mid = self.board;
        let out = match self.board.uncover(c) {
            Ok(o) => o,
            Err(e) => {
                return Err(e);
            },
        };
        let mut mines: Vec<Coordinate> = Vec::new();
        if out.hit_mine {
            self.state = GameState::Lost;
            mines = self.board.mine_coordinates();
        } else if self.board.is_cleared() {
            self.state = GameState::Won;
        }
        proof {
            lemma_grid_indices(self.board.width as int, self.board.height as int);
            lemma_index_in_grid(self.board.width as int, self.board.height as int, c.x as int, c.y as int);
            assert(self.board.mines() =~= mid.mines());
            lemma_same_cover(self.board, start, mid.cells@, out.changes@);
        }
        let res = ActionResult { state: self.state, changes: out.changes, mines };
        proof {
            assert(res.mines@ == mines@);
            if self.hit_at(old(self).board, c) {
                assert forall|x: int, y: int|
                    in_grid(self.board.width as int, self.board.height as int, x, y)
                        && (#[trigger] self.board.cells@[index_of(self.board.width as int, x, y)]).is_mine
                        implies exists|j: int|
                        0 <= j < res.mines@.len() && (#[trigger] res.mines@[j]).x == x && res.mines@[j].y == y by {
                    let j = choose|j: int| 0 <= j < mines@.len() && (#[trigger] mines@[j]).x == x && mines@[j].y == y;
                    assert(res.mines@[j] == mines@[j]);
                }
            }
        }
        Ok(res)
    }

    /// Flips the flag of a covered cell; the game state does not change.
    pub fn toggle_flag(&mut self, c: Coordinate) -> (r: Result<ActionResult, GameError>)
        requires
            old(self).wf(),
        ensures
            final(self).wf(),
            r == Err::<ActionResult, GameError>(GameError::GameOver) <==> old(self).state.is_over(),
            r == Err::<ActionResult, GameError>(GameError::OutOfBounds) <==> !old(self).state.is_over()
                && !old(self).board.contains(c),
            r is Err ==> r == Err::<ActionResult, GameError>(GameError::GameOver) || r == Err::<
                ActionResult,
                GameError,
            >(GameError::OutOfBounds),
            r is Err ==> *final(self) == *old(self),
            final(self).state == old(self).state,
            final(self).mine_count == old(self).mine_count,
            final(self).seed == old(self).seed,
            final(self).board.width == old(self).board.width,
            final(self).board.height == old(self).board.height,
            r matches Ok(a) ==> {
                &&& a.state == old(self).state
                &&& a.mines@.len() == 0
                &&& !old(self).board.cells@[old(self).board.idx(c)].is_covered ==> a.changes@.len()
                    == 0 && final(self).board.cells@ == old(self).board.cells@
                &&& old(self).board.cells@[old(self).board.idx(c)].is_covered ==> {
                    &&& final(self).board.cells@ == flag_toggled(
                        old(self).board.cells@,
                        old(self).board.idx(c),
                    )
                    &&& a.changes@ == seq![
                        CellChange {
                            coord: c,
                            view: final(self).board.cells@[old(self).board.idx(c)].view_of(),
                        },
                    ]
                }
            },
    {
        if self.state == GameState::Won || self.state == GameState::Lost {
            return Err(GameError::GameOver);
        }
        if !self.board.in_bounds(c) {
            return Err(GameError::OutOfBounds);
        }
        let ghost pre = self.board;
        let changes = match self.board.toggle_flag(c) {
            Ok(v) => v,
            Err(e) => {
                return Err(e);
            },
        };
        proof {
            lemma_index_in_grid(pre.width as int, pre.height as int, c.x as int, c.y as int);
            assert(self.board.mines() =~= pre.mines());
        }
        Ok(ActionResult { state: self.state, changes, mines: Vec::new() })
    }
}

} // verus!
