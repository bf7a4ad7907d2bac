use minesweeper::{CellView, Coordinate, GameError, GameSession, GameState};

fn at(x: usize, y: usize) -> Coordinate {
    Coordinate { x, y }
}

#[test]
fn session_new_errors() {
    assert_eq!(GameSession::new(0, 4, 1).err(), Some(GameError::InvalidDimensions));
    assert_eq!(GameSession::new(4, 0, 1).err(), Some(GameError::InvalidDimensions));
    assert_eq!(GameSession::new(2, 2, 4).err(), Some(GameError::TooManyMines));
    let s = GameSession::new(2, 2, 3).unwrap();
    assert_eq!(s.state, GameState::NotStarted);
    assert!(!s.board.mines_placed);
}

#[test]
fn first_uncover_places_mines_and_is_safe() {
    for seed in 0u64..10 {
        let mut s = GameSession::with_seed(8, 8, 10, seed).unwrap();
        let r = s.uncover(at(3, 4)).unwrap();
        assert!(s.board.mines_placed);
        assert_ne!(r.state, GameState::Lost);
        assert_eq!(r.state, s.state);
        assert!(!s.board.cells[4 * 8 + 3].is_mine);
        assert!(!s.board.cells[4 * 8 + 3].is_covered);
        assert_eq!(s.board.cells.iter().filter(|c| c.is_mine).count(), 10);
        assert!(r.mines.is_empty());
        assert!(!r.changes.is_empty());
    }
}

#[test]
fn uncover_out_of_bounds_keeps_game_unstarted() {
    let mut s = GameSession::new(3, 3, 1).unwrap();
    assert_eq!(s.uncover(at(3, 0)).err(), Some(GameError::OutOfBounds));
    assert_eq!(s.state, GameState::NotStarted);
    assert!(!s.board.mines_placed);
}

#[test]
fn win_comes_on_the_last_safe_cell() {
    let mut s = GameSession::with_seed(4, 4, 1, 5).unwrap();
    // Flag a far cell first so the opening cascade leaves cells covered.
    s.toggle_flag(at(3, 3)).unwrap();
    assert_eq!(s.state, GameState::NotStarted);
    let r = s.uncover(at(0, 0)).unwrap();
    assert_eq!(r.state, GameState::InProgress);
    s.toggle_flag(at(3, 3)).unwrap();
    let safe: Vec<usize> = (0..16).filter(|i| !s.board.cells[*i].is_mine).collect();
    assert_eq!(safe.len(), 15);
    let pending: Vec<usize> = safe.into_iter().filter(|i| s.board.cells[*i].is_covered).collect();
    assert!(!pending.is_empty());
    for (n, i) in pending.iter().enumerate() {
        let c = at(i % 4, i / 4);
        let r = s.uncover(c).unwrap();
        if n + 1 == pending.len() {
            assert_eq!(r.state, GameState::Won);
        } else if s.board.is_cleared() {
            assert_eq!(r.state, GameState::Won);
            break;
        } else {
            assert_eq!(r.state, GameState::InProgress);
        }
    }
    assert_eq!(s.state, GameState::Won);
    assert_eq!(s.uncover(at(0, 0)).err(), Some(GameError::GameOver));
    assert_eq!(s.toggle_flag(at(0, 0)).err(), Some(GameError::GameOver));
}

#[test]
fn loss_reports_every_mine() {
    let mut s = GameSession::with_seed(6, 6, 5, 21).unwrap();
    s.uncover(at(0, 0)).unwrap();
    let mine = (0..36).find(|i| s.board.cells[*i].is_mine).unwrap();
    let r = s.uncover(at(mine % 6, mine / 6)).unwrap();
    assert_eq!(r.state, GameState::Lost);
    assert_eq!(s.state, GameState::Lost);
    assert_eq!(r.changes.len(), 1);
    assert_eq!(r.changes[0].view, CellView::RevealedMine);
    let expected: Vec<Coordinate> =
        (0..36).filter(|i| s.board.cells[*i].is_mine).map(|i| at(i % 6, i / 6)).collect();
    assert_eq!(expected.len(), 5);
    assert_eq!(r.mines, expected);
    assert_eq!(s.uncover(at(1, 1)).err(), Some(GameError::GameOver));
}

#[test]
fn flags_before_start_do_not_start_the_game() {
    let mut s = GameSession::new(5, 5, 3).unwrap();
    let r = s.toggle_flag(at(2, 2)).unwrap();
    assert_eq!(r.state, GameState::NotStarted);
    assert_eq!(r.changes.len(), 1);
    assert_eq!(r.changes[0].view, CellView::Flagged);
    assert_eq!(s.state, GameState::NotStarted);
    assert!(!s.board.mines_placed);
    assert_eq!(s.toggle_flag(at(5, 5)).err(), Some(GameError::OutOfBounds));
}

#[test]
fn remaining_estimate_goes_negative() {
    let mut s = GameSession::new(3, 3, 1).unwrap();
    assert_eq!(s.remaining_mine_estimate(), 1);
    s.toggle_flag(at(0, 0)).unwrap();
    assert_eq!(s.remaining_mine_estimate(), 0);
    s.toggle_flag(at(1, 0)).unwrap();
    s.toggle_flag(at(2, 0)).unwrap();
    assert_eq!(s.remaining_mine_estimate(), -2);
    s.toggle_flag(at(2, 0)).unwrap();
    assert_eq!(s.remaining_mine_estimate(), -1);
}

#[test]
fn same_seed_same_game() {
    let mut a = GameSession::with_seed(9, 9, 10, 777).unwrap();
    let mut b = GameSession::with_seed(9, 9, 10, 777).unwrap();
    let ra = a.uncover(at(4, 4)).unwrap();
    let rb = b.uncover(at(4, 4)).unwrap();
    assert_eq!(ra.changes, rb.changes);
    assert_eq!(a.board.cells, b.board.cells);
}
