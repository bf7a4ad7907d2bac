use minesweeper::{Board, Cell, CellView, Coordinate, GameError};

fn at(x: usize, y: usize) -> Coordinate {
    Coordinate { x, y }
}

fn mines_of(b: &Board) -> Vec<bool> {
    b.cells.iter().map(|c| c.is_mine).collect()
}

fn mined_neighbours(b: &Board, x: usize, y: usize) -> u8 {
    let mut n: u8 = 0;
    for dy in -1i64..=1 {
        for dx in -1i64..=1 {
            if dx == 0 && dy == 0 {
                continue;
            }
            let nx = x as i64 + dx;
            let ny = y as i64 + dy;
            if nx >= 0 && ny >= 0 && (nx as usize) < b.width && (ny as usize) < b.height {
                if b.cells[ny as usize * b.width + nx as usize].is_mine {
                    n += 1;
                }
            }
        }
    }
    n
}

#[test]
fn fresh_cell_is_covered_and_empty() {
    let c = Cell::default();
    assert!(!c.is_mine);
    assert!(c.is_covered);
    assert!(!c.is_flagged);
    assert_eq!(c.adjacent_mine_count, 0);
    assert_eq!(c.view(), CellView::Covered);
}

#[test]
fn cell_views() {
    let mut c = Cell::default();
    c.is_flagged = true;
    assert_eq!(c.view(), CellView::Flagged);
    c.is_flagged = false;
    c.is_covered = false;
    c.adjacent_mine_count = 3;
    assert_eq!(c.view(), CellView::Revealed(3));
    c.is_mine = true;
    assert_eq!(c.view(), CellView::RevealedMine);
}

#[test]
fn new_rejects_empty_dimensions() {
    assert_eq!(Board::new(0, 5).err(), Some(GameError::InvalidDimensions));
    assert_eq!(Board::new(5, 0).err(), Some(GameError::InvalidDimensions));
}

#[test]
fn new_board_is_all_fresh() {
    let b = Board::new(4, 3).unwrap();
    assert_eq!(b.width, 4);
    assert_eq!(b.height, 3);
    assert_eq!(b.cells.len(), 12);
    assert!(!b.mines_placed);
    for c in &b.cells {
        assert_eq!(*c, Cell::default());
    }
}

#[test]
fn place_mines_errors() {
    let mut b = Board::new(3, 3).unwrap();
    assert_eq!(b.place_mines(9, at(1, 1), 7), Err(GameError::TooManyMines));
    assert_eq!(b.place_mines(2, at(3, 0), 7), Err(GameError::OutOfBounds));
    assert!(!b.mines_placed);
    assert_eq!(b.place_mines(2, at(1, 1), 7), Ok(()));
    assert_eq!(b.place_mines(2, at(1, 1), 7), Err(GameError::MinesAlreadyPlaced));
}

#[test]
fn placement_counts_exactly_and_spares_protected() {
    for seed in 0u64..20 {
        let mut b = Board::new(9, 7).unwrap();
        b.place_mines(20, at(4, 3), seed).unwrap();
        let mines = mines_of(&b);
        assert_eq!(mines.iter().filter(|m| **m).count(), 20);
        for dy in 2..=4 {
            for dx in 3..=5 {
                assert!(!mines[dy * 9 + dx], "neighbourhood of the protected cell holds a mine");
            }
        }
        for y in 0..7 {
            for x in 0..9 {
                let c = b.cells[y * 9 + x];
                assert_eq!(c.adjacent_mine_count, mined_neighbours(&b, x, y));
                assert!(c.is_covered);
                assert!(!c.is_flagged);
            }
        }
    }
}

#[test]
fn crowded_placement_spares_only_protected() {
    let mut b = Board::new(3, 3).unwrap();
    b.place_mines(8, at(0, 0), 11).unwrap();
    let mines = mines_of(&b);
    assert!(!mines[0]);
    assert_eq!(mines.iter().filter(|m| **m).count(), 8);
    assert_eq!(b.cells[0].adjacent_mine_count, 3);
    assert_eq!(b.cells[4].adjacent_mine_count, 7);
}

#[test]
fn placement_is_deterministic() {
    let mut a = Board::new(10, 8).unwrap();
    let mut b = Board::new(10, 8).unwrap();
    a.place_mines(15, at(2, 5), 1234).unwrap();
    b.place_mines(15, at(2, 5), 1234).unwrap();
    assert_eq!(mines_of(&a), mines_of(&b));
    let mut c = Board::new(10, 8).unwrap();
    c.place_mines(15, at(2, 5), 99).unwrap();
    assert_eq!(mines_of(&c).iter().filter(|m| **m).count(), 15);
}

#[test]
fn mine_count_adjacent_query() {
    let mut b = Board::new(5, 5).unwrap();
    assert_eq!(b.mine_count_adjacent(at(5, 0)), Err(GameError::OutOfBounds));
    b.place_mines(6, at(0, 0), 5).unwrap();
    for y in 0..5 {
        for x in 0..5 {
            assert_eq!(b.mine_count_adjacent(at(x, y)), Ok(mined_neighbours(&b, x, y)));
        }
    }
}

#[test]
fn empty_board_cascades_everywhere() {
    for y in 0..10 {
        for x in 0..10 {
            let mut b = Board::new(10, 10).unwrap();
            b.place_mines(0, at(x, y), 3).unwrap();
            let out = b.uncover(at(x, y)).unwrap();
            assert!(!out.hit_mine);
            assert_eq!(out.changes.len(), 100);
            assert!(b.cells.iter().all(|c| !c.is_covered));
            assert!(b.is_cleared());
            assert_eq!(out.changes[0].coord, at(x, y));
            assert!(out.changes.iter().all(|ch| ch.view == CellView::Revealed(0)));
        }
    }
}

#[test]
fn uncover_out_of_bounds() {
    let mut b = Board::new(3, 3).unwrap();
    assert_eq!(b.uncover(at(0, 3)).err(), Some(GameError::OutOfBounds));
}

#[test]
fn uncover_twice_changes_nothing() {
    let mut b = Board::new(6, 6).unwrap();
    b.place_mines(5, at(0, 0), 42).unwrap();
    let first = b.uncover(at(0, 0)).unwrap();
    assert!(!first.hit_mine);
    assert!(!first.changes.is_empty());
    let before = b.cells.clone();
    let again = b.uncover(at(0, 0)).unwrap();
    assert!(again.changes.is_empty());
    assert!(!again.hit_mine);
    assert_eq!(b.cells, before);
}

#[test]
fn flags_block_uncover_and_cascade() {
    let mut b = Board::new(5, 1).unwrap();
    b.place_mines(0, at(0, 0), 1).unwrap();
    b.toggle_flag(at(2, 0)).unwrap();
    let blocked = b.uncover(at(2, 0)).unwrap();
    assert!(blocked.changes.is_empty());
    let out = b.uncover(at(0, 0)).unwrap();
    assert_eq!(out.changes.len(), 2);
    assert!(b.cells[2].is_covered && b.cells[2].is_flagged);
    assert!(b.cells[3].is_covered);
    assert!(b.cells[4].is_covered);
}

#[test]
fn cascade_stops_at_numbered_cells() {
    // One mine in the far corner of a 4x4 grid.
    let mut b = Board::new(4, 4).unwrap();
    b.cells[15].is_mine = true;
    b.cells[10].adjacent_mine_count = 1;
    b.cells[11].adjacent_mine_count = 1;
    b.cells[14].adjacent_mine_count = 1;
    b.mines_placed = true;
    let out = b.uncover(at(0, 0)).unwrap();
    assert!(!out.hit_mine);
    assert_eq!(out.changes.len(), 15);
    assert!(b.cells[15].is_covered);
    assert!(b.is_cleared());
    assert!(out.changes.iter().any(|c| c.coord == at(2, 2) && c.view == CellView::Revealed(1)));
}

#[test]
fn uncover_mine_reports_hit() {
    let mut b = Board::new(2, 2).unwrap();
    b.cells[3].is_mine = true;
    for i in 0..3 {
        b.cells[i].adjacent_mine_count = 1;
    }
    b.mines_placed = true;
    let out = b.uncover(at(1, 1)).unwrap();
    assert!(out.hit_mine);
    assert_eq!(out.changes.len(), 1);
    assert_eq!(out.changes[0].coord, at(1, 1));
    assert_eq!(out.changes[0].view, CellView::RevealedMine);
    assert!(b.cells[0].is_covered);
    assert_eq!(b.mine_coordinates(), vec![at(1, 1)]);
}

#[test]
fn toggle_flag_twice_restores() {
    let mut b = Board::new(4, 4).unwrap();
    b.place_mines(3, at(0, 0), 9).unwrap();
    let before = b.cells.clone();
    let on = b.toggle_flag(at(3, 3)).unwrap();
    assert_eq!(on.len(), 1);
    assert_eq!(on[0].view, CellView::Flagged);
    assert!(b.cells[15].is_flagged);
    assert_eq!(b.count_flagged(), 1);
    let off = b.toggle_flag(at(3, 3)).unwrap();
    assert_eq!(off[0].view, CellView::Covered);
    assert_eq!(b.cells, before);
}

#[test]
fn toggle_flag_on_revealed_is_noop() {
    let mut b = Board::new(3, 3).unwrap();
    b.place_mines(0, at(0, 0), 9).unwrap();
    b.uncover(at(0, 0)).unwrap();
    let before = b.cells.clone();
    assert!(b.toggle_flag(at(1, 1)).unwrap().is_empty());
    assert_eq!(b.cells, before);
    assert_eq!(b.toggle_flag(at(3, 1)).err(), Some(GameError::OutOfBounds));
}

#[test]
fn mine_coordinates_in_row_order() {
    let mut b = Board::new(6, 5).unwrap();
    b.place_mines(7, at(5, 4), 77).unwrap();
    let list = b.mine_coordinates();
    assert_eq!(list.len(), 7);
    let mut last: Option<usize> = None;
    for c in &list {
        let i = c.y * 6 + c.x;
        assert!(b.cells[i].is_mine);
        if let Some(l) = last {
            assert!(l < i);
        }
        last = Some(i);
    }
}
