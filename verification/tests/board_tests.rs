use minesweeper::board::{FieldError, MineField, RevealOutcome};
use minesweeper::tile::TileContent;

fn content_count(c: &TileContent) -> i32 {
    match c {
        TileContent::Mine => -1,
        TileContent::Zero => 0,
        TileContent::One => 1,
        TileContent::Two => 2,
        TileContent::Three => 3,
        TileContent::Four => 4,
        TileContent::Five => 5,
        TileContent::Six => 6,
        TileContent::Seven => 7,
        TileContent::Eight => 8,
    }
}

fn is_mine(f: &MineField, x: i64, y: i64) -> bool {
    x >= 0
        && y >= 0
        && (x as usize) < f.ncol
        && (y as usize) < f.nrow
        && f.tiles[x as usize + y as usize * f.ncol].content == TileContent::Mine
}

fn neighbor_mines(f: &MineField, x: usize, y: usize) -> i32 {
    let mut n = 0;
    for dx in -1i64..=1 {
        for dy in -1i64..=1 {
            if (dx, dy) != (0, 0) && is_mine(f, x as i64 + dx, y as i64 + dy) {
                n += 1;
            }
        }
    }
    n
}

#[test]
fn new_rejects_zero_width() {
    assert_eq!(MineField::new(0, 5, 0).err(), Some(FieldError::InvalidDimensions));
}

#[test]
fn new_rejects_zero_height() {
    assert_eq!(MineField::new(5, 0, 0).err(), Some(FieldError::InvalidDimensions));
}

#[test]
fn new_rejects_too_many_mines() {
    assert_eq!(MineField::new(3, 3, 9).err(), Some(FieldError::InvalidDimensions));
    assert_eq!(MineField::new(3, 3, 100).err(), Some(FieldError::InvalidDimensions));
}

#[test]
fn new_places_exact_mine_count_and_consistent_counts() {
    let f = MineField::new(5, 4, 7).unwrap();
    assert_eq!(f.ncol, 5);
    assert_eq!(f.nrow, 4);
    assert_eq!(f.nmines, 7);
    assert_eq!(f.ncleared, 0);
    assert_eq!(f.tiles.len(), 20);
    let mines = f.tiles.iter().filter(|t| t.content == TileContent::Mine).count();
    assert_eq!(mines, 7);
    for y in 0..4 {
        for x in 0..5 {
            let t = &f.tiles[x + y * 5];
            assert!(!t.probed);
            assert!(!t.flagged);
            if t.content != TileContent::Mine {
                assert_eq!(content_count(&t.content), neighbor_mines(&f, x, y));
            }
        }
    }
}

#[test]
fn new_dense_board_places_all_mines() {
    // Eight mines among nine tiles: a draw outside the free tiles would
    // make this board impossible to build.
    let f = MineField::new(3, 3, 8).unwrap();
    let mines = f.tiles.iter().filter(|t| t.content == TileContent::Mine).count();
    assert_eq!(mines, 8);
}

#[test]
fn probe_out_of_bounds_fails() {
    let mut f = MineField::new(3, 3, 0).unwrap();
    assert_eq!(f.probe_chain(3, 0).err(), Some(FieldError::OutOfBounds));
    assert_eq!(f.probe_chain(0, 3).err(), Some(FieldError::OutOfBounds));
    assert_eq!(f.ncleared, 0);
}

#[test]
fn flood_fill_reveals_whole_zero_board() {
    let mut f = MineField::new(3, 3, 0).unwrap();
    let r = f.probe_chain(0, 0).unwrap();
    assert_eq!(r, RevealOutcome::Revealed(TileContent::Zero));
    assert!(f.tiles.iter().all(|t| t.probed));
    assert_eq!(f.ncleared, 9);
    assert!(f.is_won());
}

#[test]
fn probe_twice_same_outcome_and_count() {
    let mut f = MineField::new(3, 3, 0).unwrap();
    let r1 = f.probe_chain(1, 1).unwrap();
    let cleared = f.ncleared;
    let r2 = f.probe_chain(1, 1).unwrap();
    assert_eq!(r1, r2);
    assert_eq!(f.ncleared, cleared);
}

#[test]
fn probe_numbered_tile_twice() {
    // On a 2x2 board with three mines the single free tile always
    // borders all three.
    let mut f = MineField::new(2, 2, 3).unwrap();
    let (fx, fy) = free_tile_of(&f);
    let r1 = f.probe_chain(fx, fy).unwrap();
    assert_eq!(r1, RevealOutcome::Revealed(TileContent::Three));
    assert_eq!(f.ncleared, 1);
    let r2 = f.probe_chain(fx, fy).unwrap();
    assert_eq!(r2, RevealOutcome::Revealed(TileContent::Three));
    assert_eq!(f.ncleared, 1);
    assert!(f.is_won());
}

fn free_tile_of(f: &MineField) -> (usize, usize) {
    for y in 0..f.nrow {
        for x in 0..f.ncol {
            if f.tiles[x + y * f.ncol].content != TileContent::Mine {
                return (x, y);
            }
        }
    }
    panic!("no free tile");
}

#[test]
fn probing_a_mine_detonates_and_clears_nothing() {
    let f0 = MineField::new(2, 2, 3).unwrap();
    let mut f = f0;
    let mut mine_at = None;
    for y in 0..2 {
        for x in 0..2 {
            if f.tiles[x + y * 2].content == TileContent::Mine {
                mine_at = Some((x, y));
            }
        }
    }
    let (mx, my) = mine_at.unwrap();
    let r = f.probe_chain(mx, my).unwrap();
    assert_eq!(r, RevealOutcome::Detonated);
    assert_eq!(f.ncleared, 0);
    assert!(f.tiles[mx + my * 2].probed);
    // Detonating does not reveal the rest of the board.
    let hidden = f.tiles.iter().filter(|t| !t.probed).count();
    assert_eq!(hidden, 3);
}

#[test]
fn flood_fill_stops_at_numbered_border_and_spares_mines() {
    // Build many random 4x4 boards with two mines; wherever a zero tile
    // exists, flooding it must reveal no mine, reveal only zero tiles
    // and tiles adjacent to a revealed zero tile, and reveal every
    // still-hidden zero neighbor of a revealed zero tile.
    for _ in 0..20 {
        let mut f = MineField::new(4, 4, 2).unwrap();
        let mut zero_at = None;
        for y in 0..4 {
            for x in 0..4 {
                if f.tiles[x + y * 4].content == TileContent::Zero {
                    zero_at = Some((x, y));
                }
            }
        }
        if let Some((zx, zy)) = zero_at {
            let r = f.probe_chain(zx, zy).unwrap();
            assert_eq!(r, RevealOutcome::Revealed(TileContent::Zero));
            for y in 0..4i64 {
                for x in 0..4i64 {
                    let t = &f.tiles[x as usize + y as usize * 4];
                    if t.content == TileContent::Mine {
                        assert!(!t.probed);
                    }
                    if t.probed && t.content != TileContent::Zero {
                        // A revealed numbered tile borders a revealed zero.
                        let mut near_zero = false;
                        for dx in -1i64..=1 {
                            for dy in -1i64..=1 {
                                let (nx, ny) = (x + dx, y + dy);
                                if (dx, dy) != (0, 0)
                                    && nx >= 0
                                    && ny >= 0
                                    && nx < 4
                                    && ny < 4
                                {
                                    let n = &f.tiles[nx as usize + ny as usize * 4];
                                    if n.probed && n.content == TileContent::Zero {
                                        near_zero = true;
                                    }
                                }
                            }
                        }
                        assert!(near_zero);
                    }
                    if t.probed && t.content == TileContent::Zero {
                        // Every safe neighbor of a revealed zero is revealed.
                        for dx in -1i64..=1 {
                            for dy in -1i64..=1 {
                                let (nx, ny) = (x + dx, y + dy);
                                if (dx, dy) != (0, 0)
                                    && nx >= 0
                                    && ny >= 0
                                    && nx < 4
                                    && ny < 4
                                {
                                    let n = &f.tiles[nx as usize + ny as usize * 4];
                                    if n.content != TileContent::Mine {
                                        assert!(n.probed);
                                    }
                                }
                            }
                        }
                    }
                }
            }
        }
    }
}

#[test]
fn flag_toggle_pair_returns_to_unflagged() {
    let mut f = MineField::new(2, 2, 0).unwrap();
    assert!(!f.tiles[1].flagged);
    f.flag(1, 0).unwrap();
    assert!(f.tiles[1].flagged);
    f.flag(1, 0).unwrap();
    assert!(!f.tiles[1].flagged);
}

#[test]
fn flag_out_of_bounds_fails() {
    let mut f = MineField::new(2, 2, 0).unwrap();
    assert_eq!(f.flag(2, 0).err(), Some(FieldError::OutOfBounds));
    assert_eq!(f.flag(0, 2).err(), Some(FieldError::OutOfBounds));
}

#[test]
fn flag_on_revealed_tile_is_a_no_op() {
    let mut f = MineField::new(2, 2, 0).unwrap();
    f.probe_chain(0, 0).unwrap();
    f.flag(1, 1).unwrap();
    assert!(!f.tiles[1 + 2].flagged);
}

#[test]
fn flag_tile_toggles_directly() {
    let mut f = MineField::new(2, 2, 0).unwrap();
    f.flag_tile(0, 1);
    assert!(f.tiles[2].flagged);
    f.flag_tile(0, 1);
    assert!(!f.tiles[2].flagged);
}

#[test]
fn probe_tile_reveals_single_tile_only() {
    let mut f = MineField::new(3, 3, 0).unwrap();
    let r = f.probe_tile(1, 1).unwrap();
    assert_eq!(r, RevealOutcome::Revealed(TileContent::Zero));
    assert_eq!(f.ncleared, 1);
    let revealed = f.tiles.iter().filter(|t| t.probed).count();
    assert_eq!(revealed, 1);
}

#[test]
fn check_bounds_matches_grid() {
    let f = MineField::new(3, 2, 0).unwrap();
    assert!(f.check_bounds(2, 1).is_ok());
    assert_eq!(f.check_bounds(3, 1).err(), Some(FieldError::OutOfBounds));
    assert_eq!(f.check_bounds(2, 2).err(), Some(FieldError::OutOfBounds));
}

#[test]
fn place_mine_reports_occupied_on_second_hit() {
    let mut f = MineField::new(3, 3, 0).unwrap();
    assert!(f.place_mine(1, 1).is_ok());
    assert_eq!(f.place_mine(1, 1).err(), Some(FieldError::Occupied));
    // All eight neighbors of the center mine now count one mine.
    for (i, t) in f.tiles.iter().enumerate() {
        if i == 4 {
            assert_eq!(t.content, TileContent::Mine);
        } else {
            assert_eq!(t.content, TileContent::One);
        }
    }
}

#[test]
fn win_condition_follows_the_formula() {
    let mut f = MineField::new(2, 2, 0).unwrap();
    assert!(!f.is_won());
    f.probe_tile(0, 0).unwrap();
    f.probe_tile(1, 0).unwrap();
    f.probe_tile(0, 1).unwrap();
    assert!(!f.is_won());
    f.probe_tile(1, 1).unwrap();
    assert!(f.is_won());
    assert_eq!(f.ncleared + f.nmines, f.tiles.len());
}
