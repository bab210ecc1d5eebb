use board_plugin::components::Coordinate;
use board_plugin::resources::tile::Tile;
use board_plugin::resources::tile_map::{GridError, TileMap};

fn c(x: u16, y: u16) -> Coordinate {
    Coordinate { x, y }
}

fn count_mines(m: &TileMap) -> usize {
    let mut n = 0;
    for y in 0..m.height() {
        for x in 0..m.width() {
            if m.is_bomb_at(c(x, y)) {
                n += 1;
            }
        }
    }
    n
}

fn brute_force_count(m: &TileMap, x: u16, y: u16) -> u8 {
    let mut n = 0u8;
    for dy in -1i32..=1 {
        for dx in -1i32..=1 {
            if dx == 0 && dy == 0 {
                continue;
            }
            let nx = x as i32 + dx;
            let ny = y as i32 + dy;
            if nx < 0 || ny < 0 || nx >= m.width() as i32 || ny >= m.height() as i32 {
                continue;
            }
            if m.is_bomb_at(c(nx as u16, ny as u16)) {
                n += 1;
            }
        }
    }
    n
}

#[test]
fn tile_is_bomb() {
    assert!(Tile::Bomb.is_bomb());
    assert!(!Tile::Empty.is_bomb());
    assert!(!Tile::BombNeighbor(3).is_bomb());
}

#[test]
fn tile_console_output() {
    assert_eq!(Tile::Bomb.console_output(), "*");
    assert_eq!(Tile::Empty.console_output(), " ");
    assert_eq!(Tile::BombNeighbor(3).console_output(), "3");
    assert_eq!(Tile::BombNeighbor(8).console_output(), "8");
    assert_eq!(Tile::BombNeighbor(42).console_output(), "42");
    assert_eq!(Tile::BombNeighbor(205).console_output(), "205");
}

#[test]
fn empty_map_has_no_mine() {
    let m = TileMap::empty(4, 3);
    assert_eq!(m.width(), 4);
    assert_eq!(m.height(), 3);
    assert_eq!(m.bomb_count(), 0);
    for y in 0..3 {
        for x in 0..4 {
            assert_eq!(m.tile_at(c(x, y)), Some(Tile::Empty));
        }
    }
    assert_eq!(count_mines(&m), 0);
}

#[test]
fn generated_mine_count_is_exact() {
    for (w, h, n) in [(10u16, 10u16, 15u16), (5, 5, 24), (1, 2, 1), (20, 20, 40), (3, 7, 0)] {
        let m = TileMap::generate(w, h, n).unwrap();
        assert_eq!(m.bomb_count(), n);
        assert_eq!(count_mines(&m), n as usize);
        assert_eq!(m.width(), w);
        assert_eq!(m.height(), h);
    }
}

#[test]
fn generated_numbering_matches_brute_force() {
    for _ in 0..5 {
        let m = TileMap::generate(8, 6, 12).unwrap();
        for y in 0..6 {
            for x in 0..8 {
                let t = m.tile_at(c(x, y)).unwrap();
                if m.is_bomb_at(c(x, y)) {
                    assert_eq!(t, Tile::Bomb);
                    assert_eq!(m.bomb_count_at(c(x, y)), 0);
                } else {
                    let n = brute_force_count(&m, x, y);
                    assert_eq!(m.bomb_count_at(c(x, y)), n);
                    if n == 0 {
                        assert_eq!(t, Tile::Empty);
                    } else {
                        assert_eq!(t, Tile::BombNeighbor(n));
                    }
                }
            }
        }
    }
}

#[test]
fn set_bombs_places_exact_count() {
    let mut m = TileMap::empty(5, 5);
    assert_eq!(m.set_bombs(7), Ok(()));
    assert_eq!(m.bomb_count(), 7);
    assert_eq!(count_mines(&m), 7);
    assert_eq!(m.set_bombs(24), Ok(()));
    assert_eq!(count_mines(&m), 24);
}

#[test]
fn set_bombs_rejects_full_grid() {
    let mut m = TileMap::empty(5, 5);
    assert_eq!(m.set_bombs(25), Err(GridError::InvalidConfiguration));
    assert_eq!(m.bomb_count(), 0);
    assert_eq!(count_mines(&m), 0);
    let mut z = TileMap::empty(0, 4);
    assert_eq!(z.set_bombs(0), Err(GridError::InvalidConfiguration));
    assert_eq!(z.width(), 0);
}

#[test]
fn from_draws_places_mines_by_selection() {
    // One mine on a 2x2 grid: cell i is mined when its draw is below the mines left.
    let m = TileMap::from_draws(2, 2, 1, &vec![3, 2, 1, 0]).unwrap();
    assert!(m.is_bomb_at(c(1, 1)));
    assert_eq!(count_mines(&m), 1);
    let m = TileMap::from_draws(2, 2, 1, &vec![0, 0, 0, 0]).unwrap();
    assert!(m.is_bomb_at(c(0, 0)));
    assert_eq!(count_mines(&m), 1);
    assert_eq!(m.tile_at(c(1, 1)), Some(Tile::BombNeighbor(1)));
    // Two mines on a 3x1 grid with draws 1, 0, 0: cells 0 and 1 are mined.
    let m = TileMap::from_draws(3, 1, 2, &vec![1, 0, 0]).unwrap();
    assert!(m.is_bomb_at(c(0, 0)));
    assert!(m.is_bomb_at(c(1, 0)));
    assert!(!m.is_bomb_at(c(2, 0)));
    assert_eq!(m.tile_at(c(2, 0)), Some(Tile::BombNeighbor(1)));
}

#[test]
fn from_draws_rejects_bad_input() {
    let e = GridError::InvalidConfiguration;
    assert_eq!(TileMap::from_draws(2, 2, 1, &vec![4, 0, 0, 0]).unwrap_err(), e);
    assert_eq!(TileMap::from_draws(2, 2, 1, &vec![0, 0, 0]).unwrap_err(), e);
    assert_eq!(TileMap::from_draws(2, 2, 4, &vec![0, 0, 0, 0]).unwrap_err(), e);
    assert_eq!(TileMap::from_draws(0, 2, 0, &vec![]).unwrap_err(), e);
}

#[test]
fn first_empty_in_row_major_order() {
    let m = TileMap::with_bombs(3, 3, &vec![c(0, 0), c(2, 2)]).unwrap();
    assert_eq!(m.first_empty(), Some(c(2, 0)));
    let full = TileMap::with_bombs(2, 1, &vec![c(0, 0)]).unwrap();
    assert_eq!(full.first_empty(), None);
    assert_eq!(TileMap::empty(4, 4).first_empty(), Some(c(0, 0)));
}

#[test]
fn three_by_three_two_mines() {
    let m = TileMap::with_bombs(3, 3, &vec![c(0, 0), c(2, 2)]).unwrap();
    assert_eq!(m.bomb_count(), 2);
    assert_eq!(m.tile_at(c(0, 0)), Some(Tile::Bomb));
    assert_eq!(m.tile_at(c(2, 2)), Some(Tile::Bomb));
    assert_eq!(m.tile_at(c(1, 1)), Some(Tile::BombNeighbor(2)));
    assert_eq!(m.tile_at(c(0, 1)), Some(Tile::BombNeighbor(1)));
    assert_eq!(m.tile_at(c(1, 0)), Some(Tile::BombNeighbor(1)));
    assert_eq!(m.tile_at(c(1, 2)), Some(Tile::BombNeighbor(1)));
    assert_eq!(m.tile_at(c(2, 1)), Some(Tile::BombNeighbor(1)));
    // (2,0) and (0,2) touch neither mine: the numbering rule makes them empty.
    assert_eq!(m.tile_at(c(2, 0)), Some(Tile::Empty));
    assert_eq!(m.tile_at(c(0, 2)), Some(Tile::Empty));
    assert_eq!(m.bomb_count_at(c(1, 1)), 2);
    assert_eq!(m.bomb_count_at(c(0, 0)), 0);
}

#[test]
fn generate_rejects_full_grid() {
    assert_eq!(TileMap::generate(5, 5, 25).unwrap_err(), GridError::InvalidConfiguration);
    assert_eq!(TileMap::generate(5, 5, 30).unwrap_err(), GridError::InvalidConfiguration);
}

#[test]
fn generate_rejects_zero_side() {
    assert_eq!(TileMap::generate(0, 5, 0).unwrap_err(), GridError::InvalidConfiguration);
    assert_eq!(TileMap::generate(5, 0, 0).unwrap_err(), GridError::InvalidConfiguration);
}

#[test]
fn with_bombs_rejects_bad_layouts() {
    let e = GridError::InvalidConfiguration;
    assert_eq!(TileMap::with_bombs(3, 3, &vec![c(3, 0)]).unwrap_err(), e);
    assert_eq!(TileMap::with_bombs(3, 3, &vec![c(1, 1), c(1, 1)]).unwrap_err(), e);
    assert_eq!(TileMap::with_bombs(1, 1, &vec![c(0, 0)]).unwrap_err(), e);
    assert_eq!(TileMap::with_bombs(0, 3, &vec![]).unwrap_err(), e);
    assert!(TileMap::with_bombs(2, 1, &vec![c(1, 0)]).is_ok());
}

#[test]
fn out_of_bounds_queries_are_safe() {
    let m = TileMap::with_bombs(2, 2, &vec![c(0, 0)]).unwrap();
    assert!(!m.is_bomb_at(c(2, 0)));
    assert!(!m.is_bomb_at(c(0, 9)));
    assert_eq!(m.bomb_count_at(c(2, 1)), 0);
    assert_eq!(m.tile_at(c(5, 5)), None);
}

#[test]
fn neighbors_in_direction_order() {
    let m = TileMap::empty(3, 3);
    assert_eq!(m.safe_square_at(c(0, 0)), vec![c(1, 0), c(0, 1), c(1, 1)]);
    assert_eq!(
        m.safe_square_at(c(1, 1)),
        vec![c(0, 0), c(1, 0), c(2, 0), c(0, 1), c(2, 1), c(0, 2), c(1, 2), c(2, 2)]
    );
    assert_eq!(m.safe_square_at(c(2, 2)), vec![c(1, 1), c(2, 1), c(1, 2)]);
    assert_eq!(m.safe_square_at(c(7, 7)), vec![]);
}

#[test]
fn coordinate_offset_is_checked() {
    assert_eq!(c(0, 0).offset(-1, 0, 3, 3), None);
    assert_eq!(c(2, 1).offset(1, 0, 3, 3), None);
    assert_eq!(c(1, 1).offset(1, -1, 3, 3), Some(c(2, 0)));
}

#[test]
fn tile_map_console_output() {
    let m = TileMap::with_bombs(3, 2, &vec![c(0, 0)]).unwrap();
    assert_eq!(m.console_output(), "Map (3, 2) with 1 bombs:\n-----\n|11 |\n|*1 |\n-----");
    let e = TileMap::empty(12, 1);
    assert_eq!(
        e.console_output(),
        "Map (12, 1) with 0 bombs:\n--------------\n|            |\n--------------"
    );
}

#[test]
fn mine_positions_are_drawn_at_random() {
    // Ten mines on a 10x10 grid: with random draws some grid puts a mine outside the
    // last row; a source that never draws below its bound would fill the last row only.
    let mut outside_last_row = false;
    let mut first_cells = 0;
    for _ in 0..20 {
        let m = TileMap::generate(10, 10, 10).unwrap();
        for y in 0..9 {
            for x in 0..10 {
                if m.is_bomb_at(c(x, y)) {
                    outside_last_row = true;
                }
            }
        }
        if m.is_bomb_at(c(0, 0)) {
            first_cells += 1;
        }
    }
    assert!(outside_last_row);
    assert!(first_cells < 20);
}
