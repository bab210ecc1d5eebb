use board_plugin::components::Coordinate;
use board_plugin::resources::board::{Board, FlagOutcome, RevealOutcome};
use board_plugin::resources::tile_map::TileMap;

fn c(x: u16, y: u16) -> Coordinate {
    Coordinate { x, y }
}

fn board(w: u16, h: u16, mines: Vec<Coordinate>) -> Board {
    Board::new(TileMap::with_bombs(w, h, &mines).unwrap())
}

#[test]
fn new_board_hides_everything() {
    let b = board(3, 2, vec![c(0, 0)]);
    for y in 0..2 {
        for x in 0..3 {
            assert!(b.is_hidden(c(x, y)));
            assert!(!b.is_flagged(c(x, y)));
        }
    }
    assert!(!b.is_completed());
    assert!(!b.is_hidden(c(3, 0)));
}

#[test]
fn reveal_numbered_cell_does_not_cascade() {
    let mut b = board(3, 3, vec![c(0, 0), c(2, 2)]);
    let r = b.reveal_tile(c(1, 0));
    assert_eq!(r, RevealOutcome::Revealed { tiles: vec![c(1, 0)], complete: false });
    assert!(!b.is_hidden(c(1, 0)));
    assert!(b.is_hidden(c(2, 0)));
}

#[test]
fn single_cell_board_completes_at_once() {
    let mut b = Board::new(TileMap::generate(1, 1, 0).unwrap());
    assert_eq!(b.tile_map().tile_at(c(0, 0)), Some(board_plugin::resources::tile::Tile::Empty));
    let r = b.reveal_tile(c(0, 0));
    assert_eq!(r, RevealOutcome::Revealed { tiles: vec![c(0, 0)], complete: true });
    assert!(b.is_completed());
}

#[test]
fn flood_reveals_whole_empty_board() {
    let mut b = Board::new(TileMap::empty(4, 4));
    match b.reveal_tile(c(0, 0)) {
        RevealOutcome::Revealed { tiles, complete } => {
            assert_eq!(tiles.len(), 16);
            assert_eq!(tiles[0], c(0, 0));
            let mut seen = tiles.clone();
            seen.sort_by_key(|p| (p.y, p.x));
            seen.dedup();
            assert_eq!(seen.len(), 16);
            assert!(complete);
        }
        other => panic!("unexpected {:?}", other),
    }
    assert_eq!(b.reveal_tile(c(2, 2)), RevealOutcome::AlreadyRevealed);
}

#[test]
fn flood_stops_at_numbers_and_spares_mines() {
    // 5x5 with one mine in a corner: every other cell is uncovered from the far corner.
    let mut b = board(5, 5, vec![c(4, 4)]);
    match b.reveal_tile(c(0, 0)) {
        RevealOutcome::Revealed { tiles, complete } => {
            assert_eq!(tiles.len(), 24);
            assert!(!tiles.contains(&c(4, 4)));
            assert!(complete);
        }
        other => panic!("unexpected {:?}", other),
    }
    assert!(b.is_hidden(c(4, 4)));
}

#[test]
fn flood_is_bounded_by_a_wall_of_mines() {
    // A column of mines at x = 2 splits the board; the cascade stays on the left side.
    let mut b = board(5, 3, vec![c(2, 0), c(2, 1), c(2, 2)]);
    match b.reveal_tile(c(0, 1)) {
        RevealOutcome::Revealed { tiles, complete } => {
            assert_eq!(tiles.len(), 6);
            for t in &tiles {
                assert!(t.x < 2);
            }
            assert!(!complete);
        }
        other => panic!("unexpected {:?}", other),
    }
    for y in 0..3 {
        assert!(b.is_hidden(c(2, y)));
        assert!(b.is_hidden(c(3, y)));
        assert!(b.is_hidden(c(4, y)));
    }
}

#[test]
fn reveal_mine_explodes() {
    let mut b = board(3, 3, vec![c(1, 1)]);
    assert_eq!(b.reveal_tile(c(1, 1)), RevealOutcome::Exploded(c(1, 1)));
    assert!(!b.is_hidden(c(1, 1)));
    assert!(b.is_hidden(c(0, 0)));
    assert_eq!(b.reveal_tile(c(1, 1)), RevealOutcome::AlreadyRevealed);
}

#[test]
fn reveal_outside_is_no_op() {
    let mut b = board(2, 2, vec![c(0, 0)]);
    assert_eq!(b.reveal_tile(c(2, 0)), RevealOutcome::AlreadyRevealed);
    assert_eq!(b.try_toggle_mark(c(0, 2)), FlagOutcome::NotHidden);
}

#[test]
fn completion_flips_once() {
    let mut b = board(2, 1, vec![c(0, 0)]);
    assert!(!b.is_completed());
    assert_eq!(
        b.reveal_tile(c(1, 0)),
        RevealOutcome::Revealed { tiles: vec![c(1, 0)], complete: true }
    );
    assert!(b.is_completed());
    assert_eq!(b.reveal_tile(c(1, 0)), RevealOutcome::AlreadyRevealed);
    assert!(b.is_completed());
}

#[test]
fn completion_needs_every_safe_cell() {
    let mut b = board(3, 1, vec![c(0, 0)]);
    assert_eq!(
        b.reveal_tile(c(1, 0)),
        RevealOutcome::Revealed { tiles: vec![c(1, 0)], complete: false }
    );
    assert!(!b.is_completed());
    assert_eq!(
        b.reveal_tile(c(2, 0)),
        RevealOutcome::Revealed { tiles: vec![c(2, 0)], complete: true }
    );
    assert!(b.is_completed());
}

#[test]
fn flag_then_reveal_unflags() {
    let mut b = board(3, 3, vec![c(0, 0), c(2, 2)]);
    assert_eq!(b.try_toggle_mark(c(1, 0)), FlagOutcome::Flagged(c(1, 0)));
    assert!(b.is_flagged(c(1, 0)));
    assert_eq!(b.tile_to_uncover(c(1, 0)), Some(c(1, 0)));
    let r = b.reveal_tile(c(1, 0));
    assert_eq!(r, RevealOutcome::Revealed { tiles: vec![c(1, 0)], complete: false });
    assert!(!b.is_flagged(c(1, 0)));
    assert!(!b.is_hidden(c(1, 0)));
    assert_eq!(b.try_toggle_mark(c(1, 0)), FlagOutcome::NotHidden);
}

#[test]
fn toggle_twice_unflags() {
    let mut b = board(2, 2, vec![c(1, 1)]);
    assert_eq!(b.try_toggle_mark(c(1, 1)), FlagOutcome::Flagged(c(1, 1)));
    assert_eq!(b.try_toggle_mark(c(1, 1)), FlagOutcome::Unflagged(c(1, 1)));
    assert!(!b.is_flagged(c(1, 1)));
    assert!(b.is_hidden(c(1, 1)));
    assert_eq!(b.tile_to_uncover(c(1, 1)), Some(c(1, 1)));
    b.reveal_tile(c(0, 0));
    assert_eq!(b.tile_to_uncover(c(0, 0)), None);
    assert_eq!(b.tile_to_uncover(c(5, 0)), None);
}

#[test]
fn cascade_clears_flags() {
    let mut b = Board::new(TileMap::empty(3, 3));
    assert_eq!(b.try_toggle_mark(c(2, 2)), FlagOutcome::Flagged(c(2, 2)));
    match b.reveal_tile(c(0, 0)) {
        RevealOutcome::Revealed { tiles, complete } => {
            assert_eq!(tiles.len(), 9);
            assert!(complete);
        }
        other => panic!("unexpected {:?}", other),
    }
    assert!(!b.is_flagged(c(2, 2)));
}

#[test]
fn try_uncover_tile_uncovers_once() {
    let mut b = board(2, 2, vec![c(0, 0)]);
    b.try_toggle_mark(c(1, 1));
    assert_eq!(b.try_uncover_tile(c(1, 1)), Some(c(1, 1)));
    assert!(!b.is_flagged(c(1, 1)));
    assert!(!b.is_hidden(c(1, 1)));
    assert_eq!(b.try_uncover_tile(c(1, 1)), None);
}

#[test]
fn adjacent_covered_tiles_lists_hidden_neighbours() {
    let mut b = board(3, 3, vec![c(0, 0), c(2, 2)]);
    assert_eq!(
        b.adjacent_covered_tiles(c(0, 0)),
        vec![c(1, 0), c(0, 1), c(1, 1)]
    );
    b.reveal_tile(c(1, 0));
    b.try_toggle_mark(c(1, 1));
    assert_eq!(b.adjacent_covered_tiles(c(0, 0)), vec![c(0, 1), c(1, 1)]);
    assert_eq!(b.adjacent_covered_tiles(c(9, 9)), vec![]);
}
