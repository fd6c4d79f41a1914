use minesweeper::board::{Board, CLICK_SPEED};
use minesweeper::counter::CountDown;
use minesweeper::tile::{Tile, Tiles};
use rand::SeedableRng;

fn mine_total(tiles: &Tiles) -> u32 {
    let mut n = 0;
    for x in 0..tiles.width {
        for y in 0..tiles.height {
            if tiles.get(x, y).mine {
                n += 1;
            }
        }
    }
    n
}

#[test]
fn countdown_ticks_to_zero_and_saturates() {
    let mut c = CountDown::new(5);
    assert_eq!(c.time_left, 5);
    assert!(c.has_time_left());
    for _ in 0..5 {
        c.tick();
    }
    assert_eq!(c.time_left, 0);
    assert!(!c.has_time_left());
    c.tick();
    assert_eq!(c.time_left, 0);
    c.reset();
    assert_eq!(c.time_left, 5);
    assert!(c.has_time_left());
}

#[test]
fn countdown_zero_start_has_no_time() {
    let mut c = CountDown::new(0);
    assert!(!c.has_time_left());
    c.tick();
    assert_eq!(c.time_left, 0);
}

#[test]
fn tile_new_and_mutators() {
    let mut t = Tile::new(2, 3);
    assert_eq!(t.x, 2);
    assert_eq!(t.y, 3);
    assert!(!t.mine && !t.flagged && !t.revealed);
    assert_eq!(t.mines_around, 0);
    t.set_as_mine();
    assert!(t.mine);
    t.set_mines_around(4);
    assert_eq!(t.mines_around, 4);
    t.set_revealed();
    assert!(t.revealed);
    t.set_revealed();
    assert!(t.revealed);
    t.flip_flag();
    assert!(t.flagged);
    t.flip_flag();
    assert!(!t.flagged);
}

#[test]
fn tiles_new_is_fresh_grid() {
    let tiles = Tiles::new(3, 2);
    assert_eq!(tiles.width, 3);
    assert_eq!(tiles.height, 2);
    for x in 0..3 {
        for y in 0..2 {
            let t = tiles.get(x, y);
            assert_eq!(t.x, x);
            assert_eq!(t.y, y);
            assert!(!t.mine && !t.flagged && !t.revealed);
            assert_eq!(t.mines_around, 0);
        }
    }
}

#[test]
fn set_mines_places_exact_count() {
    let mut tiles = Tiles::new(4, 4);
    tiles.set_mines(5);
    assert_eq!(mine_total(&tiles), 5);
}

#[test]
fn set_mines_full_board() {
    let mut tiles = Tiles::new(2, 3);
    tiles.set_mines(6);
    assert_eq!(mine_total(&tiles), 6);
}

#[test]
fn set_mines_zero_leaves_board_clear() {
    let mut tiles = Tiles::new(2, 2);
    tiles.set_mines(0);
    assert_eq!(mine_total(&tiles), 0);
    for x in 0..2 {
        for y in 0..2 {
            assert_eq!(tiles.get(x, y).mines_around, 0);
        }
    }
}

#[test]
fn set_mines_with_seeded_generator() {
    let mut tiles = Tiles::new(5, 5);
    let mut rng = rand::rngs::SmallRng::seed_from_u64(7);
    tiles.set_mines_with(&mut rng, 10);
    assert_eq!(mine_total(&tiles), 10);
}

#[test]
fn adjacency_counts_center_mine() {
    let mut tiles = Tiles::new(3, 3);
    tiles.set_mine_at(1, 1);
    tiles.calculate_mines_around();
    for x in 0..3 {
        for y in 0..3 {
            let expected = if x == 1 && y == 1 { 0 } else { 1 };
            assert_eq!(tiles.get(x, y).mines_around, expected);
        }
    }
}

#[test]
fn adjacency_counts_corner_mine() {
    let mut tiles = Tiles::new(2, 2);
    tiles.set_mine_at(0, 0);
    tiles.calculate_mines_around();
    assert_eq!(tiles.get(0, 0).mines_around, 0);
    assert_eq!(tiles.get(1, 0).mines_around, 1);
    assert_eq!(tiles.get(0, 1).mines_around, 1);
    assert_eq!(tiles.get(1, 1).mines_around, 1);
}

#[test]
fn adjacency_counts_two_mines() {
    let mut tiles = Tiles::new(3, 1);
    tiles.set_mine_at(0, 0);
    tiles.set_mine_at(2, 0);
    tiles.calculate_mines_around();
    assert_eq!(tiles.get(0, 0).mines_around, 0);
    assert_eq!(tiles.get(1, 0).mines_around, 2);
    assert_eq!(tiles.get(2, 0).mines_around, 0);
}

// A 3 by 3 board whose only mine sits at (2, 2); flooding from the far
// corner (0, 0) must reveal everything but the mine: the whole connected
// zero region plus its non-zero border, which is not recursed past.
#[test]
fn flood_reveals_zero_region_and_border() {
    let mut tiles = Tiles::new(3, 3);
    tiles.set_mine_at(2, 2);
    tiles.calculate_mines_around();
    tiles.reveal_around(0, 0);
    for x in 0..3 {
        for y in 0..3 {
            let expected = !(x == 2 && y == 2);
            assert_eq!(tiles.get(x, y).revealed, expected);
        }
    }
}

#[test]
fn flood_stops_at_nonzero_boundary() {
    let mut tiles = Tiles::new(5, 1);
    tiles.set_mine_at(4, 0);
    tiles.calculate_mines_around();
    tiles.reveal_around(0, 0);
    assert!(tiles.get(0, 0).revealed);
    assert!(tiles.get(1, 0).revealed);
    assert!(tiles.get(2, 0).revealed);
    // the boundary tile is revealed, the mine behind it is not
    assert!(tiles.get(3, 0).revealed);
    assert_eq!(tiles.get(3, 0).mines_around, 1);
    assert!(!tiles.get(4, 0).revealed);
}

#[test]
fn flood_on_nonzero_tile_reveals_it_alone() {
    let mut tiles = Tiles::new(3, 3);
    tiles.set_mine_at(0, 0);
    tiles.calculate_mines_around();
    tiles.reveal_around(1, 1);
    for x in 0..3 {
        for y in 0..3 {
            let expected = x == 1 && y == 1;
            assert_eq!(tiles.get(x, y).revealed, expected);
        }
    }
}

#[test]
fn flood_twice_is_idempotent() {
    let mut tiles = Tiles::new(3, 3);
    tiles.set_mine_at(2, 2);
    tiles.calculate_mines_around();
    tiles.reveal_around(0, 0);
    let mut snapshot: Vec<Tile> = Vec::new();
    for x in 0..3 {
        for y in 0..3 {
            snapshot.push(tiles.get(x, y));
        }
    }
    tiles.reveal_around(0, 0);
    let mut k = 0;
    for x in 0..3 {
        for y in 0..3 {
            assert_eq!(tiles.get(x, y), snapshot[k]);
            k += 1;
        }
    }
}

#[test]
fn reveal_at_does_not_cascade() {
    let mut tiles = Tiles::new(3, 3);
    tiles.reveal_at(0, 0);
    assert!(tiles.get(0, 0).revealed);
    for x in 0..3 {
        for y in 0..3 {
            if !(x == 0 && y == 0) {
                assert!(!tiles.get(x, y).revealed);
            }
        }
    }
}

#[test]
fn flip_flag_at_toggles() {
    let mut tiles = Tiles::new(2, 2);
    tiles.flip_flag_at(1, 0);
    assert!(tiles.get(1, 0).flagged);
    assert!(!tiles.get(0, 0).flagged);
    tiles.flip_flag_at(1, 0);
    assert!(!tiles.get(1, 0).flagged);
}

#[test]
fn board_new_sets_up_session() {
    let board = Board::new(1000, 500, 20, 10, 10);
    assert_eq!(board.cols, 20);
    assert_eq!(board.rows, 10);
    assert_eq!(board.mine_count, 10);
    assert!(!board.win && !board.lost);
    assert_eq!(board.counter.time_left, CLICK_SPEED);
    assert_eq!(mine_total(&board.tiles), 10);
}

#[test]
fn check_lost_iff_a_mine_is_revealed() {
    let mut board = Board::new(90, 90, 3, 3, 0);
    board.tiles.set_mine_at(1, 1);
    board.tiles.calculate_mines_around();
    assert!(!board.check_lost());
    board.tiles.reveal_at(0, 0);
    assert!(!board.check_lost());
    board.tiles.reveal_at(1, 1);
    assert!(board.check_lost());
    board.checks();
    assert!(board.lost);
}

#[test]
fn check_win_through_flags_wants_every_mine_flagged() {
    let mut board = Board::new(90, 90, 2, 2, 0);
    board.tiles.set_mine_at(0, 1);
    board.tiles.set_mine_at(1, 1);
    board.tiles.calculate_mines_around();
    assert!(!board.check_win_through_flags());
    board.tiles.flip_flag_at(0, 1);
    assert!(!board.check_win_through_flags());
    board.tiles.flip_flag_at(1, 1);
    assert!(board.check_win_through_flags());
    // a flag on a harmless tile does not spoil the win
    board.tiles.flip_flag_at(0, 0);
    assert!(board.check_win_through_flags());
}

#[test]
fn check_win_through_revealed_tiles_counts_exactly() {
    let mut board = Board::new(90, 90, 3, 3, 1);
    // find the one mine, then reveal every tile but the mine and one more
    let mut safe: Vec<(usize, usize)> = Vec::new();
    for x in 0..3 {
        for y in 0..3 {
            if !board.tiles.get(x, y).mine {
                safe.push((x, y));
            }
        }
    }
    assert_eq!(safe.len(), 8);
    for &(x, y) in safe.iter().take(7) {
        board.tiles.reveal_at(x, y);
    }
    assert!(!board.check_win_through_revealed_tiles());
    let (lx, ly) = safe[7];
    board.tiles.reveal_at(lx, ly);
    assert!(board.check_win_through_revealed_tiles());
    board.checks();
    assert!(board.win);
    assert!(!board.lost);
}

#[test]
fn single_tile_board_wins_by_reveal_and_by_flags() {
    let mut board = Board::new(10, 10, 1, 1, 0);
    // no mines: the flag condition holds from the start
    assert!(board.check_win_through_flags());
    assert!(!board.check_win_through_revealed_tiles());
    board.tiles.reveal_at(0, 0);
    assert!(board.check_win_through_revealed_tiles());
    board.checks();
    assert!(board.win);
}

#[test]
fn win_and_loss_flags_persist() {
    let mut board = Board::new(10, 10, 1, 1, 0);
    board.tiles.reveal_at(0, 0);
    board.checks();
    assert!(board.win);
    board.checks();
    assert!(board.win);
}

#[test]
fn prepare_character_maps_every_state() {
    let mut t = Tile::new(0, 0);
    assert_eq!(Board::prepare_character(&t), "X");
    t.flip_flag();
    assert_eq!(Board::prepare_character(&t), "F");
    t.set_revealed();
    t.set_as_mine();
    assert_eq!(Board::prepare_character(&t), "B");

    let mut blank = Tile::new(0, 0);
    blank.set_revealed();
    assert_eq!(Board::prepare_character(&blank), " ");
    for n in 1..9 {
        blank.set_mines_around(n);
        assert_eq!(Board::prepare_character(&blank), n.to_string());
    }
}

#[test]
fn board_reveal_around_floods_like_the_grid() {
    let mut board = Board::new(90, 90, 3, 3, 0);
    board.tiles.set_mine_at(2, 2);
    board.tiles.calculate_mines_around();
    board.reveal_around(0, 0);
    assert!(!board.tiles.get(2, 2).revealed);
    assert!(board.tiles.get(1, 1).revealed);
    board.checks();
    assert!(!board.lost);
}
