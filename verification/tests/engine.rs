use gleamgrid::board::Board;
use gleamgrid::game::Game;
use gleamgrid::island::Island;
use gleamgrid::rng::RandomStateGenerator;
use gleamgrid::state::State;
use gleamgrid::BOARD_SIZE;

fn playable_code(s: State) -> u8 {
    let v = s.value();
    assert!(v <= 4);
    v
}

#[test]
fn randomize_lands_in_playable_range() {
    let mut board = Board::new();
    let mut rsg = RandomStateGenerator::new();
    board.randomize(&mut rsg);
    let digits = board.as_string();
    for c in digits.chars() {
        assert!(('1'..='5').contains(&c));
    }
}

#[test]
fn randomize_is_deterministic() {
    let mut board_a = Board::new();
    let mut rsg_a = RandomStateGenerator::new();
    board_a.randomize(&mut rsg_a);
    let mut board_b = Board::new();
    let mut rsg_b = RandomStateGenerator::new();
    board_b.randomize(&mut rsg_b);
    assert_eq!(board_a.as_string(), board_b.as_string());
}

#[test]
fn board_for_each_lists_cells_row_major() {
    let mut board = Board::new();
    board.set(10, State::Gamma);
    let triples = board.for_each();
    assert_eq!(triples.len(), BOARD_SIZE);
    assert_eq!(triples[10], (2, 1, 'G'));
    assert_eq!(triples[0], (0, 0, '?'));
    for (i, (x, y, _)) in triples.iter().enumerate() {
        assert_eq!(*x, (i % 8) as u8);
        assert_eq!(*y, (i / 8) as u8);
    }
}

#[test]
fn gravity_collapse_shifts_columns_and_refills_top() {
    // A 2x2 Gamma block at (2,2)-(3,3) inside a checkerboard.
    let mut board = Board::new();
    for i in 0..BOARD_SIZE as u8 {
        let x = Board::index_to_coord_x(i);
        let y = Board::index_to_coord_y(i);
        let state = if (x + y) % 2 == 0 { State::Alpha } else { State::Beta };
        board.set(i, state);
    }
    for i in [18u8, 19, 26, 27] {
        board.set(i, State::Gamma);
    }
    let old: Vec<State> = (0..BOARD_SIZE as u8).map(|i| board.get(i)).collect();

    let mut island = Island::new();
    island.update(18, &board);
    board.update(&island);

    for x in 0u8..8 {
        for y in 0u8..7 {
            let i = Board::coords_to_index(x, y) as usize;
            if x == 2 || x == 3 {
                // The cluster spans rows 2..=3 in both columns: depth 2.
                if y >= 4 {
                    assert_eq!(board.get(i as u8), old[i]);
                } else if y >= 2 {
                    let src = Board::coords_to_index(x, y - 2) as usize;
                    assert_eq!(board.get(i as u8), old[src]);
                } else {
                    // Freshly generated symbols are playable.
                    playable_code(board.get(i as u8));
                }
            } else {
                assert_eq!(board.get(i as u8), old[i]);
            }
        }
    }
}

#[test]
fn gravity_on_empty_cluster_changes_nothing() {
    let mut board = Board::new();
    let mut rsg = RandomStateGenerator::new();
    board.randomize(&mut rsg);
    let before = board.as_string();
    let island = Island::new();
    board.update(&island);
    assert_eq!(board.as_string(), before);
}

#[test]
fn game_new_is_quiet() {
    let game = Game::new();
    assert!(!game.updated);
    assert!(!game.game_over);
    assert_eq!(game.board_as_string().len(), BOARD_SIZE);
}

#[test]
fn update_board_on_fresh_game_changes_nothing() {
    let mut game = Game::new();
    let before = game.board_as_string();
    game.update_board();
    assert_eq!(game.board_as_string(), before);
}

#[test]
fn select_outside_any_cluster_is_a_no_op() {
    let mut game = Game::new();
    let mut rsg = RandomStateGenerator::new();
    game.board.randomize(&mut rsg);
    game.isles.update(&mut game.island, &game.board);
    // Find an unflagged cell, if any, and select it.
    for i in 0..BOARD_SIZE as u8 {
        if !game.isles.island_at(i) {
            let before = game.board_as_string();
            game.select(Board::index_to_coord_x(i), Board::index_to_coord_y(i));
            assert!(!game.updated);
            assert_eq!(game.board_as_string(), before);
            return;
        }
    }
}

#[test]
fn select_collapses_flagged_cluster_end_to_end() {
    // End-to-end scenario: a 2x2 region of one symbol inside an
    // otherwise scattered board.
    let mut game = Game::new();
    for i in 0..BOARD_SIZE as u8 {
        let x = Board::index_to_coord_x(i);
        let y = Board::index_to_coord_y(i);
        let state = if (x + y) % 2 == 0 { State::Alpha } else { State::Beta };
        game.board.set(i, state);
    }
    for i in [18u8, 19, 26, 27] {
        game.board.set(i, State::Gamma);
    }
    game.isles.update(&mut game.island, &game.board);
    for i in [18u8, 19, 26, 27] {
        assert!(game.isles.island_at(i));
    }
    let old: Vec<State> = (0..BOARD_SIZE as u8).map(|i| game.board.get(i)).collect();

    game.select(2, 2);
    assert!(game.updated);

    for x in 0u8..8 {
        for y in 0u8..7 {
            let i = Board::coords_to_index(x, y) as usize;
            if x == 2 || x == 3 {
                if y >= 4 {
                    assert_eq!(game.board.get(i as u8), old[i]);
                } else if y >= 2 {
                    let src = Board::coords_to_index(x, y - 2) as usize;
                    assert_eq!(game.board.get(i as u8), old[src]);
                } else {
                    playable_code(game.board.get(i as u8));
                }
            } else {
                assert_eq!(game.board.get(i as u8), old[i]);
            }
        }
    }

    // The rebuilt presence map flags a cell only if it now belongs to a
    // cluster of more than 3 cells.
    for i in 0..BOARD_SIZE as u8 {
        if game.isles.island_at(i) {
            let mut probe = Island::new();
            probe.update(i, &game.board);
            assert!(probe.valid());
        }
    }
}
