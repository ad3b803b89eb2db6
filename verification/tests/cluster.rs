use gleamgrid::board::Board;
use gleamgrid::island::Island;
use gleamgrid::isles::Isles;
use gleamgrid::state::State;
use gleamgrid::BOARD_SIZE;

// A board with no two adjacent equal symbols: Alpha and Beta alternate
// like a checkerboard.
fn checkerboard() -> Board {
    let mut board = Board::new();
    for i in 0..BOARD_SIZE as u8 {
        let x = Board::index_to_coord_x(i);
        let y = Board::index_to_coord_y(i);
        let state = if (x + y) % 2 == 0 { State::Alpha } else { State::Beta };
        board.set(i, state);
    }
    board
}

#[test]
fn coordinates_round_trip() {
    assert_eq!(Board::coords_to_index(3, 2), 19);
    assert_eq!(Board::index_to_coord_x(19), 3);
    assert_eq!(Board::index_to_coord_y(19), 2);
    assert_eq!(Board::coords_to_index(0, 0), 0);
    assert_eq!(Board::coords_to_index(7, 6), 55);
}

#[test]
fn board_set_get_round_trip() {
    let mut board = Board::new();
    board.set(11, State::Delta);
    assert_eq!(board.get(11), State::Delta);
    // An untouched cell holds no playable symbol.
    assert_eq!(board.get(12), State::Error);
}

#[test]
fn flood_fill_discovers_exact_cluster_in_order() {
    // An L-shaped Gamma cluster at indices 0, 8, 9, 17 inside a
    // checkerboard that merges with nothing.
    let mut board = checkerboard();
    for i in [0u8, 8, 9, 17] {
        board.set(i, State::Gamma);
    }
    let mut island = Island::new();
    island.update(0, &board);
    // Discovery order: seed, its bottom neighbor, then rightward, then
    // down again; nothing else, and nothing twice.
    assert_eq!(island.get(0), 0);
    assert_eq!(island.get(1), 8);
    assert_eq!(island.get(2), 9);
    assert_eq!(island.get(3), 17);
    for k in 4..BOARD_SIZE as u8 {
        assert_eq!(island.get(k), 255);
    }
    assert!(island.valid());
    assert!(island.complete());
}

#[test]
fn flood_fill_from_other_seed_finds_same_cells() {
    let mut board = checkerboard();
    for i in [0u8, 8, 9, 17] {
        board.set(i, State::Gamma);
    }
    let mut island = Island::new();
    island.update(17, &board);
    let mut found: Vec<u8> = Vec::new();
    for k in 0..BOARD_SIZE as u8 {
        let v = island.get(k);
        if v != 255 {
            found.push(v);
        }
    }
    found.sort();
    assert_eq!(found, vec![0, 8, 9, 17]);
}

#[test]
fn flood_fill_bounds() {
    let mut board = checkerboard();
    for i in [0u8, 8, 9, 17] {
        board.set(i, State::Gamma);
    }
    let mut island = Island::new();
    island.update(0, &board);
    assert_eq!(island.left_bound(), 0);
    assert_eq!(island.right_bound(), 1);
    assert_eq!(island.column_top_bound(0), 0);
    assert_eq!(island.column_bottom_bound(0), 1);
    assert_eq!(island.column_top_bound(1), 1);
    assert_eq!(island.column_bottom_bound(1), 2);
    // A column the cluster does not touch reads as an empty span.
    assert_eq!(island.column_top_bound(5), 7);
    assert_eq!(island.column_bottom_bound(5), 0);
}

#[test]
fn singleton_cluster_is_not_valid() {
    let board = checkerboard();
    let mut island = Island::new();
    island.update(0, &board);
    assert_eq!(island.get(0), 0);
    assert_eq!(island.get(1), 255);
    assert!(!island.valid());
}

#[test]
fn pair_cluster_is_not_valid() {
    let mut board = checkerboard();
    board.set(0, State::Gamma);
    board.set(1, State::Gamma);
    let mut island = Island::new();
    island.update(0, &board);
    assert!(!island.valid());
}

#[test]
fn triple_cluster_is_not_valid() {
    // The selectable threshold is deliberately 4 distinct cells.
    let mut board = checkerboard();
    board.set(0, State::Gamma);
    board.set(1, State::Gamma);
    board.set(2, State::Gamma);
    let mut island = Island::new();
    island.update(0, &board);
    assert!(!island.valid());
}

#[test]
fn four_cluster_is_valid() {
    let mut board = checkerboard();
    for i in [0u8, 1, 2, 3] {
        board.set(i, State::Gamma);
    }
    let mut island = Island::new();
    island.update(0, &board);
    assert!(island.valid());
}

#[test]
fn add_never_duplicates() {
    let mut island = Island::new();
    island.clear();
    island.add(5);
    island.add(5);
    island.add(7);
    island.add(5);
    assert_eq!(island.get(0), 5);
    assert_eq!(island.get(1), 7);
    assert_eq!(island.get(2), 255);
}

#[test]
fn clear_resets_tracer() {
    let mut island = Island::new();
    island.add(3);
    island.add(4);
    island.clear();
    for k in 0..BOARD_SIZE as u8 {
        assert_eq!(island.get(k), 255);
    }
    assert!(island.complete());
    assert!(!island.valid());
}

#[test]
fn island_for_each_lists_slots() {
    let mut island = Island::new();
    island.add(9);
    let slots = island.for_each();
    assert_eq!(slots.len(), BOARD_SIZE);
    assert_eq!(slots[0], 9);
    assert_eq!(slots[1], 255);
}

#[test]
fn isles_update_flags_exactly_the_selectable_cluster() {
    let mut board = checkerboard();
    for i in [18u8, 19, 26, 27] {
        board.set(i, State::Gamma);
    }
    let mut island = Island::new();
    let mut isles = Isles::new();
    isles.update(&mut island, &board);
    for i in 0..BOARD_SIZE as u8 {
        let expected = i == 18 || i == 19 || i == 26 || i == 27;
        assert_eq!(isles.island_at(i), expected);
    }
    assert!(isles.has_islands());
}

#[test]
fn isles_update_on_scattered_board_flags_nothing() {
    let board = checkerboard();
    let mut island = Island::new();
    let mut isles = Isles::new();
    isles.update(&mut island, &board);
    for i in 0..BOARD_SIZE as u8 {
        assert!(!isles.island_at(i));
    }
    assert!(!isles.has_islands());
}

#[test]
fn isles_apply_marks_members() {
    let mut board = checkerboard();
    for i in [0u8, 1, 2, 3] {
        board.set(i, State::Gamma);
    }
    let mut island = Island::new();
    island.update(0, &board);
    let mut isles = Isles::new();
    isles.clear();
    isles.apply(&island);
    assert!(isles.island_at(0));
    assert!(isles.island_at(1));
    assert!(isles.island_at(2));
    assert!(isles.island_at(3));
    assert!(!isles.island_at(4));
}

#[test]
fn isles_set_get_and_clear() {
    let mut isles = Isles::new();
    isles.clear();
    assert_eq!(isles.get(10), 7);
    assert!(!isles.island_at(10));
    isles.set(10, 5);
    assert_eq!(isles.get(10), 5);
    assert!(isles.island_at(10));
    // A raw write is reduced to the store's 3-bit width.
    isles.set(11, 255);
    assert_eq!(isles.get(11), 7);
}

#[test]
fn isles_for_each_reports_glyphs() {
    let mut isles = Isles::new();
    isles.clear();
    isles.set(9, 5);
    let triples = isles.for_each();
    assert_eq!(triples.len(), BOARD_SIZE);
    assert_eq!(triples[9], (1, 1, '#'));
    assert_eq!(triples[0], (0, 0, '?'));
}
