use gleamgrid::state::State;
use gleamgrid::tribit::TribitFields;
use gleamgrid::rng::RandomStateGenerator;
use gleamgrid::{BOARD_SIZE, BOARD_X, BOARD_Y};

#[test]
fn geometry_constants() {
    assert_eq!(BOARD_X, 8);
    assert_eq!(BOARD_Y, 7);
    assert_eq!(BOARD_SIZE, 56);
}

#[test]
fn state_codes_round_trip() {
    for code in 0u8..=5u8 {
        assert_eq!(State::from(code).value(), code);
    }
    assert_eq!(State::from(6), State::Error);
    assert_eq!(State::from(200), State::Error);
    assert_eq!(State::Error.value(), u8::MAX);
}

#[test]
fn state_glyphs() {
    assert_eq!(State::Alpha.ascii(), 'A');
    assert_eq!(State::Beta.ascii(), 'B');
    assert_eq!(State::Gamma.ascii(), 'G');
    assert_eq!(State::Delta.ascii(), 'D');
    assert_eq!(State::Epsilon.ascii(), 'E');
    assert_eq!(State::End.ascii(), '#');
    assert_eq!(State::Error.ascii(), '?');
}

#[test]
fn tribit_set_get_round_trip_every_index() {
    // 3-bit masking round trip at every index, including fields that
    // straddle a byte boundary (indices where 3*i % 8 > 5).
    for value in [0u8, 1, 5, 7, 8, 9, 181, 255] {
        for i in 0..BOARD_SIZE {
            let mut store = TribitFields::new();
            store.set(i, value);
            assert_eq!(store.get(i), value % 8);
        }
    }
}

#[test]
fn tribit_set_leaves_other_cells_alone() {
    let mut store = TribitFields::new();
    for i in 0..BOARD_SIZE {
        store.set(i, (i % 8) as u8);
    }
    for i in 0..BOARD_SIZE {
        assert_eq!(store.get(i), (i % 8) as u8);
    }
    store.set(20, 7);
    for i in 0..BOARD_SIZE {
        if i == 20 {
            assert_eq!(store.get(i), 7);
        } else {
            assert_eq!(store.get(i), (i % 8) as u8);
        }
    }
}

#[test]
fn tribit_new_is_all_zero() {
    let store = TribitFields::new();
    for i in 0..BOARD_SIZE {
        assert_eq!(store.get(i), 0);
    }
    let digits = store.to_string();
    assert_eq!(digits.len(), BOARD_SIZE);
    assert!(digits.chars().all(|c| c == '0'));
}

#[test]
fn tribit_to_string_shows_digits() {
    let mut store = TribitFields::new();
    store.set(0, 3);
    store.set(1, 7);
    store.set(55, 5);
    let digits = store.to_string();
    let bytes = digits.as_bytes();
    assert_eq!(bytes[0], b'3');
    assert_eq!(bytes[1], b'7');
    assert_eq!(bytes[55], b'5');
    assert_eq!(bytes[2], b'0');
}

#[test]
fn generator_is_deterministic() {
    // Two generators built with the same initial key produce identical
    // sequences over a whole board's worth of calls.
    let mut a = RandomStateGenerator::new();
    let mut b = RandomStateGenerator::new();
    for _ in 0..BOARD_SIZE {
        assert_eq!(a.generate(), b.generate());
    }
}

#[test]
fn generator_yields_playable_symbols() {
    let mut g = RandomStateGenerator::new();
    for _ in 0..BOARD_SIZE {
        let s = g.generate();
        assert!(s.value() <= 4);
        assert!(s != State::End && s != State::Error);
    }
}
