//! The visible grid: a packed cell store holding one symbol code per cell
//! (codes 1 through 5 for the five playable symbols), plus the board's own
//! symbol generator used to refill cells, with coordinate arithmetic,
//! per-cell access, randomization, and column-wise gravity collapse.

use vstd::prelude::*;
use crate::state::State;
use crate::tribit::TribitFields;
use crate::rng::{RandomStateGenerator, spec_gen_code, spec_next_key, key_after, code_at};
use crate::island::{Island, col_occupied, is_col_top, is_col_bottom, is_left_bound, is_right_bound};
use crate::{BOARD_X, BOARD_Y, BOARD_SIZE};

verus! {

broadcast use crate::tribit::lemma_cells_len;

/// The symbol a raw stored cell code denotes: codes 1 through 5 are the
/// five playable symbols (code minus one is the symbol's numeric code);
/// any other code denotes no playable symbol.
pub open spec fn code_state(raw: u8) -> State {
    if 1 <= raw <= 5 {
        State::spec_from((raw - 1) as u8)
    } else {
        State::Error
    }
}

/// The grid of symbols: one packed cell store of `BOARD_SIZE` cells and
/// the generator that refills vacated cells.
pub struct Board {
    data: TribitFields,
    rsg: RandomStateGenerator,
}

impl Board {
    /// The raw stored cell codes, row-major.
    pub closed spec fn cells(&self) -> Seq<u8> {
        self.data.cells()
    }

    /// The running key of the board's own refill generator.
    pub closed spec fn key(&self) -> u32 {
        self.rsg.key()
    }

    /// The cell store has its fixed size.
    pub closed spec fn wf(&self) -> bool {
        self.data.wf()
    }

    /// The view has one code per cell and every code fits in 3 bits.
    pub proof fn lemma_view(&self)
        requires
            self.wf(),
        ensures
            self.cells().len() == BOARD_SIZE,
            forall|i: int| 0 <= i < BOARD_SIZE ==> #[trigger] self.cells()[i] < 8,
    {
        self.data.lemma_cells_in_range();
    }

    /// A fresh board: every cell code zero (no symbol yet), refill
    /// generator at its default key.
    pub fn new() -> (r: Board)
        ensures
            r.wf(),
            r.cells().len() == BOARD_SIZE,
            forall|i: int| 0 <= i < BOARD_SIZE ==> #[trigger] r.cells()[i] == 0,
            r.key() == 123456789,
    {
        Board { data: TribitFields::new(), rsg: RandomStateGenerator::new() }
    }

    /// The linear index of the cell at `(x, y)`.
    pub fn coords_to_index(x: u8, y: u8) -> (i: u8)
        requires
            x < BOARD_X,
            y < BOARD_Y,
        ensures
            i == y * BOARD_X + x,
            i < BOARD_SIZE,
    {
        y * BOARD_X + x
    }

    /// The column of the cell at linear index `i`.
    pub fn index_to_coord_x(i: u8) -> (x: u8)
        ensures
            x == i % BOARD_X,
    {
        i % BOARD_X
    }

    /// The row of the cell at linear index `i`.
    pub fn index_to_coord_y(i: u8) -> (y: u8)
        ensures
            y == i / BOARD_X,
    {
        i / BOARD_X
    }

    /// Stores a playable symbol at `index`, as code `symbol value + 1`.
    pub fn set(&mut self, index: u8, state: State)
        requires
            old(self).wf(),
            index < BOARD_SIZE,
            state.is_playable(),
        ensures
            final(self).wf(),
            final(self).cells() == old(self).cells().update(
                index as int,
                (state.spec_value() + 1) as u8,
            ),
            final(self).key() == old(self).key(),
    {
        let v = state.value();
        self.data.set(index as usize, v + 1);
    }

    /// Reads the symbol at `index`, translating the stored code.
    pub fn get(&self, index: u8) -> (s: State)
        requires
            self.wf(),
            index < BOARD_SIZE,
        ensures
            s == code_state(self.cells()[index as int]),
    {
        let raw = self.data.get(index as usize);
        if 1 <= raw && raw <= 5 {
            State::from(raw - 1)
        } else {
            State::Error
        }
    }

    /// Re-populates every cell: each cell's code becomes
    /// `((code + generated) % 5) + 1`, so the whole board lands in the
    /// playable range `[1, 5]`. The caller's generator advances one step
    /// per cell.
    pub fn randomize(&mut self, rsg: &mut RandomStateGenerator)
        requires
            old(self).wf(),
        ensures
            final(self).wf(),
            final(rsg).key() == key_after(old(rsg).key(), BOARD_SIZE as nat),
            forall|i: int|
                0 <= i < BOARD_SIZE ==> #[trigger] final(self).cells()[i] == ((old(self).cells()[i]
                    + code_at(old(rsg).key(), i as nat)) % 5) + 1,
            forall|i: int|
                0 <= i < BOARD_SIZE ==> 1 <= #[trigger] final(self).cells()[i] <= 5,
            final(self).key() == old(self).key(),
    {
        let ghost key0 = rsg.key();
        let mut i: usize = 0;
        while i < BOARD_SIZE
            invariant
                self.wf(),
                i <= BOARD_SIZE,
                rsg.key() == key_after(key0, i as nat),
                self.key() == old(self).key(),
                forall|j: int|
                    0 <= j < i ==> #[trigger] self.cells()[j] == ((old(self).cells()[j] + code_at(
                        key0, j as nat)) % 5) + 1,
                forall|j: int| i <= j < BOARD_SIZE ==> #[trigger] self.cells()[j] == old(
                    self).cells()[j],
            decreases BOARD_SIZE - i,
        {
            proof {
                self.data.lemma_cells_in_range();
            }
            let ghost prev = *self;
            let cur = self.data.get(i);
            let s = rsg.generate();
            let new_value = ((cur + s.value()) % 5) + 1;
            self.data.set(i, new_value);
            proof {
                assert(new_value < 8);
                assert(self.cells() == prev.cells().update(i as int, new_value));
                assert(new_value == ((prev.cells()[i as int] + code_at(key0, i as nat)) % 5) + 1);
                assert(forall|j: int|
                    0 <= j < BOARD_SIZE && j != i ==> #[trigger] self.cells()[j]
                        == prev.cells()[j]);
            }
            i = i + 1;
        }
    }

    /// Overwrites the cell at `(x, y)`: a cell within `y_diff` of the top
    /// takes a freshly generated symbol from the board's own generator;
    /// any other cell copies the code from `y_diff` rows above it.
    pub fn overwrite_cell(&mut self, x: u8, y: u8, y_diff: u8)
        requires
            old(self).wf(),
            x < BOARD_X,
            y < BOARD_Y,
        ensures
            final(self).wf(),
            y < y_diff ==> {
                &&& final(self).cells() == old(self).cells().update(
                    (y * BOARD_X + x) as int,
                    (spec_gen_code(old(self).key()) + 1) as u8,
                )
                &&& final(self).key() == spec_next_key(old(self).key())
            },
            y >= y_diff ==> {
                &&& final(self).cells() == old(self).cells().update(
                    (y * BOARD_X + x) as int,
                    old(self).cells()[((y - y_diff) * BOARD_X + x) as int],
                )
                &&& final(self).key() == old(self).key()
            },
    {
        let index = Board::coords_to_index(x, y);
        if y < y_diff {
            let s = self.rsg.generate();
            let v = s.value();
            self.data.set(index as usize, v + 1);
        } else {
            proof {
                self.data.lemma_cells_in_range();
            }
            let src = Board::coords_to_index(x, y - y_diff);
            let v = self.data.get(src as usize);
            self.data.set(index as usize, v);
        }
    }

    /// Applies gravity to one column: rows `y_max` down to `0` are
    /// overwritten in order, so every cell at row `y >= y_diff` takes the
    /// old code from `y_diff` rows above, and the top `y_diff` cells take
    /// freshly generated symbols, generated top-most rows last.
    pub fn overwrite_column(&mut self, x: u8, y_max: u8, y_diff: u8)
        requires
            old(self).wf(),
            x < BOARD_X,
            y_max < BOARD_Y,
            1 <= y_diff <= y_max + 1,
        ensures
            final(self).wf(),
            final(self).key() == key_after(old(self).key(), y_diff as nat),
            forall|y: int|
                y_diff <= y <= y_max ==> #[trigger] final(self).cells()[y * BOARD_X + x] == old(
                    self).cells()[(y - y_diff) * BOARD_X + x],
            forall|y: int|
                0 <= y < y_diff ==> #[trigger] final(self).cells()[y * BOARD_X + x] == (
                spec_gen_code(key_after(old(self).key(), (y_diff - 1 - y) as nat)) + 1) as u8,
            forall|i: int|
                0 <= i < BOARD_SIZE && !(i % 8 == x && i / 8 <= y_max) ==> #[trigger] final(
                self).cells()[i] == old(self).cells()[i],
    {
        let ghost key0 = self.key();
        let mut yy: u8 = y_max + 1;
        while yy > 0
            invariant
                self.wf(),
                yy <= y_max + 1,
                x < BOARD_X,
                y_max < BOARD_Y,
                1 <= y_diff <= y_max + 1,
                self.key() == key_after(key0, (if yy >= y_diff { 0int } else { y_diff - yy }) as nat),
                forall|y: int|
                    yy <= y <= y_max && y >= y_diff ==> #[trigger] self.cells()[y * BOARD_X + x]
                        == old(self).cells()[(y - y_diff) * BOARD_X + x],
                forall|y: int|
                    yy <= y <= y_max && y < y_diff ==> #[trigger] self.cells()[y * BOARD_X + x] == (
                    spec_gen_code(key_after(key0, (y_diff - 1 - y) as nat)) + 1) as u8,
                forall|i: int|
                    0 <= i < BOARD_SIZE && !(i % 8 == x && yy <= i / 8 <= y_max) ==> #[trigger] self.cells()[i]
                        == old(self).cells()[i],
            decreases yy,
        {
            yy = yy - 1;
            let ghost prev = *self;
            self.overwrite_cell(x, yy, y_diff);
            proof {
                let idx = (yy * BOARD_X + x) as int;
                assert(idx % 8 == x && idx / 8 == yy as int) by (nonlinear_arith)
                    requires
                        idx == yy * 8 + x,
                        0 <= x < 8,
                        0 <= yy < 7,
                        BOARD_X == 8,
                ;
                assert forall|i: int|
                    0 <= i < BOARD_SIZE && i != idx implies #[trigger] self.cells()[i]
                    == prev.cells()[i] by {
                    prev.data.lemma_cells_in_range();
                }
                if yy >= y_diff {
                    assert((yy - y_diff) * BOARD_X + x == (yy as int - y_diff) * 8 + x);
                } else {
                    crate::rng::lemma_key_after_step(key0, (y_diff - 1 - yy) as nat);
                }
            }
        }
    }
}

/// The grid cell at row `y` of column `c` has that row and column.
proof fn lemma_col_index(y: int, c: int)
    requires
        0 <= y,
        0 <= c < 8,
    ensures
        (y * 8 + c) % 8 == c,
        (y * 8 + c) / 8 == y,
{
    assert((y * 8 + c) % 8 == c && (y * 8 + c) / 8 == y) by (nonlinear_arith)
        requires 0 <= y, 0 <= c < 8;
}

/// What gravity collapse leaves of one column, given the removed
/// cluster's member list. In a column the cluster does not touch, every
/// cell keeps its code. In a touched column, with `t` and `b` the top and
/// bottom rows of the cluster's span there and `diff = b - t + 1` the
/// span's height: rows below the span keep their codes, every other row
/// at depth `diff` or more copies the code `diff` rows above it, and the
/// top `diff` rows take freshly generated playable codes.
pub open spec fn gravity_ok(oldc: Seq<u8>, newc: Seq<u8>, members: Seq<u8>, c: u8) -> bool {
    &&& (!col_occupied(members, c) ==> forall|y: int|
        0 <= y < BOARD_Y ==> #[trigger] newc[y * 8 + c] == oldc[y * 8 + c])
    &&& forall|t: u8, b: u8|
        #[trigger] is_col_top(members, c, t) && #[trigger] is_col_bottom(members, c, b) ==> {
            let diff = b + 1 - t;
            &&& (forall|y: int|
                b < y < BOARD_Y ==> #[trigger] newc[y * 8 + c] == oldc[y * 8 + c])
            &&& (forall|y: int|
                diff <= y <= b ==> #[trigger] newc[y * 8 + c] == oldc[(y - diff) * 8 + c])
            &&& (forall|y: int| 0 <= y < diff ==> 1 <= #[trigger] newc[y * 8 + c] <= 5)
        }
}

impl Board {
    /// Removes the recorded cluster by gravity: every column of the
    /// cluster's bounding box collapses by the height of the cluster's
    /// span in that column, and the vacated top cells take freshly
    /// generated symbols. Columns the cluster does not touch keep every
    /// cell. An empty cluster leaves the whole board unchanged.
    pub fn update(&mut self, island: &Island)
        requires
            old(self).wf(),
            island.wf(),
        ensures
            final(self).wf(),
            forall|c: u8|
                c < BOARD_X ==> #[trigger] gravity_ok(
                    old(self).cells(),
                    final(self).cells(),
                    island.members(),
                    c,
                ),
    {
        let ghost oldc = self.cells();
        let ghost members = island.members();
        let x_min: u8 = island.left_bound();
        let x_max: u8 = island.right_bound();

        let mut column: u8 = x_min;
        while column <= x_max
            invariant
                self.wf(),
                island.wf(),
                members == island.members(),
                oldc == old(self).cells(),
                x_min <= column,
                x_max < BOARD_X,
                column <= 8,
                members.len() > 0 ==> is_left_bound(members, x_min) && is_right_bound(
                    members, x_max),
                members.len() == 0 ==> x_min == BOARD_X,
                forall|c: u8, y: int|
                    c < BOARD_X && !(x_min <= c < column) && 0 <= y < BOARD_Y
                        ==> #[trigger] self.cells()[y * 8 + c] == oldc[y * 8 + c],
                forall|c: u8|
                    c < BOARD_X && x_min <= c < column ==> #[trigger] gravity_ok(
                        oldc,
                        self.cells(),
                        members,
                        c,
                    ),
            decreases x_max + 1 - column,
        {
            let y_min: u8 = island.column_top_bound(column);
            let y_max: u8 = island.column_bottom_bound(column);
            let ghost prev = self.cells();
            if y_min <= y_max {
                let y_diff: u8 = (y_max - y_min) + 1;
                self.overwrite_column(column, y_max, y_diff);
            }
            proof {
                let cc = column;
                // Cells of other columns kept their codes through this step.
                assert forall|c: u8, y: int|
                    c < BOARD_X && c != cc && 0 <= y < BOARD_Y implies #[trigger] self.cells()[y * 8
                    + c] == prev[y * 8 + c] by {
                    lemma_col_index(y, c as int);
                }
                // Columns already collapsed keep their gravity relation.
                assert forall|c: u8|
                    c < BOARD_X && x_min <= c < cc implies #[trigger] gravity_ok(
                    oldc, self.cells(), members, c) by {
                    assert(gravity_ok(oldc, prev, members, c));
                    assert(forall|y: int|
                        0 <= y < BOARD_Y ==> #[trigger] self.cells()[y * 8 + c] == prev[y * 8
                            + c]);
                    if !col_occupied(members, c) {
                        assert(forall|y: int|
                            0 <= y < BOARD_Y ==> #[trigger] prev[y * 8 + c] == oldc[y * 8 + c]);
                    }
                    assert forall|t: u8, b: u8|
                        #[trigger] is_col_top(members, c, t) && #[trigger] is_col_bottom(
                        members, c, b) implies ({
                        let diff = b + 1 - t;
                        &&& (forall|y: int|
                            b < y < BOARD_Y ==> #[trigger] self.cells()[y * 8 + c] == oldc[y * 8
                                + c])
                        &&& (forall|y: int|
                            diff <= y <= b ==> #[trigger] self.cells()[y * 8 + c] == oldc[(y
                                - diff) * 8 + c])
                        &&& (forall|y: int|
                            0 <= y < diff ==> 1 <= #[trigger] self.cells()[y * 8 + c] <= 5)
                    }) by {
                        let diff = b + 1 - t;
                        assert forall|y: int|
                            b < y < BOARD_Y implies #[trigger] self.cells()[y * 8 + c] == oldc[y
                            * 8 + c] by {
                            assert(prev[y * 8 + c] == oldc[y * 8 + c]);
                            assert(self.cells()[y * 8 + c] == prev[y * 8 + c]);
                        }
                        assert forall|y: int|
                            diff <= y <= b implies #[trigger] self.cells()[y * 8 + c] == oldc[(y
                            - diff) * 8 + c] by {
                            assert(prev[y * 8 + c] == oldc[(y - diff) * 8 + c]);
                            assert(self.cells()[y * 8 + c] == prev[y * 8 + c]);
                        }
                        assert forall|y: int|
                            0 <= y < diff implies 1 <= #[trigger] self.cells()[y * 8 + c]
                            <= 5 by {
                            assert(1 <= prev[y * 8 + c] <= 5);
                            assert(self.cells()[y * 8 + c] == prev[y * 8 + c]);
                        }
                    }
                }
                // This column now satisfies the gravity relation.
                assert(gravity_ok(oldc, self.cells(), members, cc)) by {
                    if y_min <= y_max {
                        assert(is_col_top(members, cc, y_min));
                        assert(is_col_bottom(members, cc, y_max));
                        let diff = y_max + 1 - y_min;
                        assert forall|t: u8, b: u8|
                            #[trigger] is_col_top(members, cc, t) && #[trigger] is_col_bottom(
                            members, cc, b) implies t == y_min && b == y_max by {
                            let k1 = choose|k: int|
                                0 <= k < members.len() && #[trigger] members[k] % 8 == cc
                                    && members[k] / 8 == t;
                            let k2 = choose|k: int|
                                0 <= k < members.len() && #[trigger] members[k] % 8 == cc
                                    && members[k] / 8 == b;
                            assert(members[k1] / 8 >= y_min && members[k2] / 8 <= y_max);
                        }
                        assert forall|y: int|
                            y_max < y < BOARD_Y implies #[trigger] self.cells()[y * 8 + cc]
                            == oldc[y * 8 + cc] by {
                            lemma_col_index(y, cc as int);
                            assert(self.cells()[y * 8 + cc] == prev[y * 8 + cc]);
                        }
                        assert(forall|y: int|
                            diff <= y <= y_max ==> #[trigger] self.cells()[y * 8 + cc] == prev[(y
                                - diff) * 8 + cc]);
                    } else {
                        assert forall|k: int|
                            0 <= k < members.len() implies #[trigger] members[k] % 8 != cc by {
                            if members[k] % 8 == cc {
                                assert(members[k] / 8 >= y_min && members[k] / 8 <= y_max);
                            }
                        }
                        assert(!col_occupied(members, cc));
                    }
                }
            }
            column = column + 1;
        }
        proof {
            assert forall|c: u8| c < BOARD_X implies #[trigger] gravity_ok(
                oldc, self.cells(), members, c) by {
                if !(x_min <= c < column) {
                    if col_occupied(members, c) {
                        let k = choose|k: int|
                            0 <= k < members.len() && #[trigger] members[k] % 8 == c;
                        assert(members[k] % 8 >= x_min && members[k] % 8 <= x_max);
                        assert(false);
                    }
                    assert forall|t: u8, b: u8|
                        #[trigger] is_col_top(members, c, t) && #[trigger] is_col_bottom(
                        members, c, b) implies false by {
                        let k = choose|k: int|
                            0 <= k < members.len() && #[trigger] members[k] % 8 == c && members[k]
                                / 8 == t;
                        assert(col_occupied(members, c));
                    }
                }
            }
        }
    }
}

impl Board {
    /// The board as a string of one ASCII digit per cell (the raw stored
    /// code plus `'0'`), row-major.
    pub fn as_string(&self) -> (r: String)
        requires
            self.wf(),
        ensures
            r@.len() == BOARD_SIZE,
            forall|i: int|
                0 <= i < BOARD_SIZE ==> #[trigger] r@[i] == ((48 + self.cells()[i]) as u8) as char,
    {
        self.data.to_string()
    }

    /// The board as a row-major sequence of `(x, y, glyph)` triples, the
    /// only way the presentation layer reads board state.
    pub fn for_each(&self) -> (r: Vec<(u8, u8, char)>)
        requires
            self.wf(),
        ensures
            r@.len() == BOARD_SIZE,
            forall|i: int|
                0 <= i < BOARD_SIZE ==> #[trigger] r@[i] == (
                    (i % 8) as u8,
                    (i / 8) as u8,
                    code_state(self.cells()[i]).spec_ascii(),
                ),
    {
        let mut out: Vec<(u8, u8, char)> = Vec::new();
        let mut i: u8 = 0;
        while i < BOARD_SIZE as u8
            invariant
                self.wf(),
                i <= BOARD_SIZE,
                out@.len() == i,
                forall|m: int|
                    0 <= m < i ==> #[trigger] out@[m] == (
                        (m % 8) as u8,
                        (m / 8) as u8,
                        code_state(self.cells()[m]).spec_ascii(),
                    ),
            decreases BOARD_SIZE - i,
        {
            let x = Board::index_to_coord_x(i);
            let y = Board::index_to_coord_y(i);
            let state = self.get(i).ascii();
            out.push((x, y, state));
            i = i + 1;
        }
        out
    }
}

/// The board's cell view always has one entry per cell.
pub broadcast proof fn lemma_board_cells_len(b: &Board)
    ensures
        (#[trigger] b.cells()).len() == BOARD_SIZE,
{
}

} // verus!
