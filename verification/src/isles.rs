//! The cluster map: one presence flag per cell, rebuilt after every board
//! mutation by flood-filling from every not-yet-flagged cell, marking the
//! cells that belong to a cluster large enough to be selectable.

use vstd::prelude::*;
use crate::board::Board;
use crate::island::{
    Island, cluster, connected, has_member, lemma_connected_sym, lemma_connected_trans,
    lemma_connected_same_symbol, lemma_flood_fill_exact,
};
use crate::state::State;
use crate::tribit::TribitFields;
use crate::BOARD_SIZE;

verus! {

broadcast use crate::board::lemma_board_cells_len, crate::tribit::lemma_cells_len;

/// The presence-flag value for a cell with no selectable cluster: the
/// error marker's code reduced to the store's 3-bit width.
pub const ISLE_ABSENT: u8 = 7;

/// The presence-flag value marking a cell of a selectable cluster.
pub const ISLE_PRESENT: u8 = 5;

/// Cell `i` belongs to a selectable cluster of the board: its maximal
/// connected same-symbol set holds more than 3 cells.
/// (`lemma_cluster_finite` shows the set is finite, so its size is
/// meaningful.)
pub open spec fn in_valid_cluster(bd: Seq<u8>, i: int) -> bool {
    cluster(bd, i).len() > 3
}

/// A cell's cluster is a finite subset of the grid.
pub proof fn lemma_cluster_finite(bd: Seq<u8>, i: int)
    ensures
        cluster(bd, i).finite(),
        cluster(bd, i).len() <= BOARD_SIZE,
        cluster(bd, i) <= vstd::set_lib::set_int_range(0, BOARD_SIZE as int),
{
    let range = vstd::set_lib::set_int_range(0, BOARD_SIZE as int);
    vstd::set_lib::lemma_int_range(0, BOARD_SIZE as int);
    assert forall|c: int| cluster(bd, i).contains(c) implies range.contains(c) by {
        lemma_connected_same_symbol(bd, i, c);
    }
    vstd::set_lib::lemma_len_subset(cluster(bd, i), range);
}

/// Cells of one cluster share the whole cluster: reachability from either
/// reaches the same set.
pub proof fn lemma_cluster_member_same(bd: Seq<u8>, a: int, b: int)
    requires
        connected(bd, a, b),
    ensures
        cluster(bd, a) == cluster(bd, b),
{
    assert forall|c: int| cluster(bd, a).contains(c) <==> cluster(bd, b).contains(c) by {
        if connected(bd, a, c) {
            lemma_connected_sym(bd, a, b);
            lemma_connected_trans(bd, b, a, c);
        }
        if connected(bd, b, c) {
            lemma_connected_trans(bd, a, b, c);
        }
    }
    assert(cluster(bd, a) =~= cluster(bd, b));
}

/// The whole-board presence map: one 3-bit flag per cell, either the
/// absent sentinel or the present marker.
pub struct Isles {
    data: TribitFields,
}

impl Isles {
    /// The raw presence flags, one per cell.
    pub closed spec fn flags(&self) -> Seq<u8> {
        self.data.cells()
    }

    /// The flag store has its fixed size.
    pub closed spec fn wf(&self) -> bool {
        self.data.wf()
    }

    /// Cell `i` is flagged as belonging to a selectable cluster.
    pub open spec fn marked(&self, i: int) -> bool {
        self.flags()[i] != ISLE_ABSENT
    }

    /// A fresh map with every flag zero; `update` rebuilds it in full.
    pub fn new() -> (r: Isles)
        ensures
            r.wf(),
            forall|i: int| 0 <= i < BOARD_SIZE ==> #[trigger] r.flags()[i] == 0,
    {
        Isles { data: TribitFields::new() }
    }

    /// Writes a raw presence flag (reduced to 3 bits).
    pub fn set(&mut self, index: u8, value: u8)
        requires
            old(self).wf(),
            index < BOARD_SIZE,
        ensures
            final(self).wf(),
            final(self).flags() == old(self).flags().update(index as int, (value % 8) as u8),
    {
        self.data.set(index as usize, value);
    }

    /// Reads a raw presence flag.
    pub fn get(&self, index: u8) -> (r: u8)
        requires
            self.wf(),
            index < BOARD_SIZE,
        ensures
            r == self.flags()[index as int],
    {
        self.data.get(index as usize)
    }

    /// Resets every flag to the absent sentinel.
    pub fn clear(&mut self)
        requires
            old(self).wf(),
        ensures
            final(self).wf(),
            forall|i: int| 0 <= i < BOARD_SIZE ==> #[trigger] final(self).flags()[i] == ISLE_ABSENT,
            forall|i: int| 0 <= i < BOARD_SIZE ==> !final(self).marked(i),
    {
        let mut i: u8 = 0;
        while i < BOARD_SIZE as u8
            invariant
                self.wf(),
                i <= BOARD_SIZE,
                forall|m: int| 0 <= m < i ==> #[trigger] self.flags()[m] == ISLE_ABSENT,
            decreases BOARD_SIZE - i,
        {
            self.set(i, ISLE_ABSENT);
            i = i + 1;
        }
    }

    /// The presence query: whether cell `i` is flagged.
    pub fn island_at(&self, i: u8) -> (r: bool)
        requires
            self.wf(),
            i < BOARD_SIZE,
        ensures
            r <==> self.marked(i as int),
    {
        self.get(i) != ISLE_ABSENT
    }

    /// Flags every cell the tracer recorded as present, leaving all other
    /// flags alone.
    pub fn apply(&mut self, island: &Island)
        requires
            old(self).wf(),
            island.wf(),
        ensures
            final(self).wf(),
            forall|j: int|
                0 <= j < BOARD_SIZE ==> (#[trigger] final(self).marked(j) <==> old(self).marked(j)
                    || has_member(island.members(), j)),
    {
        let mut k: u8 = 0;
        let ghost members = island.members();
        while k < BOARD_SIZE as u8
            invariant
                self.wf(),
                island.wf(),
                k <= BOARD_SIZE,
                members == island.members(),
                k <= island.append(),
                forall|j: int|
                    0 <= j < BOARD_SIZE ==> (#[trigger] self.marked(j) <==> old(self).marked(j)
                        || has_member(members.take(k as int), j)),
            decreases BOARD_SIZE - k,
        {
            let index = island.get(k);
            if index == crate::island::ISLAND_ABSENT {
                proof {
                    assert(k as int == island.append());
                    assert(members.take(k as int) =~= members);
                }
                return ;
            }
            proof {
                assert(k < island.append());
                assert(members[k as int] == index);
            }
            let ghost before_set = *self;
            self.set(index, ISLE_PRESENT);
            proof {
                assert(forall|j: int|
                    0 <= j < BOARD_SIZE && j != index ==> (#[trigger] self.marked(j)
                        <==> before_set.marked(j)));
                assert(self.marked(index as int));
                assert forall|j: int|
                    0 <= j < BOARD_SIZE implies (#[trigger] self.marked(j) <==> old(
                    self).marked(j) || has_member(members.take(k as int + 1), j)) by {
                    assert(members.take(k as int + 1) =~= members.take(k as int).push(index));
                    if j == index as int {
                        assert(members.take(k as int + 1)[k as int] == index);
                    } else {
                        if has_member(members.take(k as int), j) {
                            let m = choose|m: int|
                                0 <= m < k && #[trigger] members.take(k as int)[m] == j;
                            assert(members.take(k as int + 1)[m] == j);
                        }
                        if has_member(members.take(k as int + 1), j) {
                            let m = choose|m: int|
                                0 <= m < k + 1 && #[trigger] members.take(k as int + 1)[m] == j;
                            assert(m < k);
                            assert(members.take(k as int)[m] == j);
                        }
                    }
                }
            }
            k = k + 1;
        }
        proof {
            assert(k as int == island.append());
            assert(members.take(k as int) =~= members);
        }
    }

    /// Rebuilds the whole map for the given board: clears every flag,
    /// then flood fills from every not-yet-flagged cell and flags the
    /// discovered cluster when it is selectable. Afterward a cell is
    /// flagged exactly when it belongs to a cluster of more than 3 cells.
    pub fn update(&mut self, island: &mut Island, board: &Board)
        requires
            old(self).wf(),
            old(island).wf(),
            board.wf(),
        ensures
            final(self).wf(),
            final(island).wf(),
            forall|j: int|
                0 <= j < BOARD_SIZE ==> (#[trigger] final(self).marked(j) <==> in_valid_cluster(
                    board.cells(),
                    j,
                )),
    {
        let ghost bd = board.cells();
        self.clear();
        let mut i: u8 = 0;
        while i < BOARD_SIZE as u8
            invariant
                self.wf(),
                island.wf(),
                board.wf(),
                bd == board.cells(),
                i <= BOARD_SIZE,
                forall|j: int| 0 <= j < BOARD_SIZE && #[trigger] self.marked(j) ==> in_valid_cluster(bd, j),
                forall|j: int| 0 <= j < i && in_valid_cluster(bd, j) ==> #[trigger] self.marked(j),
            decreases BOARD_SIZE - i,
        {
            let present = self.island_at(i);
            if !present {
                island.update(i, board);
                let ghost members = island.members();
                proof {
                    lemma_flood_fill_exact(bd, members, i as int);
                    let mi = members.map_values(|v: u8| v as int);
                    assert(mi.no_duplicates()) by {
                        assert forall|k1: int, k2: int|
                            0 <= k1 < mi.len() && 0 <= k2 < mi.len() && k1 != k2 implies mi[k1]
                            != mi[k2] by {
                            if k1 < k2 {
                                assert(members[k1] != members[k2]);
                            } else {
                                assert(members[k2] != members[k1]);
                            }
                        }
                    }
                    mi.unique_seq_to_set();
                    assert(mi.to_set() == cluster(bd, i as int));
                    assert(cluster(bd, i as int).len() == members.len());
                }
                let is_valid = island.valid();
                if is_valid {
                    let ghost before = *self;
                    self.apply(island);
                    proof {
                        assert forall|j: int|
                            0 <= j < BOARD_SIZE && #[trigger] self.marked(j) implies
                            in_valid_cluster(bd, j) by {
                            if !before.marked(j) {
                                assert(has_member(members, j));
                                let k = choose|k: int|
                                    0 <= k < members.len() && members[k] == j;
                                assert(connected(bd, i as int, members[k] as int));
                                lemma_cluster_member_same(bd, i as int, j);
                            }
                        }
                        assert(has_member(members, i as int));
                        assert(self.marked(i as int));
                    }
                } else {
                    proof {
                        if in_valid_cluster(bd, i as int) {
                            assert(cluster(bd, i as int).len() > 3);
                            assert(false);
                        }
                    }
                }
            }
            i = i + 1;
        }
    }

    /// The no-moves detector: once the map is consistent with a board
    /// (as `update` leaves it), some cell is flagged exactly when the
    /// board holds a cluster of selectable size anywhere.
    pub proof fn lemma_no_moves_detector(&self, bd: Seq<u8>)
        requires
            forall|j: int|
                0 <= j < BOARD_SIZE ==> (#[trigger] self.marked(j) <==> in_valid_cluster(bd, j)),
        ensures
            (exists|j: int| 0 <= j < BOARD_SIZE && #[trigger] self.marked(j)) <==> (exists|j: int|
                0 <= j < BOARD_SIZE && #[trigger] in_valid_cluster(bd, j)),
    {
        if exists|j: int| 0 <= j < BOARD_SIZE && #[trigger] self.marked(j) {
            let j = choose|j: int| 0 <= j < BOARD_SIZE && #[trigger] self.marked(j);
            assert(in_valid_cluster(bd, j));
        }
        if exists|j: int| 0 <= j < BOARD_SIZE && #[trigger] in_valid_cluster(bd, j) {
            let j = choose|j: int| 0 <= j < BOARD_SIZE && #[trigger] in_valid_cluster(bd, j);
            assert(self.marked(j));
        }
    }

    /// Whether any cell at all is flagged: the board still offers a
    /// selectable cluster.
    pub fn has_islands(&self) -> (r: bool)
        requires
            self.wf(),
        ensures
            r <==> exists|j: int| 0 <= j < BOARD_SIZE && #[trigger] self.marked(j),
    {
        let mut i: u8 = 0;
        while i < BOARD_SIZE as u8
            invariant
                self.wf(),
                i <= BOARD_SIZE,
                forall|j: int| 0 <= j < i ==> !#[trigger] self.marked(j),
            decreases BOARD_SIZE - i,
        {
            if self.island_at(i) {
                return true;
            }
            i = i + 1;
        }
        false
    }

    /// The presence map as a row-major sequence of `(x, y, glyph)`
    /// triples, for external inspection.
    pub fn for_each(&self) -> (r: Vec<(u8, u8, char)>)
        requires
            self.wf(),
        ensures
            r@.len() == BOARD_SIZE,
            forall|i: int|
                0 <= i < BOARD_SIZE ==> #[trigger] r@[i] == (
                    (i % 8) as u8,
                    (i / 8) as u8,
                    State::spec_from(self.flags()[i]).spec_ascii(),
                ),
    {
        let mut out: Vec<(u8, u8, char)> = Vec::new();
        let mut i: u8 = 0;
        while i < BOARD_SIZE as u8
            invariant
                self.wf(),
                i <= BOARD_SIZE,
                out@.len() == i,
                forall|m: int|
                    0 <= m < i ==> #[trigger] out@[m] == (
                        (m % 8) as u8,
                        (m / 8) as u8,
                        State::spec_from(self.flags()[m]).spec_ascii(),
                    ),
            decreases BOARD_SIZE - i,
        {
            let x = Board::index_to_coord_x(i);
            let y = Board::index_to_coord_y(i);
            let state = State::from(self.get(i)).ascii();
            out.push((x, y, state));
            i = i + 1;
        }
        out
    }
}

} // verus!
