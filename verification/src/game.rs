//! The top-level engine: one board, one cluster tracer, one cluster map,
//! and the selection state machine driven by external selection events.

use vstd::prelude::*;
use crate::board::{Board, gravity_ok};
use crate::island::{Island, connected, has_member};
use crate::isles::{Isles, in_valid_cluster};
use crate::{BOARD_X, BOARD_Y, BOARD_SIZE};

verus! {

broadcast use crate::board::lemma_board_cells_len;

/// A selection collapsed the board: some member list holding exactly the
/// cells reachable from the selected seed drove a gravity collapse of
/// every column it touches.
pub open spec fn select_collapse(oldbd: Seq<u8>, newbd: Seq<u8>, seed: int, mem: Seq<u8>) -> bool {
    &&& forall|c: int| has_member(mem, c) <==> connected(oldbd, seed, c)
    &&& forall|c: u8| c < BOARD_X ==> #[trigger] gravity_ok(oldbd, newbd, mem, c)
}

/// The engine: a pure state transformer over one exclusively owned board,
/// tracer, and presence map, driven by external selection events. No
/// win or lose condition is defined.
pub struct Game {
    /// The visible grid.
    pub board: Board,
    /// The scratch tracer reused for every flood fill.
    pub island: Island,
    /// The presence map of selectable clusters.
    pub isles: Isles,
    /// Whether the last `select` changed the board.
    pub updated: bool,
    /// Reserved end-of-game flag; never set by the engine itself.
    pub game_over: bool,
}

impl Game {
    /// All components are well-formed.
    pub open spec fn wf(&self) -> bool {
        &&& self.board.wf()
        &&& self.island.wf()
        &&& self.isles.wf()
    }

    /// A fresh engine: zeroed board, empty tracer, zeroed presence map,
    /// no selection applied yet.
    pub fn new() -> (r: Game)
        ensures
            r.wf(),
            !r.updated,
            !r.game_over,
            forall|i: int| 0 <= i < BOARD_SIZE ==> #[trigger] r.board.cells()[i] == 0,
            r.island.members() =~= Seq::<u8>::empty(),
    {
        Game {
            board: Board::new(),
            isles: Isles::new(),
            island: Island::new(),
            updated: false,
            game_over: false,
        }
    }

    /// Applies gravity and refill using whatever cluster state the tracer
    /// currently holds, for externally driven refresh.
    pub fn update_board(&mut self)
        requires
            old(self).wf(),
        ensures
            final(self).wf(),
            forall|c: u8|
                c < BOARD_X ==> #[trigger] gravity_ok(
                    old(self).board.cells(),
                    final(self).board.cells(),
                    old(self).island.members(),
                    c,
                ),
            final(self).island == old(self).island,
            final(self).isles == old(self).isles,
            final(self).updated == old(self).updated,
            final(self).game_over == old(self).game_over,
    {
        self.board.update(&self.island);
    }

    /// Selects the cell at `(x, y)`. When the cell is not flagged as part
    /// of a selectable cluster, nothing changes and `updated` stays
    /// false. Otherwise the cell's cluster is retraced, its columns
    /// collapse by gravity with fresh symbols filled in from the top, the
    /// presence map is rebuilt for the new board, and `updated` is set.
    pub fn select(&mut self, x: u8, y: u8)
        requires
            old(self).wf(),
            x < BOARD_X,
            y < BOARD_Y,
        ensures
            final(self).wf(),
            final(self).game_over == old(self).game_over,
            !old(self).isles.marked((y * BOARD_X + x) as int) ==> {
                &&& !final(self).updated
                &&& final(self).board == old(self).board
                &&& final(self).island == old(self).island
                &&& final(self).isles == old(self).isles
            },
            old(self).isles.marked((y * BOARD_X + x) as int) ==> {
                &&& final(self).updated
                &&& exists|mem: Seq<u8>|
                    #[trigger] select_collapse(
                        old(self).board.cells(),
                        final(self).board.cells(),
                        (y * BOARD_X + x) as int,
                        mem,
                    )
                &&& forall|j: int|
                    0 <= j < BOARD_SIZE ==> (#[trigger] final(self).isles.marked(j)
                        <==> in_valid_cluster(final(self).board.cells(), j))
            },
    {
        self.updated = false;
        let i: u8 = Board::coords_to_index(x, y);
        let present = self.isles.island_at(i);
        if !present {
            return ;
        }
        self.island.update(i, &self.board);
        let ghost mem = self.island.members();
        let ghost oldbd = self.board.cells();
        proof {
            crate::island::lemma_flood_fill_exact(oldbd, mem, i as int);
        }
        self.board.update(&self.island);
        proof {
            assert(select_collapse(oldbd, self.board.cells(), i as int, mem));
        }
        self.isles.update(&mut self.island, &self.board);
        self.updated = true;
        proof {
            assert(select_collapse(old(self).board.cells(), self.board.cells(), i as int, mem));
        }
    }

    /// The board as a string of one ASCII digit per cell, row-major.
    pub fn board_as_string(&self) -> (r: String)
        requires
            self.wf(),
        ensures
            r@.len() == BOARD_SIZE,
            forall|i: int|
                0 <= i < BOARD_SIZE ==> #[trigger] r@[i] == ((48
                    + self.board.cells()[i]) as u8) as char,
    {
        self.board.as_string()
    }
}

} // verus!
