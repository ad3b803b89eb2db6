//! The cluster tracer: a flood fill from a seed cell over same-symbol
//! 4-neighbors, recording the discovered cell indices in discovery order,
//! with bounding-box queries per column and the selectability test.

use vstd::prelude::*;
use vstd::assert_by_contradiction;
use crate::board::{Board, code_state};
use crate::state::State;
use crate::{BOARD_X, BOARD_Y, BOARD_SIZE};

verus! {

broadcast use crate::board::lemma_board_cells_len;

/// The slot value marking an empty position of the member list.
pub const ISLAND_ABSENT: u8 = 255;

/// Two cells are 4-neighbors on the grid: side by side in one row, or
/// one directly above the other, with no wraparound across grid edges.
pub open spec fn adjacent(a: int, b: int) -> bool {
    &&& 0 <= a < BOARD_SIZE
    &&& 0 <= b < BOARD_SIZE
    &&& ((a / 8 == b / 8 && (b == a + 1 || b == a - 1)) || b == a + 8 || b == a - 8)
}

/// Two cells of the board read as the same symbol.
pub open spec fn same_symbol(bd: Seq<u8>, a: int, b: int) -> bool {
    code_state(bd[a]) == code_state(bd[b])
}

/// A walk over the grid: nonempty, inside the grid, each step moving to a
/// 4-neighbor holding the same symbol.
pub open spec fn path_ok(bd: Seq<u8>, p: Seq<int>) -> bool {
    &&& p.len() > 0
    &&& forall|k: int| 0 <= k < p.len() ==> 0 <= #[trigger] p[k] < BOARD_SIZE
    &&& forall|k: int|
        0 <= k < p.len() - 1 ==> adjacent(#[trigger] p[k], p[k + 1]) && same_symbol(bd, p[k], p[k + 1])
}

/// Cell `b` is reachable from cell `a` through same-symbol 4-neighbor
/// steps.
pub open spec fn connected(bd: Seq<u8>, a: int, b: int) -> bool {
    exists|p: Seq<int>| path_ok(bd, p) && p.first() == a && p.last() == b
}

/// The cluster of cell `a`: every cell reachable from it through
/// same-symbol 4-neighbor steps (`a`'s maximal connected same-symbol set).
pub open spec fn cluster(bd: Seq<u8>, a: int) -> Set<int> {
    Set::new(|c: int| connected(bd, a, c))
}

/// The member list `members` records cell `c`.
pub open spec fn has_member(members: Seq<u8>, c: int) -> bool {
    exists|k: int| 0 <= k < members.len() && members[k] == c
}

/// The member list grown by `c`, unless `c` is already recorded.
pub open spec fn with_member(members: Seq<u8>, c: u8) -> Seq<u8> {
    if has_member(members, c as int) {
        members
    } else {
        members.push(c)
    }
}

/// Every cell reaches itself.
pub proof fn lemma_connected_refl(bd: Seq<u8>, a: int)
    requires
        0 <= a < BOARD_SIZE,
    ensures
        connected(bd, a, a),
{
    let p = seq![a];
    assert(p.first() == a && p.last() == a);
    assert(path_ok(bd, p) && p.first() == a && p.last() == a);
}

/// Reachability extends along one same-symbol 4-neighbor step.
pub proof fn lemma_connected_step(bd: Seq<u8>, a: int, b: int, c: int)
    requires
        connected(bd, a, b),
        adjacent(b, c),
        same_symbol(bd, b, c),
    ensures
        connected(bd, a, c),
{
    let p = choose|p: Seq<int>| path_ok(bd, p) && p.first() == a && p.last() == b;
    let q = p.push(c);
    assert(q.last() == c);
    assert forall|k: int|
        0 <= k < q.len() - 1 implies adjacent(#[trigger] q[k], q[k + 1]) && same_symbol(bd, q[k], q[k + 1]) by {
        if k < p.len() - 1 {
            assert(adjacent(p[k], p[k + 1]) && same_symbol(bd, p[k], p[k + 1]));
        }
    }
    assert(path_ok(bd, q) && q.first() == a && q.last() == c);
}

/// Reachability is symmetric: the reverse of a walk is a walk.
pub proof fn lemma_connected_sym(bd: Seq<u8>, a: int, b: int)
    requires
        connected(bd, a, b),
    ensures
        connected(bd, b, a),
{
    let p = choose|p: Seq<int>| path_ok(bd, p) && p.first() == a && p.last() == b;
    let n = p.len() as int;
    let q = Seq::new(p.len(), |k: int| p[n - 1 - k]);
    assert(q.first() == b);
    assert(q.last() == a);
    assert forall|k: int|
        0 <= k < q.len() - 1 implies adjacent(#[trigger] q[k], q[k + 1]) && same_symbol(bd, q[k], q[k + 1]) by {
        let m = n - 2 - k;
        assert(adjacent(p[m], p[m + 1]) && same_symbol(bd, p[m], p[m + 1]));
    }
    assert(path_ok(bd, q) && q.first() == b && q.last() == a);
}

/// Reachability is transitive: two walks concatenate.
pub proof fn lemma_connected_trans(bd: Seq<u8>, a: int, b: int, c: int)
    requires
        connected(bd, a, b),
        connected(bd, b, c),
    ensures
        connected(bd, a, c),
{
    let p = choose|p: Seq<int>| path_ok(bd, p) && p.first() == a && p.last() == b;
    let q = choose|q: Seq<int>| path_ok(bd, q) && q.first() == b && q.last() == c;
    let r = p + q.drop_first();
    if q.len() == 1 {
        assert(r =~= p);
        assert(path_ok(bd, r) && r.first() == a && r.last() == c);
    } else {
        assert(r.first() == a);
        assert(r.last() == q.last());
        assert forall|k: int|
            0 <= k < r.len() - 1 implies adjacent(#[trigger] r[k], r[k + 1]) && same_symbol(
            bd, r[k], r[k + 1]) by {
            if k < p.len() - 1 {
                assert(adjacent(p[k], p[k + 1]) && same_symbol(bd, p[k], p[k + 1]));
            } else if k == p.len() - 1 {
                assert(r[k] == b);
                assert(r[k + 1] == q[1]);
                assert(adjacent(q[0], q[1]) && same_symbol(bd, q[0], q[1]));
            } else {
                let m = k - p.len() + 1;
                assert(adjacent(q[m], q[m + 1]) && same_symbol(bd, q[m], q[m + 1]));
            }
        }
        assert(path_ok(bd, r) && r.first() == a && r.last() == c);
    }
}

/// Connected cells lie on the grid and read as the same symbol.
pub proof fn lemma_connected_same_symbol(bd: Seq<u8>, a: int, b: int)
    requires
        connected(bd, a, b),
    ensures
        0 <= a < BOARD_SIZE,
        0 <= b < BOARD_SIZE,
        same_symbol(bd, a, b),
{
    let p = choose|p: Seq<int>| path_ok(bd, p) && p.first() == a && p.last() == b;
    lemma_path_same_symbol(bd, p);
}

proof fn lemma_path_same_symbol(bd: Seq<u8>, p: Seq<int>)
    requires
        path_ok(bd, p),
    ensures
        same_symbol(bd, p.first(), p.last()),
    decreases p.len(),
{
    if p.len() > 1 {
        let q = p.drop_last();
        assert forall|k: int|
            0 <= k < q.len() - 1 implies adjacent(#[trigger] q[k], q[k + 1]) && same_symbol(
            bd, q[k], q[k + 1]) by {
            assert(adjacent(p[k], p[k + 1]) && same_symbol(bd, p[k], p[k + 1]));
        }
        lemma_path_same_symbol(bd, q);
        assert(adjacent(p[p.len() - 2], p[p.len() - 1]) && same_symbol(bd, p[p.len() - 2], p[p.len() - 1]));
    }
}

proof fn lemma_path_in_closed(bd: Seq<u8>, members: Seq<u8>, p: Seq<int>)
    requires
        path_ok(bd, p),
        has_member(members, p.first()),
        forall|m: int, d: int|
            has_member(members, m) && adjacent(m, d) && same_symbol(bd, m, d) ==> has_member(
                members, d),
    ensures
        has_member(members, p.last()),
    decreases p.len(),
{
    if p.len() > 1 {
        let q = p.drop_last();
        assert forall|k: int|
            0 <= k < q.len() - 1 implies adjacent(#[trigger] q[k], q[k + 1]) && same_symbol(
            bd, q[k], q[k + 1]) by {
            assert(adjacent(p[k], p[k + 1]) && same_symbol(bd, p[k], p[k + 1]));
        }
        lemma_path_in_closed(bd, members, q);
        assert(adjacent(p[p.len() - 2], p[p.len() - 1]) && same_symbol(bd, p[p.len() - 2], p[p.len() - 1]));
    }
}

/// The flood fill is exact: a member list that records the seed, records
/// only cells reachable from the seed, and is closed under same-symbol
/// adjacency records precisely the seed's cluster.
pub proof fn lemma_flood_fill_exact(bd: Seq<u8>, members: Seq<u8>, seed: int)
    requires
        has_member(members, seed),
        forall|k: int|
            0 <= k < members.len() ==> connected(bd, seed, #[trigger] members[k] as int),
        forall|m: int, d: int|
            has_member(members, m) && adjacent(m, d) && same_symbol(bd, m, d) ==> has_member(
                members, d),
    ensures
        forall|c: int| has_member(members, c) <==> connected(bd, seed, c),
        members.map_values(|v: u8| v as int).to_set() == cluster(bd, seed),
{
    assert forall|c: int| has_member(members, c) <==> connected(bd, seed, c) by {
        if has_member(members, c) {
            let k = choose|k: int| 0 <= k < members.len() && members[k] == c;
            assert(connected(bd, seed, members[k] as int));
        }
        if connected(bd, seed, c) {
            let p = choose|p: Seq<int>| path_ok(bd, p) && p.first() == seed && p.last() == c;
            lemma_path_in_closed(bd, members, p);
        }
    }
    let mi = members.map_values(|v: u8| v as int);
    assert forall|c: int| mi.to_set().contains(c) <==> cluster(bd, seed).contains(c) by {
        if mi.to_set().contains(c) {
            let k = choose|k: int| 0 <= k < mi.len() && mi[k] == c;
            assert(members[k] == c);
            assert(has_member(members, c));
        }
        if cluster(bd, seed).contains(c) {
            assert(has_member(members, c));
            let k = choose|k: int| 0 <= k < members.len() && members[k] == c;
            assert(mi[k] == c);
            assert(mi.to_set().contains(c));
        }
    }
    assert(mi.to_set() =~= cluster(bd, seed));
}

/// A member list of 56 distinct cells records every cell of the grid.
proof fn lemma_full_members(members: Seq<u8>, c: u8)
    requires
        members.len() == BOARD_SIZE,
        forall|k: int| 0 <= k < members.len() ==> #[trigger] members[k] < BOARD_SIZE,
        forall|k1: int, k2: int|
            0 <= k1 < k2 < members.len() ==> members[k1] != members[k2],
        c < BOARD_SIZE,
    ensures
        has_member(members, c as int),
{
    let mi = members.map_values(|v: u8| v as int);
    assert(mi.no_duplicates()) by {
        assert forall|k1: int, k2: int|
            0 <= k1 < mi.len() && 0 <= k2 < mi.len() && k1 != k2 implies mi[k1] != mi[k2] by {
            if k1 < k2 {
                assert(members[k1] != members[k2]);
            } else {
                assert(members[k2] != members[k1]);
            }
        }
    }
    mi.unique_seq_to_set();
    assert_by_contradiction!(has_member(members, c as int), {
        let target = vstd::set_lib::set_int_range(0, BOARD_SIZE as int).remove(c as int);
        vstd::set_lib::lemma_int_range(0, BOARD_SIZE as int);
        assert forall|e: int| mi.to_set().contains(e) implies target.contains(e) by {
            let k = choose|k: int| 0 <= k < mi.len() && mi[k] == e;
            assert(members[k] == e);
            assert(0 <= e < BOARD_SIZE);
            if e == c as int {
                assert(has_member(members, c as int));
            }
        }
        vstd::set_lib::lemma_len_subset(mi.to_set(), target);
    });
}

/// The flood-fill tracer: an append-only list of discovered cell indices
/// (in discovery order) with a write cursor, plus a read cursor marking
/// how many discovered cells have had their neighbors inspected.
pub struct Island {
    cells: Vec<u8>,
    traverse_index: u8,
    append_index: u8,
}

impl Island {
    /// The raw slot values of the member list.
    pub closed spec fn slots(&self) -> Seq<u8> {
        self.cells@
    }

    /// The write cursor: how many members are recorded.
    pub closed spec fn append(&self) -> int {
        self.append_index as int
    }

    /// The read cursor: how many members have been traversed.
    pub closed spec fn traverse(&self) -> int {
        self.traverse_index as int
    }

    /// The recorded member indices, in discovery order.
    pub open spec fn members(&self) -> Seq<u8> {
        self.slots().take(self.append())
    }

    /// The slot array has its fixed size.
    pub open spec fn storage_wf(&self) -> bool {
        self.slots().len() == BOARD_SIZE
    }

    /// Well-formed tracer state: recorded members are distinct cell
    /// indices, every slot past the write cursor holds the absent
    /// sentinel, and the read cursor does not pass the write cursor.
    pub open spec fn wf(&self) -> bool {
        &&& self.storage_wf()
        &&& 0 <= self.append() <= BOARD_SIZE
        &&& 0 <= self.traverse() <= self.append()
        &&& forall|k: int| 0 <= k < self.append() ==> #[trigger] self.slots()[k] < BOARD_SIZE
        &&& forall|k: int|
            self.append() <= k < BOARD_SIZE ==> #[trigger] self.slots()[k] == ISLAND_ABSENT
        &&& forall|k1: int, k2: int| 0 <= k1 < k2 < self.append() ==> self.slots()[k1] != self.slots()[k2]
    }

    /// A fresh tracer: no members, cursors at zero.
    pub fn new() -> (r: Island)
        ensures
            r.wf(),
            r.members() =~= Seq::<u8>::empty(),
            r.traverse() == 0,
    {
        let mut cells: Vec<u8> = Vec::new();
        let mut k: usize = 0;
        while k < BOARD_SIZE
            invariant
                cells@.len() == k,
                k <= BOARD_SIZE,
                forall|m: int| 0 <= m < k ==> #[trigger] cells@[m] == ISLAND_ABSENT,
            decreases BOARD_SIZE - k,
        {
            cells.push(ISLAND_ABSENT);
            k = k + 1;
        }
        Island { cells, traverse_index: 0, append_index: 0 }
    }

    /// Writes a raw slot value.
    pub fn set(&mut self, index: u8, value: u8)
        requires
            old(self).storage_wf(),
            index < BOARD_SIZE,
        ensures
            final(self).slots() == old(self).slots().update(index as int, value),
            final(self).append() == old(self).append(),
            final(self).traverse() == old(self).traverse(),
    {
        self.cells[index as usize] = value;
    }

    /// Reads a raw slot value.
    pub fn get(&self, index: u8) -> (r: u8)
        requires
            self.storage_wf(),
            index < BOARD_SIZE,
        ensures
            r == self.slots()[index as int],
    {
        self.cells[index as usize]
    }

    /// Empties the member list: every slot takes the absent sentinel and
    /// both cursors return to zero.
    pub fn clear(&mut self)
        requires
            old(self).storage_wf(),
        ensures
            final(self).wf(),
            final(self).members() =~= Seq::<u8>::empty(),
            final(self).traverse() == 0,
    {
        self.append_index = 0;
        self.traverse_index = 0;
        let mut i: usize = 0;
        while i < BOARD_SIZE
            invariant
                self.storage_wf(),
                i <= BOARD_SIZE,
                self.append() == 0,
                self.traverse() == 0,
                forall|m: int| 0 <= m < i ==> #[trigger] self.slots()[m] == ISLAND_ABSENT,
            decreases BOARD_SIZE - i,
        {
            self.set(i as u8, ISLAND_ABSENT);
            i = i + 1;
        }
    }

    /// Records cell `i` unless it is already recorded; recording the same
    /// cell twice never duplicates it.
    pub fn add(&mut self, i: u8)
        requires
            old(self).wf(),
            i < BOARD_SIZE,
        ensures
            final(self).wf(),
            final(self).traverse() == old(self).traverse(),
            has_member(old(self).members(), i as int) ==> *final(self) == *old(self),
            !has_member(old(self).members(), i as int) ==> final(self).members() == old(
                self).members().push(i),
            has_member(final(self).members(), i as int),
    {
        let n = self.append_index;
        let mut j: u8 = 0;
        while j < n
            invariant
                self.wf(),
                n == self.append(),
                j <= n,
                i < BOARD_SIZE,
                forall|k: int| 0 <= k < j ==> #[trigger] self.slots()[k] != i,
            decreases n - j,
        {
            if self.get(j) == i {
                proof {
                    assert(self.members()[j as int] == i);
                }
                return ;
            }
            j = j + 1;
        }
        proof {
            if self.append_index as int == BOARD_SIZE {
                lemma_full_members(self.members(), i);
                assert(false);
            }
        }
        let a = self.append_index;
        self.set(a, i);
        self.append_index = a + 1;
        proof {
            assert(final(self).members() =~= old(self).members().push(i));
            assert(final(self).members()[a as int] == i);
        }
    }

    /// True once every recorded member has had its neighbors inspected:
    /// the read cursor has reached the first absent slot.
    pub fn complete(&self) -> (r: bool)
        requires
            self.wf(),
        ensures
            r <==> self.traverse() == self.append(),
    {
        if self.traverse_index >= (BOARD_SIZE as u8) {
            true
        } else {
            self.get(self.traverse_index) == ISLAND_ABSENT
        }
    }

    /// A cluster is selectable only if it has more than 3 recorded
    /// members; the minimum selectable cluster size is deliberately 4
    /// distinct cells.
    pub fn valid(&self) -> (r: bool)
        ensures
            r <==> self.append() > 3,
    {
        self.append_index > 3
    }
}

/// The four potential 4-neighbors of a cell, and when each exists.
proof fn lemma_neighbor_cases(c: int)
    requires
        0 <= c < BOARD_SIZE,
    ensures
        c % 8 != 7 ==> adjacent(c, c + 1),
        c % 8 != 0 ==> adjacent(c, c - 1),
        c / 8 != 6 ==> adjacent(c, c + 8),
        c / 8 != 0 ==> adjacent(c, c - 8),
        forall|d: int|
            adjacent(c, d) ==> (d == c + 1 && c % 8 != 7) || (d == c - 1 && c % 8 != 0) || (d == c
                + 8 && c / 8 != 6) || (d == c - 8 && c / 8 != 0),
{
    assert(c == 8 * (c / 8) + c % 8);
    if c % 8 != 7 {
        assert((c + 1) / 8 == c / 8) by (nonlinear_arith)
            requires c == 8 * (c / 8) + c % 8, 0 <= c % 8 < 7;
    } else {
        assert((c + 1) / 8 == c / 8 + 1) by (nonlinear_arith)
            requires c == 8 * (c / 8) + c % 8, c % 8 == 7;
    }
    if c % 8 != 0 {
        assert((c - 1) / 8 == c / 8) by (nonlinear_arith)
            requires c == 8 * (c / 8) + c % 8, 0 < c % 8 < 8;
    } else {
        assert(c - 1 == 8 * (c / 8 - 1) + 7);
        assert((c - 1) / 8 == c / 8 - 1) by (nonlinear_arith)
            requires c - 1 == 8 * (c / 8 - 1) + 7;
    }
    assert(c / 8 != 6 ==> c + 8 < BOARD_SIZE);
    assert(c / 8 != 0 ==> c - 8 >= 0);
}

/// Growing a member list by a cell records that cell and keeps the rest.
proof fn lemma_with_member_has(m: Seq<u8>, cv: u8)
    ensures
        has_member(with_member(m, cv), cv as int),
        with_member(m, cv).len() >= m.len(),
        forall|k: int| 0 <= k < m.len() ==> #[trigger] with_member(m, cv)[k] == m[k],
{
    if !has_member(m, cv as int) {
        assert(m.push(cv)[m.len() as int] == cv);
    }
}

/// A member list that extends another pointwise keeps every recorded cell.
proof fn lemma_has_member_mono(m1: Seq<u8>, m2: Seq<u8>, d: int)
    requires
        m1.len() <= m2.len(),
        forall|k: int| 0 <= k < m1.len() ==> #[trigger] m2[k] == m1[k],
        has_member(m1, d),
    ensures
        has_member(m2, d),
{
    let k = choose|k: int| 0 <= k < m1.len() && m1[k] == d;
    assert(m2[k] == d);
}

impl Island {
    /// True unless the cell at index `i` sits in column `v`.
    pub fn horizontal_wrap_check(&self, i: u8, v: u8) -> (r: bool)
        ensures
            r <==> i % 8 != v,
    {
        Board::index_to_coord_x(i) != v
    }

    /// True unless the cell at index `i` sits in row `v`.
    pub fn vertical_wrap_check(&self, i: u8, v: u8) -> (r: bool)
        ensures
            r <==> i / 8 != v,
    {
        Board::index_to_coord_y(i) != v
    }

    /// The cell at `i` has a right neighbor (it is not in the last
    /// column).
    pub fn right_wrap_check(&self, i: u8) -> (r: bool)
        ensures
            r <==> i % 8 != 7,
    {
        self.horizontal_wrap_check(i, 7)
    }

    /// The cell at `i` has a bottom neighbor (it is not in the last row).
    pub fn bottom_wrap_check(&self, i: u8) -> (r: bool)
        ensures
            r <==> i / 8 != 6,
    {
        self.vertical_wrap_check(i, 6)
    }

    /// The cell at `i` has a left neighbor (it is not in the first
    /// column).
    pub fn left_wrap_check(&self, i: u8) -> (r: bool)
        ensures
            r <==> i % 8 != 0,
    {
        self.horizontal_wrap_check(i, 0)
    }

    /// The cell at `i` has a top neighbor (it is not in the first row).
    pub fn top_wrap_check(&self, i: u8) -> (r: bool)
        ensures
            r <==> i / 8 != 0,
    {
        self.vertical_wrap_check(i, 0)
    }

    /// Records the right neighbor of `i` if it exists and holds symbol
    /// `s`.
    pub fn mark_right(&mut self, i: u8, s: &State, board: &Board)
        requires
            old(self).wf(),
            i < BOARD_SIZE,
            board.wf(),
        ensures
            final(self).wf(),
            final(self).traverse() == old(self).traverse(),
            (i % 8 != 7 && code_state(board.cells()[i as int + 1]) == *s) ==> final(self).members()
                == with_member(old(self).members(), (i + 1) as u8),
            !(i % 8 != 7 && code_state(board.cells()[i as int + 1]) == *s) ==> *final(self) == *old(
            self),
    {
        if self.right_wrap_check(i) {
            if board.get(i + 1) == *s {
                self.add(i + 1);
            }
        }
    }

    /// Records the bottom neighbor of `i` if it exists and holds symbol
    /// `s`.
    pub fn mark_bottom(&mut self, i: u8, s: &State, board: &Board)
        requires
            old(self).wf(),
            i < BOARD_SIZE,
            board.wf(),
        ensures
            final(self).wf(),
            final(self).traverse() == old(self).traverse(),
            (i / 8 != 6 && code_state(board.cells()[i as int + 8]) == *s) ==> final(self).members()
                == with_member(old(self).members(), (i + 8) as u8),
            !(i / 8 != 6 && code_state(board.cells()[i as int + 8]) == *s) ==> *final(self) == *old(
            self),
    {
        if self.bottom_wrap_check(i) {
            if board.get(i + 8) == *s {
                self.add(i + 8);
            }
        }
    }

    /// Records the left neighbor of `i` if it exists and holds symbol
    /// `s`.
    pub fn mark_left(&mut self, i: u8, s: &State, board: &Board)
        requires
            old(self).wf(),
            i < BOARD_SIZE,
            board.wf(),
        ensures
            final(self).wf(),
            final(self).traverse() == old(self).traverse(),
            (i % 8 != 0 && code_state(board.cells()[i as int - 1]) == *s) ==> final(self).members()
                == with_member(old(self).members(), (i - 1) as u8),
            !(i % 8 != 0 && code_state(board.cells()[i as int - 1]) == *s) ==> *final(self) == *old(
            self),
    {
        if self.left_wrap_check(i) {
            if board.get(i - 1) == *s {
                self.add(i - 1);
            }
        }
    }

    /// Records the top neighbor of `i` if it exists and holds symbol `s`.
    pub fn mark_top(&mut self, i: u8, s: &State, board: &Board)
        requires
            old(self).wf(),
            i < BOARD_SIZE,
            board.wf(),
        ensures
            final(self).wf(),
            final(self).traverse() == old(self).traverse(),
            (i / 8 != 0 && code_state(board.cells()[i as int - 8]) == *s) ==> final(self).members()
                == with_member(old(self).members(), (i - 8) as u8),
            !(i / 8 != 0 && code_state(board.cells()[i as int - 8]) == *s) ==> *final(self) == *old(
            self),
    {
        if self.top_wrap_check(i) {
            if board.get(i - 8) == *s {
                self.add(i - 8);
            }
        }
    }

    /// Inspects the cell at the read cursor and records every existing
    /// 4-neighbor that holds the same symbol, in the order right, bottom,
    /// left, top. Every cell it records is a same-symbol neighbor of the
    /// inspected cell, and every same-symbol neighbor ends up recorded.
    pub fn mark_neighbors(&mut self, board: &Board)
        requires
            old(self).wf(),
            board.wf(),
            old(self).traverse() < old(self).append(),
        ensures
            final(self).wf(),
            final(self).traverse() == old(self).traverse(),
            final(self).append() >= old(self).append(),
            forall|k: int|
                0 <= k < old(self).append() ==> #[trigger] final(self).members()[k] == old(
                self).members()[k],
            forall|k: int|
                old(self).append() <= k < final(self).append() ==> adjacent(
                    old(self).members()[old(self).traverse()] as int,
                    #[trigger] final(self).members()[k] as int,
                ) && same_symbol(
                    board.cells(),
                    old(self).members()[old(self).traverse()] as int,
                    final(self).members()[k] as int,
                ),
            forall|d: int|
                adjacent(old(self).members()[old(self).traverse()] as int, d) && same_symbol(
                    board.cells(),
                    old(self).members()[old(self).traverse()] as int,
                    d,
                ) ==> has_member(final(self).members(), d),
    {
        let look_index = self.get(self.traverse_index);
        let current: State = board.get(look_index);
        let ghost bd = board.cells();
        let ghost c = look_index as int;
        let ghost m0 = self.members();
        proof {
            assert(m0[old(self).traverse()] == look_index);
            lemma_neighbor_cases(c);
        }
        self.mark_right(look_index, &current, board);
        let ghost m1 = self.members();
        self.mark_bottom(look_index, &current, board);
        let ghost m2 = self.members();
        self.mark_left(look_index, &current, board);
        let ghost m3 = self.members();
        self.mark_top(look_index, &current, board);
        let ghost m4 = self.members();
        proof {
            assert(forall|k: int| 0 <= k < m0.len() ==> #[trigger] m1[k] == m0[k]);
            assert(forall|k: int| 0 <= k < m1.len() ==> #[trigger] m2[k] == m1[k]);
            assert(forall|k: int| 0 <= k < m2.len() ==> #[trigger] m3[k] == m2[k]);
            assert(forall|k: int| 0 <= k < m3.len() ==> #[trigger] m4[k] == m3[k]);
            assert forall|k: int|
                m0.len() <= k < m4.len() implies adjacent(c, #[trigger] m4[k] as int)
                && same_symbol(bd, c, m4[k] as int) by {
                if k < m1.len() {
                    assert(m4[k] == m1[k]);
                    assert(m1[k] == c + 1);
                } else if k < m2.len() {
                    assert(m4[k] == m2[k]);
                    assert(m2[k] == c + 8);
                } else if k < m3.len() {
                    assert(m4[k] == m3[k]);
                    assert(m3[k] == c - 1);
                } else {
                    assert(m4[k] == c - 8);
                }
            }
            assert forall|d: int|
                adjacent(c, d) && same_symbol(bd, c, d) implies has_member(m4, d) by {
                if d == c + 1 && c % 8 != 7 {
                    assert(code_state(bd[d]) == current);
                    assert(m1 == with_member(m0, (look_index + 1) as u8));
                    lemma_with_member_has(m0, (look_index + 1) as u8);
                    lemma_has_member_mono(m1, m4, d);
                } else if d == c + 8 && c / 8 != 6 {
                    assert(code_state(bd[d]) == current);
                    assert(m2 == with_member(m1, (look_index + 8) as u8));
                    lemma_with_member_has(m1, (look_index + 8) as u8);
                    lemma_has_member_mono(m2, m4, d);
                } else if d == c - 1 && c % 8 != 0 {
                    assert(code_state(bd[d]) == current);
                    assert(m3 == with_member(m2, (look_index - 1) as u8));
                    lemma_with_member_has(m2, (look_index - 1) as u8);
                    lemma_has_member_mono(m3, m4, d);
                } else {
                    assert(d == c - 8 && c / 8 != 0);
                    assert(code_state(bd[d]) == current);
                    assert(m4 == with_member(m3, (look_index - 8) as u8));
                    lemma_with_member_has(m3, (look_index - 8) as u8);
                }
            }
        }
    }

    /// Flood fill: clears the tracer, records the seed, then repeatedly
    /// inspects the cell at the read cursor and records its same-symbol
    /// neighbors, until every recorded cell has been inspected. Afterward
    /// the member list holds exactly the seed's cluster, without
    /// duplicates, in discovery order.
    pub fn update(&mut self, island_root_index: u8, board: &Board)
        requires
            old(self).storage_wf(),
            island_root_index < BOARD_SIZE,
            board.wf(),
        ensures
            final(self).wf(),
            final(self).traverse() == final(self).append(),
            final(self).members().len() >= 1,
            final(self).members()[0] == island_root_index,
            has_member(final(self).members(), island_root_index as int),
            forall|k: int|
                0 <= k < final(self).members().len() ==> connected(
                    board.cells(),
                    island_root_index as int,
                    #[trigger] final(self).members()[k] as int,
                ),
            forall|m: int, d: int|
                has_member(final(self).members(), m) && adjacent(m, d) && same_symbol(
                    board.cells(),
                    m,
                    d,
                ) ==> has_member(final(self).members(), d),
    {
        let ghost bd = board.cells();
        let ghost seed = island_root_index as int;
        self.clear();
        self.add(island_root_index);
        proof {
            lemma_connected_refl(bd, seed);
            assert(self.members() =~= seq![island_root_index]);
        }
        while self.traverse_index < self.append_index
            invariant
                self.wf(),
                board.wf(),
                1 <= self.append(),
                self.members()[0] == island_root_index,
                forall|k: int|
                    0 <= k < self.append() ==> connected(
                        bd,
                        seed,
                        #[trigger] self.members()[k] as int,
                    ),
                forall|t: int, d: int|
                    0 <= t < self.traverse() && adjacent(self.members()[t] as int, d)
                        && same_symbol(bd, self.members()[t] as int, d) ==> has_member(
                        self.members(),
                        d,
                    ),
                bd == board.cells(),
            decreases BOARD_SIZE - self.traverse(),
        {
            let ghost prev = *self;
            self.mark_neighbors(board);
            let ghost mid = *self;
            self.traverse_index = self.traverse_index + 1;
            proof {
                let mem = self.members();
                let c = prev.members()[prev.traverse()] as int;
                assert(connected(bd, seed, c));
                assert(mem == mid.members());
                assert(forall|k: int| 0 <= k < prev.append() ==> #[trigger] mid.members()[k]
                    == prev.members()[k]);
                assert(forall|k: int| 0 <= k < prev.append() ==> #[trigger] mem[k]
                    == prev.members()[k]);
                assert(self.traverse() == prev.traverse() + 1);
                assert forall|k: int|
                    0 <= k < self.append() implies connected(bd, seed, #[trigger] mem[k] as int) by {
                    if k >= prev.append() {
                        lemma_connected_step(bd, seed, c, mem[k] as int);
                    } else {
                        assert(mem[k] == prev.members()[k]);
                    }
                }
                assert forall|t: int, d: int|
                    0 <= t < self.traverse() && adjacent(mem[t] as int, d) && same_symbol(
                    bd, mem[t] as int, d) implies has_member(mem, d) by {
                    assert(mem[t] == prev.members()[t]);
                    if t == prev.traverse() {
                        assert(mem[t] as int == c);
                    } else {
                        assert(has_member(prev.members(), d));
                        lemma_has_member_mono(prev.members(), mem, d);
                    }
                }
            }
        }
        proof {
            assert(self.traverse() == self.append());
            assert forall|m: int, d: int|
                has_member(self.members(), m) && adjacent(m, d) && same_symbol(bd, m, d) implies
                has_member(self.members(), d) by {
                let k = choose|k: int| 0 <= k < self.members().len() && self.members()[k] == m;
            }
        }
    }
}

/// Some member of the list lies in column `c`.
pub open spec fn col_occupied(members: Seq<u8>, c: u8) -> bool {
    exists|k: int| 0 <= k < members.len() && #[trigger] members[k] % 8 == c
}

/// `v` is the rightmost column any member occupies.
pub open spec fn is_right_bound(members: Seq<u8>, v: u8) -> bool {
    &&& exists|k: int| 0 <= k < members.len() && #[trigger] members[k] % 8 == v
    &&& forall|k: int| 0 <= k < members.len() ==> #[trigger] members[k] % 8 <= v
}

/// `v` is the leftmost column any member occupies.
pub open spec fn is_left_bound(members: Seq<u8>, v: u8) -> bool {
    &&& exists|k: int| 0 <= k < members.len() && #[trigger] members[k] % 8 == v
    &&& forall|k: int| 0 <= k < members.len() ==> #[trigger] members[k] % 8 >= v
}

/// `v` is the topmost (least) row any member of column `c` occupies.
pub open spec fn is_col_top(members: Seq<u8>, c: u8, v: u8) -> bool {
    &&& exists|k: int|
        0 <= k < members.len() && #[trigger] members[k] % 8 == c && members[k] / 8 == v
    &&& forall|k: int|
        0 <= k < members.len() && #[trigger] members[k] % 8 == c ==> members[k] / 8 >= v
}

/// `v` is the bottommost (greatest) row any member of column `c`
/// occupies.
pub open spec fn is_col_bottom(members: Seq<u8>, c: u8, v: u8) -> bool {
    &&& exists|k: int|
        0 <= k < members.len() && #[trigger] members[k] % 8 == c && members[k] / 8 == v
    &&& forall|k: int|
        0 <= k < members.len() && #[trigger] members[k] % 8 == c ==> members[k] / 8 <= v
}

impl Island {
    /// The rightmost column the recorded cluster touches, or 0 when the
    /// list is empty.
    pub fn right_bound(&self) -> (r: u8)
        requires
            self.wf(),
        ensures
            self.members().len() > 0 ==> is_right_bound(self.members(), r),
            self.members().len() == 0 ==> r == 0,
            r < BOARD_X,
    {
        let mut max: u8 = 0;
        let mut i: u8 = 0;
        while i < self.append_index
            invariant
                self.wf(),
                i <= self.append(),
                max < BOARD_X,
                i == 0 ==> max == 0,
                i > 0 ==> exists|k: int|
                    0 <= k < i && #[trigger] self.members()[k] % 8 == max,
                forall|k: int| 0 <= k < i ==> #[trigger] self.members()[k] % 8 <= max,
            decreases self.append() - i,
        {
            let current_x = Board::index_to_coord_x(self.get(i));
            if current_x > max {
                max = current_x;
            }
            proof {
                assert(self.members()[i as int] == self.slots()[i as int]);
            }
            i = i + 1;
        }
        max
    }

    /// The leftmost column the recorded cluster touches, or `BOARD_X`
    /// when the list is empty.
    pub fn left_bound(&self) -> (r: u8)
        requires
            self.wf(),
        ensures
            self.members().len() > 0 ==> is_left_bound(self.members(), r),
            self.members().len() == 0 ==> r == BOARD_X,
            r <= BOARD_X,
    {
        let mut min: u8 = BOARD_X;
        let mut i: u8 = 0;
        while i < self.append_index
            invariant
                self.wf(),
                i <= self.append(),
                min <= BOARD_X,
                i == 0 ==> min == BOARD_X,
                i > 0 ==> exists|k: int|
                    0 <= k < i && #[trigger] self.members()[k] % 8 == min,
                forall|k: int| 0 <= k < i ==> #[trigger] self.members()[k] % 8 >= min,
            decreases self.append() - i,
        {
            let current_x = Board::index_to_coord_x(self.get(i));
            if current_x < min {
                min = current_x;
            }
            proof {
                assert(self.members()[i as int] == self.slots()[i as int]);
            }
            i = i + 1;
        }
        min
    }

    /// The bottommost (greatest) row the recorded cluster touches in
    /// `column`, or 0 when no member lies in that column.
    pub fn column_bottom_bound(&self, column: u8) -> (r: u8)
        requires
            self.wf(),
        ensures
            col_occupied(self.members(), column) ==> is_col_bottom(self.members(), column, r),
            !col_occupied(self.members(), column) ==> r == 0,
            r < BOARD_Y,
    {
        let mut max: u8 = 0;
        let mut i: u8 = 0;
        while i < self.append_index
            invariant
                self.wf(),
                i <= self.append(),
                max < BOARD_Y,
                (exists|k: int|
                    0 <= k < i && #[trigger] self.members()[k] % 8 == column && self.members()[k]
                        / 8 == max) || (max == 0 && forall|k: int|
                    0 <= k < i ==> #[trigger] self.members()[k] % 8 != column),
                forall|k: int|
                    0 <= k < i && #[trigger] self.members()[k] % 8 == column ==> self.members()[k]
                        / 8 <= max,
            decreases self.append() - i,
        {
            let cell = self.get(i);
            proof {
                assert(self.members()[i as int] == self.slots()[i as int]);
            }
            if Board::index_to_coord_x(cell) == column {
                let current_y = Board::index_to_coord_y(cell);
                if current_y > max {
                    max = current_y;
                }
            }
            i = i + 1;
        }
        max
    }

    /// The topmost (least) row the recorded cluster touches in `column`,
    /// or `BOARD_Y` when no member lies in that column.
    pub fn column_top_bound(&self, column: u8) -> (r: u8)
        requires
            self.wf(),
        ensures
            col_occupied(self.members(), column) ==> is_col_top(self.members(), column, r),
            !col_occupied(self.members(), column) ==> r == BOARD_Y,
            r <= BOARD_Y,
    {
        let mut min: u8 = BOARD_Y;
        let mut i: u8 = 0;
        while i < self.append_index
            invariant
                self.wf(),
                i <= self.append(),
                min <= BOARD_Y,
                (exists|k: int|
                    0 <= k < i && #[trigger] self.members()[k] % 8 == column && self.members()[k]
                        / 8 == min) || (min == BOARD_Y && forall|k: int|
                    0 <= k < i ==> #[trigger] self.members()[k] % 8 != column),
                forall|k: int|
                    0 <= k < i && #[trigger] self.members()[k] % 8 == column ==> self.members()[k]
                        / 8 >= min,
            decreases self.append() - i,
        {
            let cell = self.get(i);
            proof {
                assert(self.members()[i as int] == self.slots()[i as int]);
                assert(self.slots()[i as int] / 8 < 7);
            }
            if Board::index_to_coord_x(cell) == column {
                let current_y = Board::index_to_coord_y(cell);
                if current_y < min {
                    min = current_y;
                }
            }
            i = i + 1;
        }
        min
    }

    /// The raw slot values in order, one glyph-sized code per slot, for
    /// external inspection.
    pub fn for_each(&self) -> (r: Vec<u8>)
        requires
            self.storage_wf(),
        ensures
            r@.len() == BOARD_SIZE,
            forall|i: int| 0 <= i < BOARD_SIZE ==> #[trigger] r@[i] == self.slots()[i],
    {
        let mut out: Vec<u8> = Vec::new();
        let mut i: usize = 0;
        while i < BOARD_SIZE
            invariant
                self.storage_wf(),
                i <= BOARD_SIZE,
                out@.len() == i,
                forall|m: int| 0 <= m < i ==> #[trigger] out@[m] == self.slots()[m],
            decreases BOARD_SIZE - i,
        {
            out.push(self.get(i as u8));
            i = i + 1;
        }
        out
    }
}

} // verus!
