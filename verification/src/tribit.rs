//! Dense bit-packed cell storage: one 3-bit value per cell, addressed by
//! linear index, with boundary-crossing-safe reads and writes.

use vstd::prelude::*;
use crate::{BOARD_SIZE, TRIBIT_ARRAY_SIZE};

verus! {

/// One bit of the packed bit stream: bit `k % 8` of byte `k / 8`.
pub open spec fn tri_bit(bytes: Seq<u8>, k: int) -> u8 {
    (bytes[k / 8] >> ((k % 8) as u8)) & 1
}

/// The 3-bit value of cell `i`, read from bits `3*i .. 3*i + 3` of the
/// packed byte stream, combining two bytes where the field straddles a
/// byte boundary.
pub open spec fn tri_extract(bytes: Seq<u8>, i: int) -> u8 {
    let off = (3 * i % 8) as u8;
    let b0 = bytes[3 * i / 8];
    if off > 5 {
        ((b0 >> off) & 7) | ((bytes[3 * i / 8 + 1] & (7u8 >> ((8 - off) as u8))) << ((8 - off) as u8))
    } else {
        (b0 >> off) & 7
    }
}

proof fn lemma_bv_cell_low(b0: u8, o: u8)
    by (bit_vector)
    requires
        o <= 5,
    ensures
        (b0 >> o) & 7 == (((b0 >> o) & 1) + 2 * ((b0 >> ((o + 1) as u8)) & 1) + 4 * ((b0 >> ((o
            + 2) as u8)) & 1)) as u8,
        (b0 >> o) & 7 <= 7,
{
}

proof fn lemma_bv_cell_off6(b0: u8, b1: u8)
    by (bit_vector)
    ensures
        ((b0 >> 6u8) & 7) | ((b1 & (7u8 >> 2u8)) << 2u8) == (((b0 >> 6u8) & 1) + 2 * ((b0 >> 7u8)
            & 1) + 4 * ((b1 >> 0u8) & 1)) as u8,
        (((b0 >> 6u8) & 7) | ((b1 & (7u8 >> 2u8)) << 2u8)) <= 7,
{
}

proof fn lemma_bv_cell_off7(b0: u8, b1: u8)
    by (bit_vector)
    ensures
        ((b0 >> 7u8) & 7) | ((b1 & (7u8 >> 1u8)) << 1u8) == (((b0 >> 7u8) & 1) + 2 * ((b1 >> 0u8)
            & 1) + 4 * ((b1 >> 1u8) & 1)) as u8,
        (((b0 >> 7u8) & 7) | ((b1 & (7u8 >> 1u8)) << 1u8)) <= 7,
{
}

/// Writing a 3-bit field at offset `o` of a byte leaves the byte's other
/// bits unchanged.
proof fn lemma_bv_write_frame(b: u8, v: u8, o: u8, k: u8)
    by (bit_vector)
    requires
        o < 8,
        k < 8,
        k < o || k >= o + 3,
    ensures
        (((b & !(7u8 << o)) | ((v & 7) << o)) >> k) & 1 == (b >> k) & 1,
{
}

/// Writing a 3-bit field at offset `o` of a byte puts bit `k - o` of the
/// value at bit `k` of the byte, for `k` inside the field.
proof fn lemma_bv_write_bits(b: u8, v: u8, o: u8, k: u8)
    by (bit_vector)
    requires
        o < 8,
        k < 8,
        o <= k,
        k < o + 3,
    ensures
        (((b & !(7u8 << o)) | ((v & 7) << o)) >> k) & 1 == (v >> ((k - o) as u8)) & 1,
{
}

/// Writing the spilled high part of a straddling field leaves the second
/// byte's bits at and above the spill unchanged.
proof fn lemma_bv_write_hi_frame(b: u8, v: u8, o: u8, k: u8)
    by (bit_vector)
    requires
        6 <= o < 8,
        k < 8,
        k >= o - 5,
    ensures
        (((b & !(7u8 >> ((8 - o) as u8))) | ((v & 7) >> ((8 - o) as u8))) >> k) & 1 == (b >> k)
            & 1,
{
}

/// Writing the spilled high part of a straddling field puts bit
/// `k + 8 - o` of the value at bit `k` of the second byte.
proof fn lemma_bv_write_hi_bits(b: u8, v: u8, o: u8, k: u8)
    by (bit_vector)
    requires
        6 <= o < 8,
        k < o - 5,
    ensures
        (((b & !(7u8 >> ((8 - o) as u8))) | ((v & 7) >> ((8 - o) as u8))) >> k) & 1 == (v >> ((k
            + 8 - o) as u8)) & 1,
{
}

proof fn lemma_bv_combine(v: u8)
    by (bit_vector)
    ensures
        v & 7 == (((v >> 0u8) & 1) + 2 * ((v >> 1u8) & 1) + 4 * ((v >> 2u8) & 1)) as u8,
        v & 7 == v % 8,
{
}

/// A cell value is the weighted sum of its three stream bits, and is at
/// most 7.
proof fn lemma_cell_bits(bytes: Seq<u8>, i: int)
    requires
        bytes.len() == TRIBIT_ARRAY_SIZE,
        0 <= i < BOARD_SIZE,
    ensures
        tri_extract(bytes, i) == (tri_bit(bytes, 3 * i) + 2 * tri_bit(bytes, 3 * i + 1) + 4
            * tri_bit(bytes, 3 * i + 2)) as u8,
        tri_extract(bytes, i) <= 7,
{
    let byte = 3 * i / 8;
    let off = 3 * i % 8;
    assert(3 * i == 8 * byte + off);
    let b0 = bytes[byte];
    let b1 = bytes[byte + 1];
    let o = off as u8;
    if off <= 5 {
        assert((8 * byte + (off + 1)) / 8 == byte && (8 * byte + (off + 1)) % 8 == off + 1)
            by (nonlinear_arith)
            requires 0 <= off + 1 < 8, byte >= 0;
        assert((8 * byte + (off + 2)) / 8 == byte && (8 * byte + (off + 2)) % 8 == off + 2)
            by (nonlinear_arith)
            requires 0 <= off + 2 < 8, byte >= 0;
        lemma_bv_cell_low(b0, o);
    } else if off == 6 {
        assert((8 * byte + 7) / 8 == byte && (8 * byte + 7) % 8 == 7) by (nonlinear_arith)
            requires byte >= 0;
        assert((8 * (byte + 1)) / 8 == byte + 1 && (8 * (byte + 1)) % 8 == 0) by (nonlinear_arith)
            requires byte >= 0;
        lemma_bv_cell_off6(b0, b1);
    } else {
        assert((8 * (byte + 1)) / 8 == byte + 1 && (8 * (byte + 1)) % 8 == 0) by (nonlinear_arith)
            requires byte >= 0;
        assert((8 * (byte + 1) + 1) / 8 == byte + 1 && (8 * (byte + 1) + 1) % 8 == 1)
            by (nonlinear_arith)
            requires byte >= 0;
        lemma_bv_cell_off7(b0, b1);
    }
}

/// The cell view always has one entry per board cell.
pub broadcast proof fn lemma_cells_len(s: &TribitFields)
    ensures
        (#[trigger] s.cells()).len() == BOARD_SIZE,
{
}

/// Fixed-capacity packed storage of `BOARD_SIZE` 3-bit cells, one cell per
/// linear index, in `TRIBIT_ARRAY_SIZE` bytes.
pub struct TribitFields {
    data: Vec<u8>,
}

impl TribitFields {
    /// The byte buffer has its fixed size.
    pub closed spec fn wf(&self) -> bool {
        self.data@.len() == TRIBIT_ARRAY_SIZE
    }

    /// The stored cell values, one 3-bit value per index.
    pub closed spec fn cells(&self) -> Seq<u8> {
        Seq::new(BOARD_SIZE as nat, |i: int| tri_extract(self.data@, i))
    }

    /// Every stored cell value fits in 3 bits.
    pub proof fn lemma_cells_in_range(&self)
        requires
            self.wf(),
        ensures
            forall|i: int| 0 <= i < BOARD_SIZE ==> #[trigger] self.cells()[i] < 8,
    {
        assert forall|i: int| 0 <= i < BOARD_SIZE implies #[trigger] self.cells()[i] < 8 by {
            lemma_cell_bits(self.data@, i);
        }
    }

    /// A fresh store with every cell zero.
    pub fn new() -> (r: TribitFields)
        ensures
            r.wf(),
            forall|i: int| 0 <= i < BOARD_SIZE ==> #[trigger] r.cells()[i] == 0,
    {
        let mut data: Vec<u8> = Vec::new();
        let mut k: usize = 0;
        while k < TRIBIT_ARRAY_SIZE
            invariant
                data@.len() == k,
                k <= TRIBIT_ARRAY_SIZE,
                forall|m: int| 0 <= m < k ==> #[trigger] data@[m] == 0,
            decreases TRIBIT_ARRAY_SIZE - k,
        {
            data.push(0);
            k = k + 1;
        }
        let r = TribitFields { data };
        proof {
            assert forall|i: int| 0 <= i < BOARD_SIZE implies #[trigger] r.cells()[i] == 0 by {
                lemma_cell_bits(r.data@, i);
                let k0 = (3 * i % 8) as u8;
                let k1 = ((3 * i + 1) % 8) as u8;
                let k2 = ((3 * i + 2) % 8) as u8;
                assert((0u8 >> k0) & 1 == 0) by (bit_vector);
                assert((0u8 >> k1) & 1 == 0) by (bit_vector);
                assert((0u8 >> k2) & 1 == 0) by (bit_vector);
            }
        }
        r
    }

    /// Writes the low 3 bits of `value` at cell `index`, splitting the
    /// write across two bytes where the field straddles a byte boundary.
    /// No other cell changes.
    pub fn set(&mut self, index: usize, value: u8)
        requires
            old(self).wf(),
            index < BOARD_SIZE,
        ensures
            final(self).wf(),
            final(self).cells() == old(self).cells().update(index as int, (value % 8) as u8),
    {
        let bit_index: usize = index * 3;
        let byte_index: usize = bit_index / 8;
        let bit_offset: u8 = (bit_index % 8) as u8;
        let mask: u8 = 7;

        let b0: u8 = self.data[byte_index];
        let nb0: u8 = (b0 & !(mask << bit_offset)) | ((value & mask) << bit_offset);
        self.data[byte_index] = nb0;
        let ghost mid = self.data@;
        if bit_offset > 5 {
            let b1: u8 = self.data[byte_index + 1];
            let nb1: u8 = (b1 & !(mask >> (8 - bit_offset))) | ((value & mask) >> (8 - bit_offset));
            self.data[byte_index + 1] = nb1;
        }
        proof {
            let ob = old(self).data@;
            let nb = self.data@;
            let ii = index as int;
            let byte = 3 * ii / 8;
            let off = 3 * ii % 8;
            let o = off as u8;
            assert(3 * ii == 8 * byte + off);

            assert forall|p: int|
                0 <= p < 3 * BOARD_SIZE && !(3 * ii <= p < 3 * ii + 3) implies #[trigger] tri_bit(
                nb, p) == tri_bit(ob, p) by {
                let m = p / 8;
                let k = (p % 8) as u8;
                assert(p == 8 * m + (p % 8));
                if m == byte {
                    assert(k < o || k >= o + 3);
                    lemma_bv_write_frame(ob[byte], value, o, k);
                } else if off > 5 && m == byte + 1 {
                    if k < o - 5 {
                        assert(p == 8 * (byte + 1) + (k as int));
                        assert(3 * ii <= p < 3 * ii + 3);
                        assert(false);
                    }
                    lemma_bv_write_hi_frame(ob[byte + 1], value, o, k);
                } else {
                    assert(nb[m] == ob[m]);
                }
            }
            assert forall|t: int| 0 <= t < 3 implies #[trigger] tri_bit(nb, 3 * ii + t) == (value
                >> (t as u8)) & 1 by {
                let p = 3 * ii + t;
                let m = p / 8;
                let ki = p % 8;
                let k = ki as u8;
                assert(p == 8 * m + ki);
                assert(k as int == ki);
                if off + t < 8 {
                    assert(m == byte && ki == off + t) by (nonlinear_arith)
                        requires
                            p == 3 * ii + t,
                            3 * ii == 8 * byte + off,
                            0 <= off,
                            off + t < 8,
                            0 <= t < 3,
                            m == p / 8,
                            ki == p % 8,
                    ;
                    lemma_bv_write_bits(ob[byte], value, o, k);
                    assert((k - o) as u8 == t as u8);
                } else {
                    assert(m == byte + 1 && ki == off + t - 8) by (nonlinear_arith)
                        requires
                            p == 3 * ii + t,
                            3 * ii == 8 * byte + off,
                            off < 8,
                            off + t >= 8,
                            0 <= t < 3,
                            m == p / 8,
                            ki == p % 8,
                    ;
                    lemma_bv_write_hi_bits(ob[byte + 1], value, o, k);
                    assert((k + 8 - o) as u8 == t as u8);
                }
            }
            lemma_bv_combine(value);
            assert forall|j: int| 0 <= j < BOARD_SIZE implies #[trigger] self.cells()[j] == old(
                self).cells().update(ii, (value % 8) as u8)[j] by {
                lemma_cell_bits(ob, j);
                lemma_cell_bits(nb, j);
                if j == ii {
                    assert(tri_bit(nb, 3 * ii + 0) == (value >> 0u8) & 1);
                    assert(tri_bit(nb, 3 * ii + 1) == (value >> 1u8) & 1);
                    assert(tri_bit(nb, 3 * ii + 2) == (value >> 2u8) & 1);
                } else {
                    assert(tri_bit(nb, 3 * j) == tri_bit(ob, 3 * j));
                    assert(tri_bit(nb, 3 * j + 1) == tri_bit(ob, 3 * j + 1));
                    assert(tri_bit(nb, 3 * j + 2) == tri_bit(ob, 3 * j + 2));
                }
            }
            assert(self.cells() =~= old(self).cells().update(ii, (value % 8) as u8));
        }
    }

    /// Reads the 3-bit value of cell `index`, recombining the two bytes
    /// where the field straddles a byte boundary.
    pub fn get(&self, index: usize) -> (r: u8)
        requires
            self.wf(),
            index < BOARD_SIZE,
        ensures
            r == self.cells()[index as int],
            r < 8,
    {
        let bit_index: usize = index * 3;
        let byte_index: usize = bit_index / 8;
        let bit_offset: u8 = (bit_index % 8) as u8;
        let mask: u8 = 7;

        let mut value: u8 = (self.data[byte_index] >> bit_offset) & mask;
        if bit_offset > 5 {
            value = value | ((self.data[byte_index + 1] & (mask >> (8 - bit_offset))) << (8
                - bit_offset));
        }
        proof {
            lemma_cell_bits(self.data@, index as int);
        }
        value
    }
}

/// A set followed by a get at the same index returns the written value
/// reduced to its low 3 bits, whatever the store held before.
pub proof fn lemma_set_get_round_trip(store: TribitFields, after: TribitFields, index: usize, value: u8)
    requires
        store.wf(),
        index < BOARD_SIZE,
        after.wf(),
        after.cells() == store.cells().update(index as int, (value % 8) as u8),
    ensures
        after.cells()[index as int] == value % 8,
{
}

/// Relies on `String::from_utf8`: bytes that are ASCII decode to the
/// string holding exactly those characters, one per byte.
#[verifier::external_body]
fn ascii_to_string(bytes: Vec<u8>) -> (r: String)
    requires
        forall|i: int| 0 <= i < bytes@.len() ==> #[trigger] bytes@[i] < 128,
    ensures
        r@.len() == bytes@.len(),
        forall|i: int| 0 <= i < bytes@.len() ==> #[trigger] r@[i] == bytes@[i] as char,
{
    String::from_utf8(bytes).unwrap()
}

impl TribitFields {
    /// One ASCII digit per cell, value plus `'0'`, for external
    /// inspection.
    pub fn to_string(&self) -> (r: String)
        requires
            self.wf(),
        ensures
            r@.len() == BOARD_SIZE,
            forall|i: int|
                0 <= i < BOARD_SIZE ==> #[trigger] r@[i] == ((48 + self.cells()[i]) as u8) as char,
    {
        let mut digits: Vec<u8> = Vec::new();
        let mut i: usize = 0;
        while i < BOARD_SIZE
            invariant
                self.wf(),
                i <= BOARD_SIZE,
                digits@.len() == i,
                forall|m: int|
                    0 <= m < i ==> #[trigger] digits@[m] == (48 + self.cells()[m]) as u8,
                forall|m: int| 0 <= m < i ==> #[trigger] digits@[m] < 128,
            decreases BOARD_SIZE - i,
        {
            let v = self.get(i);
            digits.push(48 + v);
            i = i + 1;
        }
        ascii_to_string(digits)
    }
}

} // verus!
