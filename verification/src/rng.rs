//! Deterministic pseudo-random symbol generation: a single 32-bit running
//! key, from which each call derives one RC4 keystream byte, reduces it to
//! a playable symbol code, and advances the key.

use vstd::prelude::*;
use crate::state::State;

verus! {

/// The first keystream byte RC4 produces when keyed with the four given
/// bytes. A function of the key bytes alone.
pub uninterp spec fn rc4_first_byte(k0: u8, k1: u8, k2: u8, k3: u8) -> u8;

/// Relies on `arc4::Arc4::with_key` and `arc4::Arc4::prga`: RC4 is a pure
/// stream cipher, so the first keystream byte it produces depends on the
/// key bytes alone.
#[verifier::external_body]
fn rc4_keystream_byte(k0: u8, k1: u8, k2: u8, k3: u8) -> (r: u8)
    ensures
        r == rc4_first_byte(k0, k1, k2, k3),
{
    let key: [u8; 4] = [k0, k1, k2, k3];
    let mut arc4 = arc4::Arc4::with_key(&key);
    let mut output: [u8; 1] = [0; 1];
    arc4.prga(&mut output);
    output[0]
}

/// The playable-symbol code (in `[0, 5)`) one generation step yields from
/// the given running key: the first RC4 keystream byte of the key's
/// big-endian bytes, reduced modulo 5.
pub open spec fn spec_gen_code(key: u32) -> u8 {
    rc4_first_byte(
        ((key >> 24u32) & 0xff) as u8,
        ((key >> 16u32) & 0xff) as u8,
        ((key >> 8u32) & 0xff) as u8,
        (key & 0xff) as u8,
    ) % 5
}

/// The running key after one generation step: the old key plus
/// `4321 * code`, wrapping on overflow.
pub open spec fn spec_next_key(key: u32) -> u32 {
    ((key + 4321 * spec_gen_code(key)) % 0x1_0000_0000) as u32
}

/// The running key after `n` generation steps.
pub open spec fn key_after(key: u32, n: nat) -> u32
    decreases n,
{
    if n == 0 {
        key
    } else {
        spec_next_key(key_after(key, (n - 1) as nat))
    }
}

/// The code the `n`-th generation step yields, starting from `key`.
pub open spec fn code_at(key: u32, n: nat) -> u8 {
    spec_gen_code(key_after(key, n))
}

/// Determinism: two generators started from equal keys yield the same
/// code at every step.
pub proof fn lemma_generator_deterministic(k1: u32, k2: u32)
    requires
        k1 == k2,
    ensures
        forall|n: nat| code_at(k1, n) == code_at(k2, n),
        forall|n: nat| key_after(k1, n) == key_after(k2, n),
{
}

/// Unfolding step: the key after `n + 1` steps is one step past the key
/// after `n` steps.
pub proof fn lemma_key_after_step(key: u32, n: nat)
    ensures
        key_after(key, n + 1) == spec_next_key(key_after(key, n)),
{
}

/// Deterministic symbol source: one mutable 32-bit running key, advanced
/// after every symbol produced. Identical initial keys give identical
/// output sequences.
pub struct RandomStateGenerator {
    prb_key: u32,
}

impl RandomStateGenerator {
    /// The current running key.
    pub closed spec fn key(&self) -> u32 {
        self.prb_key
    }

    /// A generator seeded with the default initial key.
    pub fn new() -> (r: Self)
        ensures
            r.key() == 123456789,
    {
        RandomStateGenerator { prb_key: 123456789 }
    }

    /// Produces one playable symbol: keys RC4 with the running key's
    /// big-endian bytes, takes one keystream byte modulo 5, and advances
    /// the running key by `4321 * code`, wrapping on overflow.
    pub fn generate(&mut self) -> (s: State)
        ensures
            s == State::spec_from(spec_gen_code(old(self).key())),
            s.is_playable(),
            s.spec_value() == spec_gen_code(old(self).key()),
            final(self).key() == spec_next_key(old(self).key()),
    {
        let k = self.prb_key;
        proof {
            assert((k >> 24u32) & 0xff < 256 && (k >> 16u32) & 0xff < 256 && (k >> 8u32) & 0xff
                < 256 && k & 0xff < 256) by (bit_vector);
        }
        let b0: u8 = ((k >> 24u32) & 0xff) as u8;
        let b1: u8 = ((k >> 16u32) & 0xff) as u8;
        let b2: u8 = ((k >> 8u32) & 0xff) as u8;
        let b3: u8 = (k & 0xff) as u8;

        let prb: u8 = rc4_keystream_byte(b0, b1, b2, b3) % 5;

        self.prb_key = self.prb_key.wrapping_add(4321u32 * (prb as u32));

        State::from(prb)
    }
}

} // verus!
