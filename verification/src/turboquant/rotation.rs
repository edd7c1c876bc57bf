//! Reproducible signs for the random rotation.

use vstd::prelude::*;
use vstd::utf8;

verus! {

/// Deterministic generator (xorshift128+) for reproducible sign flips.
pub struct Rng {
    s0: u32,
    s1: u32,
}

impl View for Rng {
    type V = (u32, u32);

    closed spec fn view(&self) -> (u32, u32) {
        (self.s0, self.s1)
    }
}

/// The bytes of a seed folded into one word: multiply by `m`, add the byte, modulo 2^32.
pub open spec fn fold_bytes(bytes: Seq<u8>, m: u32) -> u32
    decreases bytes.len(),
{
    if bytes.len() == 0 {
        0
    } else {
        fold_bytes(bytes.drop_last(), m).wrapping_mul(m).wrapping_add(bytes.last() as u32)
    }
}

/// The state that a seed starts the generator in.
pub open spec fn seeded(seed: Seq<char>) -> (u32, u32) {
    let a = fold_bytes(utf8::encode_utf8(seed), 31);
    let b = fold_bytes(utf8::encode_utf8(seed), 37);
    (
        if a == 0 {
            0x12345678
        } else {
            a
        },
        if b == 0 {
            0x87654321
        } else {
            b
        },
    )
}

/// The word that enters the state: the older word scrambled, mixed with the newer one.
pub open spec fn scramble(x: u32, y: u32) -> u32 {
    let a = x ^ (x << 23u32);
    let b = a ^ (a >> 17u32);
    (b ^ y) ^ (y >> 26u32)
}

/// The state after one step.
pub open spec fn step(state: (u32, u32)) -> (u32, u32) {
    (state.1, scramble(state.0, state.1))
}

/// The state after `n` steps.
pub open spec fn steps(state: (u32, u32), n: nat) -> (u32, u32)
    decreases n,
{
    if n == 0 {
        state
    } else {
        step(steps(state, (n - 1) as nat))
    }
}

/// The number drawn when the generator arrives in a state.
pub open spec fn drawn(state: (u32, u32)) -> u32 {
    state.0.wrapping_add(state.1)
}

/// The sign for place `i`: by the lowest bit of draw `i + 1`.
pub open spec fn sign_at(seed: Seq<char>, i: nat) -> i8 {
    if drawn(steps(seeded(seed), i + 1)) & 1 != 0 {
        1i8
    } else {
        -1i8
    }
}

/// The signs for `d` places.
pub open spec fn sign_flips(seed: Seq<char>, d: nat) -> Seq<i8> {
    Seq::new(d, |i: int| sign_at(seed, i as nat))
}

impl Rng {
    /// Start the generator from a seed.
    pub fn from_seed(seed: &str) -> (r: Self)
        ensures
            r@ == seeded(seed@),
    {
        let bytes = seed.as_bytes();
        let mut s0: u32 = 0;
        let mut s1: u32 = 0;
        assert(bytes@.take(0) =~= Seq::empty());
        for i in 0..bytes.len()
            invariant
                bytes@ == utf8::encode_utf8(seed@),
                s0 == fold_bytes(bytes@.take(i as int), 31),
                s1 == fold_bytes(bytes@.take(i as int), 37),
        {
            assert(bytes@.take(i + 1).drop_last() =~= bytes@.take(i as int));
            s0 = s0.wrapping_mul(31).wrapping_add(bytes[i] as u32);
            s1 = s1.wrapping_mul(37).wrapping_add(bytes[i] as u32);
        }
        assert(bytes@.take(bytes@.len() as int) =~= bytes@);
        if s0 == 0 {
            s0 = 0x12345678;
        }
        if s1 == 0 {
            s1 = 0x87654321;
        }
        Rng { s0, s1 }
    }

    /// Draw the next number.
    pub fn next(&mut self) -> (r: u32)
        ensures
            final(self)@ == step(old(self)@),
            r == drawn(final(self)@),
    {
        let mut x: u32 = self.s0;
        let y: u32 = self.s1;
        self.s0 = y;
        x = x ^ (x << 23u32);
        x = x ^ (x >> 17u32);
        x = x ^ y;
        x = x ^ (y >> 26u32);
        self.s1 = x;
        self.s0.wrapping_add(self.s1)
    }
}

/// Generate random signs, plus or minus one, from a seed.
pub fn generate_sign_flips(seed: &str, d: usize) -> (signs: Vec<i8>)
    ensures
        signs@ == sign_flips(seed@, d as nat),
        forall|i: int| 0 <= i < d ==> #[trigger] signs@[i] == 1 || signs@[i] == -1,
{
    let mut rng = Rng::from_seed(seed);
    let mut signs: Vec<i8> = Vec::new();
    for i in 0..d
        invariant
            rng@ == steps(seeded(seed@), i as nat),
            signs@ == sign_flips(seed@, i as nat),
    {
        let ghost done = signs@;
        let draw: u32 = rng.next();
        signs.push(
            if draw & 1 != 0 {
                1
            } else {
                -1
            },
        );
        assert(rng@ == steps(seeded(seed@), (i + 1) as nat));
        assert(signs@ =~= sign_flips(seed@, (i + 1) as nat));
    }
    signs
}

/// A seeded generator never falls into the state of two zero words, in which it would draw
/// zeros for ever.
pub proof fn law_state_is_never_zero(seed: Seq<char>, n: nat)
    ensures
        steps(seeded(seed), n) != (0u32, 0u32),
    decreases n,
{
    if n > 0 {
        law_state_is_never_zero(seed, (n - 1) as nat);
        let s = steps(seeded(seed), (n - 1) as nat);
        let x = s.0;
        let y = s.1;
        if y == 0 {
            assert(x != 0 && y == 0 ==> ({
                let a = x ^ (x << 23u32);
                let b = a ^ (a >> 17u32);
                (b ^ y) ^ (y >> 26u32)
            }) != 0) by (bit_vector);
        }
    }
}

/// Flipping signs twice gives back what was there: every sign is its own inverse.
pub proof fn law_signs_are_their_own_inverse(seed: Seq<char>, d: nat, i: int, v: int)
    requires
        0 <= i < d,
    ensures
        sign_flips(seed, d)[i] * (sign_flips(seed, d)[i] * v) == v,
{
    let s = sign_flips(seed, d)[i] as int;
    assert(s * (s * v) == v) by (nonlinear_arith)
        requires
            s == 1 || s == -1,
    ;
}

/// The generator: its two words start as the bytes of the seed folded with thirty-one and with
/// thirty-seven, or as fixed words where that is zero. Each step moves the second word to the first
/// place, and mixes the first, shifted by twenty-three and by seventeen, with the second, shifted by
/// twenty-six, into the second. What is drawn is the sum of the words, and its lowest bit says
/// whether a sign is plus.
pub proof fn law_generator(seed: Seq<char>, x: u32, y: u32, bytes: Seq<u8>, b: u8, m: u32, n: nat)
    ensures
        fold_bytes(Seq::empty(), m) == 0,
        fold_bytes(bytes.push(b), m) == fold_bytes(bytes, m).wrapping_mul(m).wrapping_add(b as u32),
        ({
            let f = fold_bytes(utf8::encode_utf8(seed), 31);
            let g = fold_bytes(utf8::encode_utf8(seed), 37);
            &&& f != 0 ==> seeded(seed).0 == f
            &&& g != 0 ==> seeded(seed).1 == g
            &&& f == 0 ==> seeded(seed).0 == 0x1234_5678
            &&& g == 0 ==> seeded(seed).1 == 0x8765_4321
        }),
        step((x, y)).0 == y,
        step((x, y)).1 == ({
            let a = x ^ (x << 23u32);
            a ^ (a >> 17u32) ^ y ^ (y >> 26u32)
        }),
        drawn((x, y)) == x.wrapping_add(y),
        steps((x, y), n + 1) == step(steps((x, y), n)),
        sign_at(seed, n) == (if drawn(steps(seeded(seed), n + 1)) & 1 == 1 {
            1i8
        } else {
            -1i8
        }),
{
    assert(bytes.push(b).drop_last() =~= bytes);
    let d = drawn(steps(seeded(seed), n + 1));
    assert(d & 1 == 0 || d & 1 == 1) by (bit_vector);
}

} // verus!
