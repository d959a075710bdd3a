//! The keyed permutation of 64-bit blocks that the transform is built on.
//!
//! A block is a pair of 32-bit words. One round mixes each word into the
//! other twice, through a rotate-add-rotate-xor function keyed by two
//! subkeys. The four subkeys are advanced by fixed odd constants before every
//! round, so that each round of the network sees a schedule of its own.
//!
//! The permutation is specified by [`permute`]; [`h`] computes it. Because
//! every step only xors one word with a function of the other, each round can
//! be undone, and [`lemma_permute_injective`] records the consequence that the
//! integrity tag relies on: distinct blocks never collide under one key.
use vstd::prelude::*;
use vstd::wrapping::u32_specs::wrapping_add;

verus! {

/// A 64-bit block as its two 32-bit words.
pub type Block = (u32, u32);

/// Number of rounds of the network.
pub const ROUNDS: usize = 32;

/// Additive constants by which the four subkeys advance before each round.
pub const STEP0: u32 = 0x992fd18e;

pub const STEP1: u32 = 0x661a75e3;

pub const STEP2: u32 = 0xea02e721;

pub const STEP3: u32 = 0x078a322f;

/// `x` rotated left by `r` bits, for `0 < r < 32`.
pub open spec fn rotl(x: u32, r: u32) -> u32 {
    (x << r) | (x >> ((32 - r) as u32))
}

/// The mixing function: rotate by `r1`, add `k0` modulo 2^32, rotate by `r2`,
/// xor with `k1`.
pub open spec fn mix(r1: u32, r2: u32, x: u32, k0: u32, k1: u32) -> u32 {
    rotl(wrapping_add(rotl(x, r1), k0), r2) ^ k1
}

/// The four values that one round xors into the block, in order. Each is a
/// function of the word it does not change.
pub open spec fn mix0(y: u32, k: Seq<u32>) -> u32 {
    mix(20, 13, y, wrapping_add(k[0], 0xea90b2d4), wrapping_add(k[1], 0x779e0f9a))
}

pub open spec fn mix1(x: u32, k: Seq<u32>) -> u32 {
    mix(12, 5, x, wrapping_add(k[1], 0x57828eb3), wrapping_add(k[2], 0x7ae4d78c))
}

pub open spec fn mix2(y: u32, k: Seq<u32>) -> u32 {
    mix(9, 24, y, wrapping_add(k[2], 0x1d116cad), wrapping_add(k[3], 0x9fe73bfe))
}

pub open spec fn mix3(x: u32, k: Seq<u32>) -> u32 {
    mix(18, 9, x, wrapping_add(k[3], 0xbaf13cfd), wrapping_add(k[0], 0x8e062e91))
}

/// One round of the network under the subkeys `k`.
pub open spec fn round(xy: Block, k: Seq<u32>) -> Block {
    let x1 = xy.0 ^ mix0(xy.1, k);
    let y1 = xy.1 ^ mix1(x1, k);
    let x2 = x1 ^ mix2(y1, k);
    let y2 = y1 ^ mix3(x2, k);
    (x2, y2)
}

/// The round undone: `unround(round(xy, k), k) == xy`.
pub open spec fn unround(xy: Block, k: Seq<u32>) -> Block {
    let y1 = xy.1 ^ mix3(xy.0, k);
    let x1 = xy.0 ^ mix2(y1, k);
    let y0 = y1 ^ mix1(x1, k);
    let x0 = x1 ^ mix0(y0, k);
    (x0, y0)
}

/// The subkeys advanced once.
pub open spec fn advance(k: Seq<u32>) -> Seq<u32> {
    seq![
        wrapping_add(k[0], STEP0),
        wrapping_add(k[1], STEP1),
        wrapping_add(k[2], STEP2),
        wrapping_add(k[3], STEP3),
    ]
}

/// The subkeys of round `n`, counted from 1; `schedule(k, 0)` is the key.
pub open spec fn schedule(k: Seq<u32>, n: nat) -> Seq<u32>
    decreases n,
{
    if n == 0 {
        k
    } else {
        advance(schedule(k, (n - 1) as nat))
    }
}

/// The block after the first `n` rounds.
pub open spec fn rounds(xy: Block, k: Seq<u32>, n: nat) -> Block
    decreases n,
{
    if n == 0 {
        xy
    } else {
        round(rounds(xy, k, (n - 1) as nat), schedule(k, n))
    }
}

/// The first `n` rounds undone, last round first.
pub open spec fn unrounds(xy: Block, k: Seq<u32>, n: nat) -> Block
    decreases n,
{
    if n == 0 {
        xy
    } else {
        unrounds(unround(xy, schedule(k, n)), k, (n - 1) as nat)
    }
}

/// The permutation of blocks under the key `k`: all rounds of the network.
#[verifier::opaque]
pub open spec fn permute(xy: Block, k: Seq<u32>) -> Block {
    rounds(xy, k, ROUNDS as nat)
}

/// The inverse permutation under the key `k`.
#[verifier::opaque]
pub open spec fn unpermute(xy: Block, k: Seq<u32>) -> Block {
    unrounds(xy, k, ROUNDS as nat)
}

proof fn lemma_xor_cancel(a: u32, b: u32)
    by (bit_vector)
    ensures
        (a ^ b) ^ b == a,
{
}

/// A round followed by its inverse is the identity.
pub proof fn lemma_unround_round(xy: Block, k: Seq<u32>)
    ensures
        unround(round(xy, k), k) == xy,
{
    let x1 = xy.0 ^ mix0(xy.1, k);
    let y1 = xy.1 ^ mix1(x1, k);
    let x2 = x1 ^ mix2(y1, k);
    lemma_xor_cancel(y1, mix3(x2, k));
    lemma_xor_cancel(x1, mix2(y1, k));
    lemma_xor_cancel(xy.1, mix1(x1, k));
    lemma_xor_cancel(xy.0, mix0(xy.1, k));
}

/// The first `n` rounds followed by their inverses are the identity.
pub proof fn lemma_unrounds_rounds(xy: Block, k: Seq<u32>, n: nat)
    ensures
        unrounds(rounds(xy, k, n), k, n) == xy,
    decreases n,
{
    if n > 0 {
        let before = rounds(xy, k, (n - 1) as nat);
        lemma_unround_round(before, schedule(k, n));
        lemma_unrounds_rounds(xy, k, (n - 1) as nat);
    }
}

/// `unpermute` undoes `permute` under the same key.
pub proof fn lemma_unpermute_permute(xy: Block, k: Seq<u32>)
    ensures
        unpermute(permute(xy, k), k) == xy,
{
    reveal(permute);
    reveal(unpermute);
    lemma_unrounds_rounds(xy, k, ROUNDS as nat);
}

/// Under one key, two blocks with the same image are the same block.
pub proof fn lemma_permute_injective(a: Block, b: Block, k: Seq<u32>)
    requires
        permute(a, k) == permute(b, k),
    ensures
        a == b,
{
    lemma_unpermute_permute(a, k);
    lemma_unpermute_permute(b, k);
}

/// Rotates `x` left by `r` bits.
fn rotate(x: u32, r: u32) -> (y: u32)
    requires
        0 < r < 32,
    ensures
        y == rotl(x, r),
{
    (x << r) | (x >> (32 - r))
}

fn f(r1: u32, r2: u32, x: u32, k0: u32, k1: u32) -> (y: u32)
    requires
        0 < r1 < 32,
        0 < r2 < 32,
    ensures
        y == mix(r1, r2, x, k0, k1),
{
    rotate(rotate(x, r1).wrapping_add(k0), r2) ^ k1
}

/// One round of the network under the subkeys `k`.
pub fn g(xy: (u32, u32), k: [u32; 4]) -> (r: (u32, u32))
    ensures
        r == round(xy, k@),
{
    let mut x = xy.0;
    let mut y = xy.1;
    x ^= f(20, 13, y, k[0].wrapping_add(0xea90b2d4), k[1].wrapping_add(0x779e0f9a));
    y ^= f(12, 5, x, k[1].wrapping_add(0x57828eb3), k[2].wrapping_add(0x7ae4d78c));
    x ^= f(9, 24, y, k[2].wrapping_add(0x1d116cad), k[3].wrapping_add(0x9fe73bfe));
    y ^= f(18, 9, x, k[3].wrapping_add(0xbaf13cfd), k[0].wrapping_add(0x8e062e91));
    (x, y)
}

/// The permutation of blocks under the key `k`: advances the subkeys and
/// applies a round, [`ROUNDS`] times.
pub fn h(xy0: (u32, u32), k: [u32; 4]) -> (r: (u32, u32))
    ensures
        r == permute(xy0, k@),
{
    let mut xy = xy0;
    let mut kc = k;
    for n in 0..ROUNDS
        invariant
            xy == rounds(xy0, k@, n as nat),
            kc@ =~= schedule(k@, n as nat),
    {
        kc[0] = kc[0].wrapping_add(STEP0);
        kc[1] = kc[1].wrapping_add(STEP1);
        kc[2] = kc[2].wrapping_add(STEP2);
        kc[3] = kc[3].wrapping_add(STEP3);
        xy = g(xy, kc);
    }
    proof {
        reveal(permute);
    }
    xy
}

} // verus!
