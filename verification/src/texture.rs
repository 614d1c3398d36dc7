//! Minecraft texture variant algorithms.
//!
//! Every algorithm reproduces a small Java routine. Java's `int` and `long`
//! arithmetic wraps in two's complement, so the specifications below state the
//! mathematical value reduced into the Java type (`java_int`, `java_long`,
//! `wrap64`), and the executable code is proved to compute exactly that with
//! Rust's explicit wrapping operations.

use vstd::prelude::*;
use vstd::arithmetic::div_mod::{
    lemma_add_mod_noop,
    lemma_mod_mod,
    lemma_mul_mod_noop_left,
    lemma_mod_sub_multiples_vanish,
    lemma_mod_add_multiples_vanish,
    lemma_small_mod,
};
use vstd::wrapping::{i32_specs, i64_specs, u64_specs};

use crate::types::TextureAlgorithm;

verus! {

const JAVA_MULTIPLIER: u64 = 0x5deece66d;
const JAVA_MASK: u64 = 0xffff_ffff_ffff;
pub const SODIUM_PHI: u64 = 0x9e3779b97f4a7c15;
pub const SODIUM2_KEY: u64 = 7_640_891_576_956_012_809;
pub const SODIUM2_OFFSET: i64 = -7_046_029_254_386_353_131;

/// Number of states of Java's 48-bit linear congruential generator.
pub const LCG_PERIOD: u64 = 0x1_0000_0000_0000;

// ---------------------------------------------------------------------------
// Mathematical model of the Java routines
// ---------------------------------------------------------------------------

/// `v` reduced into Java's 32-bit `int` (two's complement wrap).
pub open spec fn java_int(v: int) -> i32 {
    i32_specs::signed_crop(v)
}

/// `v` reduced into Java's 64-bit `long` (two's complement wrap).
pub open spec fn java_long(v: int) -> i64 {
    i64_specs::signed_crop(v)
}

/// `v` reduced modulo 2^64, as an unsigned 64-bit pattern.
pub open spec fn wrap64(v: int) -> u64 {
    (v % 0x1_0000_0000_0000_0000) as u64
}

/// The per-block seed Minecraft derives from block coordinates.
pub open spec fn coordinate_seed(x: i32, y: i32, z: i32) -> i64 {
    (java_int(x * 3_129_871) as i64) ^ ((z * 116_129_781) as i64) ^ (y as i64)
}

/// Minecraft's `getSeed` polynomial hash of the block seed.
pub open spec fn coordinate_hash(x: i32, y: i32, z: i32) -> i64 {
    let seed = coordinate_seed(x, y, z) as int;
    java_long(seed * seed * 42_317_861 + seed * 11)
}

/// The coordinate hash shifted right by 16 bits, as a `long`.
pub open spec fn coordinate_random(x: i32, y: i32, z: i32) -> i64 {
    coordinate_hash(x, y, z) >> 16u64
}

/// The coordinate hash narrowed to `int`, then shifted right by 16 bits.
pub open spec fn coordinate_random_legacy(x: i32, y: i32, z: i32) -> i32 {
    (coordinate_hash(x, y, z) as i32) >> 16u32
}

/// `|value| mod modulus`.
pub open spec fn absolute_modulo(value: int, modulus: int) -> int {
    (if value < 0 { -value } else { value }) % modulus
}

/// Java's `Random` seed scrambling: `(seed ^ 0x5DEECE66D) & (2^48 - 1)`.
pub open spec fn java_scramble(seed: i64) -> u64 {
    ((seed as u64) ^ 0x5deece66du64) & 0xffff_ffff_ffffu64
}

/// One step of Java's 48-bit linear congruential generator.
pub open spec fn lcg_next(state: int) -> int {
    (state * 0x5deece66d + 11) % 0x1_0000_0000_0000
}

/// The top 31 of the 48 state bits, as returned by `next(31)`.
pub open spec fn lcg_bits31(state: int) -> int {
    state / 0x2_0000
}

/// The single `nextInt` draw of the 1.13 algorithm, in closed form.
pub open spec fn vanilla2_value(seed: i64) -> i32 {
    (wrap64(java_scramble(seed) * 0xbb20b4600a69 + 0x40942de6ba) >> 16u64) as i32
}

/// Whether `n` is a power of two.
pub open spec fn is_power_of_two(n: int) -> bool {
    n == 1 || n == 2 || n == 4 || n == 8 || n == 16 || n == 32 || n == 64 || n == 128
}

/// The value `nextInt(bound)` reads off the generator state `next`.
#[verifier::opaque]
pub open spec fn draw_value(next: int, bound: int) -> int {
    lcg_bits31(next) % bound
}

/// Whether `nextInt(bound)` accepts the draw from state `next` (Java rejects
/// the few top values that would bias the remainder).
#[verifier::opaque]
pub open spec fn draw_accepted(next: int, bound: int) -> bool {
    lcg_bits31(next) - lcg_bits31(next) % bound + bound - 1 < 0x8000_0000
}

/// `nextInt(bound)` rejection sampling, starting from `state`, for at most
/// `fuel` draws (0 if no draw is accepted within them).
#[verifier::opaque]
pub open spec fn next_int_search(state: int, bound: int, fuel: nat) -> int
    decreases fuel,
{
    if fuel == 0 {
        0
    } else {
        let next = lcg_next(state);
        if draw_accepted(next, bound) {
            draw_value(next, bound)
        } else {
            next_int_search(next, bound, (fuel - 1) as nat)
        }
    }
}

/// Java's `new Random(seed).nextInt(bound)`, with the rejection loop bounded
/// by the generator's period.
pub open spec fn java_next_int(seed: i64, bound: int) -> int {
    let start = java_scramble(seed) as int;
    if is_power_of_two(bound) {
        (bound * lcg_bits31(lcg_next(start))) / 0x8000_0000
    } else {
        next_int_search(start, bound, LCG_PERIOD as nat)
    }
}

/// Stafford's "mix13" 64-bit finalizer.
pub open spec fn stafford_mix(value: u64) -> u64 {
    let a = wrap64((value ^ (value >> 30u64)) * 0xbf58476d1ce4e5b9);
    let b = wrap64((a ^ (a >> 27u64)) * 0x94d049bb133111eb);
    b ^ (b >> 31u64)
}

/// MurmurHash3's 64-bit finalizer.
pub open spec fn murmur_mix(seed: u64) -> u64 {
    let a = seed ^ (seed >> 33u64);
    let b = wrap64(a * 0xff51afd7ed558ccd);
    let c = b ^ (b >> 33u64);
    let d = wrap64(c * 0xc4ceb9fe1a85ec53);
    d ^ (d >> 33u64)
}

/// The older Sodium generator: a SplitMix-style sum of two mixed draws.
pub open spec fn sodium1_value(seed: u64) -> i32 {
    let mixed = murmur_mix(seed) as int;
    let first = stafford_mix(wrap64(mixed + SODIUM_PHI));
    let second = stafford_mix(wrap64(mixed + 2 * SODIUM_PHI));
    wrap64(first + second) as i32
}

/// 64-bit rotation left by 17 bits.
pub open spec fn rotate_left17(value: u64) -> u64 {
    (value << 17u64) | (value >> 47u64)
}

/// The newer Sodium generator: a Xoroshiro128++-style first output.
pub open spec fn sodium2_value(seed: u64) -> i32 {
    let low = stafford_mix(seed ^ SODIUM2_KEY);
    let high = stafford_mix(wrap64((seed ^ SODIUM2_KEY) + SODIUM2_OFFSET));
    wrap64(rotate_left17(wrap64(low + high)) + low) as i32
}

/// The texture variant, in `0..variants`, that `algorithm` picks for the
/// block at `(x, y, z)`.
pub open spec fn texture_variant(
    algorithm: TextureAlgorithm,
    x: i32,
    y: i32,
    z: i32,
    variants: u8,
) -> int {
    match algorithm {
        TextureAlgorithm::Vanilla1 => absolute_modulo(
            coordinate_random_legacy(x, y, z) as int,
            variants as int,
        ),
        TextureAlgorithm::Vanilla2 => absolute_modulo(
            vanilla2_value(coordinate_random(x, y, z)) as int,
            variants as int,
        ),
        TextureAlgorithm::Vanilla3 => java_next_int(coordinate_random(x, y, z), variants as int),
        TextureAlgorithm::Sodium1 => absolute_modulo(
            sodium1_value(coordinate_random(x, y, z) as u64) as int,
            variants as int,
        ),
        TextureAlgorithm::Sodium2 => absolute_modulo(
            sodium2_value(coordinate_random(x, y, z) as u64) as int,
            variants as int,
        ),
    }
}

// ---------------------------------------------------------------------------
// Modular arithmetic facts about the wrapping operations
// ---------------------------------------------------------------------------

proof fn lemma_crop64_mod(v: int)
    ensures
        (java_long(v) as int) % 0x1_0000_0000_0000_0000 == v % 0x1_0000_0000_0000_0000,
{
    let m: int = 0x1_0000_0000_0000_0000;
    let r = v % m;
    if r > i64::MAX {
        lemma_mod_sub_multiples_vanish(r, m);
        lemma_mod_mod(v, m, 1);
        lemma_small_mod(r as nat, m as nat);
    } else {
        lemma_small_mod(r as nat, m as nat);
    }
}

proof fn lemma_crop64_in_range(v: int)
    requires
        i64::MIN <= v <= i64::MAX,
    ensures
        java_long(v) == v,
{
    let m: int = 0x1_0000_0000_0000_0000;
    if v >= 0 {
        lemma_small_mod(v as nat, m as nat);
    } else {
        lemma_mod_add_multiples_vanish(v, m);
        lemma_small_mod((v + m) as nat, m as nat);
    }
}

proof fn lemma_crop64_congruent(a: int, b: int)
    requires
        a % 0x1_0000_0000_0000_0000 == b % 0x1_0000_0000_0000_0000,
    ensures
        java_long(a) == java_long(b),
{
}

proof fn lemma_crop64_mul(a: int, b: int)
    ensures
        java_long(java_long(a) * b) == java_long(a * b),
{
    let m: int = 0x1_0000_0000_0000_0000;
    lemma_crop64_mod(a);
    lemma_mul_mod_noop_left(java_long(a) as int, b, m);
    lemma_mul_mod_noop_left(a, b, m);
    lemma_crop64_congruent(java_long(a) * b, a * b);
}

proof fn lemma_crop64_add(a: int, b: int)
    ensures
        i64_specs::wrapping_add(java_long(a), java_long(b)) == java_long(a + b),
{
    let m: int = 0x1_0000_0000_0000_0000;
    let p = java_long(a) as int;
    let q = java_long(b) as int;
    lemma_crop64_mod(a);
    lemma_crop64_mod(b);
    lemma_add_mod_noop(p, q, m);
    lemma_add_mod_noop(a, b, m);
    lemma_crop64_congruent(p + q, a + b);
    if p + q > i64::MAX {
        lemma_mod_sub_multiples_vanish(p + q, m);
        lemma_crop64_congruent(p + q - m, p + q);
        lemma_crop64_in_range(p + q - m);
    } else if p + q < i64::MIN {
        lemma_mod_add_multiples_vanish(p + q, m);
        lemma_crop64_congruent(p + q + m, p + q);
        lemma_crop64_in_range(p + q + m);
    } else {
        lemma_crop64_in_range(p + q);
    }
}

proof fn lemma_wrap64_add(a: u64, b: u64)
    ensures
        u64_specs::wrapping_add(a, b) == wrap64(a + b),
{
    let m: int = 0x1_0000_0000_0000_0000;
    if a + b > u64::MAX {
        lemma_mod_sub_multiples_vanish(a + b, m);
        lemma_small_mod((a + b - m) as nat, m as nat);
    } else {
        lemma_small_mod((a + b) as nat, m as nat);
    }
}

proof fn lemma_wrap64_absorb(p: int, b: int)
    ensures
        wrap64(wrap64(p) + b) == wrap64(p + b),
{
    let m: int = 0x1_0000_0000_0000_0000;
    lemma_add_mod_noop(p, b, m);
    lemma_add_mod_noop(wrap64(p) as int, b, m);
    lemma_mod_mod(p, m, 1);
}

proof fn lemma_wrap64_add_signed(a: u64, b: i64)
    ensures
        u64_specs::wrapping_add_signed(a, b) == wrap64(a + b),
{
    let m: int = 0x1_0000_0000_0000_0000;
    if a + b > u64::MAX {
        lemma_mod_sub_multiples_vanish(a + b, m);
        lemma_small_mod((a + b - m) as nat, m as nat);
    } else if a + b < 0 {
        lemma_mod_add_multiples_vanish(a + b, m);
        lemma_small_mod((a + b + m) as nat, m as nat);
    } else {
        lemma_small_mod((a + b) as nat, m as nat);
    }
}

// ---------------------------------------------------------------------------
// Executable routines
// ---------------------------------------------------------------------------

fn coordinate_random_raw(x: i32, y: i32, z: i32) -> (hash: i64)
    ensures
        hash == coordinate_hash(x, y, z),
{
    let z_term: i64 = (z as i64).wrapping_mul(116_129_781);
    proof {
        lemma_crop64_in_range(z * 116_129_781);
    }
    let seed: i64 = (x.wrapping_mul(3_129_871) as i64) ^ z_term ^ (y as i64);
    let squared: i64 = seed.wrapping_mul(seed);
    let scaled: i64 = squared.wrapping_mul(42_317_861);
    let linear: i64 = seed.wrapping_mul(11);
    proof {
        let s = seed as int;
        lemma_crop64_mul(s * s, 42_317_861);
        lemma_crop64_add(s * s * 42_317_861, s * 11);
    }
    scaled.wrapping_add(linear)
}

fn coordinate_random_legacy_exec(x: i32, y: i32, z: i32) -> (value: i32)
    ensures
        value == coordinate_random_legacy(x, y, z),
{
    (coordinate_random_raw(x, y, z) as i32) >> 16u32
}

fn coordinate_random_exec(x: i32, y: i32, z: i32) -> (value: i64)
    ensures
        value == coordinate_random(x, y, z),
{
    coordinate_random_raw(x, y, z) >> 16u64
}

fn absolute_modulo_exec(value: i32, modulus: u8) -> (result: u8)
    requires
        modulus > 0,
    ensures
        result as int == absolute_modulo(value as int, modulus as int),
        result < modulus,
{
    let magnitude: u32 = if value < 0 {
        (0i64 - value as i64) as u32
    } else {
        value as u32
    };
    (magnitude % (modulus as u32)) as u8
}

fn stafford_mix13(value: u64) -> (mixed: u64)
    ensures
        mixed == stafford_mix(value),
{
    let a: u64 = (value ^ (value >> 30u64)).wrapping_mul(0xbf58476d1ce4e5b9);
    let b: u64 = (a ^ (a >> 27u64)).wrapping_mul(0x94d049bb133111eb);
    b ^ (b >> 31u64)
}

fn random_vanilla2(seed: i64) -> (value: i32)
    ensures
        value == vanilla2_value(seed),
{
    let scrambled: u64 = ((seed as u64) ^ JAVA_MULTIPLIER) & JAVA_MASK;
    let product: u64 = scrambled.wrapping_mul(0xbb20b4600a69);
    proof {
        lemma_wrap64_add(product, 0x40942de6ba);
        lemma_wrap64_absorb(scrambled * 0xbb20b4600a69, 0x40942de6ba);
    }
    (product.wrapping_add(0x40942de6ba) >> 16u64) as i32
}

/// Advances the generator one step and returns its top `bits` bits.
fn legacy_next_bits(seed: &mut u64, bits: u32) -> (drawn: u32)
    requires
        *old(seed) < 0x1_0000_0000_0000,
        bits == 31,
    ensures
        *final(seed) as int == lcg_next(*old(seed) as int),
        drawn as int == lcg_bits31(lcg_next(*old(seed) as int)),
        drawn < 0x8000_0000,
{
    let state: u64 = *seed;
    let product: u64 = state.wrapping_mul(JAVA_MULTIPLIER);
    let sum: u64 = product.wrapping_add(11);
    let next: u64 = sum & JAVA_MASK;
    proof {
        let m: int = 0x1_0000_0000_0000_0000;
        lemma_wrap64_add(product, 11);
        lemma_wrap64_absorb(state * 0x5deece66d, 11);
        assert(sum & 0xffff_ffff_ffffu64 == sum % 0x1_0000_0000_0000) by (bit_vector);
        lemma_mod_mod(state * 0x5deece66d + 11, 0x1_0000_0000_0000, 0x1_0000);
    }
    *seed = next;
    assert(next >> 17u32 == next / 0x2_0000) by (bit_vector);
    (next >> (48 - bits)) as u32
}

fn legacy_next_int(seed: i64, bound: u8) -> (value: u8)
    requires
        bound > 0,
    ensures
        value as int == java_next_int(seed, bound as int),
{
    let mut state: u64 = ((seed as u64) ^ JAVA_MULTIPLIER) & JAVA_MASK;
    assert(state == java_scramble(seed));
    assert(state < 0x1_0000_0000_0000) by (bit_vector)
        requires
            state == (((seed as u64) ^ 0x5deece66du64) & 0xffff_ffff_ffffu64),
    ;
    let limit: u32 = bound as u32;
    if limit & (limit - 1) == 0 {
        assert(is_power_of_two(limit as int)) by (bit_vector)
            requires
                limit & ((limit - 1) as u32) == 0,
                0 < limit < 256,
        ;
        let bits: u32 = legacy_next_bits(&mut state, 31);
        let product: u64 = (limit as u64) * (bits as u64);
        assert(product >> 31u64 == product / 0x8000_0000) by (bit_vector);
        assert(product / 0x8000_0000 < 256) by (nonlinear_arith)
            requires
                product == limit * bits,
                limit < 256,
                bits < 0x8000_0000,
        ;
        return (product >> 31u64) as u8;
    }
    assert(!is_power_of_two(limit as int)) by (bit_vector)
        requires
            limit & ((limit - 1) as u32) != 0,
            0 < limit < 256,
    ;
    let ghost start: int = state as int;
    let mut attempts: u64 = 0;
    while attempts < LCG_PERIOD
        invariant
            limit > 0,
            limit < 256,
            limit == bound,
            attempts <= LCG_PERIOD,
            state < 0x1_0000_0000_0000,
            start == java_scramble(seed) as int,
            !is_power_of_two(limit as int),
            next_int_search(start, limit as int, LCG_PERIOD as nat) == next_int_search(
                state as int,
                limit as int,
                (LCG_PERIOD - attempts) as nat,
            ),
        decreases LCG_PERIOD - attempts,
    {
        let ghost before: int = state as int;
        let (accepted, value) = rejection_draw(&mut state, limit);
        proof {
            lemma_search_step(before, limit as int, (LCG_PERIOD - attempts) as nat);
        }
        if accepted {
            return value as u8;
        }
        attempts = attempts + 1;
    }
    proof {
        lemma_search_step(state as int, limit as int, 0);
    }
    0
}

/// One draw of `nextInt`'s rejection loop: whether the draw is unbiased, and
/// its value.
fn rejection_draw(state: &mut u64, bound: u32) -> (drawn: (bool, u32))
    requires
        *old(state) < 0x1_0000_0000_0000,
        0 < bound < 256,
    ensures
        *final(state) as int == lcg_next(*old(state) as int),
        *final(state) < 0x1_0000_0000_0000,
        drawn.1 as int == draw_value(lcg_next(*old(state) as int), bound as int),
        drawn.0 == draw_accepted(lcg_next(*old(state) as int), bound as int),
        drawn.1 < bound,
{
    reveal(draw_value);
    reveal(draw_accepted);
    let bits: u32 = legacy_next_bits(state, 31);
    let value: u32 = bits % bound;
    let biased: u32 = bits.wrapping_sub(value).wrapping_add(bound - 1);
    assert(biased == bits - value + bound - 1);
    assert((biased as i32 >= 0) == (biased < 0x8000_0000)) by (bit_vector);
    (biased as i32 >= 0, value)
}

fn random_sodium1(seed: u64) -> (value: i32)
    ensures
        value == sodium1_value(seed),
{
    let mut state: u64 = seed;
    state = state ^ (state >> 33u64);
    state = state.wrapping_mul(0xff51afd7ed558ccd);
    state = state ^ (state >> 33u64);
    state = state.wrapping_mul(0xc4ceb9fe1a85ec53);
    state = state ^ (state >> 33u64);
    assert(state == murmur_mix(seed));
    let once: u64 = state.wrapping_add(SODIUM_PHI);
    let twice: u64 = once.wrapping_add(SODIUM_PHI);
    proof {
        lemma_wrap64_add(state, SODIUM_PHI);
        lemma_wrap64_add(once, SODIUM_PHI);
        lemma_wrap64_absorb(state + SODIUM_PHI, SODIUM_PHI as int);
    }
    let first: u64 = stafford_mix13(once);
    let second: u64 = stafford_mix13(twice);
    proof {
        lemma_wrap64_add(first, second);
    }
    first.wrapping_add(second) as i32
}

fn random_sodium2(seed: u64) -> (value: i32)
    ensures
        value == sodium2_value(seed),
{
    let keyed: u64 = seed ^ SODIUM2_KEY;
    let low: u64 = stafford_mix13(keyed);
    let offset: u64 = keyed.wrapping_add_signed(SODIUM2_OFFSET);
    proof {
        lemma_wrap64_add_signed(keyed, SODIUM2_OFFSET);
    }
    let high: u64 = stafford_mix13(offset);
    let sum: u64 = low.wrapping_add(high);
    let rotated: u64 = (sum << 17u64) | (sum >> 47u64);
    proof {
        lemma_wrap64_add(low, high);
        lemma_wrap64_add(rotated, low);
    }
    rotated.wrapping_add(low) as i32
}

// ---------------------------------------------------------------------------
// Samplers
// ---------------------------------------------------------------------------

/// A compile-time texture sampler used by performance-sensitive scan loops.
///
/// Each algorithm is represented by a zero-sized type, so a scanner generic
/// over this trait selects the algorithm once instead of once per sample.
pub trait TextureSampler: Send + Sync {
    /// The algorithm this sampler reproduces.
    spec fn algorithm() -> TextureAlgorithm;

    fn sample(x: i32, y: i32, z: i32, variants: u8) -> (variant: u8)
        requires
            variants > 0,
        ensures
            variant as int == texture_variant(Self::algorithm(), x, y, z, variants),
            variant < variants,
    ;
}

/// Minecraft 1.12.2 and earlier.
#[derive(Clone, Copy, Debug)]
pub struct Vanilla1;

/// Minecraft 1.13 to 1.21.1.
#[derive(Clone, Copy, Debug)]
pub struct Vanilla2;

/// Minecraft 1.21.2 and later.
#[derive(Clone, Copy, Debug)]
pub struct Vanilla3;

/// Older Sodium releases.
#[derive(Clone, Copy, Debug)]
pub struct Sodium1;

/// Newer Sodium releases.
#[derive(Clone, Copy, Debug)]
pub struct Sodium2;

impl TextureSampler for Vanilla1 {
    open spec fn algorithm() -> TextureAlgorithm {
        TextureAlgorithm::Vanilla1
    }

    fn sample(x: i32, y: i32, z: i32, variants: u8) -> (variant: u8) {
        absolute_modulo_exec(coordinate_random_legacy_exec(x, y, z), variants)
    }
}

impl TextureSampler for Vanilla2 {
    open spec fn algorithm() -> TextureAlgorithm {
        TextureAlgorithm::Vanilla2
    }

    fn sample(x: i32, y: i32, z: i32, variants: u8) -> (variant: u8) {
        absolute_modulo_exec(random_vanilla2(coordinate_random_exec(x, y, z)), variants)
    }
}

impl TextureSampler for Vanilla3 {
    open spec fn algorithm() -> TextureAlgorithm {
        TextureAlgorithm::Vanilla3
    }

    fn sample(x: i32, y: i32, z: i32, variants: u8) -> (variant: u8) {
        let value = legacy_next_int(coordinate_random_exec(x, y, z), variants);
        proof {
            lemma_next_int_below(coordinate_random(x, y, z), variants as int);
        }
        value
    }
}

impl TextureSampler for Sodium1 {
    open spec fn algorithm() -> TextureAlgorithm {
        TextureAlgorithm::Sodium1
    }

    fn sample(x: i32, y: i32, z: i32, variants: u8) -> (variant: u8) {
        absolute_modulo_exec(random_sodium1(coordinate_random_exec(x, y, z) as u64), variants)
    }
}

impl TextureSampler for Sodium2 {
    open spec fn algorithm() -> TextureAlgorithm {
        TextureAlgorithm::Sodium2
    }

    fn sample(x: i32, y: i32, z: i32, variants: u8) -> (variant: u8) {
        absolute_modulo_exec(random_sodium2(coordinate_random_exec(x, y, z) as u64), variants)
    }
}

proof fn lemma_search_step(state: int, bound: int, fuel: nat)
    ensures
        fuel == 0 ==> next_int_search(state, bound, fuel) == 0,
        fuel > 0 ==> next_int_search(state, bound, fuel) == (if draw_accepted(lcg_next(state), bound) {
            draw_value(lcg_next(state), bound)
        } else {
            next_int_search(lcg_next(state), bound, (fuel - 1) as nat)
        }),
{
    reveal(next_int_search);
}

proof fn lemma_search_below(state: int, bound: int, fuel: nat)
    requires
        bound > 0,
    ensures
        0 <= next_int_search(state, bound, fuel) < bound,
    decreases fuel,
{
    reveal(draw_value);
    reveal(next_int_search);
    if fuel > 0 {
        let next = lcg_next(state);
        assert(next >= 0);
        assert(lcg_bits31(next) >= 0);
        lemma_search_below(next, bound, (fuel - 1) as nat);
    }
}

proof fn lemma_next_int_below(seed: i64, bound: int)
    requires
        0 < bound < 256,
    ensures
        0 <= java_next_int(seed, bound) < bound,
{
    let start = java_scramble(seed) as int;
    if is_power_of_two(bound) {
        let bits = lcg_bits31(lcg_next(start));
        assert(0 <= lcg_next(start) < 0x1_0000_0000_0000);
        assert(0 <= bits < 0x8000_0000);
        assert(0 <= (bound * bits) / 0x8000_0000 < bound) by (nonlinear_arith)
            requires
                0 <= bits < 0x8000_0000,
                0 < bound,
        ;
    } else {
        lemma_search_below(start, bound, LCG_PERIOD as nat);
    }
}

/// The variant an algorithm picks always lies in `0..variants`.
pub proof fn lemma_texture_variant_in_range(
    algorithm: TextureAlgorithm,
    x: i32,
    y: i32,
    z: i32,
    variants: u8,
)
    requires
        variants > 0,
    ensures
        0 <= texture_variant(algorithm, x, y, z, variants) < variants,
{
    match algorithm {
        TextureAlgorithm::Vanilla3 => lemma_next_int_below(coordinate_random(x, y, z), variants as int),
        _ => {},
    }
}

/// Samples an algorithm selected at runtime.
///
/// Scanners should dispatch once and use [`TextureSampler`] instead; this is
/// for tests and callers off the hot path.
pub fn get_texture(algorithm: TextureAlgorithm, x: i32, y: i32, z: i32, variants: u8) -> (variant: u8)
    requires
        variants > 0,
    ensures
        variant as int == texture_variant(algorithm, x, y, z, variants),
        variant < variants,
{
    match algorithm {
        TextureAlgorithm::Vanilla1 => Vanilla1::sample(x, y, z, variants),
        TextureAlgorithm::Vanilla2 => Vanilla2::sample(x, y, z, variants),
        TextureAlgorithm::Vanilla3 => Vanilla3::sample(x, y, z, variants),
        TextureAlgorithm::Sodium1 => Sodium1::sample(x, y, z, variants),
        TextureAlgorithm::Sodium2 => Sodium2::sample(x, y, z, variants),
    }
}

/// The raw value the modulo-based algorithms reduce to a variant (zero for
/// Vanilla-3, which draws from `java.util.Random` instead).
pub open spec fn modulo_source(algorithm: TextureAlgorithm, x: i32, y: i32, z: i32) -> int {
    match algorithm {
        TextureAlgorithm::Vanilla1 => coordinate_random_legacy(x, y, z) as int,
        TextureAlgorithm::Vanilla2 => vanilla2_value(coordinate_random(x, y, z)) as int,
        TextureAlgorithm::Sodium1 => sodium1_value(coordinate_random(x, y, z) as u64) as int,
        TextureAlgorithm::Sodium2 => sodium2_value(coordinate_random(x, y, z) as u64) as int,
        TextureAlgorithm::Vanilla3 => 0,
    }
}

/// Every algorithm but Vanilla-3 picks the variant as the magnitude of its
/// raw value modulo the number of variants, for every variant count: the
/// variant is the remainder of `|raw|` divided by `variants`.
pub proof fn lemma_variant_is_magnitude_mod(
    algorithm: TextureAlgorithm,
    x: i32,
    y: i32,
    z: i32,
    variants: u8,
)
    requires
        algorithm != TextureAlgorithm::Vanilla3,
        variants > 0,
    ensures
        ({
            let raw = modulo_source(algorithm, x, y, z);
            let magnitude = if raw < 0 {
                -raw
            } else {
                raw
            };
            let v = texture_variant(algorithm, x, y, z, variants);
            &&& 0 <= v < variants
            &&& magnitude == (variants as int) * (magnitude / (variants as int)) + v
            &&& v == magnitude % (variants as int)
        }),
{
    let raw = modulo_source(algorithm, x, y, z);
    let magnitude = if raw < 0 {
        -raw
    } else {
        raw
    };
    vstd::arithmetic::div_mod::lemma_fundamental_div_mod(magnitude, variants as int);
    vstd::arithmetic::div_mod::lemma_mod_bound(magnitude, variants as int);
    assert(texture_variant(algorithm, x, y, z, variants) == magnitude % (variants as int));
}

} // verus!
