//! Random streams: seeded generators, one stream per particle, and the
//! xorshift sequence of the deterministic fixtures.
use rand::rngs::SmallRng;
use rand::Rng;
use rand::SeedableRng;
use vstd::prelude::*;

verus! {

/// `rand`'s small generator, carried as an opaque value.
#[verifier::external_type_specification]
#[verifier::external_body]
pub struct ExSmallRng(rand::rngs::SmallRng);

/// Calls `SmallRng::seed_from_u64`. Which generator a seed leads to differs
/// between 32-bit and 64-bit machines, so nothing is claimed of the result
/// beyond where it came from.
#[verifier::external_body]
fn seed_small_rng(seed: u64) -> SmallRng {
    SmallRng::seed_from_u64(seed)
}

/// Calls `Rng::gen_range` with `0..n`, which panics on an empty range and
/// otherwise draws a number below `n`; gives the draw and the generator after it.
#[verifier::external_body]
fn draw_below(mut rng: SmallRng, n: usize) -> (r: (usize, SmallRng))
    requires
        n > 0,
    ensures
        r.0 < n,
{
    let i: usize = rng.gen_range(0..n);
    (i, rng)
}

/// Calls `rand::random`, which draws from the thread's generator: any value
/// may come back.
#[verifier::external_body]
pub(crate) fn entropy() -> u64 {
    rand::random()
}

/// `rng` is what seeding with `seed` gave.
pub closed spec fn is_seeded(seed: u64, rng: SmallRng) -> bool {
    call_ensures(seed_small_rng, (seed,), rng)
}

/// Drawing an index below `n` from `rng` gave `drawn` and left `next`.
pub closed spec fn is_index_draw(rng: SmallRng, n: usize, drawn: usize, next: SmallRng) -> bool {
    call_ensures(draw_below, (rng, n), (drawn, next))
}

/// A generator seeded with `seed`.
pub fn seeded(seed: u64) -> (rng: SmallRng)
    ensures
        is_seeded(seed, rng),
{
    seed_small_rng(seed)
}

/// An index below `n`, and the generator after the draw.
pub fn index_draw(rng: SmallRng, n: usize) -> (r: (usize, SmallRng))
    requires
        n > 0,
    ensures
        r.0 < n,
        is_index_draw(rng, n, r.0, r.1),
{
    draw_below(rng, n)
}

/// The finishing rounds of splitmix64.
pub open spec fn mixed(z: u64) -> u64 {
    let a = (z ^ (z >> 30)).wrapping_mul(0xBF58476D1CE4E5B9u64);
    let b = (a ^ (a >> 27)).wrapping_mul(0x94D049BB133111EBu64);
    b ^ (b >> 31)
}

/// The seed of particle `i`'s stream in the generation `generation`.
pub open spec fn stream_seed(generation: u64, i: u64) -> u64 {
    mixed(
        generation.wrapping_mul(0x9E3779B97F4A7C15u64).wrapping_add(
            i.wrapping_mul(0xBF58476D1CE4E5B9u64),
        ),
    )
}

/// The seed of particle `i`'s stream.
pub fn stream_seed_of(generation: u64, i: u64) -> (seed: u64)
    ensures
        seed == stream_seed(generation, i),
{
    let mut z: u64 = generation.wrapping_mul(0x9E3779B97F4A7C15).wrapping_add(
        i.wrapping_mul(0xBF58476D1CE4E5B9),
    );
    z = (z ^ (z >> 30)).wrapping_mul(0xBF58476D1CE4E5B9);
    z = (z ^ (z >> 27)).wrapping_mul(0x94D049BB133111EB);
    z ^ (z >> 31)
}

/// How far one generation's seed lies from the next.
pub const GENERATION: u64 = 0x9E37_7979_7979_7979;

/// The seed of the generation after `generation`.
pub open spec fn next_generation(generation: u64) -> u64 {
    generation.wrapping_add(GENERATION)
}

/// The seed of the next generation.
pub fn next_generation_of(generation: u64) -> (r: u64)
    ensures
        r == next_generation(generation),
{
    generation.wrapping_add(GENERATION)
}

/// One step of the xorshift64 sequence.
pub open spec fn xorshift(s: u64) -> u64 {
    let a = s ^ (s << 13);
    let b = a ^ (a >> 7);
    b ^ (b << 17)
}

/// The next state of the xorshift64 sequence.
pub fn xorshift_step(s: u64) -> (r: u64)
    ensures
        r == xorshift(s),
{
    let a: u64 = s ^ (s << 13);
    let b: u64 = a ^ (a >> 7);
    b ^ (b << 17)
}

/// The state after `n` steps.
pub open spec fn xorshift_after(s: u64, n: nat) -> u64
    decreases n,
{
    if n == 0 {
        s
    } else {
        xorshift(xorshift_after(s, (n - 1) as nat))
    }
}

/// Multiplying by an odd number loses nothing: `back` undoes `factor`.
proof fn lemma_odd_factor_is_injective(a: u64, b: u64, factor: u64, back: u64, over: int)
    requires
        factor * back == 1 + over * 0x1_0000_0000_0000_0000,
        a.wrapping_mul(factor) == b.wrapping_mul(factor),
    ensures
        a == b,
{
    let m: int = 0x1_0000_0000_0000_0000;
    assert forall|x: u64| (#[trigger] x.wrapping_mul(factor) * back) % m == x by {
        let p: int = x * factor;
        assert(x.wrapping_mul(factor) == p % m);
        vstd::arithmetic::div_mod::lemma_mul_mod_noop_left(p, back as int, m);
        assert(p * back == x + (x * over) * m) by (nonlinear_arith)
            requires
                p == x * factor,
                factor * back == 1 + over * m,
        ;
        vstd::arithmetic::div_mod::lemma_mod_multiples_vanish(x * over, x as int, m);
        assert(m * (x * over) + x == x + (x * over) * m) by (nonlinear_arith);
        vstd::arithmetic::div_mod::lemma_small_mod(x as nat, m as nat);
    }
    assert((a.wrapping_mul(factor) * back) % m == a);
    assert((b.wrapping_mul(factor) * back) % m == b);
}

proof fn lemma_mixed_is_injective(y: u64, z: u64)
    requires
        mixed(y) == mixed(z),
    ensures
        y == z,
{
    let a1 = y ^ (y >> 30);
    let b1 = z ^ (z >> 30);
    let a2 = a1.wrapping_mul(0xBF58476D1CE4E5B9u64);
    let b2 = b1.wrapping_mul(0xBF58476D1CE4E5B9u64);
    let a3 = a2 ^ (a2 >> 27);
    let b3 = b2 ^ (b2 >> 27);
    let a4 = a3.wrapping_mul(0x94D049BB133111EBu64);
    let b4 = b3.wrapping_mul(0x94D049BB133111EBu64);
    assert(a4 ^ (a4 >> 31) == b4 ^ (b4 >> 31) ==> a4 == b4) by (bit_vector);
    lemma_odd_factor_is_injective(
        a3,
        b3,
        0x94D049BB133111EBu64,
        0x319642B2D24D8EC3u64,
        0x1CD336EDA85F1453int,
    );
    assert(a2 ^ (a2 >> 27) == b2 ^ (b2 >> 27) ==> a2 == b2) by (bit_vector);
    lemma_odd_factor_is_injective(
        a1,
        b1,
        0xBF58476D1CE4E5B9u64,
        0x96DE1B173F119089u64,
        0x70C3BCA78F27F46Cint,
    );
    assert(y ^ (y >> 30) == z ^ (z >> 30) ==> y == z) by (bit_vector);
}

/// Two particles of one generation never share a stream seed.
pub proof fn law_streams_differ(generation: u64, i: u64, j: u64)
    requires
        i != j,
    ensures
        stream_seed(generation, i) != stream_seed(generation, j),
{
    if stream_seed(generation, i) == stream_seed(generation, j) {
        let g = generation.wrapping_mul(0x9E3779B97F4A7C15u64);
        let ci = i.wrapping_mul(0xBF58476D1CE4E5B9u64);
        let cj = j.wrapping_mul(0xBF58476D1CE4E5B9u64);
        lemma_mixed_is_injective(g.wrapping_add(ci), g.wrapping_add(cj));
        assert(ci == cj);
        lemma_odd_factor_is_injective(
            i,
            j,
            0xBF58476D1CE4E5B9u64,
            0x96DE1B173F119089u64,
            0x70C3BCA78F27F46Cint,
        );
    }
}

/// Two generations never give one particle the same stream seed.
pub proof fn law_generations_differ(g: u64, h: u64, i: u64)
    requires
        g != h,
    ensures
        stream_seed(g, i) != stream_seed(h, i),
{
    if stream_seed(g, i) == stream_seed(h, i) {
        let c = i.wrapping_mul(0xBF58476D1CE4E5B9u64);
        let a = g.wrapping_mul(0x9E3779B97F4A7C15u64);
        let b = h.wrapping_mul(0x9E3779B97F4A7C15u64);
        lemma_mixed_is_injective(a.wrapping_add(c), b.wrapping_add(c));
        assert(a == b);
        lemma_odd_factor_is_injective(
            g,
            h,
            0x9E3779B97F4A7C15u64,
            0xF1DE83E19937733Du64,
            0x957BBF35006ED677int,
        );
    }
}

/// From one generation to the next every particle's stream seed changes.
pub proof fn law_next_generation(g: u64, i: u64)
    ensures
        stream_seed(next_generation(g), i) != stream_seed(g, i),
{
    law_generations_differ(next_generation(g), g, i);
}

/// The xorshift sequence never falls into the zero state from another one, and
/// no two states have the same successor.
pub proof fn law_xorshift_is_injective(s: u64, t: u64)
    ensures
        s != 0 ==> xorshift(s) != 0,
        s != t ==> xorshift(s) != xorshift(t),
{
    lemma_xorshift_rounds(s, t);
    lemma_xorshift_rounds(s, 0);
    assert(xorshift(0) == 0) by {
        assert(0u64 ^ (0u64 << 13) == 0) by (bit_vector);
        assert(0u64 ^ (0u64 >> 7) == 0) by (bit_vector);
        assert(0u64 ^ (0u64 << 17) == 0) by (bit_vector);
    }
}

proof fn lemma_xorshift_rounds(s: u64, t: u64)
    ensures
        xorshift(s) == xorshift(t) ==> s == t,
{
    let a1 = s ^ (s << 13);
    let b1 = t ^ (t << 13);
    let a2 = a1 ^ (a1 >> 7);
    let b2 = b1 ^ (b1 >> 7);
    assert(a2 ^ (a2 << 17) == b2 ^ (b2 << 17) ==> a2 == b2) by (bit_vector);
    assert(a1 ^ (a1 >> 7) == b1 ^ (b1 >> 7) ==> a1 == b1) by (bit_vector);
    assert(s ^ (s << 13) == t ^ (t << 13) ==> s == t) by (bit_vector);
}

/// A stream seed is one output of splitmix64: the mixed state, which is a
/// multiple of the generation and a multiple of the particle's number, cut to
/// 64 bits.
pub proof fn law_stream_seed(generation: u64, i: u64)
    ensures
        ({
            let m: int = 0x1_0000_0000_0000_0000;
            let z = ((generation * 0x9E37_79B9_7F4A_7C15 + i * 0xBF58_476D_1CE4_E5B9) % m) as u64;
            let a = (((z ^ (z >> 30)) * 0xBF58_476D_1CE4_E5B9) % m) as u64;
            let b = (((a ^ (a >> 27)) * 0x94D0_49BB_1331_11EB) % m) as u64;
            stream_seed(generation, i) == b ^ (b >> 31)
        }),
{
    let m: int = 0x1_0000_0000_0000_0000;
    let (p, q) = (generation * 0x9E37_79B9_7F4A_7C15, i * 0xBF58_476D_1CE4_E5B9);
    let x = generation.wrapping_mul(0x9E3779B97F4A7C15u64);
    let y = i.wrapping_mul(0xBF58476D1CE4E5B9u64);
    assert(x == p % m && y == q % m);
    vstd::arithmetic::div_mod::lemma_add_mod_noop(p, q, m);
    assert(x.wrapping_add(y) == (x + y) % m);
}

/// One generation lies a fixed way from the next, cut to 64 bits.
pub proof fn law_generation_step(g: u64)
    ensures
        next_generation(g) == (g + 0x9E37_7979_7979_7979) % 0x1_0000_0000_0000_0000,
{
}

/// A step of the xorshift64 sequence is undone bit by bit: its last shift, the
/// one before and the first, each by what it left unchanged.
pub proof fn law_xorshift_shifts(s: u64)
    ensures
        exists|a: u64, b: u64|
            #[trigger] (a ^ s) == s << 13 && #[trigger] (b ^ a) == a >> 7 && (xorshift(s) ^ b)
                == b << 17,
{
    let a = s ^ (s << 13);
    let b = a ^ (a >> 7);
    let c = b ^ (b << 17);
    assert(a ^ s == s << 13) by (bit_vector)
        requires
            a == s ^ (s << 13),
    ;
    assert(b ^ a == a >> 7) by (bit_vector)
        requires
            b == a ^ (a >> 7),
    ;
    assert(c ^ b == b << 17) by (bit_vector)
        requires
            c == b ^ (b << 17),
    ;
}

} // verus!
