//! Two's complement arithmetic.
//!
//! WavPack's filters are defined on 32-bit words whose arithmetic is modular.
//! The spec functions here say which word a mathematical integer stands for;
//! the executable functions compute on words and are proved against them.
use vstd::arithmetic::div_mod::lemma_mod_multiples_vanish;
use vstd::arithmetic::mul::lemma_mul_upper_bound;
use vstd::arithmetic::power2::{lemma2_to64, lemma_pow2_pos, lemma_pow2_strictly_increases, pow2};
use vstd::bits::lemma_u64_shl_is_mul;
use vstd::prelude::*;

verus! {

/// The unsigned 32-bit word that is congruent to `x` modulo 2^32.
pub open spec fn wrap_u32(x: int) -> u32 {
    (x % 0x1_0000_0000) as u32
}

/// The signed 32-bit word that is congruent to `x` modulo 2^32.
pub open spec fn wrap_i32(x: int) -> i32 {
    let m = x % 0x1_0000_0000;
    if m < 0x8000_0000 {
        m as i32
    } else {
        (m - 0x1_0000_0000) as i32
    }
}

/// A word in range stands for itself.
pub proof fn lemma_wrap_i32_exact(x: int)
    requires
        i32::MIN <= x <= i32::MAX,
    ensures
        wrap_i32(x) == x,
{
}

/// Two integers that differ by a multiple of 2^32 wrap to one word.
pub proof fn lemma_wrap_congruent(x: int, y: int, k: int)
    requires
        x == y + k * 0x1_0000_0000,
    ensures
        wrap_i32(x) == wrap_i32(y),
        wrap_u32(x) == wrap_u32(y),
{
    lemma_mod_multiples_vanish(k, y, 0x1_0000_0000);
}

/// Wrapping a summand early does not change the sum.
pub proof fn lemma_wrap_u32_add(x: int, y: int)
    ensures
        wrap_u32(wrap_u32(x) + y) == wrap_u32(x + y),
{
    lemma_wrap_congruent(x + y, wrap_u32(x) + y, x / 0x1_0000_0000);
}

/// Subtracting a word undoes adding it.
pub proof fn lemma_wrap_add_sub(x: i32, y: int)
    ensures
        wrap_i32(wrap_i32(x - y) + y) == x,
        wrap_i32(wrap_i32(x + y) - y) == x,
{
    let a = wrap_i32(x - y) as int;
    let ka = (x - y) / 0x1_0000_0000;
    assert(a == x - y - ka * 0x1_0000_0000 || a == x - y - (ka + 1) * 0x1_0000_0000);
    if a == x - y - ka * 0x1_0000_0000 {
        lemma_wrap_congruent(a + y, x as int, -ka);
    } else {
        lemma_wrap_congruent(a + y, x as int, -(ka + 1));
    }
    let b = wrap_i32(x + y) as int;
    let kb = (x + y) / 0x1_0000_0000;
    assert(b == x + y - kb * 0x1_0000_0000 || b == x + y - (kb + 1) * 0x1_0000_0000);
    if b == x + y - kb * 0x1_0000_0000 {
        lemma_wrap_congruent(b - y, x as int, -kb);
    } else {
        lemma_wrap_congruent(b - y, x as int, -(kb + 1));
    }
    lemma_wrap_i32_exact(x as int);
}

/// Adds two words.
pub fn add_i32(x: i32, y: i32) -> (r: i32)
    ensures
        r == wrap_i32(x + y),
{
    x.wrapping_add(y)
}

/// Subtracts the second word from the first.
pub fn sub_i32(x: i32, y: i32) -> (r: i32)
    ensures
        r == wrap_i32(x - y),
{
    x.wrapping_sub(y)
}

/// Adds two unsigned words.
pub fn add_u32(x: u32, y: u32) -> (r: u32)
    ensures
        r == wrap_u32(x + y),
{
    x.wrapping_add(y)
}

/// Multiplies two unsigned words.
pub fn mul_u32(x: u32, y: u32) -> (r: u32)
    ensures
        r == wrap_u32(x * y),
{
    x.wrapping_mul(y)
}

/// Reinterprets an unsigned word as a signed one.
pub fn to_i32(x: u32) -> (r: i32)
    ensures
        r == wrap_i32(x as int),
{
    assert(x < 0x8000_0000 ==> x as i32 == x) by (bit_vector);
    assert(x >= 0x8000_0000 ==> x as i32 == x - 0x1_0000_0000) by (bit_vector);
    x as i32
}

/// Reinterprets a signed word as an unsigned one.
pub fn to_u32(x: i32) -> (r: u32)
    ensures
        r == wrap_u32(x as int),
{
    assert(x >= 0 ==> x as u32 == x) by (bit_vector);
    assert(x < 0 ==> x as u32 == x + 0x1_0000_0000) by (bit_vector);
    x as u32
}

/// The low 32 bits of a 64-bit integer, as a signed word.
pub fn low_i32(x: i64) -> (r: i32)
    ensures
        r == wrap_i32(x as int),
{
    let u: u32 = x as u32;
    assert(u == (x as u64) % 0x1_0000_0000u64) by (bit_vector)
        requires
            u == x as u32,
    ;
    assert(x >= 0 ==> x as u64 == x) by (bit_vector);
    assert(x < 0 ==> x as u64 == x + 0x1_0000_0000_0000_0000) by (bit_vector);
    assert(u == wrap_u32(x as int));
    proof {
        lemma_wrap_congruent(x as int, u as int, x as int / 0x1_0000_0000);
    }
    to_i32(u)
}

/// Shifts an unsigned word left; as in a machine's shift instruction, only the
/// low five bits of the distance count.
pub fn shl_u32(x: u32, n: u32) -> (r: u32)
    ensures
        r == wrap_u32(x * pow2((n % 32) as nat)),
{
    let k: u32 = n % 32;
    let wide: u64 = (x as u64) << (k as u64);
    proof {
        lemma2_to64();
        lemma_pow2_pos(k as nat);
        if k < 32 {
            lemma_pow2_strictly_increases(k as nat, 32);
        }
        lemma_mul_upper_bound(x as int, 0xffff_ffff, pow2(k as nat) as int, 0xffff_ffff);
        lemma_u64_shl_is_mul(x as u64, k as u64);
        let m: u64 = k as u64;
        assert(x << k == ((x as u64) << m) % 0x1_0000_0000u64) by (bit_vector)
            requires
                k < 32,
                m == k as u64,
        ;
    }
    x << k
}

/// Shifts a signed word left; as in a machine's shift instruction, only the low
/// five bits of the distance count.
pub fn shl_i32(x: i32, n: u32) -> (r: i32)
    ensures
        r == wrap_i32(x * pow2((n % 32) as nat)),
{
    let u: u32 = to_u32(x);
    let v: u32 = shl_u32(u, n);
    proof {
        let p = pow2((n % 32) as nat) as int;
        let k: int = if x < 0 {
            1
        } else {
            0
        };
        assert(u == x + k * 0x1_0000_0000);
        assert(u * p == x * p + (k * p) * 0x1_0000_0000) by (nonlinear_arith)
            requires
                u == x + k * 0x1_0000_0000,
        ;
        let q = (u * p) / 0x1_0000_0000;
        assert(v == x * p + (k * p - q) * 0x1_0000_0000);
        lemma_wrap_congruent(v as int, x * p, k * p - q);
    }
    to_i32(v)
}

} // verus!
