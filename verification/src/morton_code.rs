//! Morton codes (Z-order codes) of points with `i32` coordinates: the bits
//! of the three coordinates interleaved into one `u128`, bit `i` of z at bit
//! `3i`, of y at bit `3i + 1` and of x at bit `3i + 2`.
use vstd::prelude::*;
use vstd::arithmetic::power2::{pow2, lemma_pow2_unfold, lemma_pow2_pos, lemma2_to64};
use crate::point::Point3;

verus! {

/// The low `n` bits of `v` spread out to every third bit.
pub open spec fn spread(v: nat, n: nat) -> nat
    decreases n,
{
    if n == 0 {
        0
    } else {
        spread(v / 2, (n - 1) as nat) * 8 + v % 2
    }
}

/// Every third bit of `e`, `n` of them, gathered into consecutive bits.
pub open spec fn join(e: nat, n: nat) -> nat
    decreases n,
{
    if n == 0 {
        0
    } else {
        join(e / 8, (n - 1) as nat) * 2 + e % 2
    }
}

/// The low `n` bits of x, y and z interleaved.
pub open spec fn interleave(x: nat, y: nat, z: nat, n: nat) -> nat {
    4 * spread(x, n) + 2 * spread(y, n) + spread(z, n)
}

/// Eight to the power `n`.
pub open spec fn pow8(n: nat) -> nat
    decreases n,
{
    if n == 0 {
        1
    } else {
        8 * pow8((n - 1) as nat)
    }
}

/// The Morton code of a point with `i32` coordinates, taken as their two's
/// complement bits.
pub open spec fn encode_spec(x: i32, y: i32, z: i32) -> nat {
    interleave(x as u32 as nat, y as u32 as nat, z as u32 as nat, 32)
}

/// A Morton code of a point with `i32` coordinates.
#[derive(Eq, PartialEq, Structural, Ord, PartialOrd, Clone, Copy, Debug, Hash)]
pub struct MortonCode {
    pub data: u128,
}

proof fn lemma_spread_bound(v: nat, n: nat)
    ensures
        spread(v, n) < pow8(n),
    decreases n,
{
    if n > 0 {
        lemma_spread_bound(v / 2, (n - 1) as nat);
    }
}

proof fn lemma_pow8_32()
    ensures
        pow8(32) == 0x1000000000000000000000000,
{
    reveal_with_fuel(pow8, 33);
}

proof fn lemma_join_bound(e: nat, n: nat)
    ensures
        join(e, n) < pow2(n),
    decreases n,
{
    if n > 0 {
        lemma_join_bound(e / 8, (n - 1) as nat);
        lemma_pow2_unfold(n);
    } else {
        lemma2_to64();
    }
}

/// Spreads the low `n` bits of `v`.
fn spread_bits(v: u32, n: u32) -> (r: u128)
    requires
        n <= 32,
    ensures
        r == spread(v as nat, n as nat),
        r < pow8(n as nat),
    decreases n,
{
    proof {
        lemma_spread_bound(v as nat, n as nat);
    }
    if n == 0 {
        0
    } else {
        proof {
            lemma_spread_bound((v / 2) as nat, (n - 1) as nat);
            lemma_pow8_monotone((n - 1) as nat, 31);
            reveal_with_fuel(pow8, 33);
        }
        spread_bits(v / 2, n - 1) * 8 + (v % 2) as u128
    }
}

proof fn lemma_pow8_monotone(a: nat, b: nat)
    requires
        a <= b,
    ensures
        pow8(a) <= pow8(b),
    decreases b - a,
{
    if a < b {
        lemma_pow8_monotone(a, (b - 1) as nat);
    }
}

/// Gathers `n` bits from every third bit of `e`.
fn join_bits(e: u128, n: u32) -> (r: u32)
    requires
        n <= 32,
    ensures
        r == join(e as nat, n as nat),
    decreases n,
{
    proof {
        lemma_join_bound(e as nat, n as nat);
        crate::octree::octant_dimensions::lemma_pow2_monotone(n as nat, 32);
        lemma2_to64();
    }
    if n == 0 {
        0
    } else {
        proof {
            lemma_join_bound((e / 8) as nat, (n - 1) as nat);
            crate::octree::octant_dimensions::lemma_pow2_monotone((n - 1) as nat, 31);
        }
        join_bits(e / 8, n - 1) * 2 + (e % 2) as u32
    }
}

/// Interleaving the halves of three numbers, one level down.
proof fn lemma_interleave_step(x: nat, y: nat, z: nat, n: nat)
    requires
        n > 0,
    ensures
        interleave(x, y, z, n) == 8 * interleave(x / 2, y / 2, z / 2, (n - 1) as nat) + 4 * (x % 2) + 2 * (y
            % 2) + z % 2,
{
}

/// Gathering the bits of an interleaving gives back each of the three numbers, modulo `2^n`.
pub proof fn lemma_join_interleave(x: nat, y: nat, z: nat, n: nat)
    ensures
        join(interleave(x, y, z, n), n) == z % pow2(n),
        join(interleave(x, y, z, n) / 2, n) == y % pow2(n),
        join(interleave(x, y, z, n) / 4, n) == x % pow2(n),
    decreases n,
{
    if n == 0 {
        lemma2_to64();
    } else {
        let t = interleave(x / 2, y / 2, z / 2, (n - 1) as nat);
        let e = interleave(x, y, z, n);
        lemma_interleave_step(x, y, z, n);
        lemma_join_interleave(x / 2, y / 2, z / 2, (n - 1) as nat);
        lemma_pow2_unfold(n);
        lemma_pow2_pos((n - 1) as nat);
        let p = pow2((n - 1) as nat);
        lemma_div_digits(t, x % 2, y % 2, z % 2);
        lemma_mod_double(z, p);
        lemma_mod_double(y, p);
        lemma_mod_double(x, p);
    }
}

/// Reading the low three bits and the rest of `8t + 4a + 2b + c`.
proof fn lemma_div_digits(t: nat, a: nat, b: nat, c: nat)
    requires
        a < 2,
        b < 2,
        c < 2,
    ensures
        (8 * t + 4 * a + 2 * b + c) / 8 == t,
        (8 * t + 4 * a + 2 * b + c) % 2 == c,
        ((8 * t + 4 * a + 2 * b + c) / 2) / 8 == t / 2,
        ((8 * t + 4 * a + 2 * b + c) / 2) % 2 == b,
        ((8 * t + 4 * a + 2 * b + c) / 4) / 8 == t / 4,
        ((8 * t + 4 * a + 2 * b + c) / 4) % 2 == a,
{
    let e = 8 * t + 4 * a + 2 * b + c;
    lemma_quot_rem(e as int, 8, t as int, (4 * a + 2 * b + c) as int);
    lemma_quot_rem(e as int, 2, (4 * t + 2 * a + b) as int, c as int);
    lemma_quot_rem(e as int, 4, (2 * t + a) as int, (2 * b + c) as int);
    lemma_quot_rem(t as int, 2, (t / 2) as int, (t % 2) as int);
    lemma_quot_rem(t as int, 4, (t / 4) as int, (t % 4) as int);
    lemma_quot_rem((4 * t + 2 * a + b) as int, 8, (t / 2) as int, (4 * (t % 2) + 2 * a + b) as int);
    lemma_quot_rem((4 * t + 2 * a + b) as int, 2, (2 * t + a) as int, b as int);
    lemma_quot_rem((2 * t + a) as int, 8, (t / 4) as int, (2 * (t % 4) + a) as int);
    lemma_quot_rem((2 * t + a) as int, 2, t as int, a as int);
}

/// `q` and `r` are the quotient and remainder of `x` by `d`.
proof fn lemma_quot_rem(x: int, d: int, q: int, r: int)
    requires
        0 < d <= 8,
        0 <= r < d,
        x == q * d + r,
    ensures
        x / d == q,
        x % d == r,
{
    vstd::arithmetic::div_mod::lemma_fundamental_div_mod_converse(x, d, q, r);
}

/// `v mod 2p` is twice `(v / 2) mod p` plus the low bit of `v`.
proof fn lemma_mod_double(v: nat, p: nat)
    requires
        p > 0,
    ensures
        v % (2 * p) == ((v / 2) % p) * 2 + v % 2,
{
    vstd::arithmetic::div_mod::lemma_fundamental_div_mod(v as int, 2);
    vstd::arithmetic::div_mod::lemma_fundamental_div_mod((v / 2) as int, p as int);
    vstd::arithmetic::div_mod::lemma_mod_pos_bound((v / 2) as int, p as int);
    let q = (v / 2) / p;
    let r = (v / 2) % p;
    assert(v == q * (2 * p) + (2 * r + v % 2)) by (nonlinear_arith)
        requires
            v == 2 * (v / 2) + v % 2,
            v / 2 == p * q + r,
    ;
    vstd::arithmetic::div_mod::lemma_fundamental_div_mod_converse(v as int, (2 * p) as int, q as int, (2 * r + v % 2) as int);
}

impl MortonCode {
    /// The Morton code of the point `(x, y, z)`.
    pub fn new(x: i32, y: i32, z: i32) -> (r: Self)
        ensures
            r.data == encode_spec(x, y, z),
    {
        proof {
            lemma_spread_bound(x as u32 as nat, 32);
            lemma_spread_bound(y as u32 as nat, 32);
            lemma_spread_bound(z as u32 as nat, 32);
            lemma_pow8_32();
        }
        let sx = spread_bits(x as u32, 32);
        let sy = spread_bits(y as u32, 32);
        let sz = spread_bits(z as u32, 32);
        MortonCode { data: 4 * sx + 2 * sy + sz }
    }

    /// The Morton code with the given raw bits.
    pub fn from_raw(raw: u128) -> (r: Self)
        ensures
            r.data == raw,
    {
        MortonCode { data: raw }
    }

    /// The raw bits of the code.
    pub fn raw(&self) -> (r: u128)
        ensures
            r == self.data,
    {
        self.data
    }

    /// The point whose code this is: bits `3i + 2`, `3i + 1` and `3i` give bit
    /// `i` of x, y and z, for `i` below 32.
    pub fn decode(&self) -> (r: (i32, i32, i32))
        ensures
            r.0 == join(self.data as nat / 4, 32) as u32 as i32,
            r.1 == join(self.data as nat / 2, 32) as u32 as i32,
            r.2 == join(self.data as nat, 32) as u32 as i32,
    {
        let morton = self.data;
        let z = join_bits(morton, 32);
        let y = join_bits(morton / 2, 32);
        let x = join_bits(morton / 4, 32);
        (x as i32, y as i32, z as i32)
    }

    /// The decoded point.
    pub fn as_point(&self) -> (r: Point3<i32>)
        ensures
            r.x == join(self.data as nat / 4, 32) as u32 as i32,
            r.y == join(self.data as nat / 2, 32) as u32 as i32,
            r.z == join(self.data as nat, 32) as u32 as i32,
    {
        let (x, y, z) = self.decode();
        Point3::new(x, y, z)
    }

    /// The Morton code of a point.
    pub fn from_point(p: &Point3<i32>) -> (r: Self)
        ensures
            r.data == encode_spec(p.x, p.y, p.z),
    {
        MortonCode::new(p.x, p.y, p.z)
    }
}

/// Decoding the code of a point gives the point back.
pub proof fn law_decode_encode(x: i32, y: i32, z: i32)
    ensures
        join(encode_spec(x, y, z) / 4, 32) as u32 as i32 == x,
        join(encode_spec(x, y, z) / 2, 32) as u32 as i32 == y,
        join(encode_spec(x, y, z), 32) as u32 as i32 == z,
{
    lemma_join_interleave(x as u32 as nat, y as u32 as nat, z as u32 as nat, 32);
    lemma2_to64();
    let ux = x as u32;
    let uy = y as u32;
    let uz = z as u32;
    assert(ux as i32 == x) by (bit_vector)
        requires
            ux == x as u32,
    ;
    assert(uy as i32 == y) by (bit_vector)
        requires
            uy == y as u32,
    ;
    assert(uz as i32 == z) by (bit_vector)
        requires
            uz == z as u32,
    ;
}

} // verus!
