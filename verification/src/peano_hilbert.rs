//! Locality-preserving space-filling key over a quantized 2D grid.
//!
//! A position is quantized into the global extents at a fixed per-axis bit
//! depth, and the quantized coordinates are folded into a single integer key
//! by a recursive curve transform (one quadrant digit per level, with a
//! rotation or reflection of the remaining low bits).  The mapping from
//! quantized coordinates to keys is a bijection over the grid, proved below.

use vstd::arithmetic::div_mod::lemma_fundamental_div_mod;
use vstd::arithmetic::div_mod::lemma_fundamental_div_mod_converse;
use vstd::arithmetic::div_mod::lemma_div_denominator;
use vstd::arithmetic::div_mod::lemma_mod_breakdown;
use vstd::arithmetic::div_mod::lemma_mod_division_less_than_divisor;
use vstd::arithmetic::div_mod::lemma_mod_mod;
use vstd::arithmetic::div_mod::lemma_small_mod;
use vstd::arithmetic::mul::lemma_mul_inequality;
use vstd::arithmetic::mul::lemma_mul_is_commutative;
use vstd::arithmetic::power2::lemma2_to64;
use vstd::arithmetic::power2::lemma2_to64_rest;
use vstd::arithmetic::power2::lemma_pow2_adds;
use vstd::arithmetic::power2::lemma_pow2_pos;
use vstd::arithmetic::power2::lemma_pow2_strictly_increases;
use vstd::arithmetic::power2::pow2;
use vstd::prelude::*;

use crate::extents::Extents;
use crate::extents::Position;

verus! {

/// Bits of grid resolution per axis.
pub const NUM_BITS_PER_DIMENSION: u64 = 21;

/// Grid cells per axis: 2 to the `NUM_BITS_PER_DIMENSION`.
pub const NUM_SUBDIVISIONS: u64 = 0x20_0000;

/// Number of distinct keys: one per grid cell, `NUM_SUBDIVISIONS` squared.
pub const NUM_KEYS: u64 = 0x400_0000_0000;

/// The named constants agree with the powers of two they stand for.
pub proof fn lemma_grid_constants()
    ensures
        NUM_SUBDIVISIONS == pow2(NUM_BITS_PER_DIMENSION as nat),
        NUM_KEYS == pow2(2 * NUM_BITS_PER_DIMENSION as nat),
{
    lemma2_to64();
    lemma2_to64_rest();
}

/// First coordinate of one level of the curve transform, shared by encoding
/// and decoding (the transform is an involution): within a frame of side
/// `s`, quadrant bits `rx`, `ry` select the identity, a transposition, or a
/// point reflection followed by a transposition.
pub open spec fn rot_x(s: nat, a: nat, b: nat, rx: nat, ry: nat) -> nat {
    if ry == 1 {
        a
    } else if rx == 0 {
        b
    } else {
        (s - 1 - b) as nat
    }
}

/// Second coordinate of one level of the curve transform.
pub open spec fn rot_y(s: nat, a: nat, b: nat, rx: nat, ry: nat) -> nat {
    if ry == 1 {
        b
    } else if rx == 0 {
        a
    } else {
        (s - 1 - a) as nat
    }
}

/// Key of the grid cell `(x, y)` in a grid with `k` bits per axis: the top
/// bits of `x` and `y` pick a quadrant digit, and the low bits recurse in
/// the rotated frame.
pub open spec fn encode_key(k: nat, x: nat, y: nat) -> nat
    decreases k,
{
    if k == 0 {
        0
    } else {
        let s: nat = pow2((k - 1) as nat);
        let rx: nat = x / s;
        let ry: nat = y / s;
        let q: nat = if rx == 1 {
            (3 - ry) as nat
        } else {
            ry
        };
        q * pow2(2 * ((k - 1) as nat)) + encode_key(
            (k - 1) as nat,
            rot_x(s, x % s, y % s, rx, ry),
            rot_y(s, x % s, y % s, rx, ry),
        )
    }
}

/// Base-4 digit of key `d` at the given grid level.
pub open spec fn key_digit(d: nat, level: nat) -> nat {
    (d / pow2(2 * level)) % 4
}

/// First coordinate of the grid cell whose key has the low `k` digits of
/// `d`: the low digits give a position within a quadrant, which digit
/// `k - 1` then rotates and translates into place.  Digits of `d` at level
/// `k` and above are ignored.
pub open spec fn decode_x(k: nat, d: nat) -> nat
    decreases k,
{
    if k == 0 {
        0
    } else {
        let s: nat = pow2((k - 1) as nat);
        let q: nat = key_digit(d, (k - 1) as nat);
        let rx: nat = q / 2;
        let ry: nat = (q % 2 + rx) % 2;
        rot_x(s, decode_x((k - 1) as nat, d), decode_y((k - 1) as nat, d), rx, ry) + s * rx
    }
}

/// Second coordinate of the grid cell whose key has the low `k` digits of
/// `d`.
pub open spec fn decode_y(k: nat, d: nat) -> nat
    decreases k,
{
    if k == 0 {
        0
    } else {
        let s: nat = pow2((k - 1) as nat);
        let q: nat = key_digit(d, (k - 1) as nat);
        let rx: nat = q / 2;
        let ry: nat = (q % 2 + rx) % 2;
        rot_y(s, decode_x((k - 1) as nat, d), decode_y((k - 1) as nat, d), rx, ry) + s * ry
    }
}

/// For `b > 0` and `a < b * c`, the quotient `a / b` stays below `c`.
proof fn lemma_div_strict_bound(a: nat, b: nat, c: nat)
    requires
        b > 0,
        a < b * c,
    ensures
        a / b < c,
{
    lemma_fundamental_div_mod(a as int, b as int);
    if a / b >= c {
        lemma_mul_inequality(c as int, (a / b) as int, b as int);
        lemma_mul_is_commutative(b as int, c as int);
        lemma_mul_is_commutative(b as int, (a / b) as int);
        assert(false);
    }
}

/// Splitting one division step off a two-level radix: the digit of `x` at
/// weight `s` within the window `2 * s`, and the remainder below `s`.
proof fn lemma_two_level_mod(x: nat, s: nat)
    requires
        s > 0,
    ensures
        (x % (2 * s)) / s == (x / s) % 2,
        (x % (2 * s)) % s == x % s,
{
    lemma_mod_breakdown(x as int, s as int, 2);
    lemma_mul_is_commutative(s as int, 2);
    lemma_mod_division_less_than_divisor(x as int, s as int);
    lemma_mod_division_less_than_divisor((x / s) as int, 2);
    lemma_mul_is_commutative(s as int, ((x / s) % 2) as int);
    lemma_fundamental_div_mod_converse(
        (x % (2 * s)) as int,
        s as int,
        ((x / s) % 2) as int,
        (x % s) as int,
    );
}

/// Complementing within the full width `n == m * w` complements the low
/// digits: `(n - 1 - x) % m == m - 1 - x % m`.
proof fn lemma_complement_mod(x: nat, m: nat, w: nat)
    requires
        m > 0,
        x < m * w,
    ensures
        ((m * w - 1 - x) as int) % (m as int) == m - 1 - (x % m),
{
    let n: int = (m * w) as int;
    lemma_fundamental_div_mod(x as int, m as int);
    lemma_mod_division_less_than_divisor(x as int, m as int);
    let a: int = (x / m) as int;
    let r: int = (x % m) as int;
    // x / m < w, else x would reach m * w
    if a >= w {
        lemma_mul_inequality(w as int, a, m as int);
        lemma_mul_is_commutative(m as int, w as int);
        lemma_mul_is_commutative(a, m as int);
        assert(false);
    }
    assert(n - 1 - x == (w - a - 1) * (m as int) + ((m - 1 - r)) as int) by {
        lemma_mul_is_commutative(m as int, a);
        assert((w - a - 1) * (m as int) == (m as int) * (w - a - 1)) by {
            lemma_mul_is_commutative(m as int, w - a - 1);
        }
        assert((m as int) * (w - a - 1) == (m as int) * (w as int) - (m as int) * a - (
        m as int)) by {
            broadcast use vstd::arithmetic::mul::lemma_mul_is_distributive_sub;
            broadcast use vstd::arithmetic::mul::lemma_mul_is_distributive_add;

        }
    }
    lemma_fundamental_div_mod_converse(n - 1 - x, m as int, w - a - 1, m - 1 - r);
}

/// One level of encoding, phrased over the full-width coordinates the
/// executable loop keeps: the digit read at weight `s` and the transform of
/// the whole frame agree with one unfolding of `encode_key` on the low bits.
proof fn lemma_encode_step(i: nat, x: nat, y: nat)
    requires
        1 <= i <= NUM_BITS_PER_DIMENSION,
        x < pow2(NUM_BITS_PER_DIMENSION as nat),
        y < pow2(NUM_BITS_PER_DIMENSION as nat),
    ensures
        ({
            let s: nat = pow2((i - 1) as nat);
            let n: nat = pow2(NUM_BITS_PER_DIMENSION as nat);
            let rx: nat = (x / s) % 2;
            let ry: nat = (y / s) % 2;
            let q: nat = if rx == 1 {
                (3 - ry) as nat
            } else {
                ry
            };
            &&& encode_key(i, x % pow2(i), y % pow2(i)) == q * (s * s) + encode_key(
                (i - 1) as nat,
                rot_x(n, x, y, rx, ry) % s,
                rot_y(n, x, y, rx, ry) % s,
            )
            &&& rot_x(n, x, y, rx, ry) < n
            &&& rot_y(n, x, y, rx, ry) < n
            &&& q <= 3
            &&& rx <= 1
            &&& ry <= 1
        }),
{
    let km: nat = (i - 1) as nat;
    let s: nat = pow2(km);
    let n: nat = pow2(NUM_BITS_PER_DIMENSION as nat);
    lemma_pow2_pos(km);
    lemma_pow2_adds(1, km);
    lemma2_to64();
    assert(pow2(i) == 2 * s);
    lemma_pow2_adds(km, km);
    assert(pow2(2 * km) == s * s);
    lemma_two_level_mod(x, s);
    lemma_two_level_mod(y, s);
    lemma_mod_division_less_than_divisor(x as int, s as int);
    lemma_mod_division_less_than_divisor(y as int, s as int);
    lemma_mod_division_less_than_divisor(x as int, (2 * s) as int);
    lemma_mod_division_less_than_divisor(y as int, (2 * s) as int);
    let xm: nat = x % (2 * s);
    let ym: nat = y % (2 * s);
    let rx: nat = (x / s) % 2;
    let ry: nat = (y / s) % 2;
    // the unfolding of encode_key(i, xm, ym) reads the same digit
    assert(xm / s == rx && xm % s == x % s);
    assert(ym / s == ry && ym % s == y % s);
    // the frame transform of the full coordinates agrees on the low bits
    lemma_pow2_adds(km, (NUM_BITS_PER_DIMENSION as nat - km) as nat);
    assert(n == s * pow2((NUM_BITS_PER_DIMENSION as nat - km) as nat));
    if ry == 0 && rx != 0 {
        lemma_complement_mod(x, s, pow2((NUM_BITS_PER_DIMENSION as nat - km) as nat));
        lemma_complement_mod(y, s, pow2((NUM_BITS_PER_DIMENSION as nat - km) as nat));
        assert(rot_x(n, x, y, rx, ry) % s == s - 1 - (y % s));
        assert(rot_y(n, x, y, rx, ry) % s == s - 1 - (x % s));
    }
    assert(rot_x(s, x % s, y % s, rx, ry) == rot_x(n, x, y, rx, ry) % s);
    assert(rot_y(s, x % s, y % s, rx, ry) == rot_y(n, x, y, rx, ry) % s);
}

/// Decoding reads only the low `k` digits: keys that agree on them decode
/// to the same cell.
proof fn lemma_decode_low_window(k: nat, d1: nat, d2: nat)
    requires
        d1 % pow2(2 * k) == d2 % pow2(2 * k),
    ensures
        decode_x(k, d1) == decode_x(k, d2),
        decode_y(k, d1) == decode_y(k, d2),
    decreases k,
{
    if k != 0 {
        let km: nat = (k - 1) as nat;
        let f: nat = pow2(2 * km);
        lemma_pow2_pos(2 * km);
        lemma_pow2_adds(2 * km, 2);
        lemma2_to64();
        assert(pow2(2 * k) == f * 4);
        let w: nat = d1 % (f * 4);
        lemma_mod_breakdown(d1 as int, f as int, 4);
        lemma_mod_breakdown(d2 as int, f as int, 4);
        lemma_mod_division_less_than_divisor(d1 as int, f as int);
        lemma_mod_division_less_than_divisor(d2 as int, f as int);
        lemma_mod_division_less_than_divisor((d1 / f) as int, 4);
        lemma_mod_division_less_than_divisor((d2 / f) as int, 4);
        // both windows split as digit times weight plus low part; the split
        // of the shared window value is unique
        lemma_mul_is_commutative(f as int, ((d1 / f) % 4) as int);
        lemma_mul_is_commutative(f as int, ((d2 / f) % 4) as int);
        lemma_fundamental_div_mod_converse(
            w as int,
            f as int,
            ((d1 / f) % 4) as int,
            (d1 % f) as int,
        );
        lemma_fundamental_div_mod_converse(
            w as int,
            f as int,
            ((d2 / f) % 4) as int,
            (d2 % f) as int,
        );
        assert(key_digit(d1, km) == key_digit(d2, km));
        assert(d1 % f == d2 % f);
        lemma_decode_low_window(km, d1, d2);
        assert(decode_x(k, d1) == decode_x(k, d2));
        assert(decode_y(k, d1) == decode_y(k, d2));
    }
}

/// One full level of decoding: how digit extraction, the frame transform
/// and the translation into the quadrant advance the executable loop state.
proof fn lemma_decode_assemble(j: nat, d: nat, x: nat, y: nat)
    requires
        j < NUM_BITS_PER_DIMENSION,
        x < pow2(j),
        y < pow2(j),
        x == decode_x(j, d),
        y == decode_y(j, d),
    ensures
        ({
            let s: nat = pow2(j);
            let t: nat = d / pow2(2 * j);
            let rx: nat = (t / 2) % 2;
            let ry: nat = (t % 2 + rx) % 2;
            &&& decode_x(j + 1, d) == rot_x(s, x, y, rx, ry) + s * rx
            &&& decode_y(j + 1, d) == rot_y(s, x, y, rx, ry) + s * ry
            &&& d / pow2(2 * (j + 1)) == t / 4
            &&& rx <= 1
            &&& ry <= 1
            &&& rot_x(s, x, y, rx, ry) < s
            &&& rot_y(s, x, y, rx, ry) < s
            &&& s * rx <= s
            &&& s * ry <= s
            &&& rot_x(s, x, y, rx, ry) + s * rx < pow2(j + 1)
            &&& rot_y(s, x, y, rx, ry) + s * ry < pow2(j + 1)
        }),
{
    let s: nat = pow2(j);
    let f: nat = pow2(2 * j);
    let t: nat = d / f;
    let q: nat = t % 4;
    let rx: nat = (t / 2) % 2;
    let ry: nat = (t % 2 + rx) % 2;
    lemma_pow2_pos(j);
    lemma_pow2_pos(2 * j);
    lemma_pow2_adds(1, j);
    lemma_pow2_adds(2 * j, 2);
    lemma2_to64();
    assert(pow2(j + 1) == 2 * s);
    assert(pow2(2 * (j + 1)) == f * 4);
    // the digit's two bits, read off the running quotient
    lemma_two_level_mod(t, 2);
    lemma_mod_division_less_than_divisor(t as int, 4);
    lemma_mod_division_less_than_divisor((t / 2) as int, 2);
    lemma_mod_division_less_than_divisor((t % 2 + rx) as int, 2);
    lemma_mod_mod(t as int, 2, 2);
    assert(q / 2 == rx);
    assert((q % 2 + q / 2) % 2 == ry);
    // the quotient advances by one digit
    lemma_div_denominator(d as int, f as int, 4);
    lemma_mul_is_commutative(f as int, 4);
    assert(d / pow2(2 * (j + 1)) == t / 4);
    // one unfolding of the decoders at level j + 1
    assert(key_digit(d, j) == q);
    assert(rot_x(s, x, y, rx, ry) < s && rot_y(s, x, y, rx, ry) < s);
    assert(s * rx <= s && s * ry <= s) by (nonlinear_arith)
        requires
            rx <= 1,
            ry <= 1,
            s >= 0,
    ;
    assert(decode_x(j + 1, d) == rot_x(s, x, y, rx, ry) + s * rx);
    assert(decode_y(j + 1, d) == rot_y(s, x, y, rx, ry) + s * ry);
}

/// Law: the key mapping is a bijection over the quantized grid — decoding
/// the key of any cell returns that cell, at every bit depth.
pub proof fn lemma_decode_encode(k: nat, x: nat, y: nat)
    requires
        x < pow2(k),
        y < pow2(k),
    ensures
        encode_key(k, x, y) < pow2(2 * k),
        decode_x(k, encode_key(k, x, y)) == x,
        decode_y(k, encode_key(k, x, y)) == y,
    decreases k,
{
    lemma_pow2_pos(k);
    lemma_pow2_pos(2 * k);
    if k == 0 {
        assert(pow2(0) == 1) by {
            lemma2_to64();
        }
    } else {
        let km: nat = (k - 1) as nat;
        let s: nat = pow2(km);
        let f: nat = pow2(2 * km);
        lemma_pow2_pos(km);
        lemma_pow2_pos(2 * km);
        lemma_pow2_adds(1, km);
        lemma_pow2_adds(2, 2 * km);
        lemma_pow2_adds(km, km);
        lemma2_to64();
        assert(pow2(k) == 2 * s && pow2(2 * k) == 4 * f && f == s * s);
        let rx: nat = x / s;
        let ry: nat = y / s;
        lemma_mul_is_commutative(s as int, 2);
        lemma_div_strict_bound(x, s, 2);
        lemma_div_strict_bound(y, s, 2);
        let a: nat = x % s;
        let b: nat = y % s;
        lemma_mod_division_less_than_divisor(x as int, s as int);
        lemma_mod_division_less_than_divisor(y as int, s as int);
        lemma_fundamental_div_mod(x as int, s as int);
        lemma_fundamental_div_mod(y as int, s as int);
        let q: nat = if rx == 1 {
            (3 - ry) as nat
        } else {
            ry
        };
        let lx: nat = rot_x(s, a, b, rx, ry);
        let ly: nat = rot_y(s, a, b, rx, ry);
        assert(lx < s && ly < s);
        lemma_decode_encode(km, lx, ly);
        let e: nat = encode_key(km, lx, ly);
        let d: nat = encode_key(k, x, y);
        assert(d == q * f + e);
        assert(q * f <= 3 * f) by {
            lemma_mul_inequality(q as int, 3, f as int);
        }
        assert(d < 4 * f);
        lemma_fundamental_div_mod_converse(d as int, f as int, q as int, e as int);
        assert(d / f == q && d % f == e);
        // the low digits of the key are exactly the recursive key
        lemma_small_mod(q, 4);
        assert(key_digit(d, km) == q);
        lemma_small_mod(e, f);
        lemma_decode_low_window(km, d, e);
        assert(decode_x(km, d) == lx && decode_y(km, d) == ly);
        // the digit's bits invert exactly
        let rx2: nat = q / 2;
        let ry2: nat = (q % 2 + rx2) % 2;
        assert(rx2 == rx && ry2 == ry);
        // the frame transform is an involution
        assert(rot_x(s, lx, ly, rx, ry) == a && rot_y(s, lx, ly, rx, ry) == b);
        assert(decode_x(k, d) == a + s * rx);
        assert(decode_y(k, d) == b + s * ry);
        lemma_mul_is_commutative(s as int, rx as int);
        lemma_mul_is_commutative(s as int, ry as int);
        assert(a + s * rx == x && b + s * ry == y);
    }
}

/// A locality-preserving key: close keys are close on the grid.
#[derive(Clone, Copy, Debug, PartialEq, Eq, Structural, Hash)]
pub struct PeanoHilbertKey(pub u64);

/// Quantized x coordinate of `pos` within `extents`: linear interpolation
/// into the grid, truncated to an integer.
pub open spec fn quantized_x(extents: Extents, pos: Position) -> int {
    ((pos.x - extents.x_min) * (NUM_SUBDIVISIONS as int)) / (extents.x_max - extents.x_min)
}

/// Quantized y coordinate of `pos` within `extents`.
pub open spec fn quantized_y(extents: Extents, pos: Position) -> int {
    ((pos.y - extents.y_min) * (NUM_SUBDIVISIONS as int)) / (extents.y_max - extents.y_min)
}

/// The key a position inside `extents` maps to.
pub open spec fn key_of(extents: Extents, pos: Position) -> nat {
    encode_key(
        NUM_BITS_PER_DIMENSION as nat,
        quantized_x(extents, pos) as nat,
        quantized_y(extents, pos) as nat,
    )
}

/// Quantizes a position into the grid spanned by `extents`.  Out-of-extents
/// positions are the caller's responsibility and are excluded here.
pub fn get_integer_position(extents: &Extents, pos: &Position) -> (r: (u64, u64))
    requires
        extents.wf(),
        extents.spec_contains(*pos),
    ensures
        r.0 == quantized_x(*extents, *pos),
        r.1 == quantized_y(*extents, *pos),
        r.0 < NUM_SUBDIVISIONS,
        r.1 < NUM_SUBDIVISIONS,
{
    let shifted_x = pos.x - extents.x_min;
    let shifted_y = pos.y - extents.y_min;
    let side_x = extents.x_max - extents.x_min;
    let side_y = extents.y_max - extents.y_min;
    let scaled_x = (shifted_x as u64) * NUM_SUBDIVISIONS;
    let scaled_y = (shifted_y as u64) * NUM_SUBDIVISIONS;
    let qx = scaled_x / (side_x as u64);
    let qy = scaled_y / (side_y as u64);
    proof {
        lemma_mul_is_commutative(shifted_x as int, NUM_SUBDIVISIONS as int);
        lemma_mul_is_commutative(shifted_y as int, NUM_SUBDIVISIONS as int);
        assert(scaled_x < (side_x as nat) * (NUM_SUBDIVISIONS as nat)) by {
            lemma_mul_is_commutative(side_x as int, NUM_SUBDIVISIONS as int);
            vstd::arithmetic::mul::lemma_mul_strict_inequality(
                shifted_x as int,
                side_x as int,
                NUM_SUBDIVISIONS as int,
            );
        }
        assert(scaled_y < (side_y as nat) * (NUM_SUBDIVISIONS as nat)) by {
            lemma_mul_is_commutative(side_y as int, NUM_SUBDIVISIONS as int);
            vstd::arithmetic::mul::lemma_mul_strict_inequality(
                shifted_y as int,
                side_y as int,
                NUM_SUBDIVISIONS as int,
            );
        }
        lemma_div_strict_bound(scaled_x as nat, side_x as nat, NUM_SUBDIVISIONS as nat);
        lemma_div_strict_bound(scaled_y as nat, side_y as nat, NUM_SUBDIVISIONS as nat);
    }
    (qx, qy)
}

impl PeanoHilbertKey {
    /// Key of `pos` within `extents`.
    pub fn new(extents: &Extents, pos: &Position) -> (r: Self)
        requires
            extents.wf(),
            extents.spec_contains(*pos),
        ensures
            r.0 == key_of(*extents, *pos),
            r.0 < NUM_KEYS,
    {
        let integer_pos = get_integer_position(extents, pos);
        Self::from_integer_pos(integer_pos)
    }

    /// The key one past this one.
    pub fn next(&self) -> (r: Self)
        requires
            self.0 < u64::MAX,
        ensures
            r.0 == self.0 + 1,
    {
        PeanoHilbertKey(self.0 + 1)
    }

    /// Folds quantized coordinates into a key, one quadrant digit per grid
    /// level from the top bit down.
    pub fn from_integer_pos(pos: (u64, u64)) -> (r: Self)
        requires
            pos.0 < NUM_SUBDIVISIONS,
            pos.1 < NUM_SUBDIVISIONS,
        ensures
            r.0 == encode_key(NUM_BITS_PER_DIMENSION as nat, pos.0 as nat, pos.1 as nat),
            r.0 < NUM_KEYS,
    {
        proof {
            lemma_grid_constants();
            lemma2_to64();
            lemma_decode_encode(NUM_BITS_PER_DIMENSION as nat, pos.0 as nat, pos.1 as nat);
        }
        let mut x = pos.0;
        let mut y = pos.1;
        let mut s: u64 = NUM_SUBDIVISIONS / 2;
        let mut d: u64 = 0;
        let ghost mut i: nat = NUM_BITS_PER_DIMENSION as nat;
        while s > 0
            invariant
                i <= NUM_BITS_PER_DIMENSION,
                (i == 0) == (s == 0),
                i >= 1 ==> s == pow2((i - 1) as nat),
                x < NUM_SUBDIVISIONS,
                y < NUM_SUBDIVISIONS,
                NUM_SUBDIVISIONS == pow2(NUM_BITS_PER_DIMENSION as nat),
                NUM_KEYS == pow2(2 * NUM_BITS_PER_DIMENSION as nat),
                encode_key(NUM_BITS_PER_DIMENSION as nat, pos.0 as nat, pos.1 as nat) < NUM_KEYS,
                encode_key(NUM_BITS_PER_DIMENSION as nat, pos.0 as nat, pos.1 as nat) == d
                    + encode_key(i, (x as nat) % pow2(i), (y as nat) % pow2(i)),
            decreases s,
        {
            proof {
                lemma2_to64();
                lemma2_to64_rest();
                lemma_encode_step(i, x as nat, y as nat);
                lemma_pow2_adds((i - 1) as nat, (i - 1) as nat);
                lemma_pow2_strictly_increases(
                    2 * ((i - 1) as nat),
                    2 * NUM_BITS_PER_DIMENSION as nat,
                );
                assert((s as nat) * (s as nat) == pow2(2 * ((i - 1) as nat)));
            }
            let rx: u64 = (x / s) % 2;
            let ry: u64 = (y / s) % 2;
            let q: u64 = if rx == 1 {
                3 - ry
            } else {
                ry
            };
            proof {
                let sq: nat = (s as nat) * (s as nat);
                lemma_mul_is_commutative(sq as int, q as int);
                // the digit times its weight never exceeds the remaining key
                assert(encode_key(i, (x as nat) % pow2(i), (y as nat) % pow2(i)) >= (q as nat)
                    * sq);
            }
            d = d + s * s * q;
            Self::rot(NUM_SUBDIVISIONS, &mut x, &mut y, rx, ry);
            s = s / 2;
            proof {
                i = (i - 1) as nat;
                lemma2_to64();
                if i >= 1 {
                    lemma_pow2_adds(1, (i - 1) as nat);
                    lemma_pow2_pos((i - 1) as nat);
                }
            }
        }
        PeanoHilbertKey(d)
    }

    /// Unfolds a key back into quantized coordinates, one quadrant digit per
    /// grid level from the bottom bit up.
    pub fn to_integer_pos(&self) -> (r: (u64, u64))
        requires
            self.0 < NUM_KEYS,
        ensures
            r.0 == decode_x(NUM_BITS_PER_DIMENSION as nat, self.0 as nat),
            r.1 == decode_y(NUM_BITS_PER_DIMENSION as nat, self.0 as nat),
            r.0 < NUM_SUBDIVISIONS,
            r.1 < NUM_SUBDIVISIONS,
    {
        proof {
            lemma_grid_constants();
            lemma2_to64();
            // the starting window is one digit wide: dividing by it is the identity
            lemma_fundamental_div_mod_converse(self.0 as int, 1, self.0 as int, 0);
        }
        let mut t = self.0;
        let mut x: u64 = 0;
        let mut y: u64 = 0;
        let mut s: u64 = 1;
        let ghost mut j: nat = 0;
        while s < NUM_SUBDIVISIONS
            invariant
                j <= NUM_BITS_PER_DIMENSION,
                s == pow2(j),
                x < pow2(j),
                y < pow2(j),
                NUM_SUBDIVISIONS == pow2(NUM_BITS_PER_DIMENSION as nat),
                t == (self.0 as nat) / pow2(2 * j),
                x == decode_x(j, self.0 as nat),
                y == decode_y(j, self.0 as nat),
            decreases NUM_SUBDIVISIONS - s,
        {
            proof {
                lemma2_to64();
                if j >= NUM_BITS_PER_DIMENSION {
                    assert(false);
                }
                lemma_decode_assemble(j, self.0 as nat, x as nat, y as nat);
                lemma_pow2_pos(j);
                lemma_pow2_adds(1, j);
            }
            let rx: u64 = (t / 2) % 2;
            let ry: u64 = (t % 2 + rx) % 2;
            Self::rot(s, &mut x, &mut y, rx, ry);
            x = x + s * rx;
            y = y + s * ry;
            t = t / 4;
            s = s * 2;
            proof {
                j = j + 1;
                if j < NUM_BITS_PER_DIMENSION {
                    lemma_pow2_strictly_increases(j, NUM_BITS_PER_DIMENSION as nat);
                }
            }
        }
        proof {
            if j < NUM_BITS_PER_DIMENSION {
                lemma_pow2_strictly_increases(j, NUM_BITS_PER_DIMENSION as nat);
            }
        }
        (x, y)
    }

    /// The frame transform shared by encoding and decoding.
    fn rot(n: u64, x: &mut u64, y: &mut u64, rx: u64, ry: u64)
        requires
            1 <= n,
            *old(x) < n,
            *old(y) < n,
            rx <= 1,
            ry <= 1,
        ensures
            *final(x) == rot_x(n as nat, *old(x) as nat, *old(y) as nat, rx as nat, ry as nat),
            *final(y) == rot_y(n as nat, *old(x) as nat, *old(y) as nat, rx as nat, ry as nat),
            *final(x) < n,
            *final(y) < n,
    {
        if ry == 0 {
            if rx == 1 {
                *x = (n - 1) - *x;
                *y = (n - 1) - *y;
            }
            let t: u64 = *x;
            *x = *y;
            *y = t;
        }
    }
}

} // verus!
