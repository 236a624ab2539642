use vstd::prelude::*;

verus! {

/// Number of bits of each axis that a Morton code keeps.
pub const AXIS_BITS: u32 = 21;

pub open spec fn pow2(n: nat) -> nat
    decreases n,
{
    if n == 0 {
        1
    } else {
        2 * pow2((n - 1) as nat)
    }
}

pub open spec fn pow8(n: nat) -> nat
    decreases n,
{
    if n == 0 {
        1
    } else {
        8 * pow8((n - 1) as nat)
    }
}

/// The low `n` bits of `a`, bit `b` moved to bit `3 * b`.
pub open spec fn spread(a: nat, n: nat) -> nat
    decreases n,
{
    if n == 0 {
        0
    } else {
        8 * spread(a / 2, (n - 1) as nat) + a % 2
    }
}

/// The Z-order code of the low `n` bits of each axis: bit `b` of axis `i`
/// (x = 0, y = 1, z = 2) is bit `3 * b + i` of the result.
pub open spec fn interleave(x: nat, y: nat, z: nat, n: nat) -> nat
    decreases n,
{
    if n == 0 {
        0
    } else {
        8 * interleave(x / 2, y / 2, z / 2, (n - 1) as nat) + (x % 2 + 2 * (y % 2) + 4 * (z % 2))
    }
}

/// Gathers bits `0, 3, 6, ...` of `e` (the first `n` of them) into one number.
pub open spec fn compact(e: nat, n: nat) -> nat
    decreases n,
{
    if n == 0 {
        0
    } else {
        2 * compact(e / 8, (n - 1) as nat) + e % 2
    }
}

/// The code of a position.
pub open spec fn morton_of(x: nat, y: nat, z: nat) -> nat {
    interleave(x, y, z, AXIS_BITS as nat)
}

/// The position that a code stands for.
pub open spec fn position_of(e: nat) -> (nat, nat, nat) {
    (compact(e, AXIS_BITS as nat), compact(e / 2, AXIS_BITS as nat), compact(e / 4, AXIS_BITS as nat))
}

pub proof fn lemma_pow_positive(n: nat)
    ensures
        pow2(n) >= 1,
        pow8(n) >= 1,
    decreases n,
{
    if n > 0 {
        lemma_pow_positive((n - 1) as nat);
    }
}

pub proof fn lemma_pow8_mono(a: nat, b: nat)
    requires
        a <= b,
    ensures
        pow8(a) <= pow8(b),
    decreases b,
{
    if a < b {
        lemma_pow8_mono(a, (b - 1) as nat);
        lemma_pow_positive((b - 1) as nat);
    }
}

pub proof fn lemma_pow2_mono(a: nat, b: nat)
    requires
        a <= b,
    ensures
        pow2(a) <= pow2(b),
    decreases b,
{
    if a < b {
        lemma_pow2_mono(a, (b - 1) as nat);
        lemma_pow_positive((b - 1) as nat);
    }
}

/// A code of axes below `2^m` is below `8^m`.
pub proof fn lemma_interleave_bound(x: nat, y: nat, z: nat, n: nat, m: nat)
    requires
        x < pow2(m),
        y < pow2(m),
        z < pow2(m),
    ensures
        interleave(x, y, z, n) < pow8(m),
    decreases n,
{
    lemma_pow_positive(m);
    if n > 0 {
        if m == 0 {
            lemma_interleave_bound(x / 2, y / 2, z / 2, (n - 1) as nat, m);
        } else {
            lemma_interleave_bound(x / 2, y / 2, z / 2, (n - 1) as nat, (m - 1) as nat);
        }
    }
}

/// An axis gathered from a code below `8^m` is below `2^m`.
pub proof fn lemma_compact_bound(e: nat, n: nat, m: nat)
    requires
        e < pow8(m),
    ensures
        compact(e, n) < pow2(m),
    decreases n,
{
    lemma_pow_positive(m);
    if n > 0 {
        if m == 0 {
            lemma_compact_bound(e / 8, (n - 1) as nat, m);
        } else {
            lemma_compact_bound(e / 8, (n - 1) as nat, (m - 1) as nat);
        }
    }
}

pub proof fn lemma_interleave_lt(x: nat, y: nat, z: nat, n: nat)
    ensures
        interleave(x, y, z, n) < pow8(n),
    decreases n,
{
    if n > 0 {
        lemma_interleave_lt(x / 2, y / 2, z / 2, (n - 1) as nat);
    }
}

pub proof fn lemma_interleave_spread(x: nat, y: nat, z: nat, n: nat)
    ensures
        interleave(x, y, z, n) == spread(x, n) + 2 * spread(y, n) + 4 * spread(z, n),
    decreases n,
{
    if n > 0 {
        lemma_interleave_spread(x / 2, y / 2, z / 2, (n - 1) as nat);
    }
}

proof fn lemma_digit_parts(x: nat, y: nat, z: nat, p: nat)
    ensures
        ({
            let e = 8 * p + (x % 2 + 2 * (y % 2) + 4 * (z % 2));
            &&& e / 8 == p
            &&& e % 2 == x % 2
            &&& (e / 2) / 8 == p / 2
            &&& (e / 2) % 2 == y % 2
            &&& (e / 4) / 8 == p / 4
            &&& (e / 4) % 2 == z % 2
        }),
{
}

proof fn lemma_digit_split(e: nat)
    ensures
        e == 8 * (e / 8) + e % 2 + 2 * ((e / 2) % 2) + 4 * ((e / 4) % 2),
        (e / 2) / 8 == (e / 8) / 2,
        (e / 4) / 8 == (e / 8) / 4,
{
    assert((e / 2) / 8 == (e / 8) / 2) by (nonlinear_arith);
    assert((e / 4) / 8 == (e / 8) / 4) by (nonlinear_arith);
    assert(e == 8 * (e / 8) + e % 2 + 2 * ((e / 2) % 2) + 4 * ((e / 4) % 2)) by (nonlinear_arith);
}

/// Gathering the axes back out of a code gives the axes it was made of.
pub proof fn lemma_compact_interleave(x: nat, y: nat, z: nat, n: nat)
    requires
        x < pow2(n),
        y < pow2(n),
        z < pow2(n),
    ensures
        compact(interleave(x, y, z, n), n) == x,
        compact(interleave(x, y, z, n) / 2, n) == y,
        compact(interleave(x, y, z, n) / 4, n) == z,
    decreases n,
{
    if n > 0 {
        let p = interleave(x / 2, y / 2, z / 2, (n - 1) as nat);
        lemma_compact_interleave(x / 2, y / 2, z / 2, (n - 1) as nat);
        lemma_digit_parts(x, y, z, p);
    }
}

/// Interleaving the gathered axes of a code below `8^n` gives the code back.
pub proof fn lemma_interleave_compact(e: nat, n: nat)
    requires
        e < pow8(n),
    ensures
        interleave(compact(e, n), compact(e / 2, n), compact(e / 4, n), n) == e,
    decreases n,
{
    if n > 0 {
        let q = e / 8;
        lemma_interleave_compact(q, (n - 1) as nat);
        lemma_digit_split(e);
    }
}

/// Decoding the code of a position gives the position back.
pub proof fn lemma_decode_encode(x: nat, y: nat, z: nat)
    requires
        x < pow2(AXIS_BITS as nat),
        y < pow2(AXIS_BITS as nat),
        z < pow2(AXIS_BITS as nat),
    ensures
        position_of(morton_of(x, y, z)) == (x, y, z),
{
    lemma_compact_interleave(x, y, z, AXIS_BITS as nat);
}

/// Encoding the position of a code gives the code back.
pub proof fn lemma_encode_decode(e: nat)
    requires
        e < pow8(AXIS_BITS as nat),
    ensures
        morton_of(position_of(e).0, position_of(e).1, position_of(e).2) == e,
{
    lemma_interleave_compact(e, AXIS_BITS as nat);
}

proof fn lemma_bit_times(m: nat, b: nat)
    requires
        b < 2,
    ensures
        m * b == if b == 1 {
            m
        } else {
            0
        },
{
    if b == 1 {
        assert(m * b == m) by (nonlinear_arith)
            requires
                b == 1,
        ;
    } else {
        assert(m * b == 0) by (nonlinear_arith)
            requires
                b == 0,
        ;
    }
}

pub proof fn lemma_pow2_add(a: nat, b: nat)
    ensures
        pow2(a + b) == pow2(a) * pow2(b),
    decreases b,
{
    if b == 0 {
        assert(pow2(0) == 1);
        assert(a + b == a);
        assert(pow2(a) * 1 == pow2(a));
    } else {
        lemma_pow2_add(a, (b - 1) as nat);
        assert((a + b - 1) as nat == a + (b - 1) as nat);
        assert(pow2(a + b) == 2 * pow2((a + b - 1) as nat));
        assert(pow2(a) * pow2(b) == pow2(a) * (2 * pow2((b - 1) as nat)));
        assert(pow2(a) * (2 * pow2((b - 1) as nat)) == 2 * (pow2(a) * pow2((b - 1) as nat)))
            by (nonlinear_arith);
    }
}

pub proof fn lemma_pow2_triple(d: nat)
    ensures
        pow2(3 * d) == pow8(d),
    decreases d,
{
    if d > 0 {
        lemma_pow2_triple((d - 1) as nat);
        assert(3 * d == (3 * (d - 1) + 3) as nat);
        lemma_pow2_add(3 * (d - 1) as nat, 3);
        reveal_with_fuel(pow2, 4);
    }
}

/// Dropping the `d` finest levels of a code gives the code of the axes with
/// their `d` lowest bits dropped.
pub proof fn lemma_interleave_coarse(x: nat, y: nat, z: nat, n: nat, d: nat)
    requires
        d <= n,
    ensures
        interleave(x, y, z, n) / pow8(d) == interleave(
            x / pow2(d),
            y / pow2(d),
            z / pow2(d),
            (n - d) as nat,
        ),
    decreases d,
{
    lemma_pow_positive(d);
    if d == 0 {
        assert(pow8(0) == 1 && pow2(0) == 1);
        assert(interleave(x, y, z, n) / 1 == interleave(x, y, z, n));
        assert(x / 1 == x && y / 1 == y && z / 1 == z);
    } else {
        let d1 = (d - 1) as nat;
        lemma_interleave_coarse(x, y, z, n, d1);
        lemma_pow_positive(d1);
        let i0 = interleave(x, y, z, n);
        vstd::arithmetic::div_mod::lemma_div_denominator(i0 as int, pow8(d1) as int, 8);
        vstd::arithmetic::div_mod::lemma_div_denominator(x as int, pow2(d1) as int, 2);
        vstd::arithmetic::div_mod::lemma_div_denominator(y as int, pow2(d1) as int, 2);
        vstd::arithmetic::div_mod::lemma_div_denominator(z as int, pow2(d1) as int, 2);
        assert(pow8(d) == pow8(d1) * 8);
        assert(pow2(d) == pow2(d1) * 2);
        let m = (n - d1) as nat;
        let xs = x / pow2(d1);
        let ys = y / pow2(d1);
        let zs = z / pow2(d1);
        let p = interleave(xs / 2, ys / 2, zs / 2, (m - 1) as nat);
        assert(interleave(xs, ys, zs, m) == 8 * p + (xs % 2 + 2 * (ys % 2) + 4 * (zs % 2)));
        lemma_digit_parts(xs, ys, zs, p);
        assert(i0 / pow8(d1) == interleave(xs, ys, zs, m));
        assert(i0 / pow8(d) == (i0 / pow8(d1)) / 8);
        assert(x / pow2(d) == xs / 2);
        assert(y / pow2(d) == ys / 2);
        assert(z / pow2(d) == zs / 2);
        assert((n - d) as nat == (m - 1) as nat);
    }
}

pub type MortonCode = u64;

/// Z-order codes of three-axis positions.
pub trait Morton: Sized {
    /// The number that the code is.
    spec fn code(&self) -> nat;

    /// The low bits of `a` spread out three apart.
    fn split_by_3(a: u32) -> (r: Self)
        ensures
            r.code() == spread(a as nat, AXIS_BITS as nat),
    ;

    /// The Z-order code of a position.
    fn encode(x: u32, y: u32, z: u32) -> (r: Self)
        ensures
            r.code() == morton_of(x as nat, y as nat, z as nat),
    ;

    /// Whether the lowest bit of the code is set.
    fn is_child(&self) -> (r: bool)
        ensures
            r == (self.code() % 2 == 1),
    ;

    /// Clears the lowest bit of the code.
    fn branch(&mut self)
        ensures
            final(self).code() == old(self).code() - old(self).code() % 2,
    ;
}

impl Morton for MortonCode {
    open spec fn code(&self) -> nat {
        *self as nat
    }

    fn split_by_3(a: u32) -> (r: u64) {
        let mut rest: u32 = a;
        let mut acc: u64 = 0;
        let mut mult: u64 = 1;
        let mut i: u32 = 0;
        proof {
            reveal_with_fuel(pow8, 22);
        }
        while i < AXIS_BITS
            invariant
                i <= AXIS_BITS,
                mult as nat == pow8(i as nat),
                acc < mult,
                pow8(AXIS_BITS as nat) == 0x8000_0000_0000_0000,
                spread(a as nat, AXIS_BITS as nat) == acc + mult * spread(
                    rest as nat,
                    (AXIS_BITS - i) as nat,
                ),
            decreases AXIS_BITS - i,
        {
            proof {
                lemma_pow8_mono((i + 1) as nat, AXIS_BITS as nat);
            }
            let ghost s = spread(rest as nat / 2, (AXIS_BITS - i - 1) as nat);
            let ghost b: nat = (rest % 2) as nat;
            assert(spread(rest as nat, (AXIS_BITS - i) as nat) == 8 * s + b);
            assert(mult * (8 * s + b) == (8 * mult) * s + mult * b) by (nonlinear_arith);
            if rest % 2 == 1 {
                assert(b == 1);
                assert(mult * b == mult) by (nonlinear_arith) requires b == 1;
                acc = acc + mult;
            } else {
                assert(b == 0);
                assert(mult * b == 0) by (nonlinear_arith) requires b == 0;
            }
            rest = rest / 2;
            mult = mult * 8;
            i = i + 1;
        }
        assert(spread(rest as nat, 0) == 0);
        assert(mult * spread(rest as nat, 0) == 0) by (nonlinear_arith)
            requires
                spread(rest as nat, 0) == 0,
        ;
        acc
    }

    fn encode(x: u32, y: u32, z: u32) -> (r: u64) {
        let sx = Self::split_by_3(x);
        let sy = Self::split_by_3(y);
        let sz = Self::split_by_3(z);
        proof {
            let n = AXIS_BITS as nat;
            reveal_with_fuel(pow2, 22);
            reveal_with_fuel(pow8, 22);
            lemma_interleave_spread(x as nat, y as nat, z as nat, n);
            lemma_interleave_lt(x as nat, y as nat, z as nat, n);
        }
        sx + 2 * sy + 4 * sz
    }

    fn is_child(&self) -> (r: bool) {
        *self % 2 == 1
    }

    fn branch(&mut self) {
        if self.is_child() {
            *self = *self - 1;
        }
    }
}

/// The position that a Z-order code stands for: bit `3 * b + i` of the code
/// is bit `b` of axis `i`.
pub fn decode(code: MortonCode) -> (r: (u32, u32, u32))
    ensures
        (r.0 as nat, r.1 as nat, r.2 as nat) == position_of(code as nat),
{
    let mut rest: u64 = code;
    let mut x: u32 = 0;
    let mut y: u32 = 0;
    let mut z: u32 = 0;
    let mut bit: u32 = 1;
    let mut i: u32 = 0;
    let ghost n = AXIS_BITS as nat;
    proof {
        reveal_with_fuel(pow2, 22);
    }
    while i < AXIS_BITS
        invariant
            i <= AXIS_BITS,
            n == AXIS_BITS as nat,
            bit as nat == pow2(i as nat),
            x < bit,
            y < bit,
            z < bit,
            pow2(AXIS_BITS as nat) == 0x20_0000,
            compact(code as nat, n) == x + bit * compact(rest as nat, (n - i) as nat),
            compact(code as nat / 2, n) == y + bit * compact(rest as nat / 2, (n - i) as nat),
            compact(code as nat / 4, n) == z + bit * compact(rest as nat / 4, (n - i) as nat),
        decreases AXIS_BITS - i,
    {
        proof {
            lemma_pow2_mono((i + 1) as nat, n);
        }
        let ghost k = (n - i - 1) as nat;
        let ghost r = rest as nat;
        let ghost q = r / 8;
        proof {
            lemma_digit_split(r);
        }
        assert(compact(r, (n - i) as nat) == 2 * compact(q, k) + r % 2);
        assert(compact(r / 2, (n - i) as nat) == 2 * compact(q / 2, k) + (r / 2) % 2);
        assert(compact(r / 4, (n - i) as nat) == 2 * compact(q / 4, k) + (r / 4) % 2);
        let ghost cx = compact(q, k);
        let ghost cy = compact(q / 2, k);
        let ghost cz = compact(q / 4, k);
        assert(bit * (2 * cx + r % 2) == (2 * bit) * cx + bit * (r % 2)) by (nonlinear_arith);
        assert(bit * (2 * cy + (r / 2) % 2) == (2 * bit) * cy + bit * ((r / 2) % 2))
            by (nonlinear_arith);
        assert(bit * (2 * cz + (r / 4) % 2) == (2 * bit) * cz + bit * ((r / 4) % 2))
            by (nonlinear_arith);
        proof {
            lemma_bit_times(bit as nat, r % 2);
            lemma_bit_times(bit as nat, (r / 2) % 2);
            lemma_bit_times(bit as nat, (r / 4) % 2);
        }
        if rest % 2 == 1 {
            x = x + bit;
        }
        if (rest / 2) % 2 == 1 {
            y = y + bit;
        }
        if (rest / 4) % 2 == 1 {
            z = z + bit;
        }
        rest = rest / 8;
        bit = bit * 2;
        i = i + 1;
    }
    proof {
        lemma_bit_times(bit as nat, 0);
    }
    assert(compact(rest as nat, 0) == 0);
    assert(compact(rest as nat / 2, 0) == 0);
    assert(compact(rest as nat / 4, 0) == 0);
    (x, y, z)
}

} // verus!
