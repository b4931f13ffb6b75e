//! Powers of two, by which all tables are sized so that a mask can stand for
//! a remainder.

use vstd::arithmetic::power2;
use vstd::prelude::*;

verus! {

/// Whether `n` is a power of two.
pub open spec fn is_pow2(n: int) -> bool {
    exists|k: nat| n == #[trigger] power2::pow2(k)
}

/// Twice a power of two is a power of two.
pub proof fn lemma_double_is_pow2(n: int)
    requires
        is_pow2(n),
    ensures
        is_pow2(2 * n),
        n > 0,
{
    let k = choose|k: nat| n == #[trigger] power2::pow2(k);
    power2::lemma_pow2_pos(k);
    power2::lemma_pow2_unfold(k + 1);
    assert(2 * n == power2::pow2(k + 1));
}

/// Half of a power of two above one is a power of two.
pub proof fn lemma_half_is_pow2(n: int)
    requires
        is_pow2(n),
        n > 1,
    ensures
        is_pow2(n / 2),
        n == 2 * (n / 2),
{
    let k = choose|k: nat| n == #[trigger] power2::pow2(k);
    if k == 0 {
        power2::lemma2_to64();
    } else {
        power2::lemma_pow2_unfold(k);
        assert(n / 2 == power2::pow2((k - 1) as nat));
    }
}

/// Of two powers of two, one is at most half of the other, or they are equal.
pub proof fn lemma_pow2_gap(m: int, n: int)
    requires
        is_pow2(m),
        is_pow2(n),
        m < n,
    ensures
        0 < 2 * m <= n,
{
    let j = choose|k: nat| m == #[trigger] power2::pow2(k);
    let k = choose|k: nat| n == #[trigger] power2::pow2(k);
    power2::lemma_pow2_pos(j);
    if k <= j {
        if k < j {
            power2::lemma_pow2_strictly_increases(k, j);
        }
    } else {
        power2::lemma_pow2_unfold(j + 1);
        if j + 1 < k {
            power2::lemma_pow2_strictly_increases(j + 1, k);
        }
    }
}

/// A product of powers of two is a power of two.
pub proof fn lemma_product_is_pow2(m: int, n: int)
    requires
        is_pow2(m),
        is_pow2(n),
    ensures
        is_pow2(m * n),
{
    let j = choose|k: nat| m == #[trigger] power2::pow2(k);
    let k = choose|k: nat| n == #[trigger] power2::pow2(k);
    power2::lemma_pow2_adds(j, k);
    assert(m * n == power2::pow2(j + k));
}

/// One is a power of two.
pub proof fn lemma_one_is_pow2()
    ensures
        is_pow2(1),
{
    power2::lemma2_to64();
    assert(1 == power2::pow2(0));
}

/// The least power of two that is at least `n`.
pub fn next_power_of_two(n: usize) -> (p: usize)
    requires
        n <= isize::MAX + 1,
    ensures
        is_pow2(p as int),
        n <= p,
        p == 1 || p < 2 * n,
        p <= isize::MAX + 1,
{
    let mut p: usize = 1;
    proof {
        lemma_one_is_pow2();
    }
    while p < n
        invariant
            is_pow2(p as int),
            n <= isize::MAX + 1,
            p == 1 || p < 2 * n,
            p >= 1,
        decreases 2 * n - p,
    {
        proof {
            lemma_double_is_pow2(p as int);
        }
        assert(p <= isize::MAX);
        p = p * 2;
    }
    proof {
        let top = isize::MAX + 1;
        power2::lemma2_to64();
        power2::lemma2_to64_rest();
        assert(top == power2::pow2(31) || top == power2::pow2(63));
        if p > top {
            lemma_pow2_gap(top, p as int);
        }
    }
    p
}

/// Whether `n` is the least power of two of buckets of `slots` slots that have
/// `capacity` slots together.
pub open spec fn is_bucket_count(n: int, capacity: int, slots: int) -> bool {
    &&& is_pow2(n)
    &&& capacity <= n * slots
    &&& n == 1 || n * slots < 2 * capacity
}

/// The number of buckets of `slots` slots for a table of `capacity` slots.
pub fn bucket_count(capacity: usize, slots: usize) -> (n: usize)
    requires
        slots > 0,
        capacity <= isize::MAX,
    ensures
        is_bucket_count(n as int, capacity as int, slots as int),
{
    let whole: usize = capacity / slots;
    let needed: usize = if capacity % slots == 0 {
        whole
    } else {
        whole + 1
    };
    let n: usize = next_power_of_two(needed);
    proof {
        let c = capacity as int;
        let s = slots as int;
        let q = needed as int;
        assert(c == s * (c / s) + c % s && 0 <= c % s < s) by (nonlinear_arith)
            requires
                s > 0,
        ;
        assert(c <= q * s) by (nonlinear_arith)
            requires
                c == s * (c / s) + c % s,
                0 <= c % s < s,
                q == if c % s == 0 {
                    c / s
                } else {
                    c / s + 1
                },
        ;
        assert(q >= 1 ==> (q - 1) * s < c) by (nonlinear_arith)
            requires
                c == s * (c / s) + c % s,
                0 <= c % s < s,
                q == if c % s == 0 {
                    c / s
                } else {
                    c / s + 1
                },
        ;
        assert(q * s <= n * s) by (nonlinear_arith)
            requires
                q <= n,
                s > 0,
        ;
        if n > 1 {
            lemma_half_is_pow2(n as int);
            assert(n <= 2 * (q - 1));
            assert(n * s <= 2 * ((q - 1) * s)) by (nonlinear_arith)
                requires
                    n <= 2 * (q - 1),
                    s > 0,
            ;
        }
    }
    n
}

/// With a power of two for modulus, a remainder is what the mask below the
/// modulus leaves.
pub proof fn lemma_mask_is_remainder(x: u64, n: usize)
    requires
        is_pow2(n as int),
    ensures
        n > 0,
        x & ((n - 1) as u64) == x as int % n as int,
        (x as usize) & ((n - 1) as usize) == x as int % n as int,
{
    let k = choose|k: nat| n == #[trigger] power2::pow2(k);
    power2::lemma_pow2_pos(k);
    if k >= 64 {
        power2::lemma2_to64();
        if k > 64 {
            power2::lemma_pow2_strictly_increases(64, k);
        }
        assert(false);
    }
    vstd::bits::lemma_u64_low_bits_mask_is_mod(x, k);
    let mask: usize = (n - 1) as usize;
    assert((x as usize) & mask == x & (mask as u64)) by (bit_vector);
}

/// With a power of two for modulus, reducing by the number of values of a word
/// first makes no difference.
pub proof fn lemma_wrapped_remainder(x: int, n: int, top: int)
    requires
        is_pow2(n),
        n <= top,
        top == 0x1_0000_0000 || top == 0x1_0000_0000_0000_0000,
    ensures
        (x % top) % n == x % n,
{
    let k = choose|k: nat| n == #[trigger] power2::pow2(k);
    let bits: nat = if top == 0x1_0000_0000 {
        32
    } else {
        64
    };
    power2::lemma2_to64();
    power2::lemma_pow2_pos(k);
    if k > bits {
        power2::lemma_pow2_strictly_increases(bits, k);
    }
    let rest = power2::pow2((bits - k) as nat) as int;
    power2::lemma_pow2_pos((bits - k) as nat);
    power2::lemma_pow2_adds(k, (bits - k) as nat);
    assert(n * rest == top);
    vstd::arithmetic::div_mod::lemma_mod_mod(x, n, rest);
}

/// The mask below a power of two: exclusive or with masked bits stays below.
pub proof fn lemma_xor_stays_below(i: usize, x: usize, n: usize)
    requires
        is_pow2(n as int),
        i < n,
    ensures
        i ^ (x & ((n - 1) as usize)) < n,
{
    lemma_mask_is_remainder(n as u64, n);
    let mask: usize = (n - 1) as usize;
    assert(n & mask == 0) by {
        vstd::arithmetic::div_mod::lemma_mod_self_0(n as int);
        assert((n as u64) & (mask as u64) == 0);
        assert((n as u64) & (mask as u64) == (n & mask) as u64) by (bit_vector);
    }
    assert(i ^ (x & mask) <= mask) by (bit_vector)
        requires
            i <= mask,
            mask == n - 1,
            n & mask == 0,
    ;
}

/// Shifting a bit down to the lowest place and masking it out with its own
/// place tell the same of it.
pub proof fn lemma_bit_in_place(mask: u32, bit: u32)
    requires
        bit < 32,
    ensures
        (mask >> bit) & 1 == 1 <==> mask & (1u32 << bit) != 0,
{
    assert((mask >> bit) & 1 == 1 <==> mask & (1u32 << bit) != 0) by (bit_vector)
        requires
            bit < 32,
    ;
}

/// An odd factor does not help a product to be a multiple of a power of two.
pub proof fn lemma_odd_factor(d: int, odd: int, n: int)
    requires
        is_pow2(n),
        odd % 2 == 1,
        (d * odd) % n == 0,
    ensures
        d % n == 0,
    decreases n,
{
    if n > 1 {
        let half = n / 2;
        lemma_half_is_pow2(n);
        let q = (d * odd) / n;
        assert(d * odd == n * q) by (nonlinear_arith)
            requires
                (d * odd) % n == 0,
                q == (d * odd) / n,
                n > 1,
        ;
        assert(d * odd == 2 * (half * q)) by (nonlinear_arith)
            requires
                d * odd == n * q,
                n == 2 * half,
        ;
        let r = odd / 2;
        assert(d * odd == 2 * (d * r) + d) by (nonlinear_arith)
            requires
                odd == 2 * r + 1,
        ;
        let e = d / 2;
        assert(d == 2 * e);
        assert(e * odd == half * q) by (nonlinear_arith)
            requires
                d == 2 * e,
                d * odd == 2 * (half * q),
        ;
        assert((half * q) % half == 0) by {
            vstd::arithmetic::div_mod::lemma_mod_multiples_basic(q, half);
            assert(half * q == q * half) by (nonlinear_arith);
        }
        lemma_odd_factor(e, odd, half);
        let f = e / half;
        assert(d == n * f) by (nonlinear_arith)
            requires
                e % half == 0,
                f == e / half,
                half > 0,
                d == 2 * e,
                n == 2 * half,
        ;
        vstd::arithmetic::div_mod::lemma_mod_multiples_basic(f, n);
        assert(n * f == f * n) by (nonlinear_arith);
    } else {
        lemma_double_is_pow2(n);
        assert(n == 1);
    }
}

} // verus!
