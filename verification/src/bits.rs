//! Power-of-two arithmetic: masks and rounding.

use vstd::prelude::*;
use vstd::arithmetic::div_mod::*;
use vstd::arithmetic::mul::*;
use vstd::arithmetic::power2::*;

verus! {

/// The least multiple of `to` that is not below `x`.
pub open spec fn up_to_multiple(x: int, to: int) -> int {
    (x + to - 1) / to * to
}

/// The greatest multiple of `to` that is not above `x`.
pub open spec fn down_to_multiple(x: int, to: int) -> int {
    x / to * to
}

/// Whether `x` is a power of two.
pub fn is_power_of_two(x: usize) -> (r: bool)
    ensures
        r == is_pow2(x as int),
{
    if x == 0 {
        proof {
            reveal(is_pow2);
        }
        return false;
    }
    let mut n: usize = x;
    while n % 2 == 0
        invariant
            n > 0,
            is_pow2(n as int) == is_pow2(x as int),
        decreases n,
    {
        proof {
            reveal(is_pow2);
        }
        n = n / 2;
    }
    proof {
        reveal(is_pow2);
    }
    n == 1
}

/// A power of two is two to some exponent.
pub proof fn lemma_pow2_exponent(m: int) -> (n: nat)
    requires
        is_pow2(m),
    ensures
        pow2(n) == m,
{
    is_pow2_equiv(m);
    let n = choose|i: nat| vstd::arithmetic::power::pow(2, i) == m;
    lemma_pow2_pos(n);
    reveal(is_pow2);
    n
}

/// The smaller of two powers of two divides the greater.
pub proof fn lemma_pow2_divides(a: int, b: int)
    requires
        is_pow2(a),
        is_pow2(b),
        a <= b,
    ensures
        0 < a,
        b % a == 0,
{
    let m = lemma_pow2_exponent(a);
    let n = lemma_pow2_exponent(b);
    lemma_pow2_pos(m);
    if n < m {
        lemma_pow2_strictly_increases(n, m);
    }
    let d = (n - m) as nat;
    lemma_pow2_adds(d, m);
    lemma_mod_multiples_basic(pow2(d) as int, a);
}

/// Multiples of a multiple are multiples, and so are sums.
pub proof fn lemma_multiples(x: int, y: int, a: int, b: int)
    requires
        0 < a,
        0 < b,
        b % a == 0,
        x % b == 0,
        y % a == 0,
    ensures
        x % a == 0,
        (x + y) % a == 0,
{
    lemma_fundamental_div_mod(x, b);
    lemma_fundamental_div_mod(b, a);
    let q = x / b;
    let p = b / a;
    assert(b * q == (p * q) * a) by (nonlinear_arith)
        requires
            b == a * p,
    ;
    lemma_mod_multiples_basic(p * q, a);
    lemma_add_mod_noop(x, y, a);
    lemma_small_mod(0, a as nat);
}

/// Masking with the predecessor of a power of two is the remainder by it.
pub proof fn lemma_mask_is_mod(x: usize, m: usize)
    requires
        is_pow2(m as int),
    ensures
        m > 0,
        x & ((m - 1) as usize) == x % m,
        x & !((m - 1) as usize) == x - x % m,
        x - x % m == down_to_multiple(x as int, m as int),
{
    let n = lemma_pow2_exponent(m as int);
    lemma_pow2_pos(n);
    lemma_exponent_below_bits(m, n);
    vstd::bits::lemma_usize_low_bits_mask_is_mod(x, n);
    let k = (m - 1) as usize;
    assert((x & k) + (x & !k) == x) by (bit_vector);
    lemma_fundamental_div_mod(x as int, m as int);
    lemma_mul_is_commutative(x as int / m as int, m as int);
}

/// Rounding up gives the least multiple that is not below.
pub proof fn lemma_up_to_multiple(x: int, to: int)
    requires
        0 < to,
    ensures
        up_to_multiple(x, to) % to == 0,
        x <= up_to_multiple(x, to) < x + to,
{
    let y = x + to - 1;
    lemma_fundamental_div_mod(y, to);
    lemma_mul_is_commutative(y / to, to);
    lemma_mod_multiples_basic(y / to, to);
    lemma_mod_bound(y, to);
}

/// Rounding down gives the greatest multiple that is not above.
pub proof fn lemma_down_to_multiple(x: int, to: int)
    requires
        0 < to,
    ensures
        down_to_multiple(x, to) % to == 0,
        down_to_multiple(x, to) <= x < down_to_multiple(x, to) + to,
        0 <= x ==> 0 <= down_to_multiple(x, to),
        x % to == 0 ==> down_to_multiple(x, to) == x,
{
    lemma_fundamental_div_mod(x, to);
    lemma_mul_is_commutative(x / to, to);
    lemma_mod_multiples_basic(x / to, to);
    lemma_mod_bound(x, to);
    if 0 <= x {
        lemma_div_pos_is_pos(x, to);
        lemma_mul_nonnegative(x / to, to);
    }
}

/// The same for a 64-bit word.
pub proof fn lemma_mask_is_mod_u64(x: u64, m: u64)
    requires
        is_pow2(m as int),
    ensures
        m > 0,
        x & ((m - 1) as u64) == x % m,
{
    let n = lemma_pow2_exponent(m as int);
    lemma_pow2_pos(n);
    if n >= 64 {
        lemma2_to64();
        if n > 64 {
            lemma_pow2_strictly_increases(64, n);
        }
    }
    vstd::bits::lemma_u64_low_bits_mask_is_mod(x, n);
}

proof fn lemma_exponent_below_bits(m: usize, n: nat)
    requires
        pow2(n) == m,
    ensures
        n < usize::BITS,
{
    if n >= usize::BITS {
        lemma2_to64();
        if n > usize::BITS {
            lemma_pow2_strictly_increases(usize::BITS as nat, n);
        }
    }
}

} // verus!
