//! Rounding addresses up to a power-of-two alignment.

use vstd::prelude::*;
use vstd::arithmetic::div_mod::{lemma_fundamental_div_mod, lemma_mod_multiples_basic};

verus! {

/// Whether `n` is a power of two.
pub open spec fn is_power_of_two(n: int) -> bool
    decreases n,
{
    if n <= 0 {
        false
    } else if n == 1 {
        true
    } else {
        n % 2 == 0 && is_power_of_two(n / 2)
    }
}

/// The smallest multiple of `align` at or above `addr`, as mathematical
/// integers.
pub open spec fn spec_align_up(addr: int, align: int) -> int
    recommends
        addr >= 0,
        align >= 1,
{
    if addr % align == 0 {
        addr
    } else {
        addr + (align - addr % align)
    }
}

/// A power of two is at least one.
pub proof fn lemma_power_of_two_pos(n: int)
    requires
        is_power_of_two(n),
    ensures
        n >= 1,
{
}

/// `spec_align_up(addr, align)` is a multiple of `align` and lies in
/// `[addr, addr + align)`.
pub proof fn lemma_align_up(addr: int, align: int)
    requires
        addr >= 0,
        align >= 1,
    ensures
        spec_align_up(addr, align) % align == 0,
        addr <= spec_align_up(addr, align),
        spec_align_up(addr, align) < addr + align,
{
    let r = addr % align;
    if r != 0 {
        let q = addr / align;
        lemma_fundamental_div_mod(addr, align);
        assert(addr == align * q + r);
        assert(addr + (align - r) == (q + 1) * align) by (nonlinear_arith)
            requires
                addr == align * q + r,
        ;
        lemma_mod_multiples_basic(q + 1, align);
    }
}

/// A smaller power of two divides a larger one.
pub proof fn lemma_power_of_two_divides(a: int, b: int)
    requires
        is_power_of_two(a),
        is_power_of_two(b),
        a <= b,
    ensures
        b % a == 0,
    decreases b,
{
    if a == 1 {
        assert(b % 1 == 0);
    } else {
        assert(a % 2 == 0 && is_power_of_two(a / 2));
        assert(b != 1);
        assert(b % 2 == 0 && is_power_of_two(b / 2));
        lemma_power_of_two_divides(a / 2, b / 2);
        let k = (b / 2) / (a / 2);
        lemma_fundamental_div_mod(b / 2, a / 2);
        assert(b / 2 == (a / 2) * k + (b / 2) % (a / 2));
        assert(b == a * k) by (nonlinear_arith)
            requires
                a % 2 == 0,
                b % 2 == 0,
                b / 2 == (a / 2) * k,
                a >= 2,
                b >= 2,
        ;
        lemma_mod_multiples_basic(k, a);
        assert(b % a == (k * a) % a);
    }
}

/// A multiple of `b` is a multiple of any divisor `a` of `b`.
pub proof fn lemma_multiple_of_divisor(x: int, a: int, b: int)
    requires
        a >= 1,
        b >= 1,
        x % b == 0,
        b % a == 0,
    ensures
        x % a == 0,
{
    let k = x / b;
    let j = b / a;
    lemma_fundamental_div_mod(x, b);
    lemma_fundamental_div_mod(b, a);
    assert(x == b * k);
    assert(b == a * j);
    assert(x == (j * k) * a) by (nonlinear_arith)
        requires
            x == b * k,
            b == a * j,
    ;
    lemma_mod_multiples_basic(j * k, a);
}

/// The sum of two multiples of `m` is a multiple of `m`.
pub proof fn lemma_mod_add_zero(x: int, y: int, m: int)
    requires
        m >= 1,
        x % m == 0,
        y % m == 0,
    ensures
        (x + y) % m == 0,
{
    let qx = x / m;
    let qy = y / m;
    lemma_fundamental_div_mod(x, m);
    lemma_fundamental_div_mod(y, m);
    assert(x + y == (qx + qy) * m) by (nonlinear_arith)
        requires
            x == m * qx,
            y == m * qy,
    ;
    lemma_mod_multiples_basic(qx + qy, m);
}

/// Rounds `addr` up to the next multiple of `align`.
///
/// `align` must be a power of two (every caller's contract); the rounded
/// address must still fit in a `usize`.
pub fn align_up(addr: usize, align: usize) -> (r: usize)
    requires
        is_power_of_two(align as int),
        spec_align_up(addr as int, align as int) <= usize::MAX,
    ensures
        r as int == spec_align_up(addr as int, align as int),
{
    proof {
        lemma_power_of_two_pos(align as int);
    }
    let rem: usize = addr % align;
    if rem == 0 {
        addr
    } else {
        addr + (align - rem)
    }
}

} // verus!
