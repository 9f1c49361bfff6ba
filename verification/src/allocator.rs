//! Heap allocators and the alignment arithmetic they share.

use vstd::prelude::*;
use vstd::arithmetic::power2::is_pow2;

pub mod bump;
pub mod linked_list;

verus! {

/// Whether `addr` is a multiple of `align`.
pub open spec fn is_aligned(addr: int, align: int) -> bool
    recommends
        align > 0,
{
    addr % align == 0
}

/// The least multiple of `align` that is not below `addr`.
pub open spec fn align_up_spec(addr: int, align: int) -> int
    recommends
        align > 0,
{
    if addr % align == 0 {
        addr
    } else {
        addr + (align - addr % align)
    }
}

/// `align_up_spec` is a multiple of `align`, lies less than `align` above
/// `addr`, and no smaller multiple of `align` reaches `addr`.
pub proof fn lemma_align_up_is_least_multiple(addr: int, align: int)
    requires
        addr >= 0,
        align > 0,
    ensures
        is_aligned(align_up_spec(addr, align), align),
        addr <= align_up_spec(addr, align) < addr + align,
        forall|m: int| addr <= m && #[trigger] is_aligned(m, align) ==> align_up_spec(addr, align) <= m,
{
    let r = align_up_spec(addr, align);
    let q = addr / align;
    assert(addr == align * q + addr % align) by {
        vstd::arithmetic::div_mod::lemma_fundamental_div_mod(addr, align);
    }
    assert(0 <= addr % align < align) by {
        vstd::arithmetic::div_mod::lemma_mod_bound(addr, align);
    }
    if addr % align != 0 {
        assert(r == align * (q + 1)) by (nonlinear_arith)
            requires
                r == addr + (align - addr % align),
                addr == align * q + addr % align,
        ;
        assert(r % align == 0) by {
            vstd::arithmetic::div_mod::lemma_mod_multiples_basic(q + 1, align);
            assert(align * (q + 1) == (q + 1) * align) by (nonlinear_arith);
        }
    }
    assert forall|m: int| addr <= m && #[trigger] is_aligned(m, align) implies r <= m by {
        if m < r {
            // addr <= m < r, so m - addr < align - addr % align and m is no multiple
            let k = m / align;
            assert(m == align * k + m % align) by {
                vstd::arithmetic::div_mod::lemma_fundamental_div_mod(m, align);
            }
            assert(false) by (nonlinear_arith)
                requires
                    m == align * k,
                    addr == align * q + addr % align,
                    0 < addr % align < align,
                    addr <= m,
                    m < addr + (align - addr % align),
                    align > 0,
            ;
        }
    }
}

/// Whatever is a multiple of `b` is a multiple of every divisor `a` of `b`.
pub proof fn lemma_aligned_to_divisor(x: int, a: int, b: int)
    requires
        a > 0,
        b > 0,
        is_aligned(b, a),
        is_aligned(x, b),
    ensures
        is_aligned(x, a),
{
    vstd::arithmetic::div_mod::lemma_fundamental_div_mod(x, b);
    vstd::arithmetic::div_mod::lemma_fundamental_div_mod(b, a);
    let k = x / b;
    let j = b / a;
    assert(x == (j * k) * a) by (nonlinear_arith)
        requires
            x == b * k,
            b == a * j,
    ;
    vstd::arithmetic::div_mod::lemma_mod_multiples_basic(j * k, a);
}

/// The sum of two multiples of `a` is a multiple of `a`.
pub proof fn lemma_aligned_sum(x: int, y: int, a: int)
    requires
        a > 0,
        is_aligned(x, a),
        is_aligned(y, a),
    ensures
        is_aligned(x + y, a),
{
    vstd::arithmetic::div_mod::lemma_fundamental_div_mod(x, a);
    vstd::arithmetic::div_mod::lemma_fundamental_div_mod(y, a);
    let k = x / a;
    let j = y / a;
    assert(x + y == (k + j) * a) by (nonlinear_arith)
        requires
            x == a * k,
            y == a * j,
    ;
    vstd::arithmetic::div_mod::lemma_mod_multiples_basic(k + j, a);
}

/// Whether `n` is a power of two.
pub fn is_power_of_two(n: usize) -> (r: bool)
    ensures
        r == is_pow2(n as int),
{
    proof {
        reveal_with_fuel(is_pow2, 2);
    }
    if n == 0 {
        return false;
    }
    let mut m: usize = n;
    while m % 2 == 0
        invariant
            m > 0,
            is_pow2(m as int) == is_pow2(n as int),
        decreases m,
    {
        proof {
            reveal_with_fuel(is_pow2, 2);
        }
        m = m / 2;
    }
    m == 1
}

/// Rounds `addr` up to the next multiple of `align`, or reports that the
/// rounded address does not fit in the machine word.
pub fn align_up(addr: usize, align: usize) -> (r: Option<usize>)
    requires
        align > 0,
    ensures
        match r {
            Some(a) => a == align_up_spec(addr as int, align as int),
            None => align_up_spec(addr as int, align as int) > usize::MAX,
        },
{
    let rem: usize = addr % align;
    if rem == 0 {
        Some(addr)
    } else {
        addr.checked_add(align - rem)
    }
}

} // verus!
