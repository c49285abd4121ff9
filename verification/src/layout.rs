//! Alignment arithmetic and the rounding applied to every request.

use vstd::prelude::*;
use vstd::arithmetic::div_mod::{lemma_fundamental_div_mod, lemma_mod_multiples_basic};

verus! {

/// Bytes that the header of a free block occupies.
pub const HEADER_SIZE: usize = 16;

/// Alignment that the header of a free block needs.
pub const HEADER_ALIGN: usize = 8;

/// Whether `align` has exactly one bit set.
pub open spec fn is_power_of_two(align: usize) -> bool {
    align != 0 && align & ((align - 1) as usize) == 0
}

/// The least multiple of `align` that is not below `addr`.
pub open spec fn align_up_spec(addr: int, align: int) -> int {
    if addr % align == 0 {
        addr
    } else {
        addr + (align - addr % align)
    }
}

/// The size and alignment that a request is served with: the alignment is
/// raised to that of a header, the size to that of a header and then to a
/// multiple of the alignment. `None` where the alignment is no power of two
/// or the padded size is not a `usize`.
pub open spec fn normalize(size: usize, align: usize) -> Option<(usize, usize)> {
    if !is_power_of_two(align) {
        None
    } else {
        let a = if align < HEADER_ALIGN { HEADER_ALIGN } else { align };
        let s = if size < HEADER_SIZE { HEADER_SIZE } else { size };
        let n = align_up_spec(s as int, a as int);
        if n <= usize::MAX {
            Some((n as usize, a))
        } else {
            None
        }
    }
}

/// `align_up_spec` yields a multiple of `align` in `[addr, addr + align)`.
pub proof fn lemma_align_up(addr: int, align: int)
    requires
        0 <= addr,
        0 < align,
    ensures
        align_up_spec(addr, align) % align == 0,
        addr <= align_up_spec(addr, align) < addr + align,
        addr % align == 0 ==> align_up_spec(addr, align) == addr,
{
    let q = addr / align;
    let r = addr % align;
    lemma_fundamental_div_mod(addr, align);
    if r != 0 {
        assert(addr + (align - r) == (q + 1) * align) by (nonlinear_arith)
            requires
                addr == align * q + r,
        ;
        lemma_mod_multiples_basic(q + 1, align);
    }
}

/// No multiple of `align` lies between `addr` and `align_up_spec(addr, align)`.
pub proof fn lemma_align_up_least(addr: int, align: int, m: int)
    requires
        0 <= addr,
        0 < align,
        addr <= m,
        m % align == 0,
    ensures
        align_up_spec(addr, align) <= m,
{
    lemma_align_up(addr, align);
    let up = align_up_spec(addr, align);
    if m < up {
        lemma_fundamental_div_mod(m, align);
        lemma_fundamental_div_mod(up, align);
        let a = m / align;
        let b = up / align;
        assert(false) by (nonlinear_arith)
            requires
                m == align * a,
                up == align * b,
                m < up,
                up < m + align,
                0 < align,
        ;
    }
}

/// Divisibility is transitive.
pub proof fn lemma_multiple_of_multiple(x: int, a: int, b: int)
    requires
        0 < a,
        0 < b,
        x % a == 0,
        a % b == 0,
    ensures
        x % b == 0,
{
    lemma_fundamental_div_mod(x, a);
    lemma_fundamental_div_mod(a, b);
    let k = x / a;
    let j = a / b;
    assert(x == (j * k) * b) by (nonlinear_arith)
        requires
            x == a * k,
            a == b * j,
    ;
    lemma_mod_multiples_basic(j * k, b);
}

/// A power of two below eight divides eight; one from eight on is a multiple of it.
pub proof fn lemma_power_of_two_and_header(align: usize)
    requires
        is_power_of_two(align),
    ensures
        align < HEADER_ALIGN ==> align == 1 || align == 2 || align == 4,
        align >= HEADER_ALIGN ==> align % HEADER_ALIGN == 0,
{
    assert(align != 0 && align & ((align - 1) as usize) == 0 ==> (align < 8 ==> align == 1
        || align == 2 || align == 4) && (align >= 8 ==> align % 8 == 0)) by (bit_vector);
}

/// What a normalised request is known to satisfy.
pub proof fn lemma_normalize(size: usize, align: usize)
    requires
        normalize(size, align) is Some,
    ensures
        ({
            let (n, a) = normalize(size, align).unwrap();
            &&& is_power_of_two(align)
            &&& a >= HEADER_ALIGN
            &&& a >= align
            &&& a % HEADER_ALIGN == 0
            &&& a % align == 0
            &&& n >= HEADER_SIZE
            &&& n >= size
            &&& n % a == 0
            &&& n % HEADER_ALIGN == 0
        }),
{
    let (n, a) = normalize(size, align).unwrap();
    lemma_power_of_two_and_header(align);
    let s = if size < HEADER_SIZE { HEADER_SIZE } else { size };
    lemma_align_up(s as int, a as int);
    lemma_multiple_of_multiple(n as int, a as int, HEADER_ALIGN as int);
    if align == 1 {
        assert(a % align == 0);
    } else if align == 2 {
        assert(a % align == 0);
    } else if align == 4 {
        assert(a % align == 0);
    } else {
        assert(a % a == 0) by (nonlinear_arith)
            requires
                a > 0,
        ;
    }
}

/// Rounds `addr` up to the next multiple of `align`; `None` where that
/// multiple is not a `usize`.
pub fn align_up(addr: usize, align: usize) -> (r: Option<usize>)
    requires
        align > 0,
    ensures
        r == (if align_up_spec(addr as int, align as int) <= usize::MAX {
            Some(align_up_spec(addr as int, align as int) as usize)
        } else {
            None
        }),
{
    let rem: usize = addr % align;
    if rem == 0 {
        Some(addr)
    } else {
        addr.checked_add(align - rem)
    }
}

} // verus!
