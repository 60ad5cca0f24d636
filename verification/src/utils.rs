//! Alignment arithmetic shared by the allocators.

use vstd::arithmetic::div_mod::{
    lemma_fundamental_div_mod,
    lemma_mod_multiples_basic,
    lemma_mod_multiples_vanish,
    lemma_small_mod,
};
use vstd::arithmetic::power2::{
    is_pow2,
    is_pow2_equiv,
    lemma2_to64,
    lemma_pow2_pos,
    lemma_pow2_strictly_increases,
    lemma_pow2_unfold,
    pow2,
};
use vstd::bits::{lemma_usize_low_bits_mask_is_mod, low_bits_mask};
use vstd::prelude::*;

verus! {

/// Whether `addr` is a multiple of `align`.
pub open spec fn is_aligned(addr: int, align: int) -> bool {
    addr % align == 0
}

/// The smallest multiple of `align` that is at least `addr`.
pub open spec fn align_up(addr: int, align: int) -> int {
    addr + (align - addr % align) % align
}

/// The distance from `ptr` to the first multiple of `align` that leaves at
/// least `header_size` bytes between `ptr` and itself.
pub open spec fn padding_with_header(ptr: int, align: int, header_size: int) -> int {
    align_up(ptr + header_size, align) - ptr
}

/// `align_up` is a multiple of `align`, lies less than `align` above `addr`,
/// and no multiple of `align` lies between the two.
pub proof fn lemma_align_up(addr: int, align: int)
    requires
        align > 0,
    ensures
        align_up(addr, align) % align == 0,
        addr <= align_up(addr, align) < addr + align,
        forall|m: int| #[trigger] is_aligned(m, align) && addr <= m ==> align_up(addr, align) <= m,
{
    let r = align_up(addr, align);
    let q = addr / align;
    let m = addr % align;
    lemma_fundamental_div_mod(addr, align);
    if m == 0 {
        assert((align - m) % align == 0) by {
            lemma_mod_multiples_basic(1, align);
        }
    } else {
        lemma_small_mod((align - m) as nat, align as nat);
        assert(r == (q + 1) * align) by (nonlinear_arith)
            requires
                r == addr + align - m,
                addr == align * q + m,
        ;
        lemma_mod_multiples_basic(q + 1, align);
    }
    assert forall|k: int| #[trigger] is_aligned(k, align) && addr <= k implies r <= k by {
        if k < r {
            lemma_multiples_apart(k, r, align);
        }
    }
}

/// Two multiples of `align` differ by at least `align` or not at all.
pub proof fn lemma_multiples_apart(a: int, b: int, align: int)
    requires
        align > 0,
        a % align == 0,
        b % align == 0,
        a < b,
    ensures
        a + align <= b,
{
    lemma_fundamental_div_mod(a, align);
    lemma_fundamental_div_mod(b, align);
    let qa = a / align;
    let qb = b / align;
    assert(qa < qb) by (nonlinear_arith)
        requires
            align > 0,
            a == align * qa,
            b == align * qb,
            a < b,
    ;
    assert(a + align <= b) by (nonlinear_arith)
        requires
            align > 0,
            a == align * qa,
            b == align * qb,
            qa + 1 <= qb,
    ;
}

/// A multiple of `c` is a multiple of every divisor of `c`.
pub proof fn lemma_multiple_of_multiple(x: int, c: int, d: int)
    requires
        c > 0,
        d > 0,
        x % c == 0,
        c % d == 0,
    ensures
        x % d == 0,
{
    lemma_fundamental_div_mod(x, c);
    lemma_fundamental_div_mod(c, d);
    let q = x / c;
    let k = c / d;
    assert(x == (q * k) * d) by (nonlinear_arith)
        requires
            x == c * q,
            c == d * k,
    ;
    lemma_mod_multiples_basic(q * k, d);
}

/// A multiple of `align` in `[addr, addr + align)` is `align_up(addr, align)`.
pub proof fn lemma_align_up_unique(addr: int, align: int, m: int)
    requires
        align > 0,
        m % align == 0,
        addr <= m < addr + align,
    ensures
        m == align_up(addr, align),
{
    lemma_align_up(addr, align);
    let r = align_up(addr, align);
    assert(is_aligned(m, align));
    if r < m {
        lemma_multiples_apart(r, m, align);
    }
}

/// The padding puts the payload on a multiple of `align`, leaves room for the
/// header, and is the least padding that does both.
pub proof fn lemma_padding_with_header(ptr: int, align: int, header_size: int)
    requires
        align > 0,
    ensures
        (ptr + padding_with_header(ptr, align, header_size)) % align == 0,
        header_size <= padding_with_header(ptr, align, header_size) < header_size + align,
        forall|p: int| #[trigger]
            is_aligned(ptr + p, align) && header_size <= p ==> padding_with_header(
                ptr,
                align,
                header_size,
            ) <= p,
{
    lemma_align_up(ptr + header_size, align);
    let r = align_up(ptr + header_size, align);
    assert forall|p: int| #[trigger]
        is_aligned(ptr + p, align) && header_size <= p implies r - ptr <= p by {
        assert(ptr + header_size <= ptr + p);
    }
}

/// A power of two that fits in `usize` is at most half of `usize::MAX + 1`.
pub proof fn lemma_pow2_upper(a: usize)
    requires
        is_pow2(a as int),
    ensures
        0 < a,
        2 * a - 1 <= usize::MAX,
{
    let e = lemma_pow2_exponent(a);
    lemma2_to64();
    if e + 1 < usize::BITS {
        lemma_pow2_strictly_increases(e + 1, usize::BITS as nat);
    }
    lemma_pow2_unfold(e + 1);
}

/// Where `addr + align - 1` does not fit in `usize`, neither does the next
/// multiple of `align` at or behind `addr`.
pub proof fn lemma_align_up_overflow(addr: usize, align: usize)
    requires
        is_pow2(align as int),
        addr + align - 1 > usize::MAX,
    ensures
        align_up(addr as int, align as int) > usize::MAX,
{
    let e = lemma_pow2_exponent(align);
    let rest = (usize::BITS - e) as nat;
    lemma2_to64();
    vstd::arithmetic::power2::lemma_pow2_adds(e, rest);
    let limit = usize::MAX + 1;
    assert(limit == pow2(rest) * align) by (nonlinear_arith)
        requires
            limit == pow2(e) * pow2(rest),
            pow2(e) == align,
    ;
    lemma_mod_multiples_basic(pow2(rest) as int, align as int);
    lemma_align_up(addr as int, align as int);
    let r = align_up(addr as int, align as int);
    if r < limit {
        lemma_multiples_apart(r, limit, align as int);
    }
}

/// The exponent of a power of two that fits in `usize`.
proof fn lemma_pow2_exponent(a: usize) -> (e: nat)
    requires
        is_pow2(a as int),
    ensures
        e < usize::BITS,
        pow2(e) == a,
        0 < a,
{
    is_pow2_equiv(a as int);
    let e = choose|i: nat| vstd::arithmetic::power::pow(2, i) == a as int;
    lemma2_to64();
    if e >= usize::BITS {
        if e > usize::BITS {
            lemma_pow2_strictly_increases(usize::BITS as nat, e);
        }
        assert(false);
    }
    lemma_pow2_pos(e);
    e
}

/// For a power of two `a`, masking with `a - 1` is the remainder modulo `a`.
pub proof fn lemma_mask_is_mod(x: usize, a: usize)
    requires
        is_pow2(a as int),
    ensures
        a > 0,
        x & ((a - 1) as usize) == x % a,
{
    let e = lemma_pow2_exponent(a);
    lemma_usize_low_bits_mask_is_mod(x, e);
    assert(low_bits_mask(e) == a - 1);
}

/// Clearing the lowest set bit of `x` leaves nothing exactly when `x` is
/// even and clearing the lowest set bit of its half leaves nothing.
proof fn lemma_clear_lowest_bit_step(x: usize)
    by (bit_vector)
    requires
        x > 1,
    ensures
        (x & ((x - 1) as usize) == 0) == (x % 2 == 0 && (x / 2) & (((x / 2) - 1) as usize) == 0),
{
}

/// A power of two is a multiple of every power of two that is no greater.
pub proof fn lemma_pow2_divides(small: usize, large: usize)
    requires
        is_pow2(small as int),
        is_pow2(large as int),
        small <= large,
    ensures
        large % small == 0,
{
    let a = lemma_pow2_exponent(small);
    let b = lemma_pow2_exponent(large);
    if b < a {
        lemma_pow2_strictly_increases(b, a);
    }
    let rest = (b - a) as nat;
    vstd::arithmetic::power2::lemma_pow2_adds(a, rest);
    assert(large == pow2(rest) * small) by (nonlinear_arith)
        requires
            large == pow2(a) * pow2(rest),
            pow2(a) == small,
    ;
    lemma_mod_multiples_basic(pow2(rest) as int, small as int);
}

/// A power of two below eight is one, two or four.
pub proof fn lemma_small_pow2(a: usize)
    requires
        is_pow2(a as int),
        a < 8,
    ensures
        a == 1 || a == 2 || a == 4,
{
    reveal_with_fuel(is_pow2, 4);
}

/// Eight is a power of two.
pub proof fn lemma_eight_is_pow2()
    ensures
        is_pow2(8),
{
    reveal_with_fuel(is_pow2, 5);
}

/// Clearing the lowest set bit of a positive `x` leaves nothing exactly when
/// `x` is a power of two.
pub proof fn lemma_single_bit_is_pow2(x: usize)
    requires
        x > 0,
    ensures
        (x & ((x - 1) as usize) == 0) <==> is_pow2(x as int),
    decreases x,
{
    reveal(is_pow2);
    if x == 1 {
        assert(1usize & 0usize == 0) by (bit_vector);
    } else {
        lemma_clear_lowest_bit_step(x);
        lemma_single_bit_is_pow2(x / 2);
    }
}

/// Whether `x`, which is not zero, is a power of two.
pub fn is_power_of_two(x: usize) -> (r: bool)
    requires
        x > 0,
    ensures
        r == is_pow2(x as int),
{
    proof {
        lemma_single_bit_is_pow2(x);
    }
    (x & (x - 1)) == 0
}

/// Moves `addr` forward to the next multiple of `alignment`, a power of
/// two. That multiple has to fit in `usize`.
pub fn align_forward(addr: usize, alignment: usize) -> (r: usize)
    requires
        is_pow2(alignment as int),
        align_up(addr as int, alignment as int) <= usize::MAX,
    ensures
        r == align_up(addr as int, alignment as int),
        r % alignment == 0,
        addr <= r < addr + alignment,
        forall|m: int| #[trigger] is_aligned(m, alignment as int) && addr <= m ==> r <= m,
{
    proof {
        lemma_mask_is_mod(addr, alignment);
        lemma_align_up(addr as int, alignment as int);
    }
    let modulo = addr & (alignment - 1);
    let mut addr = addr;
    if modulo != 0 {
        proof {
            lemma_small_mod((alignment - modulo) as nat, alignment as nat);
        }
        addr += alignment - modulo;
    } else {
        proof {
            lemma_mod_multiples_basic(1, alignment as int);
        }
    }
    addr
}

/// The padding that must follow `ptr` so that the payload is aligned to
/// `alignment`, a power of two, and a header of `header_size` bytes fits
/// in front of it: the least that does both. It has to fit in `usize`.
pub fn calc_padding_with_header(ptr: usize, alignment: usize, header_size: usize) -> (r: usize)
    requires
        is_pow2(alignment as int),
        padding_with_header(ptr as int, alignment as int, header_size as int) <= usize::MAX,
    ensures
        r == padding_with_header(ptr as int, alignment as int, header_size as int),
        (ptr + r) % (alignment as int) == 0,
        header_size <= r < header_size + alignment,
        forall|p: int| #[trigger]
            is_aligned(ptr + p, alignment as int) && header_size <= p ==> r <= p,
{
    let ghost a = alignment as int;
    let ghost goal = padding_with_header(ptr as int, a, header_size as int);
    proof {
        lemma_mask_is_mod(ptr, alignment);
        lemma_padding_with_header(ptr as int, a, header_size as int);
        lemma_align_up(ptr as int, a);
    }
    let modulo = ptr & (alignment - 1);
    let mut padding: usize = 0;
    if modulo != 0 {
        padding = alignment - modulo;
        proof {
            lemma_small_mod((alignment - modulo) as nat, alignment as nat);
        }
    } else {
        proof {
            lemma_mod_multiples_basic(1, a);
        }
    }
    assert(ptr + padding == align_up(ptr as int, a));
    if padding < header_size {
        let diff = header_size - padding;
        proof {
            lemma_mask_is_mod(diff, alignment);
            lemma_fundamental_div_mod(diff as int, a);
        }
        if (diff & (alignment - 1)) != 0 {
            let ghost q = diff as int / a;
            let ghost target = padding + a * (1 + q);
            proof {
                assert(target - header_size == a - diff as int % a) by (nonlinear_arith)
                    requires
                        target == padding + a * (1 + q),
                        diff == a * q + diff as int % a,
                        diff == header_size - padding,
                ;
                assert((ptr + target) % a == 0) by {
                    lemma_mod_multiples_vanish(1 + q, ptr + padding, a);
                }
                lemma_align_up_unique(ptr + header_size, a, ptr + target);
                assert(target == goal);
                assert(0 <= q && a * (1 + q) <= target) by (nonlinear_arith)
                    requires
                        a > 0,
                        diff >= 0,
                        q == diff as int / a,
                        target == padding + a * (1 + q),
                        padding >= 0,
                ;
                assert(1 + diff / alignment == 1 + q);
            }
            padding += alignment * (1 + diff / alignment);
        } else {
            proof {
                let q = diff as int / a;
                assert((ptr + header_size) % a == 0) by {
                    assert(ptr + header_size == a * q + (ptr + padding));
                    lemma_mod_multiples_vanish(q, ptr + padding, a);
                }
                lemma_align_up_unique(ptr + header_size, a, ptr + header_size);
            }
            padding = header_size;
        }
    } else {
        proof {
            lemma_align_up_unique(ptr + header_size, a, ptr + padding);
        }
    }
    padding
}

} // verus!
