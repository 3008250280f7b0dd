//! The layout of block-aligned buffers.
use vstd::arithmetic::power2::*;
use vstd::prelude::*;

verus! {

/// The number is a power of two.
pub open spec fn is_power_of_two(n: int) -> bool {
    exists|k: nat| #[trigger] pow2(k) == n
}

/// The smallest power of two that is no smaller than `x`.
pub fn next_power_of_two(x: usize) -> (r: usize)
    requires
        x <= usize::MAX / 2,
    ensures
        is_power_of_two(r as int),
        r >= x,
        r >= 1,
        x <= 1 ==> r == 1,
        x > 1 ==> r < 2 * x,
{
    let mut p: usize = 1;
    let ghost mut k: nat = 0;
    proof {
        lemma2_to64();
    }
    while p < x
        invariant
            x <= usize::MAX / 2,
            p >= 1,
            p == pow2(k),
            x > 1 ==> p < 2 * x,
            x <= 1 ==> p == 1,
        decreases 2 * x - p,
    {
        proof {
            lemma_pow2_unfold(k + 1);
            k = k + 1;
        }
        p = p * 2;
    }
    p
}

/// A power of two that is no smaller than `x` and less than twice as large is the
/// only one.
pub proof fn power_of_two_above_is_unique(x: int, a: nat, b: nat)
    requires
        x >= 1,
        x <= pow2(a) < 2 * x,
        x <= pow2(b) < 2 * x,
    ensures
        a == b,
{
    if a < b {
        lemma_pow2_strictly_increases(a, b);
        lemma_pow2_unfold(b);
        if a < b - 1 {
            lemma_pow2_strictly_increases(a, (b - 1) as nat);
        }
    } else if b < a {
        lemma_pow2_strictly_increases(b, a);
        lemma_pow2_unfold(a);
        if b < a - 1 {
            lemma_pow2_strictly_increases(b, (a - 1) as nat);
        }
    }
}

/// The address is a multiple of the alignment; zero alone is a multiple of zero.
pub open spec fn aligned_to(address: int, align: int) -> bool {
    if align == 0 {
        address == 0
    } else {
        address % align == 0
    }
}

/// Whether an address is a multiple of an alignment.
pub fn is_aligned(address: usize, align: usize) -> (r: bool)
    ensures
        r == aligned_to(address as int, align as int),
{
    if align == 0 {
        address == 0
    } else {
        address % align == 0
    }
}

/// The smallest power of two that is at least 64 and at least `align`.
pub open spec fn is_buffer_alignment(used: int, align: int) -> bool {
    &&& is_power_of_two(used)
    &&& used >= 64
    &&& used >= align
    &&& align > 64 ==> used < 2 * align
    &&& align <= 64 ==> used == 64
}

/// A buffer asked for with an alignment has one alignment to be allocated with.
pub proof fn buffer_alignment_is_unique(a: int, b: int, align: int)
    requires
        is_buffer_alignment(a, align),
        is_buffer_alignment(b, align),
    ensures
        a == b,
{
    if align > 64 {
        let j = choose|k: nat| #[trigger] pow2(k) == a;
        let k = choose|k: nat| #[trigger] pow2(k) == b;
        power_of_two_above_is_unique(align, j, k);
    }
}

/// A buffer at an address as its layout has it is aligned to the layout's
/// alignment, and to whatever power of two up to it: to the one asked for, where
/// a power of two was asked for.
pub proof fn buffer_is_aligned(address: int, align: int, used: int)
    requires
        is_buffer_alignment(used, align),
        address % used == 0,
    ensures
        aligned_to(address, used),
        is_power_of_two(align) ==> aligned_to(address, align),
        forall|n: int|
            #[trigger] is_power_of_two(n) && n <= used ==> #[trigger] aligned_to(address, n),
{
    assert forall|n: int| #[trigger] is_power_of_two(n) && n <= used implies #[trigger] aligned_to(
        address,
        n,
    ) by {
        multiple_of_smaller_power(address, n, used);
    }
    if is_power_of_two(align) {
        assert(aligned_to(address, align));
    }
}

proof fn multiple_of_smaller_power(address: int, asked: int, used: int)
    requires
        is_power_of_two(asked),
        is_power_of_two(used),
        used >= asked,
        address % used == 0,
    ensures
        aligned_to(address, asked),
{
    let a = choose|k: nat| #[trigger] pow2(k) == asked;
    let u = choose|k: nat| #[trigger] pow2(k) == used;
    if u < a {
        lemma_pow2_strictly_increases(u, a);
    }
    lemma_pow2_pos(a);
    lemma_pow2_pos(u);
    lemma_pow2_adds(a, (u - a) as nat);
    let q = address / used;
    let f = pow2((u - a) as nat) as int;
    vstd::arithmetic::div_mod::lemma_fundamental_div_mod(address, used);
    assert(address == asked * (f * q)) by (nonlinear_arith)
        requires
            address == used * q,
            used == asked * f,
    ;
    vstd::arithmetic::mul::lemma_mul_is_commutative(asked, f * q);
    vstd::arithmetic::div_mod::lemma_mod_multiples_basic(f * q, asked);
}

/// The size and alignment to allocate a buffer with: at least one byte, and the
/// smallest power of two that is at least 64 and at least `align`.
pub fn buffer_layout(len: usize, align: usize) -> (r: (usize, usize))
    requires
        align <= usize::MAX / 2,
    ensures
        r.0 == (if len == 0 {
            1
        } else {
            len
        }),
        is_buffer_alignment(r.1 as int, align as int),
{
    let size: usize = if len == 0 {
        1
    } else {
        len
    };
    let wanted: usize = if align < 64 {
        64
    } else {
        align
    };
    let a: usize = next_power_of_two(wanted);
    proof {
        lemma2_to64();
        if align <= 64 {
            let k = choose|k: nat| #[trigger] pow2(k) == a;
            power_of_two_above_is_unique(64, k, 6);
        }
    }
    (size, a)
}

} // verus!
