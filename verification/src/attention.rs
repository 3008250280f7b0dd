//! Full attention: its sizes, its weights, and how its tensors are laid out.
use crate::layout;
use vstd::arithmetic::div_mod::*;
use vstd::arithmetic::mul::*;
use vstd::prelude::*;

verus! {

/// Sizes of one full-attention layer, and the parameters of its rotation and norm.
pub struct AttnConfig<E> {
    pub hidden: u64,
    pub num_heads: u64,
    pub num_kv_heads: u64,
    pub head_dim: u64,
    /// How many of a head's elements are rotated.
    pub rotary_dim: u64,
    pub rope_theta: E,
    pub eps: E,
}

impl<E> AttnConfig<E> {
    /// The width of the query projection: each head has a query and a gate.
    pub fn q_out_dim(&self) -> (r: u64)
        requires
            self.num_heads * self.head_dim * 2 <= u64::MAX,
        ensures
            r == self.num_heads * self.head_dim * 2,
    {
        proof {
            lemma_mul_nonnegative(self.num_heads as int, self.head_dim as int);
        }
        self.num_heads * self.head_dim * 2
    }

    /// The width of the key and value projections.
    pub fn kv_out_dim(&self) -> (r: u64)
        requires
            self.num_kv_heads * self.head_dim <= u64::MAX,
        ensures
            r == self.num_kv_heads * self.head_dim,
    {
        self.num_kv_heads * self.head_dim
    }

    /// How many query heads share a key head.
    pub fn kv_groups(&self) -> (r: u64)
        requires
            self.num_kv_heads > 0,
        ensures
            r == self.num_heads / self.num_kv_heads,
    {
        self.num_heads / self.num_kv_heads
    }
}

/// The weights of one full-attention layer.
pub struct AttnWeights<T> {
    /// `[num_heads * head_dim * 2, hidden]`
    pub q_proj: Vec<T>,
    /// `[num_kv_heads * head_dim, hidden]`
    pub k_proj: Vec<T>,
    /// `[num_kv_heads * head_dim, hidden]`
    pub v_proj: Vec<T>,
    /// `[hidden, num_heads * head_dim]`
    pub o_proj: Vec<T>,
    /// `[head_dim]`
    pub q_norm: Vec<T>,
    /// `[head_dim]`
    pub k_norm: Vec<T>,
}

/// Splits the query projection of `[rows, heads, 2 * d]` into queries and gates:
/// of the columns of a head the first half is its query, the second its gate.
pub fn split_query_gate<T: Copy>(x: &[T], rows: usize, heads: usize, d: usize) -> (r: (
    Vec<T>,
    Vec<T>,
))
    requires
        2 * d <= usize::MAX,
        rows * heads <= usize::MAX,
        x@.len() == rows * heads * (2 * d),
    ensures
        layout::taken(x@, r.0@, rows * heads, 2 * d, 0, d as int),
        layout::taken(x@, r.1@, rows * heads, 2 * d, d as int, d as int),
{
    (
        layout::take_columns(x, rows * heads, 2 * d, 0, d),
        layout::take_columns(x, rows * heads, 2 * d, d, d),
    )
}

/// `[B, T, H, D]` to `[B, H, T, D]`.
pub fn to_bhtd<T: Copy>(x: &[T], b: usize, t: usize, heads: usize, d: usize) -> (y: Vec<T>)
    requires
        x@.len() == b * t * heads * d,
    ensures
        layout::exchanged(x@, y@, b as int, t as int, heads as int, d as int),
{
    layout::exchange_axes(x, b, t, heads, d)
}

/// `[B, H, T, D]` to `[B, T, H, D]`.
pub fn to_bthd<T: Copy>(x: &[T], b: usize, heads: usize, t: usize, d: usize) -> (y: Vec<T>)
    requires
        x@.len() == b * heads * t * d,
    ensures
        layout::exchanged(x@, y@, b as int, heads as int, t as int, d as int),
{
    layout::exchange_axes(x, b, heads, t, d)
}

/// Repeats each key or value head of `[B, H, T, D]` `groups` times in a row, so
/// that query head `q` finds its own at key head `q / groups`.
pub fn repeat_kv<T: Copy>(
    x: &[T],
    b: usize,
    kv_heads: usize,
    t: usize,
    d: usize,
    groups: usize,
) -> (y: Vec<T>)
    requires
        b * kv_heads <= usize::MAX,
        t * d <= usize::MAX,
        x@.len() == b * kv_heads * (t * d),
        b * kv_heads * groups <= usize::MAX,
        b * kv_heads * groups * (t * d) <= usize::MAX,
    ensures
        layout::repeated(x@, y@, b * kv_heads, t * d, groups as int),
{
    layout::repeat_blocks(x, b * kv_heads, t * d, groups)
}

/// Query head `q` reads key head `q / groups`.
pub proof fn query_head_reads_its_group<T>(
    x: Seq<T>,
    y: Seq<T>,
    b: int,
    kv_heads: int,
    block: int,
    groups: int,
    bi: int,
    q: int,
    e: int,
)
    requires
        layout::repeated(x, y, b * kv_heads, block, groups),
        0 <= bi < b,
        0 <= q < kv_heads * groups,
        0 <= kv_heads,
        0 <= groups,
        0 <= e < block,
    ensures
        y[(bi * (kv_heads * groups) + q) * block + e] == x[(bi * kv_heads + q / groups) * block + e],
{
    layout::place_has_indices(q, kv_heads, groups);
    let kv = q / groups;
    let rep = q % groups;
    let j = layout::at2(bi, kv, kv_heads);
    layout::place_is_inside(bi, b, kv, kv_heads);
    assert(layout::at3(j, rep, groups, e, block) == (bi * (kv_heads * groups) + q) * block + e)
        by (nonlinear_arith)
        requires
            j == bi * kv_heads + kv,
            q == kv * groups + rep,
            layout::at3(j, rep, groups, e, block) == (j * groups + rep) * block + e,
    ;
    assert(y[layout::at3(j, rep, groups, e, block)] == x[layout::at2(j, e, block)]);
}

/// The position that row `r` of `[B, T, H]` rows belongs to.
pub fn rope_position(r: usize, heads: usize, t: usize) -> (p: usize)
    requires
        heads > 0,
        t > 0,
    ensures
        p == r as int / heads as int % t as int,
        p < t,
{
    (r / heads) % t
}

/// The position of a row is its index along the axis of positions, whatever its
/// batch and head.
pub proof fn position_ignores_batch_and_head(bi: int, ti: int, t: int, head: int, heads: int)
    requires
        0 <= bi,
        0 <= ti < t,
        0 <= head < heads,
    ensures
        layout::at3(bi, ti, t, head, heads) / heads % t == ti,
{
    layout::split_place(bi, ti, t);
    layout::split_place(layout::at2(bi, ti, t), head, heads);
}

/// The bits of the negated number: its sign bit changes.
pub open spec fn negated(x: u32) -> u32 {
    if x < 0x8000_0000 {
        (x + 0x8000_0000) as u32
    } else {
        (x - 0x8000_0000) as u32
    }
}

fn negate(x: u32) -> (r: u32)
    ensures
        r == negated(x),
{
    if x < 0x8000_0000 {
        x + 0x8000_0000
    } else {
        x - 0x8000_0000
    }
}

/// The second half negated, then the first half.
pub open spec fn half_rotated(x: Seq<u32>, rotary_dim: int) -> Seq<u32> {
    let half = rotary_dim / 2;
    Seq::new(
        rotary_dim as nat,
        |i: int|
            if i < half {
                negated(x[i + half])
            } else if i < 2 * half {
                x[i - half]
            } else {
                0
            },
    )
}

/// Rotates the halves of the first `rotary_dim` numbers, given as bits: the second
/// half comes first, negated.
pub fn rotate_half(x: &[u32], rotary_dim: usize) -> (r: Vec<u32>)
    requires
        x@.len() >= rotary_dim / 2 * 2,
    ensures
        r@ == half_rotated(x@, rotary_dim as int),
{
    let half: usize = rotary_dim / 2;
    let mut out: Vec<u32> = Vec::new();
    let mut i: usize = 0;
    while i < rotary_dim
        invariant
            i <= rotary_dim,
            half == rotary_dim / 2,
            x@.len() >= 2 * half,
            out@ == half_rotated(x@, rotary_dim as int).take(i as int),
        decreases rotary_dim - i,
    {
        let v: u32 = if i < half {
            negate(x[i + half])
        } else if i < 2 * half {
            x[i - half]
        } else {
            0
        };
        out.push(v);
        assert(out@ =~= half_rotated(x@, rotary_dim as int).take(i as int + 1));
        i += 1;
    }
    assert(out@ =~= half_rotated(x@, rotary_dim as int));
    out
}

/// Negating changes the sign of a number and not its size.
pub proof fn negating_changes_the_sign(x: u32)
    ensures
        negated(x) % 0x8000_0000 == x % 0x8000_0000,
        (negated(x) < 0x8000_0000) == (x >= 0x8000_0000),
        negated(negated(x)) == x,
{
}

/// Rotating pairs the elements half the rotated width apart: the first of a pair becomes
/// the second negated, the second the first. So rotating twice negates every element.
pub proof fn rotating_pairs_the_halves(x: Seq<u32>, half: int, i: int)
    requires
        0 <= i < half,
        x.len() >= 2 * half,
    ensures
        half_rotated(x, 2 * half).len() == 2 * half,
        half_rotated(x, 2 * half)[i] == negated(x[i + half]),
        half_rotated(x, 2 * half)[i + half] == x[i],
        half_rotated(half_rotated(x, 2 * half), 2 * half)[i] == negated(x[i]),
        half_rotated(half_rotated(x, 2 * half), 2 * half)[i + half] == negated(x[i + half]),
{
}

/// Of an odd width the last element is not paired, and comes out as zero.
pub proof fn unpaired_element_is_zero(x: Seq<u32>, half: int)
    requires
        half >= 0,
    ensures
        half_rotated(x, 2 * half + 1).len() == 2 * half + 1,
        half_rotated(x, 2 * half + 1)[2 * half] == 0,
        forall|i: int|
            0 <= i < 2 * half ==> half_rotated(x, 2 * half + 1)[i] == #[trigger] half_rotated(
                x,
                2 * half,
            )[i],
{
}

} // verus!
