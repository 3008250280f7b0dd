//! The gated delta net: its sizes, its weights, and how its tensors are laid out.
use crate::layout;
use vstd::arithmetic::div_mod::*;
use vstd::arithmetic::mul::*;
use vstd::prelude::*;

verus! {

/// Sizes of one gated delta net, and the epsilon of its norm.
pub struct GdnConfig<E> {
    pub hidden: u64,
    pub num_k_heads: u64,
    pub num_v_heads: u64,
    pub head_k_dim: u64,
    pub head_v_dim: u64,
    pub conv_kernel: u64,
    pub eps: E,
}

impl<E> GdnConfig<E> {
    pub open spec fn key_size(&self) -> int {
        self.head_k_dim * self.num_k_heads
    }

    pub open spec fn value_size(&self) -> int {
        self.head_v_dim * self.num_v_heads
    }

    pub open spec fn conv_size(&self) -> int {
        self.key_size() * 2 + self.value_size()
    }

    /// The width of all keys of one position.
    pub fn key_dim(&self) -> (r: u64)
        requires
            self.key_size() <= u64::MAX,
        ensures
            r == self.key_size(),
    {
        self.head_k_dim * self.num_k_heads
    }

    /// The width of all values of one position.
    pub fn value_dim(&self) -> (r: u64)
        requires
            self.value_size() <= u64::MAX,
        ensures
            r == self.value_size(),
    {
        self.head_v_dim * self.num_v_heads
    }

    /// The width that the convolution sees: queries, keys and values.
    pub fn conv_dim(&self) -> (r: u64)
        requires
            self.conv_size() <= u64::MAX,
        ensures
            r == self.conv_size(),
    {
        proof {
            lemma_mul_nonnegative(self.head_k_dim as int, self.num_k_heads as int);
            lemma_mul_nonnegative(self.head_v_dim as int, self.num_v_heads as int);
        }
        self.key_dim() * 2 + self.value_dim()
    }

    /// How many value heads share a key head.
    pub fn kv_ratio(&self) -> (r: u64)
        requires
            self.num_k_heads > 0,
        ensures
            r == self.num_v_heads / self.num_k_heads,
    {
        self.num_v_heads / self.num_k_heads
    }
}

/// All weights of one gated delta net.
pub struct GdnWeights<T> {
    /// `[conv_dim, hidden]`
    pub in_proj_qkv: Vec<T>,
    /// `[value_dim, hidden]`
    pub in_proj_z: Vec<T>,
    /// `[num_v_heads, hidden]`
    pub in_proj_b: Vec<T>,
    /// `[num_v_heads, hidden]`
    pub in_proj_a: Vec<T>,
    /// `[conv_dim, 1, conv_kernel]`
    pub conv1d: Vec<T>,
    /// `[num_v_heads]`
    pub a_log: Vec<T>,
    /// `[num_v_heads]`
    pub dt_bias: Vec<T>,
    /// `[head_v_dim]`
    pub norm: Vec<T>,
    /// `[hidden, value_dim]`
    pub out_proj: Vec<T>,
}

/// `[B, T, C]` to `[B, C, T]`.
pub fn btc_to_bct<T: Copy>(x: &[T], b: usize, t: usize, c: usize) -> (y: Vec<T>)
    requires
        x@.len() == b * t * c,
    ensures
        layout::exchanged(x@, y@, b as int, t as int, c as int, 1),
{
    proof {
        lemma_mul_basics(b * t * c);
    }
    layout::exchange_axes(x, b, t, c, 1)
}

/// `[B, C, T]` to `[B, T, C]`.
pub fn bct_to_btc<T: Copy>(x: &[T], b: usize, c: usize, t: usize) -> (y: Vec<T>)
    requires
        x@.len() == b * c * t,
    ensures
        layout::exchanged(x@, y@, b as int, c as int, t as int, 1),
{
    proof {
        lemma_mul_basics(b * c * t);
    }
    layout::exchange_axes(x, b, c, t, 1)
}

/// Where the elements go when channels and positions change places.
pub proof fn transposed_element<T>(
    x: Seq<T>,
    y: Seq<T>,
    b: int,
    n: int,
    m: int,
    bi: int,
    i: int,
    j: int,
)
    requires
        layout::exchanged(x, y, b, n, m, 1),
        0 <= bi < b,
        0 <= i < n,
        0 <= j < m,
    ensures
        y[(bi * m + j) * n + i] == x[(bi * n + i) * m + j],
{
    let p = layout::at4(bi, j, m, i, n, 0, 1);
    lemma_mul_basics((bi * m + j) * n + i);
    lemma_mul_basics((bi * n + i) * m + j);
    assert(p == (bi * m + j) * n + i);
    assert(layout::at4(bi, i, n, j, m, 0, 1) == (bi * n + i) * m + j);
    assert(y[p] == x[layout::at4(bi, i, n, j, m, 0, 1)]);
}

/// Transposing to channels first and back gives the tensor again.
pub proof fn transposition_round_trips<T>(x: Seq<T>, y: Seq<T>, z: Seq<T>, b: int, t: int, c: int)
    requires
        b >= 0,
        t >= 0,
        c >= 0,
        layout::exchanged(x, y, b, t, c, 1),
        layout::exchanged(y, z, b, c, t, 1),
    ensures
        z == x,
{
    layout::exchange_is_undone(x, y, z, b, t, c, 1);
}

/// Repeats each head of `[B, T, H, D]` `ratio` times in a row.
pub fn repeat_interleave_heads<T: Copy>(
    x: &[T],
    b: usize,
    t: usize,
    h: usize,
    d: usize,
    ratio: usize,
) -> (y: Vec<T>)
    requires
        x@.len() == b * t * h * d,
        b * t * h <= usize::MAX,
        b * t <= usize::MAX,
        b * t * h * ratio <= usize::MAX,
        b * t * h * ratio * d <= usize::MAX,
    ensures
        layout::repeated(x@, y@, b * t * h, d as int, ratio as int),
{
    layout::repeat_blocks(x, b * t * h, d, ratio)
}

/// Head `hi` becomes the heads `hi * ratio` up to `hi * ratio + ratio - 1`.
pub proof fn head_is_repeated<T>(
    x: Seq<T>,
    y: Seq<T>,
    rows: int,
    h: int,
    d: int,
    ratio: int,
    row: int,
    hi: int,
    rep: int,
    e: int,
)
    requires
        layout::repeated(x, y, rows * h, d, ratio),
        0 <= row < rows,
        0 <= hi < h,
        0 <= rep < ratio,
        0 <= e < d,
    ensures
        y[(row * (h * ratio) + hi * ratio + rep) * d + e] == x[(row * h + hi) * d + e],
{
    let j = layout::at2(row, hi, h);
    layout::place_is_inside(row, rows, hi, h);
    assert(layout::at3(j, rep, ratio, e, d) == (row * (h * ratio) + hi * ratio + rep) * d + e)
        by (nonlinear_arith)
        requires
            j == row * h + hi,
            layout::at3(j, rep, ratio, e, d) == (j * ratio + rep) * d + e,
    ;
    assert(y[layout::at3(j, rep, ratio, e, d)] == x[layout::at2(j, e, d)]);
}

/// The queries, keys and values of rows that hold them side by side.
pub struct Qkv<T> {
    pub q: Vec<T>,
    pub k: Vec<T>,
    pub v: Vec<T>,
}

/// Splits rows of `2 * kd + vd` elements into queries, keys and values.
pub fn split_qkv<T: Copy>(x: &[T], rows: usize, kd: usize, vd: usize) -> (r: Qkv<T>)
    requires
        2 * kd + vd <= usize::MAX,
        x@.len() == rows * (2 * kd + vd),
    ensures
        layout::taken(x@, r.q@, rows as int, 2 * kd + vd, 0, kd as int),
        layout::taken(x@, r.k@, rows as int, 2 * kd + vd, kd as int, kd as int),
        layout::taken(x@, r.v@, rows as int, 2 * kd + vd, 2 * kd as int, vd as int),
{
    let width: usize = 2 * kd + vd;
    Qkv {
        q: layout::take_columns(x, rows, width, 0, kd),
        k: layout::take_columns(x, rows, width, kd, kd),
        v: layout::take_columns(x, rows, width, 2 * kd, vd),
    }
}

/// Which position tap `ki` of a convolution of `k` taps reads for position `ti`: all
/// the padding is in front, so the last tap reads the position itself. Taps that
/// fall on the padding read nothing; none reads a later position.
pub fn conv_tap(ti: usize, ki: usize, k: usize) -> (r: Option<usize>)
    requires
        ki < k,
    ensures
        r == (if ti + ki >= k - 1 {
            Some((ti + ki - (k - 1)) as usize)
        } else {
            None
        }),
        r matches Some(j) ==> j <= ti,
{
    let back: usize = k - 1 - ki;
    if ti >= back {
        Some(ti - back)
    } else {
        None
    }
}

/// Multiplications below which a matrix product is not spread over threads.
pub const PARALLEL_MIN_WORK: usize = 0x4_0000;

/// The most threads that one matrix product is spread over.
pub const MAX_THREADS: usize = 32;

/// How many threads there are for a product, of those available.
pub open spec fn usable(available: usize) -> usize {
    if available < MAX_THREADS {
        available
    } else {
        MAX_THREADS
    }
}

/// How many rows of a product `[rows, in_dim]` by `[in_dim, out_dim]` each thread
/// takes, if it is spread over threads at all.
pub fn rows_per_thread(rows: usize, in_dim: usize, out_dim: usize, available: usize) -> (r: Option<
    usize,
>)
    ensures
        if usable(available) <= 1 || rows * in_dim * out_dim < PARALLEL_MIN_WORK {
            r is None
        } else {
            r is Some && r->Some_0 == (rows - 1) / usable(available) as int + 1
        },
        r matches Some(n) ==> n > 0 && n * usable(available) >= rows,
{
    let threads: usize = if available < MAX_THREADS {
        available
    } else {
        MAX_THREADS
    };
    let small: bool = match rows.checked_mul(in_dim) {
        Some(x) => match x.checked_mul(out_dim) {
            Some(y) => y < PARALLEL_MIN_WORK,
            None => false,
        },
        None => out_dim == 0,
    };
    proof {
        lemma_mul_nonnegative(rows as int, in_dim as int);
        if rows * in_dim > usize::MAX && out_dim > 0 {
            assert(rows * in_dim * out_dim >= rows * in_dim) by (nonlinear_arith)
                requires
                    rows * in_dim >= 0,
                    out_dim > 0,
            ;
        }
        if out_dim == 0 {
            lemma_mul_basics(rows * in_dim);
        }
        assert(small == (rows * in_dim * out_dim < PARALLEL_MIN_WORK));
    }
    if threads <= 1 || small {
        return None;
    }
    proof {
        if rows == 0 {
            lemma_mul_basics(in_dim as int);
            lemma_mul_basics(out_dim as int);
        }
        assert(rows > 0);
        lemma_fundamental_div_mod(rows - 1, threads as int);
        lemma_mul_is_commutative(threads as int, (rows - 1) / threads as int);
        lemma_mul_is_distributive_add_other_way(threads as int, (rows - 1) / threads as int, 1);
        lemma_mod_bound(rows - 1, threads as int);
        lemma_div_is_ordered_by_denominator(rows - 1, 1, threads as int);
        lemma_div_basics(rows - 1);
    }
    Some((rows - 1) / threads + 1)
}

/// The convolution sees as many channels as all queries, all keys and all values of a
/// position have; queries are as wide as keys.
pub proof fn convolution_sees_queries_keys_and_values<E>(c: GdnConfig<E>)
    ensures
        c.key_size() == c.num_k_heads * c.head_k_dim,
        c.value_size() == c.num_v_heads * c.head_v_dim,
        c.conv_size() == c.num_k_heads * c.head_k_dim + c.num_k_heads * c.head_k_dim
            + c.num_v_heads * c.head_v_dim,
{
    lemma_mul_is_commutative(c.num_k_heads as int, c.head_k_dim as int);
    lemma_mul_is_commutative(c.num_v_heads as int, c.head_v_dim as int);
}

/// Queries, keys and values stand in a row in this order: put together again they are
/// the row.
pub proof fn row_is_its_parts<T>(
    x: Seq<T>,
    q: Seq<T>,
    k: Seq<T>,
    v: Seq<T>,
    rows: int,
    kd: int,
    vd: int,
    r: int,
)
    requires
        kd >= 0,
        vd >= 0,
        x.len() == rows * (2 * kd + vd),
        layout::taken(x, q, rows, 2 * kd + vd, 0, kd),
        layout::taken(x, k, rows, 2 * kd + vd, kd, kd),
        layout::taken(x, v, rows, 2 * kd + vd, 2 * kd, vd),
        0 <= r < rows,
    ensures
        x.subrange(r * (2 * kd + vd), (r + 1) * (2 * kd + vd)) == q.subrange(r * kd, (r + 1) * kd)
            + k.subrange(r * kd, (r + 1) * kd) + v.subrange(r * vd, (r + 1) * vd),
{
    let width = 2 * kd + vd;
    assert((r + 1) * width == r * width + width && (r + 1) * kd == r * kd + kd && (r + 1) * vd == r
        * vd + vd) by (nonlinear_arith);
    assert(0 <= r * width && 0 <= r * kd && 0 <= r * vd) by (nonlinear_arith)
        requires
            r >= 0,
            kd >= 0,
            vd >= 0,
            width == 2 * kd + vd,
    ;
    assert((r + 1) * width <= rows * width && (r + 1) * kd <= rows * kd && (r + 1) * vd <= rows
        * vd) by (nonlinear_arith)
        requires
            r < rows,
            kd >= 0,
            vd >= 0,
            width == 2 * kd + vd,
    ;
    let row = x.subrange(r * width, (r + 1) * width);
    let parts = q.subrange(r * kd, (r + 1) * kd) + k.subrange(r * kd, (r + 1) * kd) + v.subrange(
        r * vd,
        (r + 1) * vd,
    );
    if kd > 0 {
        layout::taken_element(x, q, rows, width, 0, kd, r, 0);
        layout::taken_element(x, k, rows, width, kd, kd, r, 0);
    }
    if vd > 0 {
        layout::taken_element(x, v, rows, width, 2 * kd, vd, r, 0);
    }
    assert(q.len() == rows * kd && k.len() == rows * kd && v.len() == rows * vd);
    assert(row.len() == width);
    assert(parts.len() == width);
    assert forall|e: int| 0 <= e < width implies #[trigger] row[e] == parts[e] by {
        if e < kd {
            layout::taken_element(x, q, rows, width, 0, kd, r, e);
        } else if e < 2 * kd {
            layout::taken_element(x, k, rows, width, kd, kd, r, e - kd);
        } else {
            layout::taken_element(x, v, rows, width, 2 * kd, vd, r, e - 2 * kd);
        }
    }
    assert(row =~= parts);
}

} // verus!
