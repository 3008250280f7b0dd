//! Moving the elements of flat tensors.
//!
//! A tensor is a list of its elements with the last axis varying fastest. Each
//! function here copies elements to new places and computes nothing with them.
use vstd::arithmetic::div_mod::*;
use vstd::arithmetic::mul::*;
use vstd::prelude::*;

verus! {

/// The place of element `(i, j)` of an array whose second axis has `m` elements.
pub open spec fn at2(i: int, j: int, m: int) -> int {
    i * m + j
}

/// The place of element `(i, j, k)`; the second axis has `m` elements and the
/// third `n`.
pub open spec fn at3(i: int, j: int, m: int, k: int, n: int) -> int {
    at2(at2(i, j, m), k, n)
}

/// The place of element `(i, j, k, l)`; the last three axes have `m`, `n` and `o`
/// elements.
pub open spec fn at4(i: int, j: int, m: int, k: int, n: int, l: int, o: int) -> int {
    at2(at3(i, j, m, k, n), l, o)
}

/// A place splits into its two indices, and no other pair has that place.
pub proof fn split_place(i: int, j: int, m: int)
    requires
        0 <= i,
        0 <= j < m,
    ensures
        at2(i, j, m) >= 0,
        at2(i, j, m) / m == i,
        at2(i, j, m) % m == j,
{
    lemma_mul_nonnegative(i, m);
    lemma_fundamental_div_mod_converse(at2(i, j, m), m, i, j);
}

/// Indices inside the axes have a place inside the tensor.
pub proof fn place_is_inside(i: int, n: int, j: int, m: int)
    requires
        0 <= i < n,
        0 <= j < m,
    ensures
        0 <= at2(i, j, m) < n * m,
{
    lemma_mul_nonnegative(i, m);
    assert(i * m + j < n * m) by (nonlinear_arith)
        requires
            0 <= i < n,
            0 <= j < m,
    ;
}

/// Every place inside the tensor is that of two indices inside the axes.
pub proof fn place_has_indices(p: int, n: int, m: int)
    requires
        0 <= p < n * m,
        0 <= n,
        0 <= m,
    ensures
        0 < m,
        0 <= p / m < n,
        0 <= p % m < m,
        p == at2(p / m, p % m, m),
{
    assert(m > 0) by (nonlinear_arith)
        requires
            0 <= p < n * m,
            0 <= n,
            0 <= m,
    ;
    lemma_fundamental_div_mod(p, m);
    lemma_mul_is_commutative(m, p / m);
    lemma_div_pos_is_pos(p, m);
    lemma_mod_bound(p, m);
    assert(p / m < n) by (nonlinear_arith)
        requires
            p < n * m,
            p == (p / m) * m + p % m,
            0 <= p % m,
            m > 0,
    ;
}

/// `x` seen as `[groups, n, m, d]`, `y` as `[groups, m, n, d]`: they hold the same
/// blocks of `d` elements, with the middle axes exchanged.
pub open spec fn exchanged<T>(
    x: Seq<T>,
    y: Seq<T>,
    groups: int,
    n: int,
    m: int,
    d: int,
) -> bool {
    &&& x.len() == groups * n * m * d
    &&& y.len() == groups * n * m * d
    &&& forall|g: int, i: int, j: int, e: int|
        #![trigger at4(g, j, m, i, n, e, d)]
        0 <= g < groups && 0 <= i < n && 0 <= j < m && 0 <= e < d ==> y[at4(g, j, m, i, n, e, d)]
            == x[at4(g, i, n, j, m, e, d)]
}

/// Exchanges the two middle axes of `[groups, n, m, d]`.
pub fn exchange_axes<T: Copy>(x: &[T], groups: usize, n: usize, m: usize, d: usize) -> (y: Vec<T>)
    requires
        x@.len() == groups * n * m * d,
    ensures
        exchanged(x@, y@, groups as int, n as int, m as int, d as int),
{
    let total: usize = x.len();
    let mut y: Vec<T> = Vec::new();
    let mut p: usize = 0;
    while p < total
        invariant
            p <= total,
            total == x.len(),
            x@.len() == groups * n * m * d,
            y.len() == p,
            forall|q: int|
                0 <= q < p ==> #[trigger] y[q] == x[at4(
                    q / d as int / n as int / m as int,
                    q / d as int % n as int,
                    n as int,
                    q / d as int / n as int % m as int,
                    m as int,
                    q % d as int,
                    d as int,
                )],
        decreases total - p,
    {
        proof {
            lemma_mul_is_associative(groups as int, m as int, n as int);
            lemma_mul_is_associative(groups as int, n as int, m as int);
            lemma_mul_is_commutative(n as int, m as int);
            place_has_indices(p as int, groups * m * n, d as int);
            place_has_indices(p as int / d as int, groups * m as int, n as int);
            place_has_indices(p as int / d as int / n as int, groups as int, m as int);
        }
        let e: usize = p % d;
        let block: usize = p / d;
        let i: usize = block % n;
        let rest: usize = block / n;
        let j: usize = rest % m;
        let g: usize = rest / m;
        proof {
            place_is_inside(g as int, groups as int, i as int, n as int);
            place_is_inside(at2(g as int, i as int, n as int), groups * n, j as int, m as int);
            place_is_inside(
                at3(g as int, i as int, n as int, j as int, m as int),
                groups * n * m,
                e as int,
                d as int,
            );
            let a = g * n + i;
            let b = a * m + j;
            assert(0 <= g * n) by (nonlinear_arith);
            assert(0 <= a * m) by (nonlinear_arith)
                requires
                    a >= 0,
            ;
            assert(b <= b * d) by (nonlinear_arith)
                requires
                    b >= 0,
                    d >= 1,
            ;
            assert(a <= a * m) by (nonlinear_arith)
                requires
                    a >= 0,
                    m >= 1,
            ;
        }
        y.push(x[((g * n + i) * m + j) * d + e]);
        p += 1;
    }
    proof {
        assert forall|g: int, i: int, j: int, e: int|
            #![trigger at4(g, j, m as int, i, n as int, e, d as int)]
            0 <= g < groups && 0 <= i < n && 0 <= j < m && 0 <= e < d implies y@[at4(
            g,
            j,
            m as int,
            i,
            n as int,
            e,
            d as int,
        )] == x@[at4(g, i, n as int, j, m as int, e, d as int)] by {
            let a = at2(g, j, m as int);
            let b = at3(g, j, m as int, i, n as int);
            let q = at4(g, j, m as int, i, n as int, e, d as int);
            lemma_mul_is_associative(groups as int, m as int, n as int);
            lemma_mul_is_associative(groups as int, n as int, m as int);
            lemma_mul_is_commutative(n as int, m as int);
            place_is_inside(g, groups as int, j, m as int);
            place_is_inside(a, groups * m, i, n as int);
            place_is_inside(b, groups * m * n, e, d as int);
            split_place(g, j, m as int);
            split_place(a, i, n as int);
            split_place(b, e, d as int);
            assert(y@[q] == y[q]);
        }
    }
    y
}

/// Exchanging axes and exchanging them back gives the tensor again.
pub proof fn exchange_is_undone<T>(
    x: Seq<T>,
    y: Seq<T>,
    z: Seq<T>,
    groups: int,
    n: int,
    m: int,
    d: int,
)
    requires
        groups >= 0,
        n >= 0,
        m >= 0,
        d >= 0,
        exchanged(x, y, groups, n, m, d),
        exchanged(y, z, groups, m, n, d),
    ensures
        z == x,
{
    lemma_mul_is_associative(groups, m, n);
    lemma_mul_is_associative(groups, n, m);
    lemma_mul_is_commutative(n, m);
    assert(z.len() == x.len());
    assert forall|p: int| 0 <= p < x.len() implies z[p] == x[p] by {
        lemma_mul_nonnegative(groups, n);
        lemma_mul_nonnegative(groups * n, m);
        place_has_indices(p, groups * n * m, d);
        place_has_indices(p / d, groups * n, m);
        place_has_indices(p / d / m, groups, n);
        let e = p % d;
        let j = p / d % m;
        let i = p / d / m % n;
        let g = p / d / m / n;
        assert(p == at4(g, i, n, j, m, e, d));
        assert(z[at4(g, i, n, j, m, e, d)] == y[at4(g, j, m, i, n, e, d)]);
    }
    assert(z =~= x);
}

/// `x` seen as blocks of `d` elements, each `ratio` times in a row in `y`.
pub open spec fn repeated<T>(x: Seq<T>, y: Seq<T>, blocks: int, d: int, ratio: int) -> bool {
    &&& x.len() == blocks * d
    &&& y.len() == blocks * ratio * d
    &&& forall|j: int, rep: int, e: int|
        #![trigger at3(j, rep, ratio, e, d)]
        0 <= j < blocks && 0 <= rep < ratio && 0 <= e < d ==> y[at3(j, rep, ratio, e, d)] == x[at2(
            j,
            e,
            d,
        )]
}

/// Repeats each block of `d` elements `ratio` times in a row.
pub fn repeat_blocks<T: Copy>(x: &[T], blocks: usize, d: usize, ratio: usize) -> (y: Vec<T>)
    requires
        x@.len() == blocks * d,
        blocks * ratio * d <= usize::MAX,
        blocks * ratio <= usize::MAX,
    ensures
        repeated(x@, y@, blocks as int, d as int, ratio as int),
{
    let given: usize = x.len();
    let total: usize = blocks * ratio * d;
    let mut y: Vec<T> = Vec::new();
    let mut p: usize = 0;
    while p < total
        invariant
            p <= total,
            total == blocks * ratio * d,
            x@.len() == blocks * d,
            x@.len() == given,
            y.len() == p,
            forall|q: int|
                0 <= q < p ==> #[trigger] y[q] == x[at2(
                    q / d as int / ratio as int,
                    q % d as int,
                    d as int,
                )],
        decreases total - p,
    {
        proof {
            lemma_mul_nonnegative(blocks as int, ratio as int);
            place_has_indices(p as int, blocks * ratio, d as int);
            place_has_indices(p as int / d as int, blocks as int, ratio as int);
        }
        let e: usize = p % d;
        let j: usize = p / d / ratio;
        proof {
            place_is_inside(j as int, blocks as int, e as int, d as int);
        }
        y.push(x[j * d + e]);
        p += 1;
    }
    proof {
        assert forall|j: int, rep: int, e: int|
            #![trigger at3(j, rep, ratio as int, e, d as int)]
            0 <= j < blocks && 0 <= rep < ratio && 0 <= e < d implies y@[at3(
            j,
            rep,
            ratio as int,
            e,
            d as int,
        )] == x@[at2(j, e, d as int)] by {
            let a = at2(j, rep, ratio as int);
            let q = at3(j, rep, ratio as int, e, d as int);
            place_is_inside(j, blocks as int, rep, ratio as int);
            place_is_inside(a, blocks * ratio, e, d as int);
            split_place(j, rep, ratio as int);
            split_place(a, e, d as int);
            assert(y@[q] == y[q]);
        }
    }
    y
}

/// `y` holds, of each row of `width` elements of `x`, the `len` that start at
/// `offset`.
pub open spec fn taken<T>(
    x: Seq<T>,
    y: Seq<T>,
    rows: int,
    width: int,
    offset: int,
    len: int,
) -> bool {
    &&& y.len() == rows * len
    &&& forall|r: int, e: int|
        #![trigger at2(r, e, len)]
        0 <= r < rows && 0 <= e < len ==> y[at2(r, e, len)] == x[at2(r, offset + e, width)]
}

/// Takes the same columns of every row.
pub fn take_columns<T: Copy>(
    x: &[T],
    rows: usize,
    width: usize,
    offset: usize,
    len: usize,
) -> (y: Vec<T>)
    requires
        x@.len() == rows * width,
        offset + len <= width,
    ensures
        taken(x@, y@, rows as int, width as int, offset as int, len as int),
{
    let total: usize = x.len();
    let mut y: Vec<T> = Vec::new();
    let mut r: usize = 0;
    while r < rows
        invariant
            r <= rows,
            x@.len() == rows * width,
            x@.len() == total,
            offset + len <= width,
            y.len() == r * len,
            forall|q: int|
                0 <= q < y.len() ==> len > 0 && #[trigger] y[q] == x[at2(
                    q / len as int,
                    offset + q % len as int,
                    width as int,
                )],
        decreases rows - r,
    {
        let mut e: usize = 0;
        while e < len
            invariant
                e <= len,
                r < rows,
                x@.len() == rows * width,
                x@.len() == total,
                offset + len <= width,
                y.len() == r * len + e,
                forall|q: int|
                    0 <= q < y.len() ==> len > 0 && #[trigger] y[q] == x[at2(
                        q / len as int,
                        offset + q % len as int,
                        width as int,
                    )],
            decreases len - e,
        {
            proof {
                place_is_inside(r as int, rows as int, offset + e, width as int);
                split_place(r as int, e as int, len as int);
                assert(r * width + offset + e < x@.len());
                assert(0 <= r * width) by (nonlinear_arith);
            }
            y.push(x[r * width + (offset + e)]);
            e += 1;
        }
        assert(r * len + len == (r + 1) * len) by (nonlinear_arith);
        r += 1;
    }
    proof {
        assert forall|a: int, e: int|
            #![trigger at2(a, e, len as int)]
            0 <= a < rows && 0 <= e < len implies y@[at2(a, e, len as int)] == x@[at2(
            a,
            offset + e,
            width as int,
        )] by {
            place_is_inside(a, rows as int, e, len as int);
            split_place(a, e, len as int);
            assert(y@[at2(a, e, len as int)] == y[at2(a, e, len as int)]);
        }
    }
    y
}

/// Where the blocks go when two axes are exchanged: element `e` of the block at `(i, j)`
/// of a group comes to stand in the block at `(j, i)` of the same group, at the same place
/// in its block.
pub proof fn exchanged_element<T>(
    x: Seq<T>,
    y: Seq<T>,
    groups: int,
    n: int,
    m: int,
    d: int,
    g: int,
    i: int,
    j: int,
    e: int,
)
    requires
        exchanged(x, y, groups, n, m, d),
        0 <= g < groups,
        0 <= i < n,
        0 <= j < m,
        0 <= e < d,
    ensures
        y.len() == x.len(),
        y[((g * m + j) * n + i) * d + e] == x[((g * n + i) * m + j) * d + e],
{
    assert(at4(g, j, m, i, n, e, d) == ((g * m + j) * n + i) * d + e);
    assert(at4(g, i, n, j, m, e, d) == ((g * n + i) * m + j) * d + e);
}

/// Where the columns go that are taken of every row: column `offset + e` of a row becomes
/// its column `e`.
pub proof fn taken_element<T>(
    x: Seq<T>,
    y: Seq<T>,
    rows: int,
    width: int,
    offset: int,
    len: int,
    r: int,
    e: int,
)
    requires
        taken(x, y, rows, width, offset, len),
        0 <= r < rows,
        0 <= e < len,
    ensures
        y.len() == rows * len,
        y[r * len + e] == x[r * width + offset + e],
{
    assert(at2(r, e, len) == r * len + e);
}

/// Where the blocks go that are repeated: block `j` becomes the blocks from `j * ratio` on.
pub proof fn repeated_element<T>(
    x: Seq<T>,
    y: Seq<T>,
    blocks: int,
    d: int,
    ratio: int,
    j: int,
    rep: int,
    e: int,
)
    requires
        repeated(x, y, blocks, d, ratio),
        0 <= j < blocks,
        0 <= rep < ratio,
        0 <= e < d,
    ensures
        y.len() == blocks * ratio * d,
        y[(j * ratio + rep) * d + e] == x[j * d + e],
{
    assert(at3(j, rep, ratio, e, d) == (j * ratio + rep) * d + e);
}

} // verus!
