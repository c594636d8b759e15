//! 8 x 8 integer matrix multiplication.

use vstd::prelude::*;

verus! {

/// Matrix dimension.
pub const M: usize = 8;

/// `a[i][0] * b[0][j] + ... + a[i][k-1] * b[k-1][j]`.
pub open spec fn dot(a: [[i32; M]; M], b: [[i32; M]; M], i: int, j: int, k: int) -> int
    decreases k,
{
    if k <= 0 {
        0
    } else {
        dot(a, b, i, j, k - 1) + a[i][k - 1] * b[k - 1][j]
    }
}

/// Every product and every partial dot product of `a` times `b` fits an `i32`.
pub open spec fn fits_i32(a: [[i32; M]; M], b: [[i32; M]; M]) -> bool {
    forall|i: int, j: int, k: int|
        0 <= i < M && 0 <= j < M && 0 <= k <= M ==> i32::MIN <= #[trigger] dot(a, b, i, j, k)
            <= i32::MAX && (k < M ==> i32::MIN <= a[i][k] * b[k][j] <= i32::MAX)
}

/// The product `a * b`: entry `(i, j)` is the dot product of row `i` of `a`
/// and column `j` of `b`.
pub fn multiply(a: &[[i32; M]; M], b: &[[i32; M]; M]) -> (c: [[i32; M]; M])
    requires
        fits_i32(*a, *b),
    ensures
        forall|i: int, j: int| 0 <= i < M && 0 <= j < M ==> #[trigger] c[i][j] == dot(*a, *b, i, j, M as int),
{
    let mut c = [[0i32; M]; M];
    let mut i: usize = 0;
    while i < M
        invariant
            i <= M,
            fits_i32(*a, *b),
            forall|x: int, y: int| 0 <= x < i && 0 <= y < M ==> #[trigger] c[x][y] == dot(*a, *b, x, y, M as int),
        decreases M - i,
    {
        let mut row = [0i32; M];
        let mut j: usize = 0;
        while j < M
            invariant
                i < M,
                j <= M,
                fits_i32(*a, *b),
                forall|y: int| 0 <= y < j ==> #[trigger] row[y] == dot(*a, *b, i as int, y, M as int),
            decreases M - j,
        {
            // Accumulate the dot product.
            let mut sum: i32 = 0;
            let mut k: usize = 0;
            while k < M
                invariant
                    i < M,
                    j < M,
                    k <= M,
                    fits_i32(*a, *b),
                    sum == dot(*a, *b, i as int, j as int, k as int),
                decreases M - k,
            {
                proof {
                    assert(i32::MIN <= dot(*a, *b, i as int, j as int, k + 1) <= i32::MAX);
                }
                sum = sum + a[i][k] * b[k][j];
                k = k + 1;
            }
            row[j] = sum;
            j = j + 1;
        }
        c[i] = row;
        i = i + 1;
    }
    c
}

/// `id` is the identity matrix.
pub open spec fn is_identity(id: [[i32; M]; M]) -> bool {
    forall|i: int, j: int| 0 <= i < M && 0 <= j < M ==> #[trigger] id[i][j] == if i == j { 1i32 } else { 0i32 }
}

proof fn lemma_dot_identity_right(a: [[i32; M]; M], id: [[i32; M]; M], i: int, j: int, k: int)
    requires
        is_identity(id),
        0 <= i < M,
        0 <= j < M,
        0 <= k <= M,
    ensures
        dot(a, id, i, j, k) == if j < k { a[i][j] as int } else { 0 },
    decreases k,
{
    if k > 0 {
        lemma_dot_identity_right(a, id, i, j, k - 1);
        assert(id[k - 1][j] == if k - 1 == j { 1i32 } else { 0i32 });
    }
}

proof fn lemma_dot_identity_left(id: [[i32; M]; M], b: [[i32; M]; M], i: int, j: int, k: int)
    requires
        is_identity(id),
        0 <= i < M,
        0 <= j < M,
        0 <= k <= M,
    ensures
        dot(id, b, i, j, k) == if i < k { b[i][j] as int } else { 0 },
    decreases k,
{
    if k > 0 {
        lemma_dot_identity_left(id, b, i, j, k - 1);
        assert(id[i][k - 1] == if i == k - 1 { 1i32 } else { 0i32 });
    }
}

/// The identity is neutral on both sides: `a * I == a` and `I * b == b`,
/// for matrices of any sign.
pub proof fn lemma_multiply_identity(a: [[i32; M]; M], id: [[i32; M]; M])
    requires
        is_identity(id),
    ensures
        forall|i: int, j: int| 0 <= i < M && 0 <= j < M ==> #[trigger] dot(a, id, i, j, M as int) == a[i][j],
        forall|i: int, j: int| 0 <= i < M && 0 <= j < M ==> #[trigger] dot(id, a, i, j, M as int) == a[i][j],
{
    assert forall|i: int, j: int| 0 <= i < M && 0 <= j < M implies #[trigger] dot(a, id, i, j, M as int) == a[i][j] by {
        lemma_dot_identity_right(a, id, i, j, M as int);
    }
    assert forall|i: int, j: int| 0 <= i < M && 0 <= j < M implies #[trigger] dot(id, a, i, j, M as int) == a[i][j] by {
        lemma_dot_identity_left(id, a, i, j, M as int);
    }
}

/// The product is additive in each factor: if `a` is `a1 + a2` entry by
/// entry, then `a * b == a1 * b + a2 * b`, and likewise on the right.
pub proof fn lemma_multiply_additive(
    a1: [[i32; M]; M],
    a2: [[i32; M]; M],
    a: [[i32; M]; M],
    b1: [[i32; M]; M],
    b2: [[i32; M]; M],
    b: [[i32; M]; M],
)
    requires
        forall|i: int, j: int| 0 <= i < M && 0 <= j < M ==> #[trigger] a[i][j] == a1[i][j] + a2[i][j],
        forall|i: int, j: int| 0 <= i < M && 0 <= j < M ==> #[trigger] b[i][j] == b1[i][j] + b2[i][j],
    ensures
        forall|i: int, j: int| 0 <= i < M && 0 <= j < M ==> #[trigger] dot(a, b1, i, j, M as int) == dot(a1, b1, i, j, M as int) + dot(a2, b1, i, j, M as int),
        forall|i: int, j: int| 0 <= i < M && 0 <= j < M ==> #[trigger] dot(a1, b, i, j, M as int) == dot(a1, b1, i, j, M as int) + dot(a1, b2, i, j, M as int),
{
    assert forall|i: int, j: int| 0 <= i < M && 0 <= j < M implies #[trigger] dot(a, b1, i, j, M as int) == dot(a1, b1, i, j, M as int) + dot(a2, b1, i, j, M as int) by {
        lemma_dot_additive_left(a1, a2, a, b1, i, j, M as int);
    }
    assert forall|i: int, j: int| 0 <= i < M && 0 <= j < M implies #[trigger] dot(a1, b, i, j, M as int) == dot(a1, b1, i, j, M as int) + dot(a1, b2, i, j, M as int) by {
        lemma_dot_additive_right(a1, b1, b2, b, i, j, M as int);
    }
}

proof fn lemma_dot_additive_left(
    a1: [[i32; M]; M],
    a2: [[i32; M]; M],
    a: [[i32; M]; M],
    b: [[i32; M]; M],
    i: int,
    j: int,
    k: int,
)
    requires
        forall|i: int, j: int| 0 <= i < M && 0 <= j < M ==> #[trigger] a[i][j] == a1[i][j] + a2[i][j],
        0 <= i < M,
        0 <= j < M,
        0 <= k <= M,
    ensures
        dot(a, b, i, j, k) == dot(a1, b, i, j, k) + dot(a2, b, i, j, k),
    decreases k,
{
    if k > 0 {
        lemma_dot_additive_left(a1, a2, a, b, i, j, k - 1);
        let x = b[k - 1][j] as int;
        assert(a[i][k - 1] == a1[i][k - 1] + a2[i][k - 1]);
        assert(a[i][k - 1] * x == a1[i][k - 1] * x + a2[i][k - 1] * x) by (nonlinear_arith)
            requires
                a[i][k - 1] == a1[i][k - 1] + a2[i][k - 1],
        ;
    }
}

proof fn lemma_dot_additive_right(
    a: [[i32; M]; M],
    b1: [[i32; M]; M],
    b2: [[i32; M]; M],
    b: [[i32; M]; M],
    i: int,
    j: int,
    k: int,
)
    requires
        forall|i: int, j: int| 0 <= i < M && 0 <= j < M ==> #[trigger] b[i][j] == b1[i][j] + b2[i][j],
        0 <= i < M,
        0 <= j < M,
        0 <= k <= M,
    ensures
        dot(a, b, i, j, k) == dot(a, b1, i, j, k) + dot(a, b2, i, j, k),
    decreases k,
{
    if k > 0 {
        lemma_dot_additive_right(a, b1, b2, b, i, j, k - 1);
        let x = a[i][k - 1] as int;
        assert(b[k - 1][j] == b1[k - 1][j] + b2[k - 1][j]);
        assert(x * b[k - 1][j] == x * b1[k - 1][j] + x * b2[k - 1][j]) by (nonlinear_arith)
            requires
                b[k - 1][j] == b1[k - 1][j] + b2[k - 1][j],
        ;
    }
}

/// Negating one factor negates the product: if `n` is `-a` entry by entry,
/// then `n * b == -(a * b)`.
pub proof fn lemma_multiply_negate(a: [[i32; M]; M], n: [[i32; M]; M], b: [[i32; M]; M])
    requires
        forall|i: int, j: int| 0 <= i < M && 0 <= j < M ==> #[trigger] n[i][j] == -a[i][j],
    ensures
        forall|i: int, j: int| 0 <= i < M && 0 <= j < M ==> #[trigger] dot(n, b, i, j, M as int) == -dot(a, b, i, j, M as int),
{
    assert forall|i: int, j: int| 0 <= i < M && 0 <= j < M implies #[trigger] dot(n, b, i, j, M as int) == -dot(a, b, i, j, M as int) by {
        lemma_dot_negate(a, n, b, i, j, M as int);
    }
}

proof fn lemma_dot_negate(a: [[i32; M]; M], n: [[i32; M]; M], b: [[i32; M]; M], i: int, j: int, k: int)
    requires
        forall|i: int, j: int| 0 <= i < M && 0 <= j < M ==> #[trigger] n[i][j] == -a[i][j],
        0 <= i < M,
        0 <= j < M,
        0 <= k <= M,
    ensures
        dot(n, b, i, j, k) == -dot(a, b, i, j, k),
    decreases k,
{
    if k > 0 {
        lemma_dot_negate(a, n, b, i, j, k - 1);
        assert(n[i][k - 1] == -a[i][k - 1]);
        assert(n[i][k - 1] * b[k - 1][j] == -(a[i][k - 1] * b[k - 1][j])) by (nonlinear_arith)
            requires
                n[i][k - 1] == -a[i][k - 1],
        ;
    }
}

/// The example inputs: `A[i][k] = i + 1`, `B[k][j] = j + 1`.
pub fn example_inputs() -> (r: ([[i32; M]; M], [[i32; M]; M]))
    ensures
        forall|i: int, j: int| 0 <= i < M && 0 <= j < M ==> #[trigger] r.0[i][j] == i + 1,
        forall|i: int, j: int| 0 <= i < M && 0 <= j < M ==> #[trigger] r.1[i][j] == j + 1,
{
    let mut a = [[0i32; M]; M];
    let mut b = [[0i32; M]; M];
    let mut i: usize = 0;
    while i < M
        invariant
            i <= M,
            forall|x: int, y: int| 0 <= x < i && 0 <= y < M ==> #[trigger] a[x][y] == x + 1,
            forall|x: int, y: int| 0 <= x < i && 0 <= y < M ==> #[trigger] b[x][y] == y + 1,
        decreases M - i,
    {
        let mut ra = [0i32; M];
        let mut rb = [0i32; M];
        let mut j: usize = 0;
        while j < M
            invariant
                i < M,
                j <= M,
                forall|y: int| 0 <= y < j ==> #[trigger] ra[y] == i + 1,
                forall|y: int| 0 <= y < j ==> #[trigger] rb[y] == y + 1,
            decreases M - j,
        {
            ra[j] = (i + 1) as i32;
            rb[j] = (j + 1) as i32;
            j = j + 1;
        }
        a[i] = ra;
        b[i] = rb;
        i = i + 1;
    }
    (a, b)
}

/// On the example inputs every entry is `8 (i + 1) (j + 1)`, and no
/// intermediate sum overflows.
pub proof fn lemma_example_product(a: [[i32; M]; M], b: [[i32; M]; M])
    requires
        forall|i: int, j: int| 0 <= i < M && 0 <= j < M ==> #[trigger] a[i][j] == i + 1,
        forall|i: int, j: int| 0 <= i < M && 0 <= j < M ==> #[trigger] b[i][j] == j + 1,
    ensures
        fits_i32(a, b),
        forall|i: int, j: int| 0 <= i < M && 0 <= j < M ==> #[trigger] dot(a, b, i, j, M as int) == 8
            * (i + 1) * (j + 1),
{
    assert forall|i: int, j: int, k: int| 0 <= i < M && 0 <= j < M && 0 <= k <= M implies #[trigger] dot(
        a,
        b,
        i,
        j,
        k,
    ) == k * (i + 1) * (j + 1) by {
        lemma_example_dot(a, b, i, j, k);
    }
    assert forall|i: int, j: int, k: int|
        0 <= i < M && 0 <= j < M && 0 <= k <= M implies i32::MIN <= #[trigger] dot(a, b, i, j, k)
            <= i32::MAX && (k < M ==> i32::MIN <= a[i][k] * b[k][j] <= i32::MAX) by {
        lemma_example_dot(a, b, i, j, k);
        assert(k * (i + 1) * (j + 1) <= 8 * 8 * 8) by (nonlinear_arith)
            requires
                0 <= k <= 8,
                0 <= i < 8,
                0 <= j < 8,
        ;
        assert(0 <= k * (i + 1) * (j + 1)) by (nonlinear_arith)
            requires
                0 <= k,
                0 <= i,
                0 <= j,
        ;
        if k < M {
            assert((i + 1) * (j + 1) <= 64) by (nonlinear_arith)
                requires
                    0 <= i < 8,
                    0 <= j < 8,
            ;
            assert(0 <= (i + 1) * (j + 1)) by (nonlinear_arith)
                requires
                    0 <= i,
                    0 <= j,
            ;
        }
    }
}

proof fn lemma_example_dot(a: [[i32; M]; M], b: [[i32; M]; M], i: int, j: int, k: int)
    requires
        forall|i: int, j: int| 0 <= i < M && 0 <= j < M ==> #[trigger] a[i][j] == i + 1,
        forall|i: int, j: int| 0 <= i < M && 0 <= j < M ==> #[trigger] b[i][j] == j + 1,
        0 <= i < M,
        0 <= j < M,
        0 <= k <= M,
    ensures
        dot(a, b, i, j, k) == k * (i + 1) * (j + 1),
    decreases k,
{
    if k > 0 {
        lemma_example_dot(a, b, i, j, k - 1);
        assert(a[i][k - 1] == i + 1);
        assert(b[k - 1][j] == j + 1);
        assert(a[i][k - 1] * b[k - 1][j] == (i + 1) * (j + 1));
        assert(dot(a, b, i, j, k) == dot(a, b, i, j, k - 1) + a[i][k - 1] * b[k - 1][j]);
        assert((k - 1) * (i + 1) * (j + 1) + (i + 1) * (j + 1) == k * (i + 1) * (j + 1)) by (nonlinear_arith);
    } else {
        assert(0 * (i + 1) * (j + 1) == 0) by (nonlinear_arith);
    }
}

} // verus!
