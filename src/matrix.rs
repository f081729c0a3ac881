use vstd::prelude::*;

use vstd::arithmetic::div_mod::{lemma_mod_bound, lemma_mul_mod_noop_left, lemma_multiply_divide_lt};

use crate::error::PolygraphiaError;
use crate::math::{gcd, gcd_spec, is_mod_inverse, mod_inverse};

verus! {

/// The entries of row `row` of the `n`×`n` row-major matrix `d`, among its first `col`
/// columns, with column `skip` left out.
pub open spec fn row_part(n: nat, d: Seq<i32>, row: nat, skip: nat, col: nat) -> Seq<i32>
    decreases col,
{
    if col == 0 {
        Seq::empty()
    } else {
        let prev = row_part(n, d, row, skip, (col - 1) as nat);
        if col - 1 == skip {
            prev
        } else {
            prev.push(d[row * n + col - 1])
        }
    }
}

/// The entries of the first `row` rows of `d` with row `skip_row` and column `skip_col`
/// left out, in row-major order.
pub open spec fn minor_part(n: nat, d: Seq<i32>, skip_row: nat, skip_col: nat, row: nat) -> Seq<
    i32,
>
    decreases row,
{
    if row == 0 {
        Seq::empty()
    } else {
        let prev = minor_part(n, d, skip_row, skip_col, (row - 1) as nat);
        if row - 1 == skip_row {
            prev
        } else {
            prev + row_part(n, d, (row - 1) as nat, skip_col, n)
        }
    }
}

/// The (n−1)×(n−1) matrix left when row `r` and column `c` of `d` are deleted.
pub open spec fn minor_seq(n: nat, d: Seq<i32>, r: nat, c: nat) -> Seq<i32> {
    minor_part(n, d, r, c, n)
}

/// Every entry of `d` lies in `-b..=b`.
pub open spec fn entries_within(d: Seq<i32>, b: int) -> bool {
    forall|i: int| 0 <= i < d.len() ==> -b <= #[trigger] d[i] <= b
}

/// `n! · b^n`, which bounds the determinant of an `n`×`n` matrix with entries in `-b..=b`.
pub open spec fn det_bound(n: nat, b: int) -> int
    decreases n,
{
    if n == 0 {
        1
    } else {
        n * b * det_bound((n - 1) as nat, b)
    }
}

/// The determinant of the `n`×`n` row-major matrix `d`: closed forms up to size 3,
/// expansion along the first row beyond; the empty matrix, an empty product, has
/// determinant 1.
pub open spec fn det_spec(n: nat, d: Seq<i32>) -> int
    decreases n, n + 1,
{
    if n == 0 {
        1
    } else if n == 1 {
        d[0] as int
    } else if n == 2 {
        d[0] * d[3] - d[1] * d[2]
    } else if n == 3 {
        d[0] * (d[4] * d[8] - d[5] * d[7]) - d[1] * (d[3] * d[8] - d[5] * d[6]) + d[2] * (d[3]
            * d[7] - d[4] * d[6])
    } else {
        laplace_sum(n, d, n)
    }
}

/// The first `k` terms of the expansion of the determinant along the first row.
pub open spec fn laplace_sum(n: nat, d: Seq<i32>, k: nat) -> int
    decreases n, k,
{
    if k == 0 || n == 0 {
        0
    } else {
        let prev = laplace_sum(n, d, (k - 1) as nat);
        let term = d[k - 1] * det_spec((n - 1) as nat, minor_seq(n, d, 0, (k - 1) as nat));
        if (k - 1) % 2 == 0 {
            prev + term
        } else {
            prev - term
        }
    }
}

/// The cofactor of entry (`r`, `c`): the signed determinant of its minor.
pub open spec fn cofactor(n: nat, d: Seq<i32>, r: nat, c: nat) -> int {
    let m = det_spec((n - 1) as nat, minor_seq(n, d, r, c));
    if (r + c) % 2 == 0 {
        m
    } else {
        -m
    }
}

/// The `n`×`n` matrix `d` has a determinant that can be computed without overflow.
pub open spec fn det_fits(n: nat, d: Seq<i32>) -> bool {
    exists|b: int| b >= 1 && entries_within(d, b) && #[trigger] det_bound(n, b) <= i64::MAX
}

pub proof fn lemma_row_part(n: nat, d: Seq<i32>, row: nat, skip: nat, col: nat, b: int)
    requires
        row < n,
        col <= n,
        skip < n,
        d.len() == n * n,
        entries_within(d, b),
    ensures
        row_part(n, d, row, skip, col).len() == if skip < col {
            col - 1
        } else {
            col as int
        },
        entries_within(row_part(n, d, row, skip, col), b),
    decreases col,
{
    if col > 0 {
        lemma_row_part(n, d, row, skip, (col - 1) as nat, b);
        assert(row * n + col - 1 < n * n) by (nonlinear_arith)
            requires
                row < n,
                col <= n,
                col > 0,
        ;
    }
}

pub proof fn lemma_minor_part(n: nat, d: Seq<i32>, r: nat, c: nat, row: nat, b: int)
    requires
        row <= n,
        r < n,
        c < n,
        d.len() == n * n,
        entries_within(d, b),
    ensures
        minor_part(n, d, r, c, row).len() == (if r < row {
            row - 1
        } else {
            row as int
        }) * (n - 1),
        entries_within(minor_part(n, d, r, c, row), b),
    decreases row,
{
    if row > 0 {
        lemma_minor_part(n, d, r, c, (row - 1) as nat, b);
        if row - 1 != r {
            lemma_row_part(n, d, (row - 1) as nat, c, n, b);
            let k = if r < row - 1 {
                row - 2
            } else {
                row - 1
            };
            assert(k * (n - 1) + (n - 1) == (k + 1) * (n - 1)) by (nonlinear_arith);
        }
    }
}

/// A minor has (n−1)² entries, each an entry of the matrix.
pub proof fn lemma_minor(n: nat, d: Seq<i32>, r: nat, c: nat, b: int)
    requires
        r < n,
        c < n,
        d.len() == n * n,
        entries_within(d, b),
    ensures
        minor_seq(n, d, r, c).len() == (n - 1) * (n - 1),
        entries_within(minor_seq(n, d, r, c), b),
{
    lemma_minor_part(n, d, r, c, n, b);
}

/// The least inverse of `a` modulo `m` in `1..m`, where there is one.
pub open spec fn inverse_mod(a: int, m: int) -> int {
    choose|i: int|
        1 <= i < m && is_mod_inverse(a, i, m) && forall|j: int|
            1 <= j < i ==> !is_mod_inverse(a, j, m)
}

/// Entry `k` (row-major) of the inverse modulo `m` of the `n`×`n` matrix `d`: the adjugate
/// entry there, which is the cofactor of the transposed position, times the inverse of the
/// determinant, reduced modulo `m`.
pub open spec fn inverse_entry(n: nat, d: Seq<i32>, m: int, k: int) -> int {
    (cofactor(n, d, (k % n as int) as nat, (k / n as int) as nat) * inverse_mod(
        det_spec(n, d) % m,
        m,
    )) % m
}

/// `Σ_{col < k} d[row][col] · v[col]`.
pub open spec fn dot_prefix(n: nat, d: Seq<i32>, v: Seq<i32>, row: nat, k: nat) -> int
    decreases k,
{
    if k == 0 {
        0
    } else {
        dot_prefix(n, d, v, row, (k - 1) as nat) + d[row * n + k - 1] * v[k - 1]
    }
}

/// Every partial sum of the product of `d` with `v` fits in an `i32`.
pub open spec fn product_fits(n: nat, d: Seq<i32>, v: Seq<i32>) -> bool {
    forall|row: nat, k: nat|
        row < n && k <= n ==> i32::MIN <= #[trigger] dot_prefix(n, d, v, row, k) <= i32::MAX
}

/// Column `c` of the `n`×`n` row-major matrix `b`.
pub open spec fn column(n: nat, b: Seq<i32>, c: int) -> Seq<i32> {
    Seq::new(n, |j: int| b[j * n + c])
}

/// `b` is an inverse of `a` modulo `m`: every entry of the product `a · b`, reduced modulo
/// `m`, is the entry of the identity.
pub open spec fn is_inverse_mod(n: nat, a: Seq<i32>, b: Seq<i32>, m: int) -> bool {
    forall|r: int, c: int|
        0 <= r < n && 0 <= c < n ==> #[trigger] (dot_prefix(n, a, column(n, b, c), r as nat, n)
            % m) == (if r == c {
            1int
        } else {
            0int
        })
}

/// `Σ_{j < k} d[r][j] · cofactor(c, j)`: entry (`r`, `c`) of `d · adj(d)`, first `k` terms.
pub open spec fn adj_dot(n: nat, d: Seq<i32>, r: int, c: int, k: nat) -> int
    decreases k,
{
    if k == 0 {
        0
    } else {
        adj_dot(n, d, r, c, (k - 1) as nat) + d[r * n + k - 1] * cofactor(
            n,
            d,
            c as nat,
            (k - 1) as nat,
        )
    }
}

/// The inverse modulo `m` as computed from the adjugate, row-major.
pub open spec fn inverse_seq(n: nat, d: Seq<i32>, m: int) -> Seq<i32> {
    Seq::new(n * n, |k: int| inverse_entry(n, d, m, k) as i32)
}

/// Reducing each adjugate entry times `t` modulo `m` before the product changes nothing
/// modulo `m`.
proof fn lemma_product_reduces(n: nat, d: Seq<i32>, b: Seq<i32>, m: int, t: int, r: int, c: int, k: nat)
    requires
        m >= 2,
        n >= 1,
        0 <= r < n,
        0 <= c < n,
        k <= n,
        b.len() == n * n,
        d.len() == n * n,
        forall|i: int|
            0 <= i < n * n ==> #[trigger] b[i] as int == (cofactor(
                n,
                d,
                (i % n as int) as nat,
                (i / n as int) as nat,
            ) * t) % m,
    ensures
        dot_prefix(n, d, column(n, b, c), r as nat, k) % m == (adj_dot(n, d, r, c, k) * t) % m,
    decreases k,
{
    let col = column(n, b, c);
    if k == 0 {
        assert(0 * t == 0) by (nonlinear_arith);
        vstd::arithmetic::div_mod::lemma_small_mod(0, m as nat);
    } else {
        let j = k - 1;
        lemma_product_reduces(n, d, b, m, t, r, c, (k - 1) as nat);
        let idx = j * n + c;
        assert(0 <= idx < n * n) by (nonlinear_arith)
            requires
                idx == j * n + c,
                0 <= j < n,
                0 <= c < n,
        ;
        vstd::arithmetic::div_mod::lemma_fundamental_div_mod_converse(idx, n as int, j, c);
        assert(col[j] == b[idx]);
        let cof = cofactor(n, d, c as nat, j as nat);
        assert(col[j] as int == (cof * t) % m);
        let x = d[r * n + j] as int;
        let p = dot_prefix(n, d, col, r as nat, (k - 1) as nat);
        let a = adj_dot(n, d, r, c, (k - 1) as nat);
        // p + x·((cof·t) mod m) ≡ a·t + x·cof·t  (mod m)
        vstd::arithmetic::div_mod::lemma_mul_mod_noop_right(x, cof * t, m);
        vstd::arithmetic::div_mod::lemma_add_mod_noop(p, x * ((cof * t) % m), m);
        vstd::arithmetic::div_mod::lemma_add_mod_noop(a * t, x * (cof * t), m);
        assert(a * t + x * (cof * t) == (a + x * cof) * t) by (nonlinear_arith);
    }
}

/// The minors of a 2×2 matrix are its single opposite entries.
proof fn lemma_minor_2(d: Seq<i32>, r: nat, c: nat)
    requires
        d.len() == 4,
        r < 2,
        c < 2,
    ensures
        minor_seq(2, d, r, c) =~= seq![d[(1 - r) * 2 + (1 - c)]],
{
    reveal_with_fuel(minor_part, 3);
    reveal_with_fuel(row_part, 3);
}

/// The cofactor of entry (`r`, `c`) of a 3×3 matrix, written out.
pub open spec fn cofactor3(d: Seq<i32>, r: int, c: int) -> int {
    let a = if r == 0 {
        1int
    } else {
        0int
    };
    let b = if r == 2 {
        1int
    } else {
        2int
    };
    let x = if c == 0 {
        1int
    } else {
        0int
    };
    let y = if c == 2 {
        1int
    } else {
        2int
    };
    let m = d[a * 3 + x] * d[b * 3 + y] - d[a * 3 + y] * d[b * 3 + x];
    if (r + c) % 2 == 0 {
        m
    } else {
        -m
    }
}

proof fn lemma_cofactor_3(d: Seq<i32>, r: nat, c: nat)
    requires
        d.len() == 9,
        r < 3,
        c < 3,
    ensures
        cofactor(3, d, r, c) == cofactor3(d, r as int, c as int),
{
    reveal_with_fuel(minor_part, 4);
    reveal_with_fuel(row_part, 4);
    let a: int = if r == 0 {
        1
    } else {
        0
    };
    let b: int = if r == 2 {
        1
    } else {
        2
    };
    let x: int = if c == 0 {
        1
    } else {
        0
    };
    let y: int = if c == 2 {
        1
    } else {
        2
    };
    assert(minor_seq(3, d, r, c) =~= seq![d[a * 3 + x], d[a * 3 + y], d[b * 3 + x], d[b * 3 + y]]);
}

/// Distributing a factor over a difference of products, with the factor put first, in the
/// middle or last.
proof fn lemma_distribute(a: int, b: int, c: int, d: int, e: int)
    ensures
        a * (b * c - d * e) == a * b * c - a * d * e,
        a * (b * c - d * e) == b * a * c - d * a * e,
        a * (b * c - d * e) == b * c * a - d * e * a,
        a * (-(b * c - d * e)) == a * d * e - a * b * c,
        a * (-(b * c - d * e)) == d * a * e - b * a * c,
        a * (-(b * c - d * e)) == d * e * a - b * c * a,
{
    assert(a * (b * c - d * e) == a * b * c - a * d * e) by (nonlinear_arith);
    assert(a * b * c == b * a * c && a * d * e == d * a * e) by (nonlinear_arith);
    assert(a * b * c == b * c * a && a * d * e == d * e * a) by (nonlinear_arith);
    assert(a * (-(b * c - d * e)) == -(a * (b * c - d * e))) by (nonlinear_arith);
}

/// Up to size 3, each row of a matrix against the cofactors of a row gives the
/// determinant where the rows are the same and 0 where they differ: `d · adj(d) = det · I`.
pub proof fn lemma_adjugate_small(n: nat, d: Seq<i32>, r: int, c: int)
    requires
        1 <= n <= 3,
        d.len() == n * n,
        0 <= r < n,
        0 <= c < n,
    ensures
        adj_dot(n, d, r, c, n) == if r == c {
            det_spec(n, d)
        } else {
            0
        },
{
    reveal_with_fuel(adj_dot, 4);
    if n == 1 {
        assert(cofactor(1, d, 0, 0) == 1);
    } else if n == 2 {
        assert(d.len() == 4) by (nonlinear_arith)
            requires
                d.len() == n * n,
                n == 2,
        ;
        lemma_minor_2(d, c as nat, 0);
        lemma_minor_2(d, c as nat, 1);
        let e0 = d[0] as int;
        let e1 = d[1] as int;
        let e2 = d[2] as int;
        let e3 = d[3] as int;
        if r == 0 && c == 1 {
            assert(e0 * (-e1) + e1 * e0 == 0) by (nonlinear_arith);
        } else if r == 1 && c == 0 {
            assert(e2 * e3 + e3 * (-e2) == 0) by (nonlinear_arith);
        } else if r == 0 {
            assert(e0 * e3 + e1 * (-e2) == e0 * e3 - e1 * e2) by (nonlinear_arith);
        } else {
            assert(e2 * (-e1) + e3 * e0 == e0 * e3 - e1 * e2) by (nonlinear_arith);
        }
    } else {
        assert(d.len() == 9) by (nonlinear_arith)
            requires
                d.len() == n * n,
                n == 3,
        ;
        lemma_cofactor_3(d, c as nat, 0);
        lemma_cofactor_3(d, c as nat, 1);
        lemma_cofactor_3(d, c as nat, 2);
        let e0 = d[0] as int;
        let e1 = d[1] as int;
        let e2 = d[2] as int;
        let e3 = d[3] as int;
        let e4 = d[4] as int;
        let e5 = d[5] as int;
        let e6 = d[6] as int;
        let e7 = d[7] as int;
        let e8 = d[8] as int;
        assert(det_spec(3, d) == e0 * (e4 * e8 - e5 * e7) - e1 * (e3 * e8 - e5 * e6) + e2 * (e3 * e7 - e4 * e6));
        lemma_distribute(e0, e4, e8, e5, e7);
        lemma_distribute(e1, e3, e8, e5, e6);
        lemma_distribute(e2, e3, e7, e4, e6);
        if r == 0 && c == 0 {
            assert(adj_dot(3, d, r, c, 3) == e0 * (e4 * e8 - e5 * e7) + e1 * (-(e3 * e8 - e5 * e6)) + e2 * (e3 * e7 - e4 * e6));
            lemma_distribute(e0, e4, e8, e5, e7);
            lemma_distribute(e1, e3, e8, e5, e6);
            lemma_distribute(e2, e3, e7, e4, e6);
            assert(e0 * (e4 * e8 - e5 * e7) + e1 * (-(e3 * e8 - e5 * e6)) + e2 * (e3 * e7 - e4 * e6) == e0 * (e4 * e8 - e5 * e7) - e1 * (e3 * e8 - e5 * e6) + e2 * (e3 * e7 - e4 * e6));
        } else if r == 0 && c == 1 {
            assert(adj_dot(3, d, r, c, 3) == e0 * (-(e1 * e8 - e2 * e7)) + e1 * (e0 * e8 - e2 * e6) + e2 * (-(e0 * e7 - e1 * e6)));
            lemma_distribute(e0, e1, e8, e2, e7);
            lemma_distribute(e1, e0, e8, e2, e6);
            lemma_distribute(e2, e0, e7, e1, e6);
            assert(e0 * (-(e1 * e8 - e2 * e7)) + e1 * (e0 * e8 - e2 * e6) + e2 * (-(e0 * e7 - e1 * e6)) == 0);
        } else if r == 0 && c == 2 {
            assert(adj_dot(3, d, r, c, 3) == e0 * (e1 * e5 - e2 * e4) + e1 * (-(e0 * e5 - e2 * e3)) + e2 * (e0 * e4 - e1 * e3));
            lemma_distribute(e0, e1, e5, e2, e4);
            lemma_distribute(e1, e0, e5, e2, e3);
            lemma_distribute(e2, e0, e4, e1, e3);
            assert(e0 * (e1 * e5 - e2 * e4) + e1 * (-(e0 * e5 - e2 * e3)) + e2 * (e0 * e4 - e1 * e3) == 0);
        } else if r == 1 && c == 0 {
            assert(adj_dot(3, d, r, c, 3) == e3 * (e4 * e8 - e5 * e7) + e4 * (-(e3 * e8 - e5 * e6)) + e5 * (e3 * e7 - e4 * e6));
            lemma_distribute(e3, e4, e8, e5, e7);
            lemma_distribute(e4, e3, e8, e5, e6);
            lemma_distribute(e5, e3, e7, e4, e6);
            assert(e3 * (e4 * e8 - e5 * e7) + e4 * (-(e3 * e8 - e5 * e6)) + e5 * (e3 * e7 - e4 * e6) == 0);
        } else if r == 1 && c == 1 {
            assert(adj_dot(3, d, r, c, 3) == e3 * (-(e1 * e8 - e2 * e7)) + e4 * (e0 * e8 - e2 * e6) + e5 * (-(e0 * e7 - e1 * e6)));
            lemma_distribute(e3, e1, e8, e2, e7);
            lemma_distribute(e4, e0, e8, e2, e6);
            lemma_distribute(e5, e0, e7, e1, e6);
            assert(e3 * (-(e1 * e8 - e2 * e7)) + e4 * (e0 * e8 - e2 * e6) + e5 * (-(e0 * e7 - e1 * e6)) == e0 * (e4 * e8 - e5 * e7) - e1 * (e3 * e8 - e5 * e6) + e2 * (e3 * e7 - e4 * e6));
        } else if r == 1 && c == 2 {
            assert(adj_dot(3, d, r, c, 3) == e3 * (e1 * e5 - e2 * e4) + e4 * (-(e0 * e5 - e2 * e3)) + e5 * (e0 * e4 - e1 * e3));
            lemma_distribute(e3, e1, e5, e2, e4);
            lemma_distribute(e4, e0, e5, e2, e3);
            lemma_distribute(e5, e0, e4, e1, e3);
            assert(e3 * (e1 * e5 - e2 * e4) + e4 * (-(e0 * e5 - e2 * e3)) + e5 * (e0 * e4 - e1 * e3) == 0);
        } else if r == 2 && c == 0 {
            assert(adj_dot(3, d, r, c, 3) == e6 * (e4 * e8 - e5 * e7) + e7 * (-(e3 * e8 - e5 * e6)) + e8 * (e3 * e7 - e4 * e6));
            lemma_distribute(e6, e4, e8, e5, e7);
            lemma_distribute(e7, e3, e8, e5, e6);
            lemma_distribute(e8, e3, e7, e4, e6);
            assert(e6 * (e4 * e8 - e5 * e7) + e7 * (-(e3 * e8 - e5 * e6)) + e8 * (e3 * e7 - e4 * e6) == 0);
        } else if r == 2 && c == 1 {
            assert(adj_dot(3, d, r, c, 3) == e6 * (-(e1 * e8 - e2 * e7)) + e7 * (e0 * e8 - e2 * e6) + e8 * (-(e0 * e7 - e1 * e6)));
            lemma_distribute(e6, e1, e8, e2, e7);
            lemma_distribute(e7, e0, e8, e2, e6);
            lemma_distribute(e8, e0, e7, e1, e6);
            assert(e6 * (-(e1 * e8 - e2 * e7)) + e7 * (e0 * e8 - e2 * e6) + e8 * (-(e0 * e7 - e1 * e6)) == 0);
        } else if r == 2 && c == 2 {
            assert(adj_dot(3, d, r, c, 3) == e6 * (e1 * e5 - e2 * e4) + e7 * (-(e0 * e5 - e2 * e3)) + e8 * (e0 * e4 - e1 * e3));
            lemma_distribute(e6, e1, e5, e2, e4);
            lemma_distribute(e7, e0, e5, e2, e3);
            lemma_distribute(e8, e0, e4, e1, e3);
            assert(e6 * (e1 * e5 - e2 * e4) + e7 * (-(e0 * e5 - e2 * e3)) + e8 * (e0 * e4 - e1 * e3) == e0 * (e4 * e8 - e5 * e7) - e1 * (e3 * e8 - e5 * e6) + e2 * (e3 * e7 - e4 * e6));
        }
    }
}

/// For matrices of sizes 1 to 3, the inverse built from the adjugate is a true inverse
/// modulo `m`: `d · inv ≡ I (mod m)`.
pub proof fn lemma_inverse_seq_is_inverse(n: nat, d: Seq<i32>, m: int)
    requires
        1 <= n <= 3,
        d.len() == n * n,
        2 <= m <= 255,
        is_mod_inverse(det_spec(n, d) % m, inverse_mod(det_spec(n, d) % m, m), m),
    ensures
        is_inverse_mod(n, d, inverse_seq(n, d, m), m),
{
    let t = inverse_mod(det_spec(n, d) % m, m);
    let b = inverse_seq(n, d, m);
    assert forall|i: int| 0 <= i < n * n implies #[trigger] b[i] as int == (cofactor(
        n,
        d,
        (i % n as int) as nat,
        (i / n as int) as nat,
    ) * t) % m by {
        lemma_mod_bound(cofactor(n, d, (i % n as int) as nat, (i / n as int) as nat) * t, m);
    }
    assert forall|r: int, c: int| 0 <= r < n && 0 <= c < n implies #[trigger] (dot_prefix(
        n,
        d,
        column(n, b, c),
        r as nat,
        n,
    ) % m) == (if r == c {
        1int
    } else {
        0int
    }) by {
        lemma_product_reduces(n, d, b, m, t, r, c, n);
        lemma_adjugate_small(n, d, r, c);
        if r == c {
            lemma_mul_mod_noop_left(det_spec(n, d), t, m);
        } else {
            assert(0 * t == 0) by (nonlinear_arith);
            vstd::arithmetic::div_mod::lemma_small_mod(0, m as nat);
        }
    }
}

proof fn lemma_inverse_mod_is(a: int, m: int, i: int)
    requires
        1 <= i < m,
        is_mod_inverse(a, i, m),
        forall|j: int| 1 <= j < i ==> !is_mod_inverse(a, j, m),
    ensures
        inverse_mod(a, m) == i,
{
    let w = inverse_mod(a, m);
    assert(1 <= w < m && is_mod_inverse(a, w, m));
    if w < i {
        assert(!is_mod_inverse(a, w, m));
    }
    if i < w {
        assert(!is_mod_inverse(a, i, m));
    }
}

proof fn lemma_split_index(k: int, n: int)
    requires
        0 <= k < n * n,
        n >= 1,
    ensures
        0 <= k % n < n,
        0 <= k / n < n,
{
    lemma_mod_bound(k, n);
    lemma_multiply_divide_lt(k, n, n);
    vstd::arithmetic::div_mod::lemma_div_pos_is_pos(k, n);
}

/// A product of two bounded numbers is bounded by the product of the bounds.
pub proof fn lemma_mul_bound(x: int, y: int, bx: int, by: int)
    requires
        -bx <= x <= bx,
        -by <= y <= by,
    ensures
        -(bx * by) <= x * y <= bx * by,
{
    assert(-(bx * by) <= x * y <= bx * by) by (nonlinear_arith)
        requires
            -bx <= x <= bx,
            -by <= y <= by,
    ;
}

proof fn lemma_square_len(n: nat)
    ensures
        n * n >= n,
        n == 1 ==> n * n == 1,
        n == 2 ==> n * n == 4,
        n == 3 ==> n * n == 9,
{
    assert(n * n >= n) by (nonlinear_arith);
}

/// `det_bound` is at least 1 and grows with the size.
pub proof fn lemma_det_bound_grows(n: nat, b: int)
    requires
        b >= 1,
    ensures
        det_bound(n, b) >= 1,
        n >= 1 ==> det_bound((n - 1) as nat, b) <= det_bound(n, b),
        n >= 1 ==> b * det_bound((n - 1) as nat, b) <= det_bound(n, b),
        n >= 1 ==> det_bound(n, b) == n * (b * det_bound((n - 1) as nat, b)),
    decreases n,
{
    if n >= 1 {
        lemma_det_bound_grows((n - 1) as nat, b);
        let p = det_bound((n - 1) as nat, b);
        assert(n * b * p >= b * p && b * p >= p && n * b * p == n * (b * p)) by (nonlinear_arith)
            requires
                n >= 1,
                b >= 1,
                p >= 1,
        ;
    }
}

/// The determinant of a matrix with entries in `-b..=b` lies in `-det_bound(n, b)..=det_bound(n, b)`.
pub proof fn lemma_det_bound(n: nat, d: Seq<i32>, b: int)
    requires
        b >= 1,
        d.len() == n * n,
        entries_within(d, b),
    ensures
        -det_bound(n, b) <= det_spec(n, d) <= det_bound(n, b),
    decreases n, n + 1,
{
    reveal_with_fuel(det_bound, 4);
    lemma_square_len(n);
    if n == 0 {
    } else if n == 1 {
        assert(-b <= d[0] <= b);
    } else if n == 2 {
        assert(-b <= d[0] <= b && -b <= d[1] <= b && -b <= d[2] <= b && -b <= d[3] <= b);
        lemma_mul_bound(d[0] as int, d[3] as int, b, b);
        lemma_mul_bound(d[1] as int, d[2] as int, b, b);
        assert(det_bound(2, b) == 2 * b * (1 * b * 1));
        assert(2 * b * (1 * b * 1) == 2 * (b * b)) by (nonlinear_arith);
    } else if n == 3 {
        lemma_det3_bound(d, b);
    } else {
        lemma_laplace_bound(n, d, b, n);
        assert(n * (b * det_bound((n - 1) as nat, b)) == n * b * det_bound((n - 1) as nat, b))
            by (nonlinear_arith);
    }
}

proof fn lemma_det3_bound(d: Seq<i32>, b: int)
    requires
        b >= 1,
        d.len() == 9,
        entries_within(d, b),
    ensures
        -(6 * (b * b * b)) <= det_spec(3, d) <= 6 * (b * b * b),
        det_bound(3, b) == 6 * (b * b * b),
        -(2 * (b * b)) <= d[4] * d[8] - d[5] * d[7] <= 2 * (b * b),
        -(2 * (b * b)) <= d[3] * d[8] - d[5] * d[6] <= 2 * (b * b),
        -(2 * (b * b)) <= d[3] * d[7] - d[4] * d[6] <= 2 * (b * b),
        -(2 * (b * b * b)) <= d[0] * (d[4] * d[8] - d[5] * d[7]) <= 2 * (b * b * b),
        -(2 * (b * b * b)) <= d[1] * (d[3] * d[8] - d[5] * d[6]) <= 2 * (b * b * b),
        -(2 * (b * b * b)) <= d[2] * (d[3] * d[7] - d[4] * d[6]) <= 2 * (b * b * b),
{
    reveal_with_fuel(det_bound, 4);
    assert(det_bound(3, b) == 3 * b * (2 * b * (1 * b * 1)));
    assert(3 * b * (2 * b * (1 * b * 1)) == 6 * (b * b * b)) by (nonlinear_arith);
    assert forall|i: int| 0 <= i < 9 implies -b <= #[trigger] d[i] <= b by {}
    lemma_mul_bound(d[4] as int, d[8] as int, b, b);
    lemma_mul_bound(d[5] as int, d[7] as int, b, b);
    lemma_mul_bound(d[3] as int, d[8] as int, b, b);
    lemma_mul_bound(d[5] as int, d[6] as int, b, b);
    lemma_mul_bound(d[3] as int, d[7] as int, b, b);
    lemma_mul_bound(d[4] as int, d[6] as int, b, b);
    assert(b * (2 * (b * b)) == 2 * (b * b * b)) by (nonlinear_arith);
    lemma_mul_bound(d[0] as int, d[4] * d[8] - d[5] * d[7], b, 2 * (b * b));
    lemma_mul_bound(d[1] as int, d[3] * d[8] - d[5] * d[6], b, 2 * (b * b));
    lemma_mul_bound(d[2] as int, d[3] * d[7] - d[4] * d[6], b, 2 * (b * b));
}

/// The first `k` terms of the expansion are bounded by `k · b · det_bound(n − 1, b)`.
pub proof fn lemma_laplace_bound(n: nat, d: Seq<i32>, b: int, k: nat)
    requires
        b >= 1,
        n >= 1,
        k <= n,
        d.len() == n * n,
        entries_within(d, b),
    ensures
        -(k * (b * det_bound((n - 1) as nat, b))) <= laplace_sum(n, d, k) <= k * (b * det_bound(
            (n - 1) as nat,
            b,
        )),
    decreases n, k,
{
    let x = b * det_bound((n - 1) as nat, b);
    lemma_square_len(n);
    if k > 0 {
        lemma_laplace_bound(n, d, b, (k - 1) as nat);
        let m = minor_seq(n, d, 0, (k - 1) as nat);
        lemma_minor(n, d, 0, (k - 1) as nat, b);
        lemma_det_bound((n - 1) as nat, m, b);
        assert(-b <= d[k - 1] <= b);
        lemma_mul_bound(d[k - 1] as int, det_spec((n - 1) as nat, m), b, det_bound((n - 1) as nat, b));
        assert((k - 1) * x + x == k * x) by (nonlinear_arith);
    } else {
        assert(0 * x == 0) by (nonlinear_arith);
    }
}

/// A square integer matrix, stored row-major.
#[derive(Debug, Clone, PartialEq)]
pub struct Matrix {
    size: usize,
    data: Vec<i32>,
}

impl Matrix {
    pub closed spec fn dim(&self) -> nat {
        self.size as nat
    }

    /// The entries, row by row.
    pub closed spec fn entries(&self) -> Seq<i32> {
        self.data@
    }

    pub open spec fn wf(&self) -> bool {
        self.entries().len() == self.dim() * self.dim()
    }

    /// The matrix of the given size with the given entries; `InvalidInput` where their
    /// number is not `size * size`.
    pub fn new(size: usize, data: Vec<i32>) -> (r: Result<Matrix, PolygraphiaError>)
        ensures
            match r {
                Ok(m) => m.wf() && m.dim() == size && m.entries() == data@,
                Err(e) => data@.len() != size * size && e is InvalidInput,
            },
    {
        if size.checked_mul(size) != Some(data.len()) {
            return Err(
                PolygraphiaError::InvalidInput(
                    String::from_str("Matrix data length doesn't match its size"),
                ),
            );
        }
        Ok(Matrix { size, data })
    }

    pub fn size(&self) -> (r: usize)
        ensures
            r == self.dim(),
    {
        self.size
    }

    pub fn get(&self, row: usize, col: usize) -> (r: i32)
        requires
            self.wf(),
            row < self.dim(),
            col < self.dim(),
        ensures
            r == self.entries()[row * self.dim() + col],
    {
        let _len = self.data.len();
        proof {
            lemma_index_in_range(self.size as nat, row as nat, col as nat);
        }
        self.data[row * self.size + col]
    }

    pub fn set(&mut self, row: usize, col: usize, value: i32)
        requires
            old(self).wf(),
            row < old(self).dim(),
            col < old(self).dim(),
        ensures
            final(self).wf(),
            final(self).dim() == old(self).dim(),
            final(self).entries() == old(self).entries().update(
                row * old(self).dim() + col,
                value,
            ),
    {
        let _len = self.data.len();
        proof {
            lemma_index_in_range(self.size as nat, row as nat, col as nat);
        }
        let i = row * self.size + col;
        self.data.set(i, value);
    }

    /// The determinant: closed forms up to size 3, expansion along the first row beyond.
    /// It is computed exactly in 64 bits, so the entries must be small enough for it to fit
    /// (`det_fits`); a matrix of letter numbers up to 9×9 always is.
    pub fn determinant(&self) -> (r: i64)
        requires
            self.wf(),
            det_fits(self.dim(), self.entries()),
        ensures
            r == det_spec(self.dim(), self.entries()),
        decreases self.dim(),
    {
        let n = self.size;
        let ghost d = self.entries();
        let ghost b = choose|b: int|
            b >= 1 && entries_within(d, b) && #[trigger] det_bound(n as nat, b) <= i64::MAX;
        proof {
            lemma_det_bound(n as nat, d, b);
            lemma_det_bound_grows(n as nat, b);
            lemma_square_len(n as nat);
        }
        match n {
            0 => 1,
            1 => self.get(0, 0) as i64,
            2 => {
                let a = self.get(0, 0) as i64;
                let bb = self.get(0, 1) as i64;
                let c = self.get(1, 0) as i64;
                let dd = self.get(1, 1) as i64;
                proof {
                    lemma_mul_bound(a as int, dd as int, 0x8000_0000, 0x8000_0000);
                    lemma_mul_bound(bb as int, c as int, 0x8000_0000, 0x8000_0000);
                }
                a * dd - bb * c
            },
            3 => {
                proof {
                    lemma_det3_bound(d, b);
                    assert(6 * (b * b * b) <= i64::MAX);
                    assert forall|i: int| 0 <= i < 9 implies -b <= #[trigger] d[i] <= b by {}
                    lemma_mul_bound(d[4] as int, d[8] as int, b, b);
                    lemma_mul_bound(d[5] as int, d[7] as int, b, b);
                    lemma_mul_bound(d[3] as int, d[8] as int, b, b);
                    lemma_mul_bound(d[5] as int, d[6] as int, b, b);
                    lemma_mul_bound(d[3] as int, d[7] as int, b, b);
                    lemma_mul_bound(d[4] as int, d[6] as int, b, b);
                    assert(b * b <= b * b * b) by (nonlinear_arith)
                        requires
                            b >= 1,
                    ;
                }
                let e0 = self.get(0, 0) as i64;
                let e1 = self.get(0, 1) as i64;
                let e2 = self.get(0, 2) as i64;
                let e3 = self.get(1, 0) as i64;
                let e4 = self.get(1, 1) as i64;
                let e5 = self.get(1, 2) as i64;
                let e6 = self.get(2, 0) as i64;
                let e7 = self.get(2, 1) as i64;
                let e8 = self.get(2, 2) as i64;
                let a = e0 * (e4 * e8 - e5 * e7);
                let bb = e1 * (e3 * e8 - e5 * e6);
                let c = e2 * (e3 * e7 - e4 * e6);
                a - bb + c
            },
            _ => {
                let ghost x = b * det_bound((n - 1) as nat, b);
                let mut det: i64 = 0;
                let mut col: usize = 0;
                proof {
                    assert(0 * x == 0) by (nonlinear_arith);
                }
                while col < n
                    invariant
                        self.wf(),
                        n == self.dim(),
                        n >= 4,
                        d == self.entries(),
                        d.len() >= n,
                        b >= 1,
                        entries_within(d, b),
                        x == b * det_bound((n - 1) as nat, b),
                        x <= det_bound(n as nat, b),
                        det_bound(n as nat, b) <= i64::MAX,
                        det_bound(n as nat, b) == n * x,
                        col <= n,
                        det == laplace_sum(n as nat, d, col as nat),
                        -(col * x) <= det <= col * x,
                    decreases n - col,
                {
                    let minor = self.minor(0, col);
                    proof {
                        lemma_minor(n as nat, d, 0, col as nat, b);
                        lemma_det_bound_grows(n as nat, b);
                        lemma_det_bound((n - 1) as nat, minor.entries(), b);
                        assert(-b <= d[col as int] <= b);
                    }
                    let md = minor.determinant();
                    let e = self.get(0, col) as i64;
                    proof {
                        lemma_mul_bound(e as int, md as int, b, det_bound((n - 1) as nat, b));
                        assert((col + 1) * x == col * x + x && (col + 1) * x <= n * x)
                            by (nonlinear_arith)
                            requires
                                col + 1 <= n,
                                x >= 0,
                        ;
                    }
                    let term = e * md;
                    if col % 2 == 0 {
                        det = det + term;
                    } else {
                        det = det - term;
                    }
                    col += 1;
                }
                det
            },
        }
    }

    /// The transposed cofactor matrix, row-major: entry `k` is the cofactor of
    /// (`k % n`, `k / n`).
    fn adjugate(&self) -> (r: Vec<i64>)
        requires
            self.wf(),
            det_fits(self.dim(), self.entries()),
        ensures
            r@.len() == self.dim() * self.dim(),
            forall|k: int|
                0 <= k < r@.len() ==> #[trigger] r@[k] == cofactor(
                    self.dim(),
                    self.entries(),
                    (k % self.dim() as int) as nat,
                    (k / self.dim() as int) as nat,
                ),
    {
        let n = self.size;
        if n == 0 {
            assert(0 * 0 == 0nat);
            return Vec::new();
        }
        let ghost d = self.entries();
        let ghost b = choose|b: int|
            b >= 1 && entries_within(d, b) && #[trigger] det_bound(n as nat, b) <= i64::MAX;
        proof {
            lemma_det_bound_grows(n as nat, b);
        }
        let total = self.data.len();
        let mut adj: Vec<i64> = Vec::new();
        let mut k: usize = 0;
        while k < total
            invariant
                self.wf(),
                n == self.dim(),
                n >= 1,
                d == self.entries(),
                total == n * n,
                b >= 1,
                entries_within(d, b),
                det_bound((n - 1) as nat, b) <= i64::MAX,
                k <= total,
                adj@.len() == k,
                forall|j: int|
                    0 <= j < k ==> #[trigger] adj@[j] == cofactor(
                        n as nat,
                        d,
                        (j % n as int) as nat,
                        (j / n as int) as nat,
                    ),
            decreases total - k,
        {
            proof {
                lemma_split_index(k as int, n as int);
            }
            let row = k % n;
            let col = k / n;
            proof {
                assert(row + col <= n * n) by (nonlinear_arith)
                    requires
                        row < n,
                        col < n,
                ;
            }
            let minor = self.minor(row, col);
            proof {
                lemma_minor(n as nat, d, row as nat, col as nat, b);
                lemma_det_bound((n - 1) as nat, minor.entries(), b);
            }
            let md = minor.determinant();
            let c = if (row + col) % 2 == 0 {
                md
            } else {
                -md
            };
            adj.push(c);
            k += 1;
        }
        adj
    }

    /// The inverse of the matrix modulo `modulus`: the adjugate times the inverse of the
    /// determinant, reduced modulo `modulus`; `InvalidKey` where the reduced determinant is
    /// not coprime with `modulus`. Up to size 3 the result is proved to be a true inverse:
    /// the matrix times it is the identity modulo `modulus`. The modulus is taken in `2..=255`, the range of the
    /// byte-sized arithmetic helpers.
    pub fn mod_inverse(&self, modulus: i32) -> (r: Result<Matrix, PolygraphiaError>)
        requires
            self.wf(),
            det_fits(self.dim(), self.entries()),
            2 <= modulus <= 255,
        ensures
            match r {
                Ok(inv) => {
                    &&& gcd_spec(
                        (det_spec(self.dim(), self.entries()) % modulus as int) as nat,
                        modulus as nat,
                    ) == 1
                    &&& inv.wf()
                    &&& inv.dim() == self.dim()
                    &&& forall|k: int|
                        0 <= k < inv.entries().len() ==> #[trigger] inv.entries()[k]
                            == inverse_entry(self.dim(), self.entries(), modulus as int, k)
                    &&& inv.entries() == inverse_seq(self.dim(), self.entries(), modulus as int)
                    &&& (1 <= self.dim() <= 3 ==> is_inverse_mod(
                        self.dim(),
                        self.entries(),
                        inv.entries(),
                        modulus as int,
                    ))
                },
                Err(e) => {
                    &&& gcd_spec(
                        (det_spec(self.dim(), self.entries()) % modulus as int) as nat,
                        modulus as nat,
                    ) != 1
                    &&& e is InvalidKey
                },
            },
    {
        let n = self.size;
        let ghost d = self.entries();
        let det = self.determinant();
        let m = modulus as i64;
        let det_mod: i64 = match det.checked_rem_euclid(m) {
            Some(v) => v,
            None => 0,
        };
        proof {
            lemma_mod_bound(det as int, m as int);
        }
        if gcd(det_mod as u8, modulus as u8) != 1 {
            return Err(
                PolygraphiaError::InvalidKey(
                    String::from_str("Matrix determinant is not coprime with the modulus"),
                ),
            );
        }
        let det_inv = match mod_inverse(det_mod as u8, modulus as u8) {
            Ok(i) => i as i64,
            Err(e) => {
                return Err(e);
            },
        };
        proof {
            lemma_inverse_mod_is(det_mod as int, m as int, det_inv as int);
        }
        let adj = self.adjugate();
        let total = adj.len();
        let mut inv_data: Vec<i32> = Vec::new();
        let mut k: usize = 0;
        while k < total
            invariant
                n == self.dim(),
                d == self.entries(),
                total == n * n,
                adj@.len() == total,
                forall|j: int|
                    0 <= j < adj@.len() ==> #[trigger] adj@[j] == cofactor(
                        n as nat,
                        d,
                        (j % n as int) as nat,
                        (j / n as int) as nat,
                    ),
                2 <= m <= 255,
                m == modulus,
                1 <= det_inv < m,
                det_inv == inverse_mod(det_spec(n as nat, d) % m as int, m as int),
                k <= total,
                inv_data@.len() == k,
                forall|j: int|
                    0 <= j < k ==> #[trigger] inv_data@[j] == inverse_entry(
                        n as nat,
                        d,
                        m as int,
                        j,
                    ),
            decreases total - k,
        {
            let a: i64 = match adj[k].checked_rem_euclid(m) {
                Some(v) => v,
                None => 0,
            };
            proof {
                lemma_mod_bound(adj@[k as int] as int, m as int);
                lemma_mul_mod_noop_left(adj@[k as int] as int, det_inv as int, m as int);
                assert(a * det_inv <= 255 * 255) by (nonlinear_arith)
                    requires
                        0 <= a < 255,
                        0 <= det_inv < 255,
                ;
                assert(a * det_inv >= 0) by (nonlinear_arith)
                    requires
                        0 <= a,
                        0 <= det_inv,
                ;
                lemma_mod_bound(a * det_inv, m as int);
            }
            let v: i64 = match (a * det_inv).checked_rem_euclid(m) {
                Some(v) => v,
                None => 0,
            };
            inv_data.push(v as i32);
            k += 1;
        }
        proof {
            assert(inv_data@ =~= inverse_seq(n as nat, d, m as int));
            if 1 <= n <= 3 {
                lemma_inverse_seq_is_inverse(n as nat, d, m as int);
            }
        }
        Ok(Matrix { size: n, data: inv_data })
    }

    /// The product of the matrix with the column `v`: entry `row` is
    /// `Σ_col M[row][col] · v[col]`, with no reduction. The sums must fit in an `i32`
    /// (`product_fits`).
    pub fn multiply_vector(&self, v: &[i32]) -> (r: Vec<i32>)
        requires
            self.wf(),
            v@.len() == self.dim(),
            product_fits(self.dim(), self.entries(), v@),
        ensures
            r@.len() == self.dim(),
            forall|row: int|
                0 <= row < self.dim() ==> #[trigger] r@[row] == dot_prefix(
                    self.dim(),
                    self.entries(),
                    v@,
                    row as nat,
                    self.dim(),
                ),
    {
        let n = self.size;
        let ghost d = self.entries();
        let mut result: Vec<i32> = Vec::new();
        let mut row: usize = 0;
        while row < n
            invariant
                self.wf(),
                n == self.dim(),
                d == self.entries(),
                v@.len() == n,
                product_fits(n as nat, d, v@),
                row <= n,
                result@.len() == row,
                forall|r: int|
                    0 <= r < row ==> #[trigger] result@[r] == dot_prefix(
                        n as nat,
                        d,
                        v@,
                        r as nat,
                        n as nat,
                    ),
            decreases n - row,
        {
            let mut sum: i64 = 0;
            let mut col: usize = 0;
            while col < n
                invariant
                    self.wf(),
                    n == self.dim(),
                    d == self.entries(),
                    v@.len() == n,
                    product_fits(n as nat, d, v@),
                    row < n,
                    col <= n,
                    sum == dot_prefix(n as nat, d, v@, row as nat, col as nat),
                decreases n - col,
            {
                let e = self.get(row, col) as i64;
                let x = v[col] as i64;
                proof {
                    assert(i32::MIN <= dot_prefix(n as nat, d, v@, row as nat, col as nat)
                        <= i32::MAX);
                    assert(i32::MIN <= dot_prefix(n as nat, d, v@, row as nat, (col + 1) as nat)
                        <= i32::MAX);
                    lemma_mul_bound(e as int, x as int, 0x8000_0000, 0x8000_0000);
                }
                sum = sum + e * x;
                col += 1;
            }
            proof {
                assert(i32::MIN <= dot_prefix(n as nat, d, v@, row as nat, n as nat) <= i32::MAX);
            }
            result.push(sum as i32);
            row += 1;
        }
        result
    }

    /// The matrix without row `skip_row` and column `skip_col`.
    fn minor(&self, skip_row: usize, skip_col: usize) -> (r: Matrix)
        requires
            self.wf(),
            skip_row < self.dim(),
            skip_col < self.dim(),
        ensures
            r.wf(),
            r.dim() == self.dim() - 1,
            r.entries() == minor_seq(self.dim(), self.entries(), skip_row as nat, skip_col as nat),
    {
        let n = self.size;
        let ghost d = self.data@;
        let mut data: Vec<i32> = Vec::new();
        let mut row: usize = 0;
        while row < n
            invariant
                self.wf(),
                n == self.dim(),
                d == self.entries(),
                skip_row < n,
                skip_col < n,
                row <= n,
                data@ == minor_part(n as nat, d, skip_row as nat, skip_col as nat, row as nat),
            decreases n - row,
        {
            if row != skip_row {
                let ghost before = data@;
                let mut col: usize = 0;
                while col < n
                    invariant
                        self.wf(),
                        n == self.dim(),
                        d == self.entries(),
                        row < n,
                        col <= n,
                        data@ == before + row_part(
                            n as nat,
                            d,
                            row as nat,
                            skip_col as nat,
                            col as nat,
                        ),
                    decreases n - col,
                {
                    if col != skip_col {
                        let v = self.get(row, col);
                        data.push(v);
                    }
                    col += 1;
                }
            }
            row += 1;
        }
        proof {
            lemma_minor(n as nat, d, skip_row as nat, skip_col as nat, 0x8000_0000);
        }
        Matrix { size: n - 1, data }
    }
}

proof fn lemma_index_in_range(n: nat, row: nat, col: nat)
    requires
        row < n,
        col < n,
    ensures
        row * n + col < n * n,
        row * n <= row * n + col,
{
    assert(row * n + col < n * n) by (nonlinear_arith)
        requires
            row < n,
            col < n,
    ;
}

} // verus!
