//! Random lattice bases and the Hadamard quality threshold.
//!
//! The Hadamard ratio of an `n` by `n` basis is
//! `(|det| / (|c_0| * ... * |c_(n-1)|))^(1/n)` over its columns `c_i`. The threshold
//! `ratio > 19/20` is decided exactly: raised to the power `2n` it reads
//! `400^n * det^2 > 361^n * |c_0|^2 * ... * |c_(n-1)|^2`.
use vstd::prelude::*;
use crate::matrix::{
    column, column_of, det, det_fits, determinant, dot, dot_checked, dot_fits, expansion, in_i128, minor, sign, IntMatrix,
};
use crate::random::draw_between;

verus! {

/// `b` raised to the power `e`.
pub open spec fn pow(b: int, e: nat) -> int
    decreases e,
{
    if e == 0 {
        1
    } else {
        b * pow(b, (e - 1) as nat)
    }
}

/// Product of the squared norms of the first `k` columns of `m`.
pub open spec fn norms_product(m: Seq<Seq<int>>, k: int) -> int
    decreases k,
{
    if k <= 0 {
        1
    } else {
        norms_product(m, k - 1) * dot(column(m, k - 1), column(m, k - 1))
    }
}

/// The Hadamard ratio of `m` exceeds `19/20`.
pub open spec fn hadamard_good(m: Seq<Seq<int>>) -> bool {
    pow(400, m.len()) * (det(m) * det(m)) > pow(361, m.len()) * norms_product(m, m.len() as int)
}

/// Every entry of `m` lies between `-p` and `p`.
pub open spec fn entries_within(m: Seq<Seq<int>>, p: int) -> bool {
    forall|i: int, j: int| 0 <= i < m.len() && 0 <= j < m[i].len() ==> -p <= #[trigger] m[i][j] <= p
}

/// Every power of `b` up to the `e`-th lies in the range of `i128`.
pub open spec fn pow_fits(b: int, e: nat) -> bool {
    forall|k: nat| k <= e ==> in_i128(#[trigger] pow(b, k))
}

/// The squared norms of the first `k` columns of `m`, and their running
/// products, can be computed within the integer ranges used.
pub open spec fn norms_fit(m: Seq<Seq<int>>, k: int) -> bool {
    forall|j: int| 0 <= j < k ==> dot_fits(#[trigger] column(m, j), column(m, j)) && in_i128(norms_product(m, j + 1))
}

/// Every value that deciding the Hadamard threshold for `m` goes through
/// lies in the range of `i128`.
pub open spec fn threshold_fits(m: Seq<Seq<int>>) -> bool {
    &&& det_fits(m)
    &&& in_i128(det(m) * det(m))
    &&& norms_fit(m, m.len() as int)
    &&& pow_fits(400, m.len())
    &&& pow_fits(361, m.len())
    &&& in_i128(pow(400, m.len()) * (det(m) * det(m)))
    &&& in_i128(pow(361, m.len()) * norms_product(m, m.len() as int))
}

/// `b` to the power `e`, or `None` where a power on the way leaves the range of `i128`.
fn pow_checked(b: i128, e: usize) -> (r: Option<i128>)
    ensures
        r is Some <==> pow_fits(b as int, e as nat),
        r matches Some(x) ==> x == pow(b as int, e as nat),
{
    let mut acc: i128 = 1;
    let mut k: usize = 0;
    while k < e
        invariant
            k <= e,
            acc == pow(b as int, k as nat),
            pow_fits(b as int, k as nat),
        decreases e - k,
    {
        match b.checked_mul(acc) {
            Some(x) => {
                acc = x;
            },
            None => {
                assert(!in_i128(pow(b as int, (k + 1) as nat)));
                return None;
            },
        }
        k = k + 1;
    }
    Some(acc)
}

/// Whether the Hadamard ratio of `basis` exceeds `19/20`, decided exactly;
/// `None` where an intermediate value leaves the range of `i128`. Since
/// `400^n * det^2` must fit in `i128`, this limits the dimension: with
/// entries bounded by `2n + 10`, every good basis of dimension 7 or more
/// overflows, and key generation then fails.
pub fn is_good_basis(basis: &IntMatrix) -> (r: Option<bool>)
    requires
        basis.wf(),
    ensures
        r is Some <==> threshold_fits(basis@),
        r matches Some(g) ==> g == hadamard_good(basis@),
{
    let n = basis.size();
    let d = match determinant(basis) {
        Some(d) => d,
        None => {
            return None;
        },
    };
    let d2 = match d.checked_mul(d) {
        Some(x) => x,
        None => {
            return None;
        },
    };
    let mut prod: i128 = 1;
    let mut j: usize = 0;
    while j < n
        invariant
            n == basis.dim(),
            basis.wf(),
            j <= n,
            prod == norms_product(basis@, j as int),
            norms_fit(basis@, j as int),
            det_fits(basis@),
            in_i128(det(basis@) * det(basis@)),
        decreases n - j,
    {
        let c = column_of(basis, j);
        let sq = match dot_checked(&c, &c) {
            Some(x) => x,
            None => {
                return None;
            },
        };
        match prod.checked_mul(sq as i128) {
            Some(x) => {
                prod = x;
            },
            None => {
                return None;
            },
        }
        j = j + 1;
    }
    let lhs = match pow_checked(400, n) {
        Some(p) => p.checked_mul(d2),
        None => None,
    };
    let rhs = match pow_checked(361, n) {
        Some(p) => p.checked_mul(prod),
        None => None,
    };
    match (lhs, rhs) {
        (Some(a), Some(b)) => Some(a > b),
        _ => None,
    }
}

/// A random `size` by `size` integer matrix with entries between
/// `-parameter` and `parameter`.
pub fn random_basis(size: usize, parameter: i64) -> (r: IntMatrix)
    requires
        parameter >= 0,
    ensures
        r.wf(),
        r.dim() == size,
        entries_within(r@, parameter as int),
{
    let mut rows: Vec<Vec<i64>> = Vec::new();
    let mut i: usize = 0;
    while i < size
        invariant
            parameter >= 0,
            i <= size,
            rows@.len() == i,
            forall|k: int| 0 <= k < i ==> (#[trigger] rows@[k])@.len() == size,
            forall|k: int, l: int| 0 <= k < i && 0 <= l < size ==> -parameter <= #[trigger] rows@[k]@[l] <= parameter,
        decreases size - i,
    {
        let mut row: Vec<i64> = Vec::new();
        let mut j: usize = 0;
        while j < size
            invariant
                parameter >= 0,
                j <= size,
                row@.len() == j,
                forall|l: int| 0 <= l < j ==> -parameter <= #[trigger] row@[l] <= parameter,
            decreases size - j,
        {
            row.push(draw_between(-parameter, parameter));
            j = j + 1;
        }
        rows.push(row);
        i = i + 1;
    }
    IntMatrix { rows }
}

/// How many random bases `good_basis` draws before it gives up.
pub const GOOD_BASIS_ATTEMPTS: usize = 100000;

/// A random `size` by `size` basis with entries between `-parameter` and
/// `parameter` whose Hadamard ratio exceeds `19/20`, or `None` where no draw
/// met the threshold within `GOOD_BASIS_ATTEMPTS` draws.
pub fn good_basis(size: usize, parameter: i64) -> (r: Option<IntMatrix>)
    requires
        parameter >= 0,
    ensures
        r matches Some(b) ==> b.wf() && b.dim() == size && entries_within(b@, parameter as int) && hadamard_good(b@),
{
    let mut attempt: usize = 0;
    while attempt < GOOD_BASIS_ATTEMPTS
        invariant
            parameter >= 0,
        decreases GOOD_BASIS_ATTEMPTS - attempt,
    {
        let b = random_basis(size, parameter);
        match is_good_basis(&b) {
            Some(true) => {
                return Some(b);
            },
            _ => {},
        }
        attempt = attempt + 1;
    }
    None
}

/// The squared norm of a vector is never negative.
pub proof fn lemma_norm_nonneg(v: Seq<int>)
    ensures
        dot(v, v) >= 0,
    decreases v.len(),
{
    if v.len() > 0 {
        assert(v.take(v.len() - 1) =~= v.drop_last());
        lemma_norm_nonneg(v.drop_last());
        let x = v.last();
        assert(x * x >= 0) by (nonlinear_arith);
    }
}

/// Products of squared column norms are never negative.
pub proof fn lemma_norms_product_nonneg(m: Seq<Seq<int>>, k: int)
    ensures
        norms_product(m, k) >= 0,
    decreases k,
{
    if k > 0 {
        lemma_norms_product_nonneg(m, k - 1);
        lemma_norm_nonneg(column(m, k - 1));
        let a = norms_product(m, k - 1);
        let b = dot(column(m, k - 1), column(m, k - 1));
        assert(a * b >= 0) by (nonlinear_arith)
            requires
                a >= 0,
                b >= 0,
        {
        }
    }
}

/// Powers of a non-negative base are non-negative.
pub proof fn lemma_pow_nonneg(b: int, e: nat)
    requires
        b >= 0,
    ensures
        pow(b, e) >= 0,
    decreases e,
{
    if e > 0 {
        lemma_pow_nonneg(b, (e - 1) as nat);
        let p = pow(b, (e - 1) as nat);
        assert(b * p >= 0) by (nonlinear_arith)
            requires
                b >= 0,
                p >= 0,
        {
        }
    }
}

/// A singular basis never passes the quality threshold, so no good basis that
/// key generation accepts is singular.
pub proof fn lemma_singular_basis_rejected(m: Seq<Seq<int>>)
    requires
        det(m) == 0,
    ensures
        !hadamard_good(m),
{
    lemma_pow_nonneg(361, m.len());
    lemma_norms_product_nonneg(m, m.len() as int);
    let p = pow(361, m.len());
    let q = norms_product(m, m.len() as int);
    assert(p * q >= 0) by (nonlinear_arith)
        requires
            p >= 0,
            q >= 0,
    {
    }
    let a = pow(400, m.len());
    assert(a * (det(m) * det(m)) == 0) by (nonlinear_arith)
        requires
            det(m) == 0,
    {
    }
}

/// `c` times the `n` by `n` identity.
pub open spec fn scaled_identity(c: int, n: nat) -> Seq<Seq<int>> {
    Seq::new(n, |i: int| Seq::new(n, |j: int| if i == j { c } else { 0int }))
}

/// Removing the first row and column of a scaled identity leaves a smaller one.
proof fn lemma_scaled_identity_minor(c: int, n: nat)
    requires
        n >= 1,
    ensures
        minor(scaled_identity(c, n), 0) == scaled_identity(c, (n - 1) as nat),
{
    let m = minor(scaled_identity(c, n), 0);
    let s = scaled_identity(c, (n - 1) as nat);
    assert forall|i: int| 0 <= i < n - 1 implies #[trigger] m[i] == s[i] by {
        assert(m[i] =~= s[i]);
    }
    assert(m =~= s);
}

/// Only the first term of the expansion of a scaled identity is non-zero.
proof fn lemma_scaled_identity_expansion(c: int, n: nat, k: int)
    requires
        1 <= k <= n,
    ensures
        expansion(scaled_identity(c, n), k) == c * det(minor(scaled_identity(c, n), 0)),
    decreases k,
{
    let m = scaled_identity(c, n);
    if k > 1 {
        lemma_scaled_identity_expansion(c, n, k - 1);
        let x = m[0][k - 1];
        assert(x == 0);
        let sg = sign(k - 1);
        let d = det(minor(m, k - 1));
        assert(sg * x * d == 0) by (nonlinear_arith)
            requires
                x == 0,
        {
        }
    } else {
        assert(expansion(m, 0) == 0);
        assert(sign(0) == 1);
    }
}

/// The determinant of `c` times the `n` by `n` identity is `c^n`.
pub proof fn lemma_scaled_identity_det(c: int, n: nat)
    ensures
        det(scaled_identity(c, n)) == pow(c, n),
    decreases n,
{
    if n > 0 {
        lemma_scaled_identity_minor(c, n);
        lemma_scaled_identity_det(c, (n - 1) as nat);
        lemma_scaled_identity_expansion(c, n, n as int);
    }
}

/// The squared norm of each column of `c` times the identity is `c * c`.
proof fn lemma_scaled_identity_column(c: int, n: nat, j: int, k: int)
    requires
        0 <= j < n,
        0 <= k <= n,
    ensures
        dot(column(scaled_identity(c, n), j).take(k), column(scaled_identity(c, n), j).take(k)) == if k > j { c * c } else { 0 },
    decreases k,
{
    let v = column(scaled_identity(c, n), j);
    if k > 0 {
        lemma_scaled_identity_column(c, n, j, k - 1);
        let w = v.take(k);
        assert(w.drop_last() =~= v.take(k - 1));
        assert(w.take(k - 1) =~= v.take(k - 1));
        assert(dot(w, w) == dot(v.take(k - 1), v.take(k - 1)) + w.last() * w[k - 1]);
        let y = v[k - 1];
        assert(w.last() == y && w[k - 1] == y);
        if k - 1 != j {
            assert(y == 0);
            assert(y * y == 0) by (nonlinear_arith)
                requires
                    y == 0,
            {
            }
        } else {
            assert(y == c);
        }
    } else {
        assert(v.take(0).len() == 0);
    }
}

/// The product of the squared column norms of `c` times the identity.
proof fn lemma_scaled_identity_norms(c: int, n: nat, k: int)
    requires
        0 <= k <= n,
    ensures
        norms_product(scaled_identity(c, n), k) == pow(c * c, k as nat),
    decreases k,
{
    if k > 0 {
        lemma_scaled_identity_norms(c, n, k - 1);
        let v = column(scaled_identity(c, n), k - 1);
        lemma_scaled_identity_column(c, n, k - 1, n as int);
        assert(v.take(n as int) =~= v);
        let p = pow(c * c, (k - 1) as nat);
        assert(p * (c * c) == (c * c) * p) by (nonlinear_arith);
    }
}

/// `b^e * b^e == (b * b)^e`.
proof fn lemma_pow_square(b: int, e: nat)
    ensures
        pow(b, e) * pow(b, e) == pow(b * b, e),
    decreases e,
{
    if e > 0 {
        lemma_pow_square(b, (e - 1) as nat);
        let p = pow(b, (e - 1) as nat);
        assert((b * p) * (b * p) == (b * b) * (p * p)) by (nonlinear_arith);
    }
}

/// Powers of a positive base are positive, and grow with the base.
proof fn lemma_pow_grows(a: int, b: int, e: nat)
    requires
        0 < a < b,
        e >= 1,
    ensures
        0 < pow(a, e) < pow(b, e),
    decreases e,
{
    if e > 1 {
        lemma_pow_grows(a, b, (e - 1) as nat);
        let p = pow(a, (e - 1) as nat);
        let q = pow(b, (e - 1) as nat);
        assert(0 < a * p < b * q) by (nonlinear_arith)
            requires
                0 < a < b,
                0 < p < q,
        {
        }
    } else {
        assert(pow(a, 0) == 1 && pow(b, 0) == 1);
        assert(pow(a, 1) == a * 1 && pow(b, 1) == b * 1);
    }
}

/// Powers of a positive base are positive.
proof fn lemma_pow_positive(b: int, e: nat)
    requires
        b > 0,
    ensures
        pow(b, e) > 0,
    decreases e,
{
    if e > 0 {
        lemma_pow_positive(b, (e - 1) as nat);
        let p = pow(b, (e - 1) as nat);
        assert(b * p > 0) by (nonlinear_arith)
            requires
                b > 0,
                p > 0,
        {
        }
    }
}

/// A non-zero multiple of the identity is perfectly orthogonal: its squared
/// determinant equals the product of its squared column norms (Hadamard
/// ratio exactly `1`), so it passes the quality threshold.
pub proof fn lemma_scaled_identity_orthogonal(c: int, n: nat)
    requires
        c != 0,
        n >= 1,
    ensures
        det(scaled_identity(c, n)) * det(scaled_identity(c, n)) == norms_product(scaled_identity(c, n), n as int),
        hadamard_good(scaled_identity(c, n)),
{
    let m = scaled_identity(c, n);
    lemma_scaled_identity_det(c, n);
    lemma_pow_square(c, n);
    lemma_scaled_identity_norms(c, n, n as int);
    assert(c * c > 0) by (nonlinear_arith)
        requires
            c != 0,
    {
    }
    lemma_pow_positive(c * c, n);
    lemma_pow_grows(361, 400, n);
    let x = pow(c * c, n);
    let a = pow(361, n);
    let b = pow(400, n);
    assert(b * x > a * x) by (nonlinear_arith)
        requires
            x > 0,
            0 < a < b,
    {
    }
}

} // verus!
