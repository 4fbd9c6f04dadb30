//! Exact linear decomposition and Babai's rounding decoder.
//!
//! Coordinates are rational: a vector of numerators over one common
//! denominator, the determinant of the basis.
use vstd::prelude::*;
use crate::basis::{hadamard_good, is_good_basis, threshold_fits};
use crate::matrix::{det, det_fits, determinant, ints, mat_vec, mat_vec_fits, multiply_vec, mul_wide, IntMatrix};

verus! {

/// `c * v`.
pub open spec fn scale(c: int, v: Seq<int>) -> Seq<int> {
    Seq::new(v.len(), |i: int| c * v[i])
}

/// `m` with column `j` replaced by `v`.
pub open spec fn with_column(m: Seq<Seq<int>>, j: int, v: Seq<int>) -> Seq<Seq<int>> {
    Seq::new(m.len(), |r: int| m[r].update(j, v[r]))
}

/// `a / d` rounded to the nearest integer, halves away from zero.
pub open spec fn round_div(a: int, d: int) -> int {
    let a2 = if d < 0 { -a } else { a };
    let d2 = if d < 0 { -d } else { d };
    if a2 >= 0 {
        (2 * a2 + d2) / (2 * d2)
    } else {
        -((-2 * a2 + d2) / (2 * d2))
    }
}

/// Each numerator over `d`, rounded to the nearest integer.
pub open spec fn round_all(nums: Seq<int>, d: int) -> Seq<int> {
    Seq::new(nums.len(), |i: int| round_div(nums[i], d))
}

/// `nums / den` are the coordinates of `v` in the basis `m`: `m * nums == den * v`.
pub open spec fn solves(m: Seq<Seq<int>>, nums: Seq<int>, den: int, v: Seq<int>) -> bool {
    &&& den != 0
    &&& nums.len() == m.len()
    &&& mat_vec(m, nums) == scale(den, v)
}

/// `x` lies in the range of `i64`.
pub open spec fn in_i64(x: int) -> bool {
    i64::MIN <= x <= i64::MAX
}

/// The numerators of Cramer's rule: entry `j` is the determinant of `m`
/// with column `j` replaced by `v`.
pub open spec fn cramer_nums(m: Seq<Seq<int>>, v: Seq<int>) -> Seq<int> {
    Seq::new(m.len(), |j: int| det(with_column(m, j, v)))
}

/// The determinants of Cramer's rule for `v` in `m` can be computed and lie
/// in the range of `i64`.
pub open spec fn cramer_fits(m: Seq<Seq<int>>, v: Seq<int>) -> bool {
    &&& det_fits(m)
    &&& in_i64(det(m))
    &&& forall|j: int| 0 <= j < m.len() ==> #[trigger] det_fits(with_column(m, j, v)) && in_i64(det(with_column(m, j, v)))
}

/// `linear_decomposition` of `v` in `m` succeeds: the basis is non-singular,
/// Cramer's numerators fit, and multiplying back gives `det(m) * v` within
/// the range of `i64`.
pub open spec fn decomposes(m: Seq<Seq<int>>, v: Seq<int>) -> bool {
    &&& det(m) != 0
    &&& cramer_fits(m, v)
    &&& mat_vec_fits(m, cramer_nums(m, v))
    &&& mat_vec(m, cramer_nums(m, v)) == scale(det(m), v)
}

/// Rational coordinates: `numerators[i] / denominator`.
#[derive(Clone, Debug)]
pub struct Coordinates {
    pub numerators: Vec<i64>,
    pub denominator: i64,
}

/// `m` with column `j` replaced by `v`.
fn replace_column(m: &IntMatrix, j: usize, v: &Vec<i64>) -> (r: IntMatrix)
    requires
        m.wf(),
        j < m.dim(),
        v@.len() == m.dim(),
    ensures
        r.wf(),
        r.dim() == m.dim(),
        r@ == with_column(m@, j as int, ints(v@)),
{
    let n = m.rows.len();
    let mut rows: Vec<Vec<i64>> = Vec::new();
    let mut i: usize = 0;
    while i < n
        invariant
            n == m.dim(),
            m.wf(),
            j < n,
            v@.len() == n,
            i <= n,
            rows@.len() == i,
            forall|k: int| 0 <= k < i ==> (#[trigger] rows@[k])@.len() == n,
            forall|k: int| 0 <= k < i ==> ints((#[trigger] rows@[k])@) == m@[k].update(j as int, v@[k] as int),
        decreases n - i,
    {
        let mut row: Vec<i64> = Vec::new();
        let mut k: usize = 0;
        while k < n
            invariant
                n == m.dim(),
                m.wf(),
                j < n,
                i < n,
                v@.len() == n,
                k <= n,
                row@.len() == k,
                forall|l: int| 0 <= l < k ==> #[trigger] row@[l] == m@[i as int].update(j as int, v@[i as int] as int)[l],
            decreases n - k,
        {
            if k == j {
                row.push(v[i]);
            } else {
                row.push(m.rows[i][k]);
            }
            k = k + 1;
        }
        assert(ints(row@) =~= m@[i as int].update(j as int, v@[i as int] as int));
        rows.push(row);
        i = i + 1;
    }
    let r = IntMatrix { rows };
    assert(r@ =~~= with_column(m@, j as int, ints(v@)));
    r
}

/// The coordinates of `vector` in `basis`, by Cramer's rule in exact integer
/// arithmetic, with the determinant of `basis` as denominator. `None` where
/// the basis is singular, or where a value leaves the range of `i64` on the
/// way.
pub fn linear_decomposition(vector: &Vec<i64>, basis: &IntMatrix) -> (r: Option<Coordinates>)
    requires
        basis.wf(),
        vector@.len() == basis.dim(),
    ensures
        r is Some <==> decomposes(basis@, ints(vector@)),
        det(basis@) == 0 ==> r is None,
        r matches Some(c) ==> c.denominator == det(basis@) && ints(c.numerators@) == cramer_nums(basis@, ints(vector@))
            && solves(basis@, ints(c.numerators@), c.denominator as int, ints(vector@)),
{
    let n = basis.size();
    let d = match determinant(basis) {
        Some(d) => d,
        None => {
            return None;
        },
    };
    if d == 0 || d < i64::MIN as i128 || d > i64::MAX as i128 {
        return None;
    }
    let den = d as i64;
    let ghost v = ints(vector@);
    let mut nums: Vec<i64> = Vec::new();
    let mut j: usize = 0;
    while j < n
        invariant
            n == basis.dim(),
            basis.wf(),
            vector@.len() == n,
            v == ints(vector@),
            den as int == det(basis@),
            det_fits(basis@),
            det(basis@) != 0,
            j <= n,
            nums@.len() == j,
            forall|k: int| 0 <= k < j ==> #[trigger] nums@[k] == det(with_column(basis@, k, v)),
            forall|k: int| 0 <= k < j ==> #[trigger] det_fits(with_column(basis@, k, v)),
        decreases n - j,
    {
        let m = replace_column(basis, j, vector);
        match determinant(&m) {
            Some(x) => {
                if x < i64::MIN as i128 || x > i64::MAX as i128 {
                    assert(!in_i64(det(with_column(basis@, j as int, v))));
                    return None;
                }
                nums.push(x as i64);
            },
            None => {
                assert(!det_fits(with_column(basis@, j as int, v)));
                return None;
            },
        }
        j = j + 1;
    }
    assert(ints(nums@) =~= cramer_nums(basis@, v));
    assert forall|j: int| 0 <= j < basis@.len() implies #[trigger] det_fits(with_column(basis@, j, v)) && in_i64(
        det(with_column(basis@, j, v)),
    ) by {
        assert(nums@[j] == det(with_column(basis@, j, v)));
    }
    assert(in_i64(det(basis@)));
    assert(cramer_fits(basis@, v));
    let image = match multiply_vec(basis, &nums) {
        Some(w) => w,
        None => {
            return None;
        },
    };
    let mut i: usize = 0;
    while i < n
        invariant
            n == basis.dim(),
            vector@.len() == n,
            image@.len() == n,
            ints(image@) == mat_vec(basis@, ints(nums@)),
            ints(nums@) == cramer_nums(basis@, ints(vector@)),
            den as int == det(basis@),
            i <= n,
            forall|k: int| 0 <= k < i ==> image@[k] as int == #[trigger] scale(den as int, ints(vector@))[k],
        decreases n - i,
    {
        if image[i] as i128 != mul_wide(den, vector[i]) {
            assert(mat_vec(basis@, ints(nums@))[i as int] != scale(den as int, ints(vector@))[i as int]);
            return None;
        }
        i = i + 1;
    }
    assert(mat_vec(basis@, ints(nums@)) =~= scale(den as int, ints(vector@)));
    Some(Coordinates { numerators: nums, denominator: den })
}

/// `a / d` rounded to the nearest integer, halves away from zero; `None`
/// where the result leaves the range of `i64`.
pub fn round_quotient(a: i64, d: i64) -> (r: Option<i64>)
    requires
        d != 0,
    ensures
        r matches Some(q) ==> q == round_div(a as int, d as int),
        (i64::MIN <= round_div(a as int, d as int) <= i64::MAX) ==> r is Some,
{
    let a2: i128 = if d < 0 { -(a as i128) } else { a as i128 };
    let d2: i128 = if d < 0 { -(d as i128) } else { d as i128 };
    assert(-0x8000_0000_0000_0000 <= a2 <= 0x8000_0000_0000_0000);
    assert(1 <= d2 <= 0x8000_0000_0000_0000);
    assert(-0x1_0000_0000_0000_0000 <= 2 * a2 <= 0x1_0000_0000_0000_0000);
    assert(2 <= 2 * d2 <= 0x1_0000_0000_0000_0000);
    let q: i128 = if a2 >= 0 {
        let num: i128 = 2 * a2 + d2;
        num / (2 * d2)
    } else {
        let pos: i128 = -a2;
        assert(1 <= pos <= 0x8000_0000_0000_0000);
        let num: i128 = 2 * pos + d2;
        let quot: i128 = num / (2 * d2);
        assert(0 <= quot <= num);
        -quot
    };
    if q < i64::MIN as i128 || q > i64::MAX as i128 {
        None
    } else {
        Some(q as i64)
    }
}

/// The lattice point that Babai's rounding assigns to the coordinates `nums / den`.
pub open spec fn babai_point(m: Seq<Seq<int>>, nums: Seq<int>, den: int) -> Seq<int> {
    mat_vec(m, round_all(nums, den))
}

/// Every coordinate `nums[i] / d`, rounded, lies in the range of `i64`.
pub open spec fn rounds_fit(nums: Seq<int>, d: int) -> bool {
    forall|i: int| 0 <= i < nums.len() ==> in_i64(#[trigger] round_div(nums[i], d))
}

/// Babai's rounding of `target` in `basis` can be carried out: the target
/// decomposes, the basis passes the Hadamard threshold, and the rounded
/// coordinates and the lattice point they give fit in `i64`.
pub open spec fn babai_defined(basis: Seq<Seq<int>>, target: Seq<int>) -> bool {
    &&& decomposes(basis, target)
    &&& threshold_fits(basis)
    &&& hadamard_good(basis)
    &&& rounds_fit(cramer_nums(basis, target), det(basis))
    &&& mat_vec_fits(basis, round_all(cramer_nums(basis, target), det(basis)))
}

/// The point that Babai's rounding assigns to `target` in `basis`.
pub open spec fn babai_of(basis: Seq<Seq<int>>, target: Seq<int>) -> Seq<int> {
    babai_point(basis, cramer_nums(basis, target), det(basis))
}

/// Babai's rounding: the coordinates of `target` in `basis`, each rounded to
/// the nearest integer, recombined into a lattice point. `None` where the
/// basis is singular or its Hadamard ratio is not above `19/20`, or where a
/// value leaves the range of the machine integers on the way.
pub fn babai_closest_vector(basis: &IntMatrix, target: &Vec<i64>) -> (r: Option<Vec<i64>>)
    requires
        basis.wf(),
        target@.len() == basis.dim(),
    ensures
        r is Some <==> babai_defined(basis@, ints(target@)),
        !hadamard_good(basis@) ==> r is None,
        det(basis@) == 0 ==> r is None,
        r matches Some(p) ==> p@.len() == basis.dim() && ints(p@) == babai_of(basis@, ints(target@)),
{
    let c = match linear_decomposition(target, basis) {
        Some(c) => c,
        None => {
            return None;
        },
    };
    match is_good_basis(basis) {
        Some(true) => {},
        _ => {
            return None;
        },
    }
    let n = basis.size();
    let ghost nums = ints(c.numerators@);
    let mut q: Vec<i64> = Vec::new();
    let mut i: usize = 0;
    while i < n
        invariant
            n == basis.dim(),
            c.numerators@.len() == n,
            c.denominator != 0,
            nums == ints(c.numerators@),
            nums == cramer_nums(basis@, ints(target@)),
            c.denominator as int == det(basis@),
            decomposes(basis@, ints(target@)),
            threshold_fits(basis@),
            hadamard_good(basis@),
            i <= n,
            q@.len() == i,
            forall|k: int| 0 <= k < i ==> in_i64(#[trigger] round_div(nums[k], c.denominator as int)),
            forall|k: int| 0 <= k < i ==> #[trigger] q@[k] == round_div(nums[k], c.denominator as int),
        decreases n - i,
    {
        match round_quotient(c.numerators[i], c.denominator) {
            Some(x) => {
                q.push(x);
            },
            None => {
                assert(!in_i64(round_div(nums[i as int], c.denominator as int)));
                return None;
            },
        }
        i = i + 1;
    }
    assert(ints(q@) =~= round_all(nums, c.denominator as int));
    match multiply_vec(basis, &q) {
        Some(p) => {
            assert(ints(p@) == babai_point(basis@, nums, det(basis@)));
            Some(p)
        },
        None => None,
    }
}

/// Why Babai's decoder gave no point.
#[derive(Clone, Copy, Debug, PartialEq, Eq)]
pub enum DecodeError {
    /// The basis has determinant zero.
    SingularBasis,
    /// The Hadamard ratio of the basis is not above `19/20`.
    IllConditionedBasis,
    /// A value left the range of the machine integers.
    Overflow,
}

/// Babai's rounding like `babai_closest_vector`, telling a singular basis,
/// an ill-conditioned one, and an overflow apart.
pub fn babai_decode(basis: &IntMatrix, target: &Vec<i64>) -> (r: Result<Vec<i64>, DecodeError>)
    requires
        basis.wf(),
        target@.len() == basis.dim(),
    ensures
        r == Err::<Vec<i64>, DecodeError>(DecodeError::SingularBasis) <==> det_fits(basis@) && det(basis@) == 0,
        r == Err::<Vec<i64>, DecodeError>(DecodeError::IllConditionedBasis) <==> det_fits(basis@) && det(basis@) != 0
            && threshold_fits(basis@) && !hadamard_good(basis@),
        r is Ok <==> babai_defined(basis@, ints(target@)),
        r matches Ok(p) ==> ints(p@) == babai_of(basis@, ints(target@)),
{
    match determinant(basis) {
        Some(d) => {
            if d == 0 {
                return Err(DecodeError::SingularBasis);
            }
        },
        None => {
            return Err(DecodeError::Overflow);
        },
    }
    match is_good_basis(basis) {
        Some(true) => {},
        Some(false) => {
            return Err(DecodeError::IllConditionedBasis);
        },
        None => {
            return Err(DecodeError::Overflow);
        },
    }
    match babai_closest_vector(basis, target) {
        Some(p) => Ok(p),
        None => Err(DecodeError::Overflow),
    }
}

/// Rounding is exact on integer coordinates: `(d * k) / d` rounds to `k`.
pub proof fn lemma_round_exact(k: int, d: int)
    requires
        d != 0,
    ensures
        round_div(d * k, d) == k,
{
    let a2 = if d < 0 { -(d * k) } else { d * k };
    let d2 = if d < 0 { -d } else { d };
    assert(a2 == d2 * k) by (nonlinear_arith)
        requires
            a2 == if d < 0 { -(d * k) } else { d * k },
            d2 == if d < 0 { -d } else { d },
    {
    }
    assert(d2 > 0);
    if k >= 0 {
        assert(a2 >= 0) by (nonlinear_arith)
            requires
                a2 == d2 * k,
                d2 > 0,
                k >= 0,
        {
        }
        assert(2 * a2 + d2 == k * (2 * d2) + d2) by (nonlinear_arith)
            requires
                a2 == d2 * k,
        {
        }
        vstd::arithmetic::div_mod::lemma_fundamental_div_mod_converse(2 * a2 + d2, 2 * d2, k, d2);
    } else {
        assert(a2 < 0) by (nonlinear_arith)
            requires
                a2 == d2 * k,
                d2 > 0,
                k < 0,
        {
        }
        assert(-2 * a2 + d2 == (-k) * (2 * d2) + d2) by (nonlinear_arith)
            requires
                a2 == d2 * k,
        {
        }
        vstd::arithmetic::div_mod::lemma_fundamental_div_mod_converse(-2 * a2 + d2, 2 * d2, -k, d2);
    }
}

/// Rounding every coordinate of `d * ks` over `d` gives back `ks`.
pub proof fn lemma_round_all_exact(ks: Seq<int>, d: int)
    requires
        d != 0,
    ensures
        round_all(scale(d, ks), d) == ks,
{
    assert forall|i: int| 0 <= i < ks.len() implies #[trigger] round_all(scale(d, ks), d)[i] == ks[i] by {
        lemma_round_exact(ks[i], d);
    }
    assert(round_all(scale(d, ks), d) =~= ks);
}

} // verus!
