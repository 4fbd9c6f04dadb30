//! Random unimodular matrices: integer matrices with determinant `1` or `-1`.
use vstd::prelude::*;
use crate::matrix::{
    add_row_multiple_of, det, det_fits, determinant, expansion, expansion_fits, in_i128, is_square, minor, sign, fits_i64, identity_of, ints, modify_row, mul_wide, multiply_row_by_minus_one, negate_row_of,
    swap_columns_of, swap_rows_of, IntMatrix,
};
use crate::random::{draw_between, draw_coin};

verus! {

/// Row `i` exchanged with row `swaps[i]`, for `i` from `0` up to `k - 1` in turn.
pub open spec fn apply_row_swaps(m: Seq<Seq<int>>, swaps: Seq<int>, k: int) -> Seq<Seq<int>>
    decreases k,
{
    if k <= 0 {
        m
    } else {
        swap_rows_of(apply_row_swaps(m, swaps, k - 1), k - 1, swaps[k - 1])
    }
}

/// Column `i` exchanged with column `swaps[i]`, for `i` from `0` up to `k - 1` in turn.
pub open spec fn apply_column_swaps(m: Seq<Seq<int>>, swaps: Seq<int>, k: int) -> Seq<Seq<int>>
    decreases k,
{
    if k <= 0 {
        m
    } else {
        swap_columns_of(apply_column_swaps(m, swaps, k - 1), k - 1, swaps[k - 1])
    }
}

/// Row `i` negated where `flips[i]` holds, for `i` below `k`.
pub open spec fn apply_flips(m: Seq<Seq<int>>, flips: Seq<bool>, k: int) -> Seq<Seq<int>>
    decreases k,
{
    if k <= 0 {
        m
    } else if flips[k - 1] {
        negate_row_of(apply_flips(m, flips, k - 1), k - 1)
    } else {
        apply_flips(m, flips, k - 1)
    }
}

/// `mults[i]` times row `partners[i]` added to row `i` where the two rows
/// differ, for `i` from `0` up to `k - 1` in turn.
pub open spec fn apply_row_additions(m: Seq<Seq<int>>, partners: Seq<int>, mults: Seq<int>, k: int) -> Seq<Seq<int>>
    decreases k,
{
    if k <= 0 {
        m
    } else if partners[k - 1] != k - 1 {
        add_row_multiple_of(apply_row_additions(m, partners, mults, k - 1), k - 1, partners[k - 1], mults[k - 1])
    } else {
        apply_row_additions(m, partners, mults, k - 1)
    }
}

/// Every row addition, taken in turn, leaves all entries within `i64`.
pub open spec fn row_additions_fit(m: Seq<Seq<int>>, partners: Seq<int>, mults: Seq<int>, k: int) -> bool {
    forall|i: int| 1 <= i <= k ==> fits_i64(#[trigger] apply_row_additions(m, partners, mults, i))
}

/// The signed permutation matrix that the swaps and flips make of the identity.
pub open spec fn signed_permutation(size: nat, row_swaps: Seq<int>, column_swaps: Seq<int>, flips: Seq<bool>) -> Seq<Seq<int>> {
    apply_flips(
        apply_column_swaps(apply_row_swaps(identity_of(size), row_swaps, size as int), column_swaps, size as int),
        flips,
        size as int,
    )
}

/// The candidate matrix that the given choices produce.
pub open spec fn unitary_of(
    size: nat,
    row_swaps: Seq<int>,
    column_swaps: Seq<int>,
    flips: Seq<bool>,
    partners: Seq<int>,
    mults: Seq<int>,
) -> Seq<Seq<int>> {
    apply_row_additions(signed_permutation(size, row_swaps, column_swaps, flips), partners, mults, size as int)
}

/// All entries of `m` lie between `-1` and `1`.
pub open spec fn entries_unit(m: Seq<Seq<int>>) -> bool {
    forall|i: int, j: int| 0 <= i < m.len() && 0 <= j < m[i].len() ==> -1 <= #[trigger] m[i][j] <= 1
}

/// Every entry of `v` is a valid index below `n`.
pub open spec fn indices_below(v: Seq<usize>, n: nat) -> bool {
    forall|i: int| 0 <= i < v.len() ==> #[trigger] v[i] < n
}

/// The index sequence as integers.
pub open spec fn idx(v: Seq<usize>) -> Seq<int> {
    Seq::new(v.len(), |i: int| v[i] as int)
}

/// Whether adding `c` times row `s` to row `t` keeps every entry of `m` within `i64`.
pub fn row_addition_fits(m: &IntMatrix, t: usize, s: usize, c: i64) -> (r: bool)
    requires
        m.wf(),
        t < m.dim(),
        s < m.dim(),
    ensures
        r == fits_i64(add_row_multiple_of(m@, t as int, s as int, c as int)),
{
    let ghost want = add_row_multiple_of(m@, t as int, s as int, c as int);
    let n = m.rows.len();
    let mut k: usize = 0;
    while k < n
        invariant
            n == m.dim(),
            m.wf(),
            t < n,
            s < n,
            k <= n,
            want == add_row_multiple_of(m@, t as int, s as int, c as int),
            forall|l: int| 0 <= l < k ==> i64::MIN <= #[trigger] want[t as int][l] <= i64::MAX,
        decreases n - k,
    {
        let a = m.rows[t][k];
        let b = m.rows[s][k];
        let v = a as i128 + mul_wide(c, b);
        assert(v == want[t as int][k as int]);
        if v < i64::MIN as i128 || v > i64::MAX as i128 {
            return false;
        }
        k = k + 1;
    }
    assert forall|i: int, j: int| 0 <= i < want.len() && 0 <= j < want[i].len() implies
        i64::MIN <= #[trigger] want[i][j] <= i64::MAX by {
        if i != t {
            assert(want[i] == m@[i]);
        }
    }
    true
}

/// The candidate matrix for the given choices: the identity with row `i`
/// exchanged with row `row_swaps[i]`, then column `i` with column
/// `column_swaps[i]`, row `i` negated where `flips[i]` holds, and finally
/// `mults[i]` times row `partners[i]` added to row `i` where the two rows
/// differ, each for `i` from `0` up to `size - 1` in turn. `None` where an
/// entry leaves the range of `i64` on the way.
pub fn unitary_candidate(
    size: usize,
    row_swaps: &Vec<usize>,
    column_swaps: &Vec<usize>,
    flips: &Vec<bool>,
    partners: &Vec<usize>,
    mults: &Vec<i64>,
) -> (r: Option<IntMatrix>)
    requires
        row_swaps@.len() == size,
        column_swaps@.len() == size,
        flips@.len() == size,
        partners@.len() == size,
        mults@.len() == size,
        indices_below(row_swaps@, size as nat),
        indices_below(column_swaps@, size as nat),
        indices_below(partners@, size as nat),
    ensures
        r.is_some() <==> row_additions_fit(
            signed_permutation(size as nat, idx(row_swaps@), idx(column_swaps@), flips@),
            idx(partners@),
            ints(mults@),
            size as int,
        ),
        r matches Some(u) ==> u.wf() && u.dim() == size && u@ == unitary_of(
            size as nat,
            idx(row_swaps@),
            idx(column_swaps@),
            flips@,
            idx(partners@),
            ints(mults@),
        ),
{
    let ghost rs = idx(row_swaps@);
    let ghost cs = idx(column_swaps@);
    let ghost ps = idx(partners@);
    let ghost ms = ints(mults@);
    let mut u = IntMatrix::identity(size);
    let mut i: usize = 0;
    while i < size
        invariant
            i <= size,
            u.wf(),
            u.dim() == size,
            row_swaps@.len() == size,
            indices_below(row_swaps@, size as nat),
            rs == idx(row_swaps@),
            u@ == apply_row_swaps(identity_of(size as nat), rs, i as int),
            entries_unit(u@),
        decreases size - i,
    {
        u.swap_rows(i, row_swaps[i]);
        i = i + 1;
    }
    let mut i: usize = 0;
    while i < size
        invariant
            i <= size,
            u.wf(),
            u.dim() == size,
            column_swaps@.len() == size,
            indices_below(column_swaps@, size as nat),
            cs == idx(column_swaps@),
            u@ == apply_column_swaps(apply_row_swaps(identity_of(size as nat), rs, size as int), cs, i as int),
            entries_unit(u@),
        decreases size - i,
    {
        u.swap_columns(i, column_swaps[i]);
        i = i + 1;
    }
    let mut i: usize = 0;
    while i < size
        invariant
            i <= size,
            u.wf(),
            u.dim() == size,
            flips@.len() == size,
            u@ == apply_flips(
                apply_column_swaps(apply_row_swaps(identity_of(size as nat), rs, size as int), cs, size as int),
                flips@,
                i as int,
            ),
            entries_unit(u@),
        decreases size - i,
    {
        if flips[i] {
            multiply_row_by_minus_one(&mut u, i);
        }
        i = i + 1;
    }
    let ghost base = u@;
    assert(base == signed_permutation(size as nat, rs, cs, flips@));
    let mut i: usize = 0;
    while i < size
        invariant
            i <= size,
            u.wf(),
            u.dim() == size,
            partners@.len() == size,
            mults@.len() == size,
            indices_below(partners@, size as nat),
            ps == idx(partners@),
            ms == ints(mults@),
            rs == idx(row_swaps@),
            cs == idx(column_swaps@),
            base == signed_permutation(size as nat, rs, cs, flips@),
            u@ == apply_row_additions(base, ps, ms, i as int),
            row_additions_fit(base, ps, ms, i as int),
        decreases size - i,
    {
        let p = partners[i];
        if p != i {
            if !row_addition_fits(&u, i, p, mults[i]) {
                assert(!fits_i64(apply_row_additions(base, ps, ms, i + 1)));
                return None;
            }
            modify_row(&mut u, i, p, mults[i]);
        } else {
            assert(fits_i64(u@)) by {
                if i == 0 {
                    assert(u@ == base);
                }
            }
        }
        i = i + 1;
    }
    Some(u)
}

/// How many candidates `random_unitary` draws before it gives up.
pub const UNITARY_ATTEMPTS: usize = 64;

/// Draws `n` indices, each below `size`.
fn draw_indices(size: usize, n: usize) -> (r: Vec<usize>)
    requires
        0 < size < 0x1000_0000_0000_0000,
    ensures
        r@.len() == n,
        indices_below(r@, size as nat),
{
    let mut r: Vec<usize> = Vec::new();
    let mut i: usize = 0;
    while i < n
        invariant
            0 < size < 0x1000_0000_0000_0000,
            i <= n,
            r@.len() == i,
            indices_below(r@, size as nat),
        decreases n - i,
    {
        let k = draw_between(0, (size - 1) as i64);
        r.push(k as usize);
        i = i + 1;
    }
    r
}

/// A random square integer matrix of dimension `size` whose determinant is
/// exactly `1` or `-1`, or `None` where no candidate passed the exact
/// determinant check within `UNITARY_ATTEMPTS` draws.
pub fn random_unitary(size: usize) -> (r: Option<IntMatrix>)
    requires
        size < 0x1000_0000_0000_0000,
    ensures
        r matches Some(u) ==> u.wf() && u.dim() == size && (det(u@) == 1 || det(u@) == -1),
        1 <= size <= 2 ==> r is Some,
{
    if size == 0 {
        let u = IntMatrix::identity(0);
        assert(det(u@) == 1);
        return Some(u);
    }
    let mut attempt: usize = 0;
    while attempt < UNITARY_ATTEMPTS
        invariant
            0 < size < 0x1000_0000_0000_0000,
            size <= 2 ==> attempt == 0,
        decreases UNITARY_ATTEMPTS - attempt,
    {
        let row_swaps = draw_indices(size, size);
        let column_swaps = draw_indices(size, size);
        let mut flips: Vec<bool> = Vec::new();
        let mut mults: Vec<i64> = Vec::new();
        let mut i: usize = 0;
        while i < size
            invariant
                0 < size < 0x1000_0000_0000_0000,
                i <= size,
                flips@.len() == i,
                mults@.len() == i,
                forall|k: int| 0 <= k < i ==> size <= #[trigger] mults@[k] <= 5 * size,
            decreases size - i,
        {
            flips.push(draw_coin());
            mults.push(draw_between(size as i64, 5 * size as i64));
            i = i + 1;
        }
        let partners = draw_indices(size, size);
        proof {
            if size <= 2 {
                assert forall|k: int| 0 <= k < size implies 0 <= #[trigger] ints(mults@)[k] <= 10 by {
                    assert(size <= mults@[k] <= 5 * size);
                }
                lemma_small_candidates_unimodular(
                    size as nat,
                    idx(row_swaps@),
                    idx(column_swaps@),
                    flips@,
                    idx(partners@),
                    ints(mults@),
                );
            }
        }
        match unitary_candidate(size, &row_swaps, &column_swaps, &flips, &partners, &mults) {
            Some(u) => {
                match determinant(&u) {
                    Some(d) => {
                        if d == 1 || d == -1 {
                            return Some(u);
                        }
                    },
                    None => {},
                }
            },
            None => {},
        }
        attempt = attempt + 1;
    }
    None
}

/// Every entry of `m` lies between `-b` and `b`.
pub open spec fn bounded_by(m: Seq<Seq<int>>, b: int) -> bool {
    forall|i: int, j: int| 0 <= i < m.len() && 0 <= j < m[i].len() ==> -b <= #[trigger] m[i][j] <= b
}

/// The determinant of a one by one matrix is its entry.
proof fn lemma_det_one(m: Seq<Seq<int>>)
    requires
        is_square(m, 1),
        bounded_by(m, 0x1_0000_0000_0000),
    ensures
        det(m) == m[0][0],
        det_fits(m),
{
    let s = minor(m, 0);
    assert(s.len() == 0);
    assert(det(s) == 1);
    assert(det_fits(s));
    assert(expansion(m, 0) == 0);
    assert(sign(0) == 1);
    assert(expansion(m, 1) == m[0][0]);
    assert(expansion_fits(m, 0));
    assert(expansion_fits(m, 1));
}

/// The determinant of a two by two matrix.
proof fn lemma_det_two(m: Seq<Seq<int>>)
    requires
        is_square(m, 2),
        bounded_by(m, 0x1_0000_0000_0000),
    ensures
        det(m) == m[0][0] * m[1][1] - m[0][1] * m[1][0],
        det_fits(m),
{
    let s0 = minor(m, 0);
    let s1 = minor(m, 1);
    assert(s0[0].len() == 1 && s0[0][0] == m[1][1]);
    assert(s1[0].len() == 1 && s1[0][0] == m[1][0]);
    lemma_det_one(s0);
    lemma_det_one(s1);
    assert(sign(0) == 1 && sign(1) == -1);
    let a = m[0][0];
    let b = m[0][1];
    let c = m[1][0];
    let d = m[1][1];
    assert(-0x1_0000_0000_0000 <= a <= 0x1_0000_0000_0000);
    assert(-0x1_0000_0000_0000 <= b <= 0x1_0000_0000_0000);
    assert(-0x1_0000_0000_0000 <= c <= 0x1_0000_0000_0000);
    assert(-0x1_0000_0000_0000 <= d <= 0x1_0000_0000_0000);
    assert(in_i128(a * d) && in_i128(b * c) && in_i128(a * d - b * c)) by (nonlinear_arith)
        requires
            -0x1_0000_0000_0000 <= a <= 0x1_0000_0000_0000,
            -0x1_0000_0000_0000 <= b <= 0x1_0000_0000_0000,
            -0x1_0000_0000_0000 <= c <= 0x1_0000_0000_0000,
            -0x1_0000_0000_0000 <= d <= 0x1_0000_0000_0000,
    {
    }
    assert(expansion(m, 0) == 0);
    assert(det(s0) == d);
    assert(sign(0) * a * d == a * d) by (nonlinear_arith)
        requires
            sign(0) == 1,
    {
    }
    assert(expansion(m, 1) == a * d);
    assert(sign(1) * b * c == -(b * c)) by (nonlinear_arith)
        requires
            sign(1) == -1,
    {
    }
    assert(expansion(m, 2) == a * d - b * c);
    assert(expansion_fits(m, 0));
    assert(det_fits(s0) && det_fits(s1));
    assert(m[0][0] * det(s0) == a * d);
    assert(m[0][1] * det(s1) == b * c);
    assert(expansion_fits(m, 1));
    assert(expansion_fits(m, 2));
}

/// The determinant of a one or two dimensional matrix, by its formula.
pub open spec fn det_small(m: Seq<Seq<int>>, n: nat) -> int {
    if n == 1 {
        m[0][0]
    } else {
        m[0][0] * m[1][1] - m[0][1] * m[1][0]
    }
}

/// A square matrix of dimension one or two with entries bounded by `b` and
/// determinant `1` or `-1`.
pub open spec fn small_unit(m: Seq<Seq<int>>, n: nat, b: int) -> bool {
    &&& 1 <= n <= 2
    &&& is_square(m, n)
    &&& bounded_by(m, b)
    &&& (det_small(m, n) == 1 || det_small(m, n) == -1)
}

proof fn lemma_swap_rows_small(m: Seq<Seq<int>>, n: nat, i: int, j: int)
    requires
        small_unit(m, n, 1),
        0 <= i < n,
        0 <= j < n,
    ensures
        small_unit(swap_rows_of(m, i, j), n, 1),
{
    let r = swap_rows_of(m, i, j);
    if i == j {
        assert(r =~= m);
    } else {
        assert(n == 2);
        let (a, b, c, d) = (m[0][0], m[0][1], m[1][0], m[1][1]);
        assert(r[0] == m[1] && r[1] == m[0]);
        assert(c * b - d * a == -(a * d - b * c)) by (nonlinear_arith);
    }
}

proof fn lemma_swap_columns_small(m: Seq<Seq<int>>, n: nat, i: int, j: int)
    requires
        small_unit(m, n, 1),
        0 <= i < n,
        0 <= j < n,
    ensures
        small_unit(swap_columns_of(m, i, j), n, 1),
{
    let r = swap_columns_of(m, i, j);
    if i == j {
        assert forall|k: int| 0 <= k < n implies #[trigger] r[k] == m[k] by {
            assert(r[k] =~= m[k]);
        }
        assert(r =~= m);
    } else {
        assert(n == 2);
        let (a, b, c, d) = (m[0][0], m[0][1], m[1][0], m[1][1]);
        assert(r[0][0] == b && r[0][1] == a && r[1][0] == d && r[1][1] == c);
        assert(b * c - a * d == -(a * d - b * c)) by (nonlinear_arith);
    }
}

proof fn lemma_negate_small(m: Seq<Seq<int>>, n: nat, i: int)
    requires
        small_unit(m, n, 1),
        0 <= i < n,
    ensures
        small_unit(negate_row_of(m, i), n, 1),
{
    let r = negate_row_of(m, i);
    let (a, b, c, d) = (m[0][0], if n == 2 { m[0][1] } else { 0 }, if n == 2 { m[1][0] } else { 0 }, if n == 2 { m[1][1] } else { 0 });
    if n == 2 {
        if i == 0 {
            assert(r[0][0] == -a && r[0][1] == -b && r[1] == m[1]);
            assert((-a) * d - (-b) * c == -(a * d - b * c)) by (nonlinear_arith);
        } else {
            assert(r[1][0] == -c && r[1][1] == -d && r[0] == m[0]);
            assert(a * (-d) - b * (-c) == -(a * d - b * c)) by (nonlinear_arith);
        }
    } else {
        assert(r[0][0] == -a);
    }
}

proof fn lemma_add_row_small(m: Seq<Seq<int>>, n: nat, t: int, s: int, c: int, b: int)
    requires
        small_unit(m, n, b),
        0 <= t < n,
        0 <= s < n,
        t != s,
        0 <= c <= 10,
        b >= 1,
    ensures
        small_unit(add_row_multiple_of(m, t, s, c), n, 11 * b),
{
    let r = add_row_multiple_of(m, t, s, c);
    assert(n == 2);
    let (a0, b0, c0, d0) = (m[0][0], m[0][1], m[1][0], m[1][1]);
    assert forall|i: int, j: int| 0 <= i < r.len() && 0 <= j < r[i].len() implies -(11 * b) <= #[trigger] r[i][j] <= 11 * b by {
        let x = m[i][j];
        let y = m[s][j];
        assert(-b <= x <= b && -b <= y <= b);
        assert(-(11 * b) <= x + c * y <= 11 * b) by (nonlinear_arith)
            requires
                -b <= x <= b,
                -b <= y <= b,
                0 <= c <= 10,
        {
        }
    }
    if t == 0 {
        assert(r[0][0] == a0 + c * c0 && r[0][1] == b0 + c * d0 && r[1] == m[1]);
        assert((a0 + c * c0) * d0 - (b0 + c * d0) * c0 == a0 * d0 - b0 * c0) by (nonlinear_arith);
    } else {
        assert(r[1][0] == c0 + c * a0 && r[1][1] == d0 + c * b0 && r[0] == m[0]);
        assert(a0 * (d0 + c * b0) - b0 * (c0 + c * a0) == a0 * d0 - b0 * c0) by (nonlinear_arith);
    }
}

proof fn lemma_weaken_bound(m: Seq<Seq<int>>, b: int, c: int)
    requires
        bounded_by(m, b),
        b <= c,
    ensures
        bounded_by(m, c),
{
    assert forall|i: int, j: int| 0 <= i < m.len() && 0 <= j < m[i].len() implies -c <= #[trigger] m[i][j] <= c by {
        assert(-b <= m[i][j] <= b);
    }
}

/// Bound on the entries after `k` row additions with multipliers up to `10`.
pub open spec fn growth(k: int) -> int
    decreases k,
{
    if k <= 0 {
        1
    } else {
        11 * growth(k - 1)
    }
}

proof fn lemma_row_swaps_small(n: nat, rs: Seq<int>, k: int)
    requires
        1 <= n <= 2,
        rs.len() == n,
        forall|i: int| 0 <= i < n ==> 0 <= #[trigger] rs[i] < n,
        0 <= k <= n,
    ensures
        small_unit(apply_row_swaps(identity_of(n), rs, k), n, 1),
    decreases k,
{
    if k > 0 {
        lemma_row_swaps_small(n, rs, k - 1);
        lemma_swap_rows_small(apply_row_swaps(identity_of(n), rs, k - 1), n, k - 1, rs[k - 1]);
    } else {
        let m = identity_of(n);
        assert(m[0][0] == 1);
        if n == 2 {
            assert(m[0][1] == 0 && m[1][0] == 0 && m[1][1] == 1);
        }
    }
}

proof fn lemma_column_swaps_small(m: Seq<Seq<int>>, n: nat, cs: Seq<int>, k: int)
    requires
        small_unit(m, n, 1),
        cs.len() == n,
        forall|i: int| 0 <= i < n ==> 0 <= #[trigger] cs[i] < n,
        0 <= k <= n,
    ensures
        small_unit(apply_column_swaps(m, cs, k), n, 1),
    decreases k,
{
    if k > 0 {
        lemma_column_swaps_small(m, n, cs, k - 1);
        lemma_swap_columns_small(apply_column_swaps(m, cs, k - 1), n, k - 1, cs[k - 1]);
    }
}

proof fn lemma_flips_small(m: Seq<Seq<int>>, n: nat, fl: Seq<bool>, k: int)
    requires
        small_unit(m, n, 1),
        fl.len() == n,
        0 <= k <= n,
    ensures
        small_unit(apply_flips(m, fl, k), n, 1),
    decreases k,
{
    if k > 0 {
        lemma_flips_small(m, n, fl, k - 1);
        if fl[k - 1] {
            lemma_negate_small(apply_flips(m, fl, k - 1), n, k - 1);
        }
    }
}

proof fn lemma_additions_small(m: Seq<Seq<int>>, n: nat, ps: Seq<int>, ms: Seq<int>, k: int)
    requires
        small_unit(m, n, 1),
        ps.len() == n,
        ms.len() == n,
        forall|i: int| 0 <= i < n ==> 0 <= #[trigger] ps[i] < n,
        forall|i: int| 0 <= i < n ==> 0 <= #[trigger] ms[i] <= 10,
        0 <= k <= n,
    ensures
        small_unit(apply_row_additions(m, ps, ms, k), n, growth(k)),
        growth(k) <= 121,
        row_additions_fit(m, ps, ms, k),
    decreases k,
{
    if k > 0 {
        lemma_additions_small(m, n, ps, ms, k - 1);
        let prev = apply_row_additions(m, ps, ms, k - 1);
        assert(growth(k - 1) >= 1) by {
            if k - 1 > 0 {
                assert(growth(k - 1) == 11 * growth(k - 2));
                assert(growth(k - 2) == 1);
            }
        }
        if ps[k - 1] != k - 1 {
            lemma_add_row_small(prev, n, k - 1, ps[k - 1], ms[k - 1], growth(k - 1));
        } else {
            lemma_weaken_bound(prev, growth(k - 1), growth(k));
        }
        if k == 2 {
            assert(growth(1) == 11);
        }
        let cur = apply_row_additions(m, ps, ms, k);
        lemma_weaken_bound(cur, growth(k), 0x7fff_ffff);
        assert(fits_i64(cur));
    }
}

/// For dimensions one and two, every candidate matrix, whatever the choices
/// drawn, is computed without overflow and has determinant `1` or `-1`.
pub proof fn lemma_small_candidates_unimodular(
    size: nat,
    rs: Seq<int>,
    cs: Seq<int>,
    fl: Seq<bool>,
    ps: Seq<int>,
    ms: Seq<int>,
)
    requires
        1 <= size <= 2,
        rs.len() == size,
        cs.len() == size,
        fl.len() == size,
        ps.len() == size,
        ms.len() == size,
        forall|i: int| 0 <= i < size ==> 0 <= #[trigger] rs[i] < size,
        forall|i: int| 0 <= i < size ==> 0 <= #[trigger] cs[i] < size,
        forall|i: int| 0 <= i < size ==> 0 <= #[trigger] ps[i] < size,
        forall|i: int| 0 <= i < size ==> 0 <= #[trigger] ms[i] <= 10,
    ensures
        row_additions_fit(signed_permutation(size, rs, cs, fl), ps, ms, size as int),
        det_fits(unitary_of(size, rs, cs, fl, ps, ms)),
        det(unitary_of(size, rs, cs, fl, ps, ms)) == 1 || det(unitary_of(size, rs, cs, fl, ps, ms)) == -1,
{
    lemma_row_swaps_small(size, rs, size as int);
    let a = apply_row_swaps(identity_of(size), rs, size as int);
    lemma_column_swaps_small(a, size, cs, size as int);
    lemma_flips_small(apply_column_swaps(a, cs, size as int), size, fl, size as int);
    let sp = signed_permutation(size, rs, cs, fl);
    lemma_additions_small(sp, size, ps, ms, size as int);
    let u = unitary_of(size, rs, cs, fl, ps, ms);
    lemma_weaken_bound(u, growth(size as int), 0x1_0000_0000_0000);
    if size == 1 {
        lemma_det_one(u);
    } else {
        lemma_det_two(u);
    }
}

} // verus!
