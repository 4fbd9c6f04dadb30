//! Square integer matrices, integer vectors, and their mathematical model.
use vstd::prelude::*;

verus! {

/// The mathematical value of an integer vector.
pub open spec fn ints(v: Seq<i64>) -> Seq<int> {
    Seq::new(v.len(), |i: int| v[i] as int)
}

/// `m` has `n` rows of `n` entries each.
pub open spec fn is_square(m: Seq<Seq<int>>, n: nat) -> bool {
    &&& m.len() == n
    &&& forall|i: int| 0 <= i < n ==> (#[trigger] m[i]).len() == n
}

/// Inner product of two vectors of equal length.
pub open spec fn dot(a: Seq<int>, b: Seq<int>) -> int
    decreases a.len(),
{
    if a.len() == 0 {
        0
    } else {
        dot(a.drop_last(), b.take(a.len() - 1)) + a.last() * b[a.len() - 1]
    }
}

/// The `j`-th column of `m`.
pub open spec fn column(m: Seq<Seq<int>>, j: int) -> Seq<int> {
    Seq::new(m.len(), |i: int| m[i][j])
}

/// The product `m * v`.
pub open spec fn mat_vec(m: Seq<Seq<int>>, v: Seq<int>) -> Seq<int> {
    Seq::new(m.len(), |i: int| dot(m[i], v))
}

/// The product `a * b` of two `n` by `n` matrices.
pub open spec fn mat_mul(a: Seq<Seq<int>>, b: Seq<Seq<int>>) -> Seq<Seq<int>> {
    Seq::new(a.len(), |i: int| Seq::new(a.len(), |j: int| dot(a[i], column(b, j))))
}

/// The `n` by `n` identity matrix.
pub open spec fn identity_of(n: nat) -> Seq<Seq<int>> {
    Seq::new(n, |i: int| Seq::new(n, |j: int| if i == j { 1int } else { 0int }))
}

/// `m` without its first row and without column `j`.
pub open spec fn minor(m: Seq<Seq<int>>, j: int) -> Seq<Seq<int>> {
    Seq::new((m.len() - 1) as nat, |i: int| m[i + 1].remove(j))
}

/// `+1` for even positions, `-1` for odd ones.
pub open spec fn sign(j: int) -> int {
    if j % 2 == 0 { 1 } else { -1 }
}

/// Determinant, by cofactor expansion along the first row.
pub open spec fn det(m: Seq<Seq<int>>) -> int
    decreases m.len(), m.len() + 1,
{
    if m.len() == 0 {
        1
    } else {
        expansion(m, m.len() as int)
    }
}

/// The first `k` terms of the cofactor expansion of `m` along its first row.
pub open spec fn expansion(m: Seq<Seq<int>>, k: int) -> int
    decreases m.len(), k,
{
    if k <= 0 || m.len() == 0 || k > m.len() {
        0
    } else {
        expansion(m, k - 1) + sign(k - 1) * m[0][k - 1] * det(minor(m, k - 1))
    }
}

/// `m` with rows `i` and `j` exchanged.
pub open spec fn swap_rows_of(m: Seq<Seq<int>>, i: int, j: int) -> Seq<Seq<int>> {
    m.update(i, m[j]).update(j, m[i])
}

/// `m` with columns `i` and `j` exchanged.
pub open spec fn swap_columns_of(m: Seq<Seq<int>>, i: int, j: int) -> Seq<Seq<int>> {
    Seq::new(m.len(), |r: int| m[r].update(i, m[r][j]).update(j, m[r][i]))
}

/// `m` with row `r` negated.
pub open spec fn negate_row_of(m: Seq<Seq<int>>, r: int) -> Seq<Seq<int>> {
    m.update(r, Seq::new(m[r].len(), |k: int| -m[r][k]))
}

/// `m` with `c` times row `s` added to row `t` (rows as they were before).
pub open spec fn add_row_multiple_of(m: Seq<Seq<int>>, t: int, s: int, c: int) -> Seq<Seq<int>> {
    m.update(t, Seq::new(m[t].len(), |k: int| m[t][k] + c * m[s][k]))
}

/// Every entry of `m` lies in the range of `i64`.
pub open spec fn fits_i64(m: Seq<Seq<int>>) -> bool {
    forall|i: int, j: int| 0 <= i < m.len() && 0 <= j < m[i].len() ==>
        i64::MIN <= #[trigger] m[i][j] <= i64::MAX
}

/// A copy of an integer vector.
pub fn copy_vec(v: &Vec<i64>) -> (r: Vec<i64>)
    ensures
        r@ == v@,
{
    let mut r: Vec<i64> = Vec::new();
    let mut k: usize = 0;
    while k < v.len()
        invariant
            k <= v@.len(),
            r@ == v@.take(k as int),
        decreases v@.len() - k,
    {
        r.push(v[k]);
        k = k + 1;
        assert(r@ =~= v@.take(k as int));
    }
    assert(v@.take(v@.len() as int) =~= v@);
    r
}

/// Every partial sum of the inner product of `a` and `b` lies in the range of `i64`.
pub open spec fn dot_fits(a: Seq<int>, b: Seq<int>) -> bool {
    forall|k: int| 0 <= k <= a.len() ==> i64::MIN <= #[trigger] dot(a.take(k), b.take(k)) <= i64::MAX
}

/// Every entry of `m * v` can be computed within the range of `i64`.
pub open spec fn mat_vec_fits(m: Seq<Seq<int>>, v: Seq<int>) -> bool {
    forall|i: int| 0 <= i < m.len() ==> dot_fits(#[trigger] m[i], v)
}

/// Every entry of `a * b` can be computed within the range of `i64`.
pub open spec fn mat_mul_fits(a: Seq<Seq<int>>, b: Seq<Seq<int>>) -> bool {
    forall|i: int, j: int| 0 <= i < a.len() && 0 <= j < a.len() ==> dot_fits(#[trigger] a[i], #[trigger] column(b, j))
}

/// The exact product of two 64-bit integers.
pub fn mul_wide(x: i64, y: i64) -> (r: i128)
    ensures
        r == x * y,
        -0x4000_0000_0000_0000_0000_0000_0000_0000 <= r <= 0x4000_0000_0000_0000_0000_0000_0000_0000,
{
    assert(-0x4000_0000_0000_0000_0000_0000_0000_0000 <= x * y <= 0x4000_0000_0000_0000_0000_0000_0000_0000) by (nonlinear_arith)
        requires
            i64::MIN <= x <= i64::MAX,
            i64::MIN <= y <= i64::MAX,
    {
    }
    x as i128 * y as i128
}

/// Inner product of two vectors of equal length, or `None` where a partial
/// sum leaves the range of `i64`.
pub fn dot_checked(a: &Vec<i64>, b: &Vec<i64>) -> (r: Option<i64>)
    requires
        a@.len() == b@.len(),
    ensures
        r.is_some() <==> dot_fits(ints(a@), ints(b@)),
        r matches Some(x) ==> x == dot(ints(a@), ints(b@)),
{
    let ghost sa = ints(a@);
    let ghost sb = ints(b@);
    let mut acc: i64 = 0;
    let mut k: usize = 0;
    assert(dot(sa.take(0), sb.take(0)) == 0);
    while k < a.len()
        invariant
            a@.len() == b@.len(),
            sa == ints(a@),
            sb == ints(b@),
            k <= a@.len(),
            acc == dot(sa.take(k as int), sb.take(k as int)),
            forall|l: int| 0 <= l <= k ==> i64::MIN <= #[trigger] dot(sa.take(l), sb.take(l)) <= i64::MAX,
        decreases a@.len() - k,
    {
        let p = mul_wide(a[k], b[k]);
        let t = acc as i128 + p;
        assert(sa.take(k + 1).drop_last() =~= sa.take(k as int));
        assert(sb.take(k + 1).take(k as int) =~= sb.take(k as int));
        assert(t == dot(sa.take(k + 1), sb.take(k + 1)));
        if t < i64::MIN as i128 || t > i64::MAX as i128 {
            return None;
        }
        acc = t as i64;
        k = k + 1;
    }
    assert(sa.take(a@.len() as int) =~= sa);
    assert(sb.take(a@.len() as int) =~= sb);
    Some(acc)
}

/// `x` lies in the range of `i128`.
pub open spec fn in_i128(x: int) -> bool {
    i128::MIN <= x <= i128::MAX
}

/// The cofactor expansion of `m` can be carried out within `i128`: each
/// minor's determinant, each term and each partial sum lies in its range.
pub open spec fn det_fits(m: Seq<Seq<int>>) -> bool
    decreases m.len(), m.len() + 1,
{
    m.len() == 0 || expansion_fits(m, m.len() as int)
}

/// The first `k` terms of the cofactor expansion of `m` can be carried out within `i128`.
pub open spec fn expansion_fits(m: Seq<Seq<int>>, k: int) -> bool
    decreases m.len(), k,
{
    if k <= 0 || m.len() == 0 || k > m.len() {
        true
    } else {
        &&& expansion_fits(m, k - 1)
        &&& det_fits(minor(m, k - 1))
        &&& in_i128(m[0][k - 1] * det(minor(m, k - 1)))
        &&& in_i128(expansion(m, k))
    }
}

/// Carrying out fewer terms of an expansion that fits also fits.
pub proof fn lemma_expansion_fits_prefix(m: Seq<Seq<int>>, k: int, l: int)
    requires
        0 <= l <= k <= m.len(),
        expansion_fits(m, k),
    ensures
        expansion_fits(m, l),
    decreases k - l,
{
    if l < k {
        lemma_expansion_fits_prefix(m, k - 1, l);
    }
}

/// A square matrix of 64-bit integers, stored row by row.
#[derive(Clone, Debug)]
pub struct IntMatrix {
    pub rows: Vec<Vec<i64>>,
}

impl View for IntMatrix {
    type V = Seq<Seq<int>>;

    open spec fn view(&self) -> Seq<Seq<int>> {
        Seq::new(self.rows@.len(), |i: int| ints(self.rows@[i]@))
    }
}

impl IntMatrix {
    /// Number of rows (and columns).
    pub open spec fn dim(&self) -> nat {
        self.rows@.len()
    }

    /// The matrix is square.
    pub open spec fn wf(&self) -> bool {
        forall|i: int| 0 <= i < self.rows@.len() ==> (#[trigger] self.rows@[i])@.len() == self.rows@.len()
    }

    /// The model of a well-formed matrix is square.
    pub proof fn lemma_square(&self)
        requires
            self.wf(),
        ensures
            is_square(self@, self.dim()),
    {
        assert forall|i: int| 0 <= i < self.dim() implies (#[trigger] self@[i]).len() == self.dim() by {
            assert(self.rows@[i]@.len() == self.dim());
        }
    }

    /// Number of rows (and columns).
    pub fn size(&self) -> (r: usize)
        ensures
            r == self.dim(),
    {
        self.rows.len()
    }

    /// Entry at row `i`, column `j`.
    pub fn get(&self, i: usize, j: usize) -> (r: i64)
        requires
            self.wf(),
            i < self.dim(),
            j < self.dim(),
        ensures
            r == self@[i as int][j as int],
    {
        self.rows[i][j]
    }

    /// The `n` by `n` identity matrix.
    pub fn identity(n: usize) -> (r: IntMatrix)
        ensures
            r.wf(),
            r.dim() == n,
            r@ == identity_of(n as nat),
    {
        let mut rows: Vec<Vec<i64>> = Vec::new();
        let mut i: usize = 0;
        while i < n
            invariant
                i <= n,
                rows@.len() == i,
                forall|k: int| 0 <= k < i ==> (#[trigger] rows@[k])@.len() == n,
                forall|k: int, j: int| 0 <= k < i && 0 <= j < n ==>
                    rows@[k]@[j] == (if k == j { 1i64 } else { 0i64 }),
            decreases n - i,
        {
            let mut row: Vec<i64> = Vec::new();
            let mut j: usize = 0;
            while j < n
                invariant
                    j <= n,
                    i < n,
                    row@.len() == j,
                    forall|l: int| 0 <= l < j ==> row@[l] == (if i == l { 1i64 } else { 0i64 }),
                decreases n - j,
            {
                if i == j {
                    row.push(1);
                } else {
                    row.push(0);
                }
                j = j + 1;
            }
            rows.push(row);
            i = i + 1;
        }
        let r = IntMatrix { rows };
        assert(r@ =~= identity_of(n as nat)) by {
            assert forall|k: int| 0 <= k < n implies r@[k] =~= identity_of(n as nat)[k] by {
                assert(r.rows@[k]@.len() == n);
            }
        }
        r
    }
    /// Overwrites every entry with zero.
    pub fn clear(&mut self)
        requires
            old(self).wf(),
        ensures
            final(self).wf(),
            final(self).dim() == old(self).dim(),
            final(self)@ == Seq::new(old(self).dim(), |i: int| Seq::new(old(self).dim(), |j: int| 0int)),
    {
        let n = self.rows.len();
        let mut i: usize = 0;
        while i < n
            invariant
                n == old(self).dim(),
                self.rows@.len() == n,
                self.wf(),
                i <= n,
                forall|k: int, l: int| 0 <= k < i && 0 <= l < n ==> #[trigger] self.rows@[k]@[l] == 0,
            decreases n - i,
        {
            let mut row: Vec<i64> = Vec::new();
            let mut j: usize = 0;
            while j < n
                invariant
                    j <= n,
                    row@.len() == j,
                    forall|l: int| 0 <= l < j ==> #[trigger] row@[l] == 0,
                decreases n - j,
            {
                row.push(0);
                j = j + 1;
            }
            self.rows.set(i, row);
            i = i + 1;
        }
        assert(self@ =~~= Seq::new(n as nat, |i: int| Seq::new(n as nat, |j: int| 0int)));
    }

    /// Exchanges rows `i` and `j`.
    pub fn swap_rows(&mut self, i: usize, j: usize)
        requires
            old(self).wf(),
            i < old(self).dim(),
            j < old(self).dim(),
        ensures
            final(self).wf(),
            final(self).dim() == old(self).dim(),
            final(self)@ == swap_rows_of(old(self)@, i as int, j as int),
    {
        let a = copy_vec(&self.rows[i]);
        let b = copy_vec(&self.rows[j]);
        self.rows.set(i, b);
        self.rows.set(j, a);
        assert(self@ =~~= swap_rows_of(old(self)@, i as int, j as int));
    }

    /// Exchanges columns `i` and `j`.
    pub fn swap_columns(&mut self, i: usize, j: usize)
        requires
            old(self).wf(),
            i < old(self).dim(),
            j < old(self).dim(),
        ensures
            final(self).wf(),
            final(self).dim() == old(self).dim(),
            final(self)@ == swap_columns_of(old(self)@, i as int, j as int),
    {
        let n = self.rows.len();
        let mut r: usize = 0;
        while r < n
            invariant
                n == old(self).dim(),
                i < n,
                j < n,
                r <= n,
                self.rows@.len() == n,
                self.wf(),
                forall|k: int| 0 <= k < r ==> #[trigger] self@[k] == swap_columns_of(old(self)@, i as int, j as int)[k],
                forall|k: int| r <= k < n ==> #[trigger] self@[k] == old(self)@[k],
            decreases n - r,
        {
            let mut row = copy_vec(&self.rows[r]);
            let a = row[i];
            let b = row[j];
            row.set(i, b);
            row.set(j, a);
            let ghost old_row = self@[r as int];
            let ghost before = self@;
            self.rows.set(r, row);
            assert forall|k: int| 0 <= k < n && k != r implies #[trigger] self@[k] == before[k] by {
                assert(self@[k] =~= before[k]);
            }
            assert(self.rows@[r as int]@ == row@);
            assert(self@[r as int] =~= ints(row@));
            assert(old_row == old(self)@[r as int]);
            assert(self@[r as int] =~= swap_columns_of(old(self)@, i as int, j as int)[r as int]);
            r = r + 1;
        }
        assert(self@ =~~= swap_columns_of(old(self)@, i as int, j as int));
    }
}

/// Negates every entry of row `row`.
pub fn multiply_row_by_minus_one(mat: &mut IntMatrix, row: usize)
    requires
        old(mat).wf(),
        row < old(mat).dim(),
        forall|k: int| 0 <= k < old(mat).dim() ==> #[trigger] old(mat)@[row as int][k] != i64::MIN,
    ensures
        final(mat).wf(),
        final(mat).dim() == old(mat).dim(),
        final(mat)@ == negate_row_of(old(mat)@, row as int),
{
    let n = mat.rows.len();
    let mut new_row: Vec<i64> = Vec::new();
    let mut k: usize = 0;
    while k < n
        invariant
            n == mat.dim(),
            mat.wf(),
            row < n,
            k <= n,
            new_row@.len() == k,
            forall|l: int| 0 <= l < n ==> #[trigger] mat@[row as int][l] != i64::MIN,
            forall|l: int| 0 <= l < k ==> #[trigger] new_row@[l] == -mat@[row as int][l],
        decreases n - k,
    {
        let x = mat.rows[row][k];
        assert(x == mat@[row as int][k as int]);
        new_row.push(-x);
        k = k + 1;
    }
    mat.rows.set(row, new_row);
    assert(mat@ =~~= negate_row_of(old(mat)@, row as int));
}

/// Adds `multiplier` times row `source_row` to row `target_row`.
pub fn modify_row(matrix: &mut IntMatrix, target_row: usize, source_row: usize, multiplier: i64)
    requires
        old(matrix).wf(),
        target_row < old(matrix).dim(),
        source_row < old(matrix).dim(),
        fits_i64(add_row_multiple_of(old(matrix)@, target_row as int, source_row as int, multiplier as int)),
    ensures
        final(matrix).wf(),
        final(matrix).dim() == old(matrix).dim(),
        final(matrix)@ == add_row_multiple_of(old(matrix)@, target_row as int, source_row as int, multiplier as int),
{
    let ghost want = add_row_multiple_of(old(matrix)@, target_row as int, source_row as int, multiplier as int);
    let n = matrix.rows.len();
    let mut new_row: Vec<i64> = Vec::new();
    let mut k: usize = 0;
    while k < n
        invariant
            n == matrix.dim(),
            matrix.wf(),
            matrix@ == old(matrix)@,
            target_row < n,
            source_row < n,
            k <= n,
            want == add_row_multiple_of(old(matrix)@, target_row as int, source_row as int, multiplier as int),
            fits_i64(want),
            new_row@.len() == k,
            forall|l: int| 0 <= l < k ==> #[trigger] new_row@[l] == want[target_row as int][l],
        decreases n - k,
    {
        let a = matrix.rows[target_row][k];
        let b = matrix.rows[source_row][k];
        assert(want[target_row as int][k as int] == a + multiplier * b);
        assert(i64::MIN <= want[target_row as int][k as int] <= i64::MAX);
        let p = multiplier as i128 * b as i128;
        let x = (a as i128 + p) as i64;
        new_row.push(x);
        k = k + 1;
    }
    matrix.rows.set(target_row, new_row);
    assert(matrix@ =~~= want);
}


/// Column `j` of `m` as a vector.
pub fn column_of(m: &IntMatrix, j: usize) -> (r: Vec<i64>)
    requires
        m.wf(),
        j < m.dim(),
    ensures
        ints(r@) == column(m@, j as int),
{
    let n = m.rows.len();
    let mut r: Vec<i64> = Vec::new();
    let mut i: usize = 0;
    while i < n
        invariant
            n == m.dim(),
            m.wf(),
            j < n,
            i <= n,
            r@.len() == i,
            forall|l: int| 0 <= l < i ==> #[trigger] r@[l] == m@[l][j as int],
        decreases n - i,
    {
        r.push(m.rows[i][j]);
        i = i + 1;
    }
    assert(ints(r@) =~= column(m@, j as int));
    r
}

/// The product `m * v`, or `None` where an entry leaves the range of `i64`.
pub fn multiply_vec(m: &IntMatrix, v: &Vec<i64>) -> (r: Option<Vec<i64>>)
    requires
        m.wf(),
        v@.len() == m.dim(),
    ensures
        r.is_some() <==> mat_vec_fits(m@, ints(v@)),
        r matches Some(w) ==> w@.len() == m.dim() && ints(w@) == mat_vec(m@, ints(v@)),
{
    let n = m.rows.len();
    let mut w: Vec<i64> = Vec::new();
    let mut i: usize = 0;
    while i < n
        invariant
            n == m.dim(),
            m.wf(),
            v@.len() == n,
            i <= n,
            w@.len() == i,
            forall|l: int| 0 <= l < i ==> #[trigger] w@[l] == dot(m@[l], ints(v@)),
            forall|l: int| 0 <= l < i ==> dot_fits(#[trigger] m@[l], ints(v@)),
        decreases n - i,
    {
        assert(ints(m.rows@[i as int]@) == m@[i as int]);
        match dot_checked(&m.rows[i], v) {
            Some(x) => {
                w.push(x);
            },
            None => {
                return None;
            },
        }
        i = i + 1;
    }
    assert(ints(w@) =~= mat_vec(m@, ints(v@)));
    Some(w)
}

/// The product `a * b`, or `None` where an entry leaves the range of `i64`.
pub fn multiply(a: &IntMatrix, b: &IntMatrix) -> (r: Option<IntMatrix>)
    requires
        a.wf(),
        b.wf(),
        a.dim() == b.dim(),
    ensures
        r.is_some() <==> mat_mul_fits(a@, b@),
        r matches Some(c) ==> c.wf() && c.dim() == a.dim() && c@ == mat_mul(a@, b@),
{
    let n = a.rows.len();
    let mut cols: Vec<Vec<i64>> = Vec::new();
    let mut j: usize = 0;
    while j < n
        invariant
            n == a.dim(),
            n == b.dim(),
            b.wf(),
            j <= n,
            cols@.len() == j,
            forall|l: int| 0 <= l < j ==> ints(#[trigger] cols@[l]@) == column(b@, l),
        decreases n - j,
    {
        cols.push(column_of(b, j));
        j = j + 1;
    }
    let mut rows: Vec<Vec<i64>> = Vec::new();
    let mut i: usize = 0;
    while i < n
        invariant
            n == a.dim(),
            n == b.dim(),
            a.wf(),
            b.wf(),
            i <= n,
            cols@.len() == n,
            forall|l: int| 0 <= l < n ==> ints(#[trigger] cols@[l]@) == column(b@, l),
            rows@.len() == i,
            forall|k: int| 0 <= k < i ==> (#[trigger] rows@[k])@.len() == n,
            forall|k: int, l: int| 0 <= k < i && 0 <= l < n ==> rows@[k]@[l] == #[trigger] dot(a@[k], column(b@, l)),
            forall|k: int, l: int| 0 <= k < i && 0 <= l < n ==> #[trigger] dot_fits(a@[k], column(b@, l)),
        decreases n - i,
    {
        let mut row: Vec<i64> = Vec::new();
        let mut j: usize = 0;
        while j < n
            invariant
                n == a.dim(),
                n == b.dim(),
                a.wf(),
                i < n,
                j <= n,
                cols@.len() == n,
                forall|l: int| 0 <= l < n ==> ints(#[trigger] cols@[l]@) == column(b@, l),
                row@.len() == j,
                forall|l: int| 0 <= l < j ==> row@[l] == #[trigger] dot(a@[i as int], column(b@, l)),
                forall|l: int| 0 <= l < j ==> #[trigger] dot_fits(a@[i as int], column(b@, l)),
            decreases n - j,
        {
            assert(ints(a.rows@[i as int]@) == a@[i as int]);
            assert(ints(cols@[j as int]@) == column(b@, j as int));
            match dot_checked(&a.rows[i], &cols[j]) {
                Some(x) => {
                    row.push(x);
                },
                None => {
                    return None;
                },
            }
            j = j + 1;
        }
        rows.push(row);
        i = i + 1;
    }
    let c = IntMatrix { rows };
    assert(c@ =~~= mat_mul(a@, b@));
    Some(c)
}


/// `m` without its first row and without column `j`.
pub fn minor_of(m: &IntMatrix, j: usize) -> (r: IntMatrix)
    requires
        m.wf(),
        m.dim() > 0,
        j < m.dim(),
    ensures
        r.wf(),
        r.dim() == m.dim() - 1,
        r@ == minor(m@, j as int),
{
    let n = m.rows.len();
    let mut rows: Vec<Vec<i64>> = Vec::new();
    let mut i: usize = 1;
    while i < n
        invariant
            n == m.dim(),
            m.wf(),
            j < n,
            1 <= i <= n,
            rows@.len() == i - 1,
            forall|k: int| 0 <= k < i - 1 ==> (#[trigger] rows@[k])@.len() == n - 1,
            forall|k: int| 0 <= k < i - 1 ==> ints((#[trigger] rows@[k])@) == m@[k + 1].remove(j as int),
        decreases n - i,
    {
        let mut row: Vec<i64> = Vec::new();
        let mut k: usize = 0;
        while k < n
            invariant
                n == m.dim(),
                m.wf(),
                j < n,
                1 <= i < n,
                k <= n,
                row@.len() == (if k <= j { k as int } else { k - 1 }),
                forall|l: int| 0 <= l < row@.len() ==> #[trigger] row@[l] == m@[i as int].remove(j as int)[l],
            decreases n - k,
        {
            if k != j {
                row.push(m.rows[i][k]);
            }
            k = k + 1;
        }
        assert(ints(row@) =~= m@[i as int].remove(j as int));
        rows.push(row);
        i = i + 1;
    }
    let r = IntMatrix { rows };
    assert(r@ =~~= minor(m@, j as int));
    r
}

/// Exact determinant of `m`, or `None` where an intermediate value of the
/// cofactor expansion leaves the range of `i128`.
pub fn determinant(m: &IntMatrix) -> (r: Option<i128>)
    requires
        m.wf(),
    ensures
        r is Some <==> det_fits(m@),
        r matches Some(d) ==> d == det(m@),
    decreases m.dim(),
{
    let n = m.rows.len();
    if n == 0 {
        return Some(1);
    }
    let mut acc: i128 = 0;
    let mut j: usize = 0;
    while j < n
        invariant
            n == m.dim(),
            n > 0,
            m.wf(),
            j <= n,
            acc == expansion(m@, j as int),
            expansion_fits(m@, j as int),
        decreases n - j,
    {
        let sub = minor_of(m, j);
        let d = match determinant(&sub) {
            Some(d) => d,
            None => {
                proof {
                    if det_fits(m@) {
                        lemma_expansion_fits_prefix(m@, n as int, j + 1);
                    }
                }
                return None;
            },
        };
        let x = m.rows[0][j];
        assert(x == m@[0][j as int]);
        let term = match (x as i128).checked_mul(d) {
            Some(t) => t,
            None => {
                proof {
                    if det_fits(m@) {
                        lemma_expansion_fits_prefix(m@, n as int, j + 1);
                    }
                }
                return None;
            },
        };
        let next = if j % 2 == 0 {
            acc.checked_add(term)
        } else {
            acc.checked_sub(term)
        };
        assert(sign(j as int) * x * d == if j % 2 == 0 { x * d } else { -(x * d) }) by (nonlinear_arith)
            requires
                sign(j as int) == if j % 2 == 0 { 1int } else { -1int },
        {
        }
        assert(expansion(m@, j + 1) == acc + sign(j as int) * x * d);
        match next {
            Some(v) => {
                acc = v;
            },
            None => {
                proof {
                    if det_fits(m@) {
                        lemma_expansion_fits_prefix(m@, n as int, j + 1);
                    }
                }
                return None;
            },
        }
        j = j + 1;
    }
    Some(acc)
}

} // verus!
