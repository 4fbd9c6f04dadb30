//! GGH key generation, encryption and decryption.
use vstd::prelude::*;
use crate::babai::{
    babai_closest_vector, babai_defined, babai_of, cramer_nums, with_column, decomposes, in_i64, rounds_fit, lemma_round_all_exact, linear_decomposition, round_all, round_div, round_quotient, scale,
    solves,
};
use crate::basis::{
    threshold_fits, entries_within, good_basis, hadamard_good, is_good_basis, lemma_scaled_identity_det, pow, scaled_identity,
};
use crate::matrix::{column, det, det_fits, determinant, expansion, minor, sign, mat_mul_fits, dot, identity_of, ints, is_square, mat_mul, mat_vec, mat_vec_fits, multiply, multiply_vec, IntMatrix};
use crate::random::draw_between;
use crate::unimodular::random_unitary;

verus! {

/// How many unimodular factors make up the transform from the private
/// basis to the public key.
pub const UNIMODULAR_FACTORS: usize = 8;

/// How many candidate factors key generation draws, for each factor it
/// accepts, before it gives up.
pub const FACTOR_ATTEMPTS: usize = 256;

/// `u` is an `n` by `n` integer matrix with determinant `1` or `-1`.
pub open spec fn is_unimodular(u: Seq<Seq<int>>, n: nat) -> bool {
    is_square(u, n) && (det(u) == 1 || det(u) == -1)
}

/// `a + b`, entry by entry.
pub open spec fn add_vec(a: Seq<int>, b: Seq<int>) -> Seq<int> {
    Seq::new(a.len(), |i: int| a[i] + b[i])
}

/// Every entry of `v` lies in the range of `i64`.
pub open spec fn vec_fits_i64(v: Seq<int>) -> bool {
    forall|i: int| 0 <= i < v.len() ==> i64::MIN <= #[trigger] v[i] <= i64::MAX
}

/// The zero vector of length `n`.
pub open spec fn zeros(n: nat) -> Seq<int> {
    Seq::new(n, |i: int| 0int)
}

/// `read_point` of `point` in the basis `public` succeeds: the point
/// decomposes and its rounded coordinates fit in `i64`.
pub open spec fn read_defined(public: Seq<Seq<int>>, point: Seq<int>) -> bool {
    decomposes(public, point) && rounds_fit(cramer_nums(public, point), det(public))
}

/// `point` read in the basis `public`, each coordinate rounded.
pub open spec fn read_of(public: Seq<Seq<int>>, point: Seq<int>) -> Seq<int> {
    round_all(cramer_nums(public, point), det(public))
}

/// The point that decryption reads: Babai's point of `ciphertext` in the
/// private basis where it is defined, the zero vector where it is not.
pub open spec fn decrypt_point(private: Seq<Seq<int>>, ciphertext: Seq<int>) -> Seq<int> {
    if babai_defined(private, ciphertext) {
        babai_of(private, ciphertext)
    } else {
        zeros(private.len())
    }
}

/// `message` is `point` read in the basis `public`, each coordinate rounded.
pub open spec fn reads_as(public: Seq<Seq<int>>, point: Seq<int>, message: Seq<int>) -> bool {
    exists|nums: Seq<int>| solves(public, nums, det(public), point) && message == #[trigger] round_all(nums, det(public))
}

/// Why an operation of the scheme did not complete.
#[derive(Clone, Copy, Debug, PartialEq, Eq)]
pub enum GghError {
    /// A message or ciphertext does not have the key's dimension.
    DimensionMismatch,
    /// No good basis or no unimodular transform was found in the allotted draws.
    KeyGenerationFailed,
    /// A value left the range of the machine integers.
    Overflow,
    /// The bases or the noise bound handed over do not make a key pair.
    InvalidKey,
    /// Babai's decoder found the private basis unusable for this ciphertext.
    DecodeFailed,
    /// The closest point could not be read in the public basis.
    PublicDecompositionFailed,
}

/// A GGH key pair: a near-orthogonal private basis, and a public basis of
/// the same lattice obtained from it by a unimodular transform.
#[derive(Clone, Debug)]
pub struct KeyPair {
    pub private_basis: IntMatrix,
    pub public_key: IntMatrix,
    pub noise: i64,
}

impl KeyPair {
    /// Dimension of the lattice.
    pub open spec fn dim(&self) -> nat {
        self.public_key.dim()
    }

    /// The private basis.
    pub open spec fn private_view(&self) -> Seq<Seq<int>> {
        self.private_basis@
    }

    /// The public basis.
    pub open spec fn public_view(&self) -> Seq<Seq<int>> {
        self.public_key@
    }

    /// The bound on each noise entry.
    pub open spec fn noise_bound(&self) -> int {
        self.noise as int
    }

    /// Both bases are square of one dimension, the private one passes the
    /// quality threshold, and the public one is the private one times a
    /// unimodular matrix.
    pub open spec fn wf(&self) -> bool {
        &&& self.private_basis.wf()
        &&& self.public_key.wf()
        &&& self.private_basis.dim() == self.public_key.dim()
        &&& hadamard_good(self.private_basis@)
        &&& self.noise >= 0
        &&& exists|u: Seq<Seq<int>>| #[trigger] is_unimodular(u, self.dim()) && self.public_key@ == mat_mul(self.private_basis@, u)
    }

    /// The public key.
    pub fn public_key(&self) -> (r: &IntMatrix)
        ensures
            r@ == self.public_view(),
    {
        &self.public_key
    }

    /// The private basis.
    pub fn private_basis(&self) -> (r: &IntMatrix)
        ensures
            r@ == self.private_view(),
    {
        &self.private_basis
    }

    /// The bound on each noise entry.
    pub fn noise_parameter(&self) -> (r: i64)
        ensures
            r == self.noise_bound(),
    {
        self.noise
    }

    /// The key pair with `private_basis` as private basis, `private_basis *
    /// unimodular` as public key and `noise` as noise bound. Refused where
    /// the noise bound is negative, the private basis fails the quality threshold
    /// or `unimodular` does not have determinant `1` or `-1`.
    pub fn from_parts(private_basis: IntMatrix, unimodular: &IntMatrix, noise: i64) -> (r: Result<KeyPair, GghError>)
        requires
            private_basis.wf(),
            unimodular.wf(),
            unimodular.dim() == private_basis.dim(),
        ensures
            r matches Ok(k) ==> k.wf() && k.private_view() == private_basis@ && k.public_view() == mat_mul(
                private_basis@,
                unimodular@,
            ) && k.noise == noise,
            noise < 0 ==> r == Err::<KeyPair, GghError>(GghError::InvalidKey),
            !hadamard_good(private_basis@) ==> r is Err,
            !is_unimodular(unimodular@, unimodular.dim()) ==> r is Err,
            noise >= 0 && threshold_fits(private_basis@) && hadamard_good(private_basis@) && det_fits(unimodular@)
                && is_unimodular(unimodular@, unimodular.dim()) && mat_mul_fits(private_basis@, unimodular@) ==> r is Ok,
    {
        if noise < 0 {
            return Err(GghError::InvalidKey);
        }
        match is_good_basis(&private_basis) {
            Some(true) => {},
            Some(false) => {
                return Err(GghError::InvalidKey);
            },
            None => {
                return Err(GghError::Overflow);
            },
        }
        match determinant(unimodular) {
            Some(d) => {
                if d != 1 && d != -1 {
                    return Err(GghError::InvalidKey);
                }
            },
            None => {
                return Err(GghError::Overflow);
            },
        }
        let public_key = match multiply(&private_basis, unimodular) {
            Some(p) => p,
            None => {
                return Err(GghError::Overflow);
            },
        };
        let k = KeyPair { private_basis, public_key, noise };
        proof {
            unimodular.lemma_square();
        }
        assert(k.dim() == unimodular.dim());
        assert(det(unimodular@) == 1 || det(unimodular@) == -1);
        assert(is_unimodular(unimodular@, k.dim()));
        Ok(k)
    }

    /// Reads `point` in the public basis and rounds each coordinate to the
    /// nearest integer: the message whose lattice point `point` is.
    pub fn read_point(&self, point: &Vec<i64>) -> (r: Result<Vec<i64>, GghError>)
        requires
            self.wf(),
        ensures
            (point@.len() != self.dim()) <==> r == Err::<Vec<i64>, GghError>(GghError::DimensionMismatch),
            point@.len() == self.dim() ==> (r is Ok <==> read_defined(self.public_view(), ints(point@))),
            r matches Err(e) ==> e == GghError::DimensionMismatch || e == GghError::PublicDecompositionFailed,
            det(self.public_view()) == 0 ==> r is Err,
            r matches Ok(m) ==> ints(m@) == read_of(self.public_view(), ints(point@)) && reads_as(
                self.public_view(),
                ints(point@),
                ints(m@),
            ),
    {
        if point.len() != self.public_key.size() {
            return Err(GghError::DimensionMismatch);
        }
        let c = match linear_decomposition(point, &self.public_key) {
            Some(c) => c,
            None => {
                return Err(GghError::PublicDecompositionFailed);
            },
        };
        let n = point.len();
        let ghost nums = ints(c.numerators@);
        let mut m: Vec<i64> = Vec::new();
        let mut i: usize = 0;
        while i < n
            invariant
                n == self.dim(),
                point@.len() == n,
                c.numerators@.len() == n,
                c.denominator != 0,
                nums == ints(c.numerators@),
                nums == cramer_nums(self.public_view(), ints(point@)),
                c.denominator as int == det(self.public_view()),
                decomposes(self.public_view(), ints(point@)),
                i <= n,
                m@.len() == i,
                forall|k: int| 0 <= k < i ==> in_i64(#[trigger] round_div(nums[k], c.denominator as int)),
                forall|k: int| 0 <= k < i ==> #[trigger] m@[k] == round_div(nums[k], c.denominator as int),
            decreases n - i,
        {
            match round_quotient(c.numerators[i], c.denominator) {
                Some(x) => {
                    m.push(x);
                },
                None => {
                    assert(!in_i64(round_div(nums[i as int], c.denominator as int)));
                    return Err(GghError::PublicDecompositionFailed);
                },
            }
            i = i + 1;
        }
        assert(ints(m@) =~= round_all(nums, det(self.public_view())));
        Ok(m)
    }

    /// Encrypts `message` with the given noise: `public_key * message + noise`.
    pub fn encrypt_with_noise(&self, message: &Vec<i64>, noise: &Vec<i64>) -> (r: Result<Vec<i64>, GghError>)
        requires
            self.wf(),
        ensures
            (message@.len() != self.dim() || noise@.len() != self.dim()) <==> r == Err::<Vec<i64>, GghError>(
                GghError::DimensionMismatch,
            ),
            (message@.len() == self.dim() && noise@.len() == self.dim()) ==> (r is Ok <==> mat_vec_fits(
                self.public_view(),
                ints(message@),
            ) && vec_fits_i64(add_vec(mat_vec(self.public_view(), ints(message@)), ints(noise@)))),
            r matches Ok(c) ==> ints(c@) == add_vec(mat_vec(self.public_view(), ints(message@)), ints(noise@)),
    {
        let n = self.public_key.size();
        if message.len() != n || noise.len() != n {
            return Err(GghError::DimensionMismatch);
        }
        let image = match multiply_vec(&self.public_key, message) {
            Some(w) => w,
            None => {
                return Err(GghError::Overflow);
            },
        };
        let ghost want = add_vec(mat_vec(self.public_view(), ints(message@)), ints(noise@));
        let mut c: Vec<i64> = Vec::new();
        let mut i: usize = 0;
        while i < n
            invariant
                n == self.dim(),
                image@.len() == n,
                noise@.len() == n,
                message@.len() == n,
                ints(image@) == mat_vec(self.public_view(), ints(message@)),
                want == add_vec(mat_vec(self.public_view(), ints(message@)), ints(noise@)),
                i <= n,
                c@.len() == i,
                forall|k: int| 0 <= k < i ==> #[trigger] c@[k] == want[k],
                forall|k: int| 0 <= k < i ==> i64::MIN <= #[trigger] want[k] <= i64::MAX,
            decreases n - i,
        {
            let x = image[i] as i128 + noise[i] as i128;
            assert(x == want[i as int]);
            if x < i64::MIN as i128 || x > i64::MAX as i128 {
                return Err(GghError::Overflow);
            }
            c.push(x as i64);
            i = i + 1;
        }
        assert(ints(c@) =~= want);
        Ok(c)
    }

    /// Encrypts `message`: `public_key * message + e`, for a fresh noise
    /// vector `e` of entries drawn between `-noise` and `noise`.
    pub fn encrypt(&self, message: &Vec<i64>) -> (r: Result<Vec<i64>, GghError>)
        requires
            self.wf(),
        ensures
            (message@.len() != self.dim()) <==> r == Err::<Vec<i64>, GghError>(GghError::DimensionMismatch),
            message@.len() == self.dim() && mat_vec_fits(self.public_view(), ints(message@)) && (forall|i: int|
                0 <= i < self.dim() ==> i64::MIN + self.noise <= #[trigger] mat_vec(self.public_view(), ints(message@))[i]
                    <= i64::MAX - self.noise) ==> r is Ok,
            r matches Ok(c) ==> exists|e: Seq<int>|
                e.len() == self.dim() && (forall|i: int| 0 <= i < e.len() ==> -self.noise <= #[trigger] e[i] <= self.noise)
                    && ints(c@) == #[trigger] add_vec(mat_vec(self.public_view(), ints(message@)), e),
    {
        let n = self.public_key.size();
        if message.len() != n {
            return Err(GghError::DimensionMismatch);
        }
        let mut e: Vec<i64> = Vec::new();
        let mut i: usize = 0;
        while i < n
            invariant
                self.noise >= 0,
                i <= n,
                e@.len() == i,
                forall|k: int| 0 <= k < i ==> -self.noise <= #[trigger] e@[k] <= self.noise,
            decreases n - i,
        {
            e.push(draw_between(-self.noise, self.noise));
            i = i + 1;
        }
        let ghost pm = mat_vec(self.public_view(), ints(message@));
        assert(mat_vec_fits(self.public_view(), ints(message@)) && (forall|i: int|
            0 <= i < self.dim() ==> i64::MIN + self.noise <= #[trigger] pm[i] <= i64::MAX - self.noise) ==> vec_fits_i64(
            add_vec(pm, ints(e@)),
        )) by {
            if forall|i: int| 0 <= i < self.dim() ==> i64::MIN + self.noise <= #[trigger] pm[i] <= i64::MAX - self.noise {
                assert forall|i: int| 0 <= i < add_vec(pm, ints(e@)).len() implies i64::MIN <= #[trigger] add_vec(
                    pm,
                    ints(e@),
                )[i] <= i64::MAX by {
                    assert(-self.noise <= e@[i] <= self.noise);
                }
            }
        }
        let r = self.encrypt_with_noise(message, &e);
        if let Ok(c) = &r {
            assert(ints(c@) == add_vec(mat_vec(self.public_view(), ints(message@)), ints(e@)));
        }
        r
    }

    /// Decrypts `ciphertext` with Babai's decoder in the private basis,
    /// substituting the zero vector where the decoder fails, and reads the
    /// point found in the public basis.
    pub fn decrypt(&self, ciphertext: &Vec<i64>) -> (r: Result<Vec<i64>, GghError>)
        requires
            self.wf(),
        ensures
            (ciphertext@.len() != self.dim()) <==> r == Err::<Vec<i64>, GghError>(GghError::DimensionMismatch),
            ciphertext@.len() == self.dim() ==> (r is Ok <==> read_defined(
                self.public_view(),
                decrypt_point(self.private_view(), ints(ciphertext@)),
            )),
            r matches Ok(m) ==> ints(m@) == read_of(
                self.public_view(),
                decrypt_point(self.private_view(), ints(ciphertext@)),
            ),
    {
        let n = self.public_key.size();
        if ciphertext.len() != n {
            return Err(GghError::DimensionMismatch);
        }
        let point = match babai_closest_vector(&self.private_basis, ciphertext) {
            Some(p) => p,
            None => zero_vec(n),
        };
        self.read_point(&point)
    }

    /// Decrypts `ciphertext` like `decrypt`, but reports a failure of
    /// Babai's decoder instead of substituting the zero vector.
    pub fn decrypt_strict(&self, ciphertext: &Vec<i64>) -> (r: Result<Vec<i64>, GghError>)
        requires
            self.wf(),
        ensures
            (ciphertext@.len() != self.dim()) <==> r == Err::<Vec<i64>, GghError>(GghError::DimensionMismatch),
            ciphertext@.len() == self.dim() ==> (r == Err::<Vec<i64>, GghError>(GghError::DecodeFailed)
                <==> !babai_defined(self.private_view(), ints(ciphertext@))),
            ciphertext@.len() == self.dim() && babai_defined(self.private_view(), ints(ciphertext@)) ==> (r is Ok
                <==> read_defined(self.public_view(), babai_of(self.private_view(), ints(ciphertext@)))),
            r matches Ok(m) ==> ints(m@) == read_of(self.public_view(), babai_of(self.private_view(), ints(ciphertext@))),
    {
        let n = self.public_key.size();
        if ciphertext.len() != n {
            return Err(GghError::DimensionMismatch);
        }
        let point = match babai_closest_vector(&self.private_basis, ciphertext) {
            Some(p) => p,
            None => {
                return Err(GghError::DecodeFailed);
            },
        };
        self.read_point(&point)
    }
}

/// The identity has determinant `1`.
pub proof fn lemma_identity_det(n: nat)
    ensures
        det(identity_of(n)) == 1,
{
    lemma_scaled_identity_det(1, n);
    lemma_pow_one(n);
    assert(scaled_identity(1, n) =~~= identity_of(n));
}

/// Every power of `1` is `1`.
proof fn lemma_pow_one(e: nat)
    ensures
        pow(1, e) == 1,
    decreases e,
{
    if e > 0 {
        lemma_pow_one((e - 1) as nat);
    }
}

/// Generates a key pair of dimension `size` with `UNIMODULAR_FACTORS`
/// unimodular factors; see `generate`.
pub fn init(size: usize, parameter: i64, delta_param: i64) -> (r: Result<KeyPair, GghError>)
    requires
        parameter >= 0,
        delta_param >= 0,
        size < 0x1000_0000_0000_0000,
    ensures
        r matches Ok(k) ==> k.wf() && k.dim() == size && k.noise == delta_param && entries_within(
            k.private_view(),
            parameter as int,
        ),
        r matches Err(e) ==> e == GghError::KeyGenerationFailed || e == GghError::Overflow,
{
    generate(size, parameter, UNIMODULAR_FACTORS, delta_param)
}

/// Generates a key pair of dimension `size`: a private basis with entries
/// between `-parameter` and `parameter` that passes the quality threshold,
/// and as public key that basis times a product of `iterations` random
/// unimodular matrices, the running product checked to keep determinant `1`
/// or `-1` after each factor. Encryption noise is bounded by `delta_param`.
/// At most `FACTOR_ATTEMPTS` factors are drawn for each one accepted.
/// The quality threshold is decided in `i128` (see `is_good_basis`), so
/// generation fails from about dimension 7 on with the usual parameters.
pub fn generate(size: usize, parameter: i64, iterations: usize, delta_param: i64) -> (r: Result<KeyPair, GghError>)
    requires
        parameter >= 0,
        delta_param >= 0,
        size < 0x1000_0000_0000_0000,
    ensures
        r matches Ok(k) ==> k.wf() && k.dim() == size && k.noise == delta_param && entries_within(
            k.private_view(),
            parameter as int,
        ),
        r matches Err(e) ==> e == GghError::KeyGenerationFailed || e == GghError::Overflow,
{
    let private_basis = match good_basis(size, parameter) {
        Some(b) => b,
        None => {
            return Err(GghError::KeyGenerationFailed);
        },
    };
    let mut product: Option<IntMatrix> = None;
    if iterations == 0 {
        let u = IntMatrix::identity(size);
        proof {
            lemma_identity_det(size as nat);
        }
        product = Some(u);
    }
    let mut counter: usize = 0;
    let mut attempts: usize = 0;
    while counter < iterations && attempts < FACTOR_ATTEMPTS
        invariant
            size < 0x1000_0000_0000_0000,
            iterations > 0 ==> (counter == 0 <==> product is None),
            iterations == 0 ==> product is Some,
            counter <= iterations,
            attempts <= FACTOR_ATTEMPTS,
            product matches Some(u) ==> u.wf() && u.dim() == size && (det(u@) == 1 || det(u@) == -1),
        decreases iterations - counter, FACTOR_ATTEMPTS - attempts,
    {
        attempts = attempts + 1;
        if let Some(f) = random_unitary(size) {
            let next: Option<IntMatrix> = match &product {
                None => Some(f),
                Some(u) => fold_factor(u, &f),
            };
            if next.is_some() {
                product = next;
                counter = counter + 1;
                attempts = 0;
            }
        }
    }
    if counter < iterations {
        return Err(GghError::KeyGenerationFailed);
    }
    let mut unimodular = match product {
        Some(u) => u,
        None => {
            return Err(GghError::KeyGenerationFailed);
        },
    };
    let r = match KeyPair::from_parts(private_basis, &unimodular, delta_param) {
        Ok(k) => Ok(k),
        Err(GghError::Overflow) => Err(GghError::Overflow),
        Err(_) => Err(GghError::KeyGenerationFailed),
    };
    // the transform is part of neither key
    unimodular.clear();
    r
}

/// The running product `u * f`, kept only where it can be computed within
/// `i64` and its determinant is exactly `1` or `-1`.
pub fn fold_factor(u: &IntMatrix, f: &IntMatrix) -> (r: Option<IntMatrix>)
    requires
        u.wf(),
        f.wf(),
        u.dim() == f.dim(),
    ensures
        r is Some <==> mat_mul_fits(u@, f@) && det_fits(mat_mul(u@, f@)) && (det(mat_mul(u@, f@)) == 1 || det(
            mat_mul(u@, f@),
        ) == -1),
        r matches Some(t) ==> t.wf() && t.dim() == u.dim() && t@ == mat_mul(u@, f@),
{
    match multiply(u, f) {
        Some(t) => match determinant(&t) {
            Some(d) => {
                if d == 1 || d == -1 {
                    Some(t)
                } else {
                    None
                }
            },
            None => None,
        },
        None => None,
    }
}

/// Each column of `b * u` is the lattice point of `b` whose integer
/// coordinates are the matching column of `u`: the lattice of `b * u` lies
/// within the lattice of `b`.
pub proof fn lemma_transformed_columns_in_lattice(b: Seq<Seq<int>>, u: Seq<Seq<int>>, n: nat)
    requires
        is_square(b, n),
        is_square(u, n),
    ensures
        forall|j: int| 0 <= j < n ==> #[trigger] column(mat_mul(b, u), j) == mat_vec(b, column(u, j)),
{
    assert forall|j: int| 0 <= j < n implies #[trigger] column(mat_mul(b, u), j) == mat_vec(b, column(u, j)) by {
        assert(column(mat_mul(b, u), j) =~= mat_vec(b, column(u, j)));
    }
}

/// Scaling one side of an inner product scales the product.
proof fn lemma_dot_scale(a: Seq<int>, b: Seq<int>, d: int)
    requires
        a.len() == b.len(),
    ensures
        dot(a, scale(d, b)) == d * dot(a, b),
    decreases a.len(),
{
    if a.len() > 0 {
        let k = a.len() - 1;
        assert(scale(d, b).take(k) =~= scale(d, b.take(k)));
        lemma_dot_scale(a.drop_last(), b.take(k), d);
        let x = dot(a.drop_last(), b.take(k));
        let al = a.last();
        let bl = b[k];
        assert(d * x + al * (d * bl) == d * (x + al * bl)) by (nonlinear_arith);
    }
}

/// A message is a valid reading of its own lattice point: with
/// `det(p) * message` as numerators, the point `p * message` solves the
/// system of `read_point`, and rounding gives back the message.
pub proof fn lemma_message_reads_from_its_point(p: Seq<Seq<int>>, message: Seq<int>, n: nat)
    requires
        is_square(p, n),
        message.len() == n,
        det(p) != 0,
    ensures
        reads_as(p, mat_vec(p, message), message),
{
    let d = det(p);
    let nums = scale(d, message);
    assert forall|i: int| 0 <= i < n implies #[trigger] mat_vec(p, nums)[i] == scale(d, mat_vec(p, message))[i] by {
        lemma_dot_scale(p[i], message, d);
    }
    assert(mat_vec(p, nums) =~= scale(d, mat_vec(p, message)));
    lemma_round_all_exact(message, d);
    assert(solves(p, nums, d, mat_vec(p, message)));
    assert(message == round_all(nums, det(p)));
}

/// The inner product of two vectors of length two.
proof fn lemma_dot_two(a: Seq<int>, b: Seq<int>)
    requires
        a.len() == 2,
        b.len() == 2,
    ensures
        dot(a, b) == a[0] * b[0] + a[1] * b[1],
{
    let a1 = a.drop_last();
    let b1 = b.take(1);
    assert(a1.drop_last().len() == 0);
    assert(dot(a1.drop_last(), b1.take(0)) == 0);
    assert(dot(a1, b1) == a[0] * b[0]);
}

/// The determinant of a two by two matrix, by its formula.
proof fn lemma_det_two_value(m: Seq<Seq<int>>)
    requires
        is_square(m, 2),
    ensures
        det(m) == m[0][0] * m[1][1] - m[0][1] * m[1][0],
{
    let s0 = minor(m, 0);
    let s1 = minor(m, 1);
    assert(minor(s0, 0).len() == 0 && minor(s1, 0).len() == 0);
    assert(det(minor(s0, 0)) == 1 && det(minor(s1, 0)) == 1);
    assert(expansion(s0, 0) == 0 && expansion(s1, 0) == 0);
    assert(s0[0][0] == m[1][1] && s1[0][0] == m[1][0]);
    let (a, b, c, d) = (m[0][0], m[0][1], m[1][0], m[1][1]);
    assert(sign(0) * d * 1 == d) by (nonlinear_arith)
        requires
            sign(0) == 1,
    {
    }
    assert(sign(0) * c * 1 == c) by (nonlinear_arith)
        requires
            sign(0) == 1,
    {
    }
    assert(expansion(s0, 1) == d && expansion(s1, 1) == c);
    assert(det(s0) == d && det(s1) == c);
    assert(expansion(m, 0) == 0);
    assert(sign(0) * a * d == a * d) by (nonlinear_arith)
        requires
            sign(0) == 1,
    {
    }
    assert(sign(1) * b * c == -(b * c)) by (nonlinear_arith)
        requires
            sign(1) == -1,
    {
    }
    assert(expansion(m, 1) == a * d);
    assert(expansion(m, 2) == a * d - b * c);
}

proof fn lemma_assoc_identity(b0: int, b1: int, u00: int, u01: int, u10: int, u11: int, m0: int, m1: int)
    ensures
        (b0 * u00 + b1 * u10) * m0 + (b0 * u01 + b1 * u11) * m1 == b0 * (u00 * m0 + u01 * m1) + b1 * (u10 * m0 + u11 * m1),
{
    assert((b0 * u00 + b1 * u10) * m0 == b0 * (u00 * m0) + b1 * (u10 * m0)) by (nonlinear_arith);
    assert((b0 * u01 + b1 * u11) * m1 == b0 * (u01 * m1) + b1 * (u11 * m1)) by (nonlinear_arith);
    assert(b0 * (u00 * m0) + b0 * (u01 * m1) == b0 * (u00 * m0 + u01 * m1)) by (nonlinear_arith);
    assert(b1 * (u10 * m0) + b1 * (u11 * m1) == b1 * (u10 * m0 + u11 * m1)) by (nonlinear_arith);
}

/// Cramer's rule in dimension two: the numerators for `m * x` are `det(m) * x`.
proof fn lemma_cramer_two(m: Seq<Seq<int>>, x: Seq<int>)
    requires
        is_square(m, 2),
        x.len() == 2,
    ensures
        cramer_nums(m, mat_vec(m, x)) == scale(det(m), x),
{
    let y = mat_vec(m, x);
    lemma_dot_two(m[0], x);
    lemma_dot_two(m[1], x);
    lemma_det_two_value(m);
    let w0 = with_column(m, 0, y);
    let w1 = with_column(m, 1, y);
    lemma_det_two_value(w0);
    lemma_det_two_value(w1);
    let (a, b, c, d) = (m[0][0], m[0][1], m[1][0], m[1][1]);
    let (x0, x1) = (x[0], x[1]);
    assert(w0[0][0] == a * x0 + b * x1 && w0[0][1] == b && w0[1][0] == c * x0 + d * x1 && w0[1][1] == d);
    assert(w1[0][0] == a && w1[0][1] == a * x0 + b * x1 && w1[1][0] == c && w1[1][1] == c * x0 + d * x1);
    assert((a * x0 + b * x1) * d - b * (c * x0 + d * x1) == (a * d - b * c) * x0) by (nonlinear_arith);
    assert(a * (c * x0 + d * x1) - (a * x0 + b * x1) * c == (a * d - b * c) * x1) by (nonlinear_arith);
    assert(cramer_nums(m, y) =~= scale(det(m), x));
}

/// `(b * u) * m == b * (u * m)` in dimension two.
proof fn lemma_assoc_two(b: Seq<Seq<int>>, u: Seq<Seq<int>>, m: Seq<int>)
    requires
        is_square(b, 2),
        is_square(u, 2),
        m.len() == 2,
    ensures
        mat_vec(mat_mul(b, u), m) == mat_vec(b, mat_vec(u, m)),
{
    let p = mat_mul(b, u);
    let k = mat_vec(u, m);
    lemma_dot_two(u[0], m);
    lemma_dot_two(u[1], m);
    assert forall|i: int| 0 <= i < 2 implies #[trigger] mat_vec(p, m)[i] == mat_vec(b, k)[i] by {
        lemma_dot_two(b[i], k);
        lemma_dot_two(b[i], column(u, 0));
        lemma_dot_two(b[i], column(u, 1));
        assert(p[i].len() == 2);
        lemma_dot_two(p[i], m);
        let (b0, b1) = (b[i][0], b[i][1]);
        let (u00, u01, u10, u11) = (u[0][0], u[0][1], u[1][0], u[1][1]);
        let (m0, m1) = (m[0], m[1]);
        lemma_assoc_identity(b0, b1, u00, u01, u10, u11, m0, m1);
        assert(column(u, 0)[0] == u00 && column(u, 0)[1] == u10 && column(u, 1)[0] == u01 && column(u, 1)[1] == u11);
        assert(p[i][0] == dot(b[i], column(u, 0)) && p[i][1] == dot(b[i], column(u, 1)));
    }
    assert(mat_vec(p, m) =~= mat_vec(b, k));
}

/// Round trip in dimension two without noise: for a well-formed key, where
/// Babai's rounding of the lattice point `public * message` and its public
/// reading can be carried out, decryption gives back `message`.
pub proof fn lemma_round_trip_dimension_two(k: KeyPair, message: Seq<int>)
    requires
        k.wf(),
        k.dim() == 2,
        message.len() == 2,
        babai_defined(k.private_view(), mat_vec(k.public_view(), message)),
        read_defined(k.public_view(), decrypt_point(k.private_view(), mat_vec(k.public_view(), message))),
    ensures
        read_of(k.public_view(), decrypt_point(k.private_view(), mat_vec(k.public_view(), message))) == message,
{
    let b = k.private_view();
    let p = k.public_view();
    let u = choose|u: Seq<Seq<int>>| #[trigger] is_unimodular(u, k.dim()) && p == mat_mul(b, u);
    k.private_basis.lemma_square();
    k.public_key.lemma_square();
    let c = mat_vec(p, message);
    let z = mat_vec(u, message);
    lemma_assoc_two(b, u, message);
    assert(c == mat_vec(b, z));
    lemma_cramer_two(b, z);
    lemma_round_all_exact(z, det(b));
    assert(round_all(cramer_nums(b, c), det(b)) == z);
    assert(decrypt_point(b, c) == c);
    assert(det(p) != 0);
    lemma_cramer_two(p, message);
    lemma_round_all_exact(message, det(p));
}

/// In dimension two, Babai's rounding leaves every lattice point of a
/// non-singular basis where it is.
pub proof fn lemma_babai_fixes_lattice_points_two(b: Seq<Seq<int>>, z: Seq<int>)
    requires
        is_square(b, 2),
        z.len() == 2,
        det(b) != 0,
    ensures
        babai_of(b, mat_vec(b, z)) == mat_vec(b, z),
{
    lemma_cramer_two(b, z);
    lemma_round_all_exact(z, det(b));
}

/// The integer inverse of a two by two matrix of determinant `1` or `-1`.
pub open spec fn inverse_two(u: Seq<Seq<int>>) -> Seq<Seq<int>> {
    let d = det(u);
    seq![seq![d * u[1][1], -d * u[0][1]], seq![-d * u[1][0], d * u[0][0]]]
}

/// In dimension two, each column of `b` is the lattice point of `b * u`
/// whose integer coordinates are the matching column of `inverse_two(u)`:
/// with the inclusion the other way, `b` and `b * u` generate one lattice.
pub proof fn lemma_original_columns_in_lattice_two(b: Seq<Seq<int>>, u: Seq<Seq<int>>)
    requires
        is_square(b, 2),
        is_unimodular(u, 2),
    ensures
        forall|j: int| 0 <= j < 2 ==> #[trigger] mat_vec(mat_mul(b, u), column(inverse_two(u), j)) == column(b, j),
{
    lemma_det_two_value(u);
    let d = det(u);
    let (a, bb, c, e) = (u[0][0], u[0][1], u[1][0], u[1][1]);
    assert(d * d == 1) by (nonlinear_arith)
        requires
            d == 1 || d == -1,
    {
    }
    assert forall|j: int| 0 <= j < 2 implies #[trigger] mat_vec(mat_mul(b, u), column(inverse_two(u), j)) == column(b, j) by {
        let x = column(inverse_two(u), j);
        lemma_assoc_two(b, u, x);
        let y = mat_vec(u, x);
        lemma_dot_two(u[0], x);
        lemma_dot_two(u[1], x);
        if j == 0 {
            assert(x[0] == d * e && x[1] == -d * c);
            assert(a * (d * e) + bb * (-d * c) == d * (a * e - bb * c)) by (nonlinear_arith);
            assert(c * (d * e) + e * (-d * c) == 0) by (nonlinear_arith);
        } else {
            assert(x[0] == -d * bb && x[1] == d * a);
            assert(a * (-d * bb) + bb * (d * a) == 0) by (nonlinear_arith);
            assert(c * (-d * bb) + e * (d * a) == d * (a * e - bb * c)) by (nonlinear_arith);
        }
        assert(y[j] == 1 && y[1 - j] == 0);
        lemma_dot_two(b[0], y);
        lemma_dot_two(b[1], y);
        assert(mat_vec(b, y) =~= column(b, j));
    }
}

/// The zero vector of length `n`.
pub fn zero_vec(n: usize) -> (r: Vec<i64>)
    ensures
        r@.len() == n,
        ints(r@) == zeros(n as nat),
{
    let mut r: Vec<i64> = Vec::new();
    let mut i: usize = 0;
    while i < n
        invariant
            i <= n,
            r@.len() == i,
            forall|k: int| 0 <= k < i ==> #[trigger] r@[k] == 0,
        decreases n - i,
    {
        r.push(0);
        i = i + 1;
    }
    assert(ints(r@) =~= zeros(n as nat));
    r
}

} // verus!
