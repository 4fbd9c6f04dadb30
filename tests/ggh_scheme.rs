use ggh::babai::{babai_closest_vector, babai_decode, linear_decomposition, round_quotient, DecodeError};
use ggh::basis::{good_basis, is_good_basis, random_basis};
use ggh::ggh::{fold_factor, generate, init, zero_vec, GghError, KeyPair};
use ggh::matrix::{determinant, dot_checked, modify_row, multiply, multiply_row_by_minus_one, multiply_vec, IntMatrix};
use ggh::unimodular::{random_unitary, unitary_candidate};

fn mat(rows: Vec<Vec<i64>>) -> IntMatrix {
    IntMatrix { rows }
}

#[test]
fn identity_has_ones_on_the_diagonal() {
    let m = IntMatrix::identity(3);
    assert_eq!(m.rows, vec![vec![1, 0, 0], vec![0, 1, 0], vec![0, 0, 1]]);
    assert_eq!(determinant(&m), Some(1));
}

#[test]
fn negating_a_row() {
    let mut m = mat(vec![vec![1, -2], vec![3, 4]]);
    multiply_row_by_minus_one(&mut m, 0);
    assert_eq!(m.rows, vec![vec![-1, 2], vec![3, 4]]);
}

#[test]
fn adding_a_multiple_of_a_row() {
    let mut m = mat(vec![vec![1, 2], vec![3, 4]]);
    modify_row(&mut m, 1, 0, 5);
    assert_eq!(m.rows, vec![vec![1, 2], vec![8, 14]]);
    modify_row(&mut m, 0, 0, 2);
    assert_eq!(m.rows, vec![vec![3, 6], vec![8, 14]]);
}

#[test]
fn swapping_rows_and_columns() {
    let mut m = mat(vec![vec![1, 2], vec![3, 4]]);
    m.swap_rows(0, 1);
    assert_eq!(m.rows, vec![vec![3, 4], vec![1, 2]]);
    m.swap_columns(0, 1);
    assert_eq!(m.rows, vec![vec![4, 3], vec![2, 1]]);
}

#[test]
fn determinants_are_exact() {
    assert_eq!(determinant(&mat(vec![vec![1, 2], vec![3, 4]])), Some(-2));
    assert_eq!(determinant(&mat(vec![vec![2, 0, 1], vec![1, 3, 2], vec![1, 1, 2]])), Some(6));
    assert_eq!(determinant(&mat(vec![])), Some(1));
}

#[test]
fn products_are_exact() {
    let a = mat(vec![vec![1, 2], vec![3, 4]]);
    let b = mat(vec![vec![0, 1], vec![1, 0]]);
    assert_eq!(multiply(&a, &b).unwrap().rows, vec![vec![2, 1], vec![4, 3]]);
    assert_eq!(multiply_vec(&a, &vec![3, 5]), Some(vec![13, 29]));
    assert_eq!(dot_checked(&vec![i64::MAX, 1], &vec![1, 1]), None);
    assert_eq!(dot_checked(&vec![i64::MAX, -1], &vec![1, 1]), Some(i64::MAX - 1));
}

#[test]
fn rounding_goes_to_the_nearest_integer() {
    assert_eq!(round_quotient(7, 2), Some(4));
    assert_eq!(round_quotient(-7, 2), Some(-4));
    assert_eq!(round_quotient(5, 3), Some(2));
    assert_eq!(round_quotient(4, -3), Some(-1));
    assert_eq!(round_quotient(i64::MIN, -1), None);
}

#[test]
fn candidate_follows_the_choices() {
    let u = unitary_candidate(2, &vec![1, 1], &vec![0, 1], &vec![true, false], &vec![1, 1], &vec![3, 4]).unwrap();
    // rows swapped: [[0,1],[1,0]]; row 0 negated: [[0,-1],[1,0]]; row 0 += 3 * row 1.
    assert_eq!(u.rows, vec![vec![3, -1], vec![1, 0]]);
    assert_eq!(determinant(&u), Some(1));
}

#[test]
fn random_unitary_matrices_have_unit_determinant() {
    for size in 1..5 {
        for _ in 0..10 {
            let u = random_unitary(size).unwrap();
            assert_eq!(u.rows.len(), size);
            let d = determinant(&u).unwrap();
            assert!(d == 1 || d == -1);
        }
    }
}

#[test]
fn random_basis_entries_are_bounded() {
    let b = random_basis(4, 3);
    assert_eq!(b.rows.len(), 4);
    for row in &b.rows {
        assert_eq!(row.len(), 4);
        for x in row {
            assert!(-3 <= *x && *x <= 3);
        }
    }
}

#[test]
fn orthogonal_bases_meet_the_threshold() {
    assert_eq!(is_good_basis(&mat(vec![vec![3, 0, 0], vec![0, 3, 0], vec![0, 0, 3]])), Some(true));
    assert_eq!(is_good_basis(&mat(vec![vec![10, 1], vec![-1, 10]])), Some(true));
}

#[test]
fn good_bases_meet_the_threshold() {
    let b = good_basis(3, 16).unwrap();
    assert_eq!(is_good_basis(&b), Some(true));
    assert!(determinant(&b).unwrap() != 0);
}

#[test]
fn singular_basis_is_rejected_everywhere() {
    let s = mat(vec![vec![1, 1, 1], vec![1, 1, 1], vec![1, 1, 1]]);
    assert_eq!(determinant(&s), Some(0));
    assert_eq!(is_good_basis(&s), Some(false));
    assert!(linear_decomposition(&vec![1, 2, 3], &s).is_none());
    assert!(linear_decomposition(&vec![0, 0, 0], &s).is_none());
    assert!(linear_decomposition(&vec![1, 1, 1], &s).is_none());
    assert_eq!(babai_closest_vector(&s, &vec![1, 1, 1]), None);
}

#[test]
fn decomposition_is_exact() {
    let b = mat(vec![vec![2, 0], vec![0, 4]]);
    let c = linear_decomposition(&vec![3, 5], &b).unwrap();
    assert_eq!(c.denominator, 8);
    assert_eq!(c.numerators, vec![12, 10]);
}

#[test]
fn babai_rounds_to_the_nearest_lattice_point() {
    let b = mat(vec![vec![10, 1], vec![-1, 10]]);
    // lattice point b * [2, -3] = [17, -32], displaced by [1, -2]
    assert_eq!(babai_closest_vector(&b, &vec![18, -34]), Some(vec![17, -32]));
}

#[test]
fn babai_refuses_a_skewed_basis() {
    // a unimodular basis of the integer lattice, but far from orthogonal
    let b = mat(vec![vec![1, 0], vec![1, 1]]);
    assert_eq!(is_good_basis(&b), Some(false));
    assert_eq!(babai_closest_vector(&b, &vec![3, 5]), None);
    assert_eq!(babai_closest_vector(&b, &vec![3, 8]), None);
}

#[test]
fn identity_key_scenario() {
    let u = mat(vec![vec![2, 1], vec![1, 1]]);
    let k = KeyPair::from_parts(IntMatrix::identity(2), &u, 0).unwrap();
    assert_eq!(k.public_key().rows, u.rows);
    let c = k.encrypt(&vec![3, 5]).unwrap();
    assert_eq!(Some(c.clone()), multiply_vec(k.public_key(), &vec![3, 5]));
    assert_eq!(c, vec![11, 8]);
    assert_eq!(k.decrypt(&c), Ok(vec![3, 5]));
    assert_eq!(k.decrypt_strict(&c), Ok(vec![3, 5]));
}

#[test]
fn round_trip_with_noise() {
    let b = mat(vec![vec![10, 1], vec![-1, 10]]);
    let u = mat(vec![vec![3, 5], vec![1, 2]]);
    let k = KeyPair::from_parts(b, &u, 2).unwrap();
    for m in [vec![3, 5], vec![-7, 12], vec![0, 0], vec![25, -40]] {
        for _ in 0..20 {
            let c = k.encrypt(&m).unwrap();
            assert_eq!(k.decrypt(&c), Ok(m.clone()));
        }
    }
}

#[test]
fn encryption_adds_the_given_noise() {
    let b = mat(vec![vec![10, 1], vec![-1, 10]]);
    let u = mat(vec![vec![1, 0], vec![0, 1]]);
    let k = KeyPair::from_parts(b, &u, 2).unwrap();
    assert_eq!(k.encrypt_with_noise(&vec![1, 2], &vec![1, -2]), Ok(vec![13, 17]));
    assert_eq!(k.encrypt_with_noise(&vec![1, 2], &vec![1]), Err(GghError::DimensionMismatch));
}

#[test]
fn dimension_mismatch_is_reported() {
    let k = KeyPair::from_parts(IntMatrix::identity(2), &IntMatrix::identity(2), 1).unwrap();
    assert_eq!(k.encrypt(&vec![1, 2, 3]), Err(GghError::DimensionMismatch));
    assert_eq!(k.decrypt(&vec![1]), Err(GghError::DimensionMismatch));
    assert_eq!(k.decrypt_strict(&vec![]), Err(GghError::DimensionMismatch));
}

#[test]
fn invalid_key_parts_are_refused() {
    let skewed = mat(vec![vec![1, 0], vec![1, 1]]);
    assert_eq!(KeyPair::from_parts(skewed, &IntMatrix::identity(2), 1).err(), Some(GghError::InvalidKey));
    let not_unimodular = mat(vec![vec![2, 0], vec![0, 1]]);
    assert_eq!(KeyPair::from_parts(IntMatrix::identity(2), &not_unimodular, 1).err(), Some(GghError::InvalidKey));
    assert_eq!(KeyPair::from_parts(IntMatrix::identity(2), &IntMatrix::identity(2), -1).err(), Some(GghError::InvalidKey));
}

#[test]
fn zero_fallback_versus_strict_decoding() {
    let b = mat(vec![vec![10, 1], vec![-1, 10]]);
    let k = KeyPair::from_parts(b, &IntMatrix::identity(2), 0).unwrap();
    // Cramer's rule on this target leaves the 64-bit range, so the decoder fails
    let c = vec![i64::MAX, i64::MAX];
    assert_eq!(babai_closest_vector(k.private_basis(), &c), None);
    assert_eq!(k.decrypt(&c), Ok(vec![0, 0]));
    assert_eq!(k.decrypt_strict(&c), Err(GghError::DecodeFailed));
    assert_eq!(k.read_point(&zero_vec(2)), Ok(vec![0, 0]));
    assert_eq!(zero_vec(3), vec![0, 0, 0]);
}

#[test]
fn generated_keys_share_the_lattice() {
    let k = init(2, 14, 0).unwrap();
    let b = k.private_basis();
    let p = k.public_key();
    assert_eq!(is_good_basis(b), Some(true));
    let db = determinant(b).unwrap();
    let dp = determinant(p).unwrap();
    assert!(dp == db || dp == -db);
    for j in 0..2 {
        let col: Vec<i64> = (0..2).map(|i| p.rows[i][j]).collect();
        let c = linear_decomposition(&col, b).unwrap();
        for x in &c.numerators {
            assert_eq!(x % c.denominator, 0);
        }
    }
    for j in 0..2 {
        let col: Vec<i64> = (0..2).map(|i| b.rows[i][j]).collect();
        let c = linear_decomposition(&col, p).unwrap();
        for x in &c.numerators {
            assert_eq!(x % c.denominator, 0);
        }
    }
    let c = k.encrypt(&vec![3, 5]).unwrap();
    assert_eq!(k.decrypt(&c), Ok(vec![3, 5]));
}

#[test]
fn clearing_and_reading_entries() {
    let mut m = mat(vec![vec![1, 2], vec![3, 4]]);
    assert_eq!(m.get(1, 0), 3);
    assert_eq!(m.size(), 2);
    m.clear();
    assert_eq!(m.rows, vec![vec![0, 0], vec![0, 0]]);
}

#[test]
fn random_draws_vary() {
    let b = random_basis(6, 5);
    let first = b.rows[0][0];
    assert!(b.rows.iter().flatten().any(|x| *x != first));
}

#[test]
fn overflowing_products_are_reported() {
    let big = mat(vec![vec![i64::MAX, i64::MAX], vec![0, 1]]);
    assert!(multiply(&big, &big).is_none());
    assert_eq!(multiply_vec(&big, &vec![1, 1]), None);
    let k = KeyPair::from_parts(IntMatrix::identity(2), &IntMatrix::identity(2), 0).unwrap();
    assert_eq!(k.encrypt_with_noise(&vec![i64::MAX, 0], &vec![1, 0]), Err(GghError::Overflow));
}

#[test]
fn generation_without_factors_keeps_the_basis() {
    let k = generate(2, 14, 0, 1).unwrap();
    assert_eq!(k.public_key().rows, k.private_basis().rows);
    assert_eq!(k.noise_parameter(), 1);
}

#[test]
fn generation_with_a_few_factors() {
    let k = generate(3, 16, 2, 2).unwrap();
    let db = determinant(k.private_basis()).unwrap();
    let dp = determinant(k.public_key()).unwrap();
    assert!(dp == db || dp == -db);
    assert_eq!(k.public_key().rows.len(), 3);
}

#[test]
fn decoder_failures_are_told_apart() {
    let singular = mat(vec![vec![1, 1], vec![1, 1]]);
    assert_eq!(babai_decode(&singular, &vec![1, 2]), Err(DecodeError::SingularBasis));
    let skewed = mat(vec![vec![1, 0], vec![1, 1]]);
    assert_eq!(babai_decode(&skewed, &vec![1, 2]), Err(DecodeError::IllConditionedBasis));
    let good = mat(vec![vec![10, 1], vec![-1, 10]]);
    assert_eq!(babai_decode(&good, &vec![i64::MAX, i64::MAX]), Err(DecodeError::Overflow));
    assert_eq!(babai_decode(&good, &vec![18, -34]), Ok(vec![17, -32]));
}

#[test]
fn folding_keeps_only_unimodular_products() {
    let u = mat(vec![vec![2, 1], vec![1, 1]]);
    let f = mat(vec![vec![1, 3], vec![0, 1]]);
    assert_eq!(fold_factor(&u, &f).unwrap().rows, vec![vec![2, 7], vec![1, 4]]);
    let not_unimodular = mat(vec![vec![2, 0], vec![0, 1]]);
    assert!(fold_factor(&u, &not_unimodular).is_none());
}

#[test]
fn reading_a_point_in_the_public_basis() {
    let u = mat(vec![vec![2, 1], vec![1, 1]]);
    let k = KeyPair::from_parts(IntMatrix::identity(2), &u, 0).unwrap();
    assert_eq!(k.read_point(&vec![11, 8]), Ok(vec![3, 5]));
    assert_eq!(k.read_point(&vec![1]), Err(GghError::DimensionMismatch));
}
