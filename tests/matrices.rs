use float_cmp::{ApproxEq, F64Margin};
use quanta::dims::{index_bit, integer_sqrt, is_power_of_two, is_square_number, pow2_side};
use quanta::matrix::QMatrix;
use quanta::QError;

type C = (f64, f64);

const IR2: f64 = std::f64::consts::FRAC_1_SQRT_2;
const ZERO: C = (0.0, 0.0);
const ONE: C = (1.0, 0.0);
const I: C = (0.0, 1.0);
const C_IR2: C = (IR2, 0.0);

fn c(re: f64, im: f64) -> C {
    (re, im)
}

fn cmul(a: C, b: C) -> C {
    (a.0 * b.0 - a.1 * b.1, a.1 * b.0 + a.0 * b.1)
}

fn cadd(a: C, b: C) -> C {
    (a.0 + b.0, a.1 + b.1)
}

fn cneg(a: C) -> C {
    (-a.0, -a.1)
}

fn feq(a: f64, b: f64) -> bool {
    a.approx_eq(b, F64Margin::default())
}

fn close(a: C, b: C) -> bool {
    feq(a.0, b.0) && feq(a.1, b.1)
}

fn exact(a: C, b: C) -> bool {
    a == b
}

fn matrix(v: Vec<C>) -> QMatrix<C> {
    QMatrix::from_data(v).unwrap()
}

fn identity(n: usize) -> QMatrix<C> {
    let mut v = vec![ZERO; n * n];
    for k in 0..n {
        v[k * n + k] = ONE;
    }
    matrix(v)
}

fn i_gate() -> QMatrix<C> {
    matrix(vec![ONE, ZERO, ZERO, ONE])
}

fn y_gate() -> QMatrix<C> {
    matrix(vec![ZERO, cneg(I), I, ZERO])
}

fn h_gate() -> QMatrix<C> {
    matrix(vec![C_IR2, C_IR2, C_IR2, cneg(C_IR2)])
}

fn cnot_gate() -> QMatrix<C> {
    matrix(vec![
        ONE, ZERO, ZERO, ZERO,
        ZERO, ONE, ZERO, ZERO,
        ZERO, ZERO, ZERO, ONE,
        ZERO, ZERO, ONE, ZERO,
    ])
}

fn entry(m: &QMatrix<C>, row: usize, col: usize) -> C {
    m.data_slice()[row * m.dims() + col]
}

#[test]
#[should_panic]
fn creating_qmatrix_from_data_with_non_square_dims_panics() {
    let data = vec![ZERO; 9999];
    let _ = QMatrix::from_data(data).unwrap();
}

#[test]
fn muliply_two_qmatrices_gives_the_correct_result() {
    let matrix_1 = matrix(vec![c(1.0, 0.0), c(2.0, 0.0), c(3.0, 0.0), c(4.0, 0.0)]);
    let matrix_2 = matrix(vec![c(1.0, 0.0), c(1.0, 0.0), c(1.0, 1.0), c(-1.0, -1.0)]);
    let result = matrix_1.mul(&matrix_2, ZERO, cmul, cadd).unwrap();
    let expected_result = matrix(vec![c(4.0, 0.0), c(6.0, 0.0), c(-2.0, -2.0), c(-2.0, -2.0)]);
    assert!(result.equals(&expected_result, exact));
}

#[test]
fn kronecker_product_of_two_arbitrary_equally_sized_matrices_yields_correct_output() {
    let matrix_1 = matrix(vec![c(1.0, 0.0), c(2.0, 0.0), c(3.0, 0.0), c(4.0, 0.0)]);
    let matrix_2 = matrix(vec![c(0.0, 1.0), c(1.0, 1.0), c(0.0, 1.0), c(-1.0, 1.0)]);
    let result = matrix_1.kronecker(&matrix_2, cmul);
    let expected_result = matrix(vec![
        c(0.0, 1.0),
        c(0.0, 2.0),
        c(1.0, 1.0),
        c(2.0, 2.0),
        c(0.0, 3.0),
        c(0.0, 4.0),
        c(3.0, 3.0),
        c(4.0, 4.0),
        c(0.0, 1.0),
        c(0.0, 2.0),
        c(-1.0, 1.0),
        c(-2.0, 2.0),
        c(0.0, 3.0),
        c(0.0, 4.0),
        c(-3.0, 3.0),
        c(-4.0, 4.0),
    ]);
    assert!(result.equals(&expected_result, close));
}

#[test]
fn kronecker_product_of_pauli_y_cnot_gives_correct_output() {
    let result = cnot_gate().kronecker(&y_gate(), cmul);
    let m_i = cneg(I);
    let expected_data: Vec<C> = vec![
        ZERO, ZERO, ZERO, ZERO, m_i, ZERO, ZERO, ZERO,
        ZERO, ZERO, ZERO, ZERO, ZERO, m_i, ZERO, ZERO,
        ZERO, ZERO, ZERO, ZERO, ZERO, ZERO, ZERO, m_i,
        ZERO, ZERO, ZERO, ZERO, ZERO, ZERO, m_i, ZERO,
        I, ZERO, ZERO, ZERO, ZERO, ZERO, ZERO, ZERO,
        ZERO, I, ZERO, ZERO, ZERO, ZERO, ZERO, ZERO,
        ZERO, ZERO, ZERO, I, ZERO, ZERO, ZERO, ZERO,
        ZERO, ZERO, I, ZERO, ZERO, ZERO, ZERO, ZERO,
    ];
    let expected_result = QMatrix::from_data(expected_data).unwrap();
    assert!(result.equals(&expected_result, close));
}

#[test]
fn kronecker_product_of_identity_hadamard_gives_correct_output() {
    let result = h_gate().kronecker(&i_gate(), cmul);
    let m_ir2 = cneg(C_IR2);
    let expected_data: Vec<C> = vec![
        C_IR2, C_IR2, ZERO, ZERO,
        C_IR2, m_ir2, ZERO, ZERO,
        ZERO, ZERO, C_IR2, C_IR2,
        ZERO, ZERO, C_IR2, m_ir2,
    ];
    let expected_result = QMatrix::from_data(expected_data).unwrap();
    assert!(result.equals(&expected_result, close));
}

#[test]
fn kronecker_of_unequal_sizes_follows_the_block_law() {
    let small = matrix(vec![c(1.0, 0.0), c(2.0, 0.0), c(0.0, 3.0), c(4.0, -1.0)]);
    let big = matrix((0..16).map(|k| c(k as f64, 1.0)).collect());
    for (inner, outer) in [(&small, &big), (&big, &small)] {
        let r = inner.kronecker(outer, cmul);
        let s = inner.dims();
        assert_eq!(r.dims(), outer.dims() * inner.dims());
        assert_eq!(r.data_slice().len(), r.dims() * r.dims());
        for ra in 0..outer.dims() {
            for ca in 0..outer.dims() {
                for rb in 0..s {
                    for cb in 0..s {
                        assert_eq!(
                            entry(&r, s * ra + rb, s * ca + cb),
                            cmul(entry(outer, ra, ca), entry(inner, rb, cb))
                        );
                    }
                }
            }
        }
    }
}

#[test]
fn multiplication_is_associative() {
    let a = matrix(vec![c(1.0, 0.0), c(2.0, 1.0), c(0.0, -1.0), c(3.0, 0.0)]);
    let b = matrix(vec![c(0.5, 0.0), c(-1.0, 0.0), c(2.0, 2.0), c(0.0, 1.0)]);
    let cc = matrix(vec![c(1.0, 1.0), c(0.0, 0.0), c(-2.0, 0.0), c(1.0, -3.0)]);
    let left = a.mul(&b, ZERO, cmul, cadd).unwrap().mul(&cc, ZERO, cmul, cadd).unwrap();
    let right = a.mul(&b.mul(&cc, ZERO, cmul, cadd).unwrap(), ZERO, cmul, cadd).unwrap();
    assert!(left.equals(&right, close));
}

#[test]
fn multiplying_by_the_identity_keeps_the_matrix() {
    let a = matrix(vec![c(1.0, 0.0), c(2.0, 1.0), c(0.0, -1.0), c(3.0, 0.0)]);
    assert!(a.mul(&identity(2), ZERO, cmul, cadd).unwrap().equals(&a, exact));
    assert!(identity(2).mul(&a, ZERO, cmul, cadd).unwrap().equals(&a, exact));
}

#[test]
fn multiplying_different_sizes_is_dimension_mismatch() {
    let r = identity(2).mul(&identity(4), ZERO, cmul, cadd);
    assert_eq!(r.err(), Some(QError::DimensionMismatch));
}

#[test]
fn from_data_needs_a_power_of_two_side() {
    assert_eq!(QMatrix::from_data(vec![ZERO; 3]).err(), Some(QError::InvalidDimension));
    assert_eq!(QMatrix::from_data(vec![ZERO; 9]).err(), Some(QError::InvalidDimension));
    assert_eq!(QMatrix::<C>::from_data(vec![]).err(), Some(QError::InvalidDimension));
    assert_eq!(matrix(vec![ZERO; 16]).dims(), 4);
    assert_eq!(matrix(vec![ONE]).dims(), 1);
}

#[test]
fn from_vecs_needs_square_rows_only() {
    let three = QMatrix::from_vecs(vec![vec![ONE, ZERO, ZERO], vec![ZERO, ONE, ZERO], vec![ZERO, ZERO, I]])
        .unwrap();
    assert_eq!(three.dims(), 3);
    assert_eq!(entry(&three, 2, 2), I);
    assert_eq!(entry(&three, 0, 1), ZERO);
    let ragged = QMatrix::from_vecs(vec![vec![ONE, ZERO], vec![ZERO]]);
    assert_eq!(ragged.err(), Some(QError::InvalidDimension));
    let wide = QMatrix::from_vecs(vec![vec![ONE, ZERO]]);
    assert_eq!(wide.err(), Some(QError::InvalidDimension));
}

#[test]
fn scaling_a_matrix_multiplies_every_entry() {
    let m = matrix(vec![c(1.0, 0.0), c(2.0, 0.0), c(0.0, 1.0), c(4.0, 0.0)]);
    let r = m.scale(|z: C| cmul((2.0, 0.0), z));
    assert_eq!(r.data_slice().to_vec(), vec![c(2.0, 0.0), c(4.0, 0.0), c(0.0, 2.0), c(8.0, 0.0)]);
}

#[test]
fn square_numbers_are_recognized() {
    assert!(is_square_number(0));
    assert!(is_square_number(1));
    assert!(is_square_number(10000));
    assert!(!is_square_number(9999));
    assert!(!is_square_number(2));
    assert!(is_square_number(65536 * 65536));
    assert_eq!(integer_sqrt(99), 9);
    assert_eq!(integer_sqrt(100), 10);
}

#[test]
fn powers_of_two_and_sides() {
    assert!(is_power_of_two(1));
    assert!(is_power_of_two(64));
    assert!(!is_power_of_two(0));
    assert!(!is_power_of_two(12));
    assert_eq!(pow2_side(16), Some(4));
    assert_eq!(pow2_side(36), None);
    assert_eq!(pow2_side(8), None);
}

#[test]
fn index_bits_count_from_the_least_significant() {
    assert!(index_bit(5, 0));
    assert!(!index_bit(5, 1));
    assert!(index_bit(5, 2));
    assert!(!index_bit(5, 3));
    assert!(!index_bit(usize::MAX, 64));
    assert!(index_bit(usize::MAX, 63));
}
