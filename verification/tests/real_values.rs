use sprs::binop;
use sprs::csmat::{CsMat, CsMatOwned};
use sprs::dense::{DenseMat, StorageOrder};
use sprs::product::{dense_product_plan, sparse_product_plan, DenseProduct, SparseProduct};
use sprs::scalar::Scalar;
use sprs::CompressedStorage::{CSC, CSR};

/// Floating point values, with the arithmetic of `f64`.
#[derive(Clone, Copy, PartialEq, Debug)]
struct Real(f64);

impl Scalar for Real {
    fn zero_spec() -> Real {
        Real(0.)
    }
    fn one_spec() -> Real {
        Real(1.)
    }
    fn plus_ok(self, _rhs: Real) -> bool {
        true
    }
    fn plus_spec(self, rhs: Real) -> Real {
        Real(self.0 + rhs.0)
    }
    fn minus_ok(self, _rhs: Real) -> bool {
        true
    }
    fn minus_spec(self, rhs: Real) -> Real {
        Real(self.0 - rhs.0)
    }
    fn times_ok(self, _rhs: Real) -> bool {
        true
    }
    fn times_spec(self, rhs: Real) -> Real {
        Real(self.0 * rhs.0)
    }
    fn zero() -> Real {
        Real(0.)
    }
    fn one() -> Real {
        Real(1.)
    }
    fn is_zero(self) -> bool {
        self.0 == 0.
    }
    fn plus(self, rhs: Real) -> Real {
        Real(self.0 + rhs.0)
    }
    fn minus(self, rhs: Real) -> Real {
        Real(self.0 - rhs.0)
    }
    fn times(self, rhs: Real) -> Real {
        Real(self.0 * rhs.0)
    }
}

fn reals(values: &[f64]) -> Vec<Real> {
    values.iter().map(|x| Real(*x)).collect()
}

fn mat1() -> CsMatOwned<Real> {
    let indptr = vec![0, 2, 4, 5, 6, 7];
    let indices = vec![2, 3, 3, 4, 2, 1, 3];
    let data = reals(&[3., 4., 2., 5., 5., 8., 7.]);
    CsMat::new_owned(CSR, 5, 5, indptr, indices, data).unwrap()
}

fn mat2() -> CsMatOwned<Real> {
    let indptr = vec![0, 4, 6, 6, 8, 10];
    let indices = vec![0, 1, 2, 4, 0, 3, 2, 3, 1, 2];
    let data = reals(&[6., 7., 3., 3., 8., 9., 2., 4., 4., 4.]);
    CsMat::new_owned(CSR, 5, 5, indptr, indices, data).unwrap()
}

#[test]
fn real_addition_and_subtraction() {
    let a = mat1();
    let b = mat2();
    let c = binop::add_mat_same_storage(&a, &b).unwrap();
    assert_eq!(c.indptr(), &[0, 5, 8, 9, 12, 15]);
    assert_eq!(c.indices(), &[0, 1, 2, 3, 4, 0, 3, 4, 2, 1, 2, 3, 1, 2, 3]);
    assert_eq!(
        c.data(),
        &reals(&[6., 7., 6., 4., 3., 8., 11., 5., 5., 8., 2., 4., 4., 4., 7.])[..]
    );
    let d = binop::sub_mat_same_storage(&a, &b).unwrap();
    assert_eq!(d.indptr(), &[0, 4, 7, 8, 11, 14]);
    assert_eq!(d.indices(), &[0, 1, 3, 4, 0, 3, 4, 2, 1, 2, 3, 1, 2, 3]);
    assert_eq!(
        d.data(),
        &reals(&[-6., -7., 4., -3., -8., -7., 5., 5., 8., -2., -4., -4., -4., 7.])[..]
    );
}

#[test]
fn real_scaling_and_dense_sum() {
    let a = mat1();
    let c = binop::scalar_mul_mat(&a, Real(2.));
    assert_eq!(c.indptr(), a.indptr());
    assert_eq!(c.indices(), a.indices());
    assert_eq!(c.data(), &reals(&[6., 8., 4., 10., 10., 16., 14.])[..]);
    let eye: CsMatOwned<Real> = CsMat::eye(CSR, 3);
    let zeros: DenseMat<Real> = DenseMat::zeros(3, 3);
    let sum = binop::add_dense_mat_same_ordering(&eye, &zeros, Real(1.), Real(1.)).unwrap();
    assert_eq!(
        sum.data(),
        &reals(&[1., 0., 0., 0., 1., 0., 0., 0., 1.])[..]
    );
    assert_eq!(sum.ordering(), StorageOrder::C);
    let half = binop::add_dense_mat_same_ordering(&eye, &sum, Real(0.5), Real(0.25)).unwrap();
    assert_eq!(half.get(1, 1), Real(0.75));
    assert_eq!(half.get(1, 2), Real(0.));
}

#[test]
fn product_routines_follow_the_storage_orders() {
    let plan = sparse_product_plan(CSR, CSR);
    assert_eq!(plan.routine, SparseProduct::CsrMulCsr);
    assert!(!plan.convert_rhs);
    let plan = sparse_product_plan(CSR, CSC);
    assert_eq!(plan.routine, SparseProduct::CsrMulCsr);
    assert!(plan.convert_rhs);
    let plan = sparse_product_plan(CSC, CSR);
    assert_eq!(plan.routine, SparseProduct::CscMulCsc);
    assert!(plan.convert_rhs);
    let plan = sparse_product_plan(CSC, CSC);
    assert_eq!(plan.routine, SparseProduct::CscMulCsc);
    assert!(!plan.convert_rhs);
    assert_eq!(
        dense_product_plan(CSR, StorageOrder::C),
        Some((DenseProduct::CsrMulRowmaj, StorageOrder::C))
    );
    assert_eq!(
        dense_product_plan(CSR, StorageOrder::F),
        Some((DenseProduct::CsrMulColmaj, StorageOrder::F))
    );
    assert_eq!(
        dense_product_plan(CSC, StorageOrder::C),
        Some((DenseProduct::CscMulRowmaj, StorageOrder::C))
    );
    assert_eq!(
        dense_product_plan(CSC, StorageOrder::F),
        Some((DenseProduct::CscMulColmaj, StorageOrder::F))
    );
    assert_eq!(dense_product_plan(CSC, StorageOrder::Unordered), None);
}
