use sprs::binop;
use sprs::csmat::{CsMat, CsMatOwned};
use sprs::dense::{DenseMat, StorageOrder};
use sprs::errors::SprsError;
use sprs::vec::{CsVec, NnzEither};
use sprs::CompressedStorage::{CSC, CSR};

fn mat1() -> CsMatOwned<i64> {
    let indptr = vec![0, 2, 4, 5, 6, 7];
    let indices = vec![2, 3, 3, 4, 2, 1, 3];
    let data = vec![3, 4, 2, 5, 5, 8, 7];
    CsMat::new_owned(CSR, 5, 5, indptr, indices, data).unwrap()
}

fn mat2() -> CsMatOwned<i64> {
    let indptr = vec![0, 4, 6, 6, 8, 10];
    let indices = vec![0, 1, 2, 4, 0, 3, 2, 3, 1, 2];
    let data = vec![6, 7, 3, 3, 8, 9, 2, 4, 4, 4];
    CsMat::new_owned(CSR, 5, 5, indptr, indices, data).unwrap()
}

fn mat1_times_2() -> CsMatOwned<i64> {
    let indptr = vec![0, 2, 4, 5, 6, 7];
    let indices = vec![2, 3, 3, 4, 2, 1, 3];
    let data = vec![6, 8, 4, 10, 10, 16, 14];
    CsMat::new_owned(CSR, 5, 5, indptr, indices, data).unwrap()
}

fn mat_dense1() -> DenseMat<i64> {
    let m = vec![
        0, 1, 2, 3, 4, 5, 6, 5, 4, 3, 4, 5, 4, 3, 2, 3, 4, 3, 2, 1, 1, 2, 1, 1, 0,
    ];
    DenseMat::new_owned(m, 5, 5, StorageOrder::C).unwrap()
}

fn mat1_plus_mat2() -> CsMatOwned<i64> {
    let indptr = vec![0, 5, 8, 9, 12, 15];
    let indices = vec![0, 1, 2, 3, 4, 0, 3, 4, 2, 1, 2, 3, 1, 2, 3];
    let data = vec![6, 7, 6, 4, 3, 8, 11, 5, 5, 8, 2, 4, 4, 4, 7];
    CsMat::new_owned(CSR, 5, 5, indptr, indices, data).unwrap()
}

fn mat1_minus_mat2() -> CsMatOwned<i64> {
    let indptr = vec![0, 4, 7, 8, 11, 14];
    let indices = vec![0, 1, 3, 4, 0, 3, 4, 2, 1, 2, 3, 1, 2, 3];
    let data = vec![-6, -7, 4, -3, -8, -7, 5, 5, 8, -2, -4, -4, -4, 7];
    CsMat::new_owned(CSR, 5, 5, indptr, indices, data).unwrap()
}

fn mat1_times_mat2() -> CsMatOwned<i64> {
    let indptr = vec![0, 1, 2, 2, 2, 2];
    let indices = vec![2, 3];
    let data = vec![9, 18];
    CsMat::new_owned(CSR, 5, 5, indptr, indices, data).unwrap()
}

#[test]
fn test_add1() {
    let a = mat1();
    let b = mat2();

    let c = binop::add_mat_same_storage(&a, &b).unwrap();
    let c_true = mat1_plus_mat2();
    assert_eq!(c, c_true);

    let c = a.add(&b);
    assert_eq!(c, c_true);

    // test with CSR matrices having differ row patterns
    let a = CsMatOwned::new_owned(CSR, 3, 3, vec![0, 1, 1, 2], vec![0, 2], vec![1, 1]).unwrap();
    let b = CsMatOwned::new_owned(CSR, 3, 3, vec![0, 1, 2, 2], vec![0, 1], vec![1, 1]).unwrap();
    let c = CsMatOwned::new_owned(CSR, 3, 3, vec![0, 1, 2, 3], vec![0, 1, 2], vec![2, 1, 1])
        .unwrap();

    assert_eq!(c, a.add(&b));
}

#[test]
fn test_sub1() {
    let a = mat1();
    let b = mat2();

    let c = binop::sub_mat_same_storage(&a, &b).unwrap();
    let c_true = mat1_minus_mat2();
    assert_eq!(c, c_true);

    let c = a.sub(&b);
    assert_eq!(c, c_true);
}

#[test]
fn test_mul1() {
    let a = mat1();
    let b = mat2();

    let c = binop::mul_mat_same_storage(&a, &b).unwrap();
    let c_true = mat1_times_mat2();
    assert_eq!(c.indptr(), c_true.indptr());
    assert_eq!(c.indices(), c_true.indices());
    assert_eq!(c.data(), c_true.data());
}

#[test]
fn test_smul() {
    let a = mat1();
    let c = binop::scalar_mul_mat(&a, 2);
    let c_true = mat1_times_2();
    assert_eq!(c.indptr(), c_true.indptr());
    assert_eq!(c.indices(), c_true.indices());
    assert_eq!(c.data(), c_true.data());
}

#[test]
fn test_self_smul() {
    let mut a = mat1();
    a.scale(2);
    let c_true = mat1_times_2();
    assert_eq!(a.indptr(), c_true.indptr());
    assert_eq!(a.indices(), c_true.indices());
    assert_eq!(a.data(), c_true.data());
}

#[test]
fn csvec_binops() {
    let vec1 = CsVec::new_owned(8, vec![0, 2, 4, 6], vec![1i64; 4]).unwrap();
    let vec2 = CsVec::new_owned(8, vec![1, 3, 5, 7], vec![2i64; 4]).unwrap();
    let vec3 = CsVec::new_owned(8, vec![1, 2, 5, 6], vec![3i64; 4]).unwrap();

    let res = binop::csvec_binop(vec1.borrowed(), vec2.borrowed(), |x, y| x + y).unwrap();
    let expected_output = CsVec::new_owned(
        8,
        vec![0, 1, 2, 3, 4, 5, 6, 7],
        vec![1, 2, 1, 2, 1, 2, 1, 2],
    )
    .unwrap();
    assert_eq!(expected_output, res);

    let res = binop::csvec_binop(vec1.borrowed(), vec3.borrowed(), |x, y| x + y).unwrap();
    let expected_output =
        CsVec::new_owned(8, vec![0, 1, 2, 4, 5, 6], vec![1, 3, 4, 1, 3, 4]).unwrap();
    assert_eq!(expected_output, res);
}

#[test]
fn csr_add_dense_rowmaj() {
    let a: DenseMat<i64> = DenseMat::zeros(3, 3);
    let b: CsMatOwned<i64> = CsMatOwned::eye(CSR, 3);

    let c = binop::add_dense_mat_same_ordering(&b, &a, 1, 1).unwrap();

    let expected_output =
        DenseMat::new_owned(vec![1, 0, 0, 0, 1, 0, 0, 0, 1], 3, 3, StorageOrder::C).unwrap();

    assert_eq!(c, expected_output);

    let a = mat1();
    let b = mat_dense1();

    let expected_output = DenseMat::new_owned(
        vec![
            0, 1, 5, 7, 4, 5, 6, 5, 6, 8, 4, 5, 9, 3, 2, 3, 12, 3, 2, 1, 1, 2, 1, 8, 0,
        ],
        5,
        5,
        StorageOrder::C,
    )
    .unwrap();
    let c = binop::add_dense_mat_same_ordering(&a, &b, 1, 1).unwrap();
    assert_eq!(c, expected_output);
    let c = a.add_dense(&b);
    assert_eq!(c, expected_output);
}

#[test]
fn csr_mul_dense_rowmaj() {
    let a: DenseMat<i64> = DenseMat::new_owned(vec![1; 9], 3, 3, StorageOrder::C).unwrap();
    let b: CsMatOwned<i64> = CsMatOwned::eye(CSR, 3);

    let c = binop::mul_dense_mat_same_ordering(&b, &a, 1).unwrap();

    let expected_output =
        DenseMat::new_owned(vec![1, 0, 0, 0, 1, 0, 0, 0, 1], 3, 3, StorageOrder::C).unwrap();

    assert_eq!(c, expected_output);
}

#[test]
fn add_prunes_entries_that_cancel() {
    let a = mat1();
    let negated = binop::scalar_mul_mat(&a, -1);
    assert_eq!(negated.indices(), a.indices());
    assert_eq!(negated.data(), &[-3, -4, -2, -5, -5, -8, -7]);
    let sum = binop::add_mat_same_storage(&a, &negated).unwrap();
    assert_eq!(sum.nb_nonzero(), 0);
    assert_eq!(sum.indptr(), &[0, 0, 0, 0, 0, 0]);
    assert_eq!(sum.rows(), 5);
    assert_eq!(sum.cols(), 5);
}

#[test]
fn scaling_keeps_entries_that_become_zero() {
    let a = mat1();
    let c = binop::scalar_mul_mat(&a, 0);
    assert_eq!(c.nb_nonzero(), 7);
    assert_eq!(c.indptr(), a.indptr());
    assert_eq!(c.indices(), a.indices());
    assert_eq!(c.data(), &[0, 0, 0, 0, 0, 0, 0]);
}

#[test]
fn result_is_stored_where_operator_is_not_zero() {
    // an operator with f(0, 0) = 0 that also cancels some stored pairs
    let a = CsMat::new_owned(CSR, 2, 4, vec![0, 3, 4], vec![0, 1, 3, 2], vec![5i64, 2, 7, 1])
        .unwrap();
    let b = CsMat::new_owned(CSR, 2, 4, vec![0, 2, 4], vec![1, 2, 0, 2], vec![2i64, 9, 4, 1])
        .unwrap();
    let mut indptr = vec![0usize; 3];
    let mut indices = vec![0usize; 8];
    let mut data = vec![0i64; 8];
    let nnz = binop::csmat_binop_same_storage_raw(
        a.borrowed(),
        b.borrowed(),
        |x, y| x - y,
        &mut indptr,
        &mut indices,
        &mut data,
    );
    // row 0: (0: 5-0) (1: 2-2 pruned) (2: 0-9) (3: 7-0); row 1: (0: 0-4) (2: 1-1 pruned)
    assert_eq!(nnz, 4);
    assert_eq!(indptr, vec![0, 3, 4]);
    assert_eq!(&indices[..nnz], &[0, 2, 3, 0]);
    assert_eq!(&data[..nnz], &[5, -9, 7, -4]);
}

#[test]
fn binop_errors() {
    let a = mat1();
    let small = CsMat::new_owned(CSR, 3, 3, vec![0, 1, 1, 2], vec![0, 2], vec![1i64, 1]).unwrap();
    assert_eq!(
        binop::add_mat_same_storage(&a, &small),
        Err(SprsError::IncompatibleDimensions)
    );
    let a_csc = a.to_other_storage();
    assert_eq!(
        binop::add_mat_same_storage(&a, &a_csc),
        Err(SprsError::IncompatibleStorages)
    );
    assert_eq!(
        binop::sub_mat_same_storage(&a_csc, &a),
        Err(SprsError::IncompatibleStorages)
    );
    assert_eq!(
        binop::mul_mat_same_storage(&small, &a),
        Err(SprsError::IncompatibleDimensions)
    );
    let v1 = CsVec::new_owned(8, vec![0, 2], vec![1i64, 1]).unwrap();
    let v2 = CsVec::new_owned(9, vec![0, 2], vec![1i64, 1]).unwrap();
    assert_eq!(
        binop::csvec_binop(v1.borrowed(), v2.borrowed(), |x, y| x + y),
        Err(SprsError::IncompatibleDimensions)
    );
}

#[test]
fn add_converts_the_other_storage() {
    let a = mat1();
    let b_csc = mat2().to_other_storage();
    assert_eq!(b_csc.storage(), CSC);
    assert_eq!(a.add(&b_csc), mat1_plus_mat2());
    assert_eq!(a.sub(&b_csc), mat1_minus_mat2());
    assert_eq!(a.mul(2), mat1_times_2());
}

#[test]
fn csvec_binop_prunes_zeros() {
    let v1 = CsVec::new_owned(5, vec![0, 2, 4], vec![1i64, 2, 3]).unwrap();
    let v2 = CsVec::new_owned(5, vec![2, 3], vec![2i64, 7]).unwrap();
    let res = binop::csvec_binop(v1.borrowed(), v2.borrowed(), |x, y| x - y).unwrap();
    let expected = CsVec::new_owned(5, vec![0, 3, 4], vec![1i64, -7, 3]).unwrap();
    assert_eq!(res, expected);
}

#[test]
fn dense_errors_and_column_major() {
    let a = mat1();
    let wrong_shape: DenseMat<i64> = DenseMat::zeros(3, 5);
    assert_eq!(
        binop::add_dense_mat_same_ordering(&a, &wrong_shape, 1, 1),
        Err(SprsError::IncompatibleDimensions)
    );
    let colmaj: DenseMat<i64> = DenseMat::zeros_f(5, 5);
    assert_eq!(
        binop::add_dense_mat_same_ordering(&a, &colmaj, 1, 1),
        Err(SprsError::IncompatibleStorages)
    );
    let unordered: DenseMat<i64> =
        DenseMat::new_owned(vec![0; 25], 5, 5, StorageOrder::Unordered).unwrap();
    assert_eq!(
        binop::mul_dense_mat_same_ordering(&a, &unordered, 1),
        Err(SprsError::IncompatibleStorages)
    );
    // 2 * sparse + 3 * dense, column major with CSC
    let s = CsMat::new_owned(CSC, 2, 2, vec![0, 1, 2], vec![1, 0], vec![5i64, 7]).unwrap();
    let d = DenseMat::new_owned(vec![1i64, 2, 3, 4], 2, 2, StorageOrder::F).unwrap();
    let c = binop::add_dense_mat_same_ordering(&s, &d, 2, 3).unwrap();
    // columns: [0 + 3, 10 + 6], [14 + 9, 0 + 12]
    assert_eq!(c.data(), &[3, 16, 23, 12]);
    assert_eq!(c.ordering(), StorageOrder::F);
    assert_eq!(c.get(1, 0), 16);
    assert_eq!(c.get(0, 1), 23);
    // the sum with a dense matrix of the other ordering converts the sparse one
    let sum = a.add_dense(&DenseMat::zeros_f(5, 5));
    assert_eq!(sum.ordering(), StorageOrder::F);
    assert_eq!(sum.get(0, 2), 3);
    assert_eq!(sum.get(3, 1), 8);
    assert_eq!(sum.get(1, 0), 0);
    assert_eq!(DenseMat::new_owned(vec![1i64, 2, 3], 2, 2, StorageOrder::C), None);
}

#[test]
fn merge_of_disjoint_vectors_alternates() {
    let v1 = CsVec::new_owned(8, vec![0, 2, 4, 6], vec![1i64; 4]).unwrap();
    let v2 = CsVec::new_owned(8, vec![1, 3, 5, 7], vec![2i64; 4]).unwrap();
    let mut it = v1.nnz_or_zip(&v2);
    let mut got = Vec::new();
    while let Some(e) = it.next() {
        got.push(e);
    }
    assert_eq!(
        got,
        vec![
            NnzEither::Left((0, 1)),
            NnzEither::Right((1, 2)),
            NnzEither::Left((2, 1)),
            NnzEither::Right((3, 2)),
            NnzEither::Left((4, 1)),
            NnzEither::Right((5, 2)),
            NnzEither::Left((6, 1)),
            NnzEither::Right((7, 2)),
        ]
    );
    assert_eq!(it.next(), None);
}

#[test]
fn merge_of_overlapping_vectors_pairs_equal_indices() {
    let v1 = CsVec::new_owned(8, vec![0, 2, 4, 6], vec![1i64; 4]).unwrap();
    let v3 = CsVec::new_owned(8, vec![1, 2, 5, 6], vec![3i64; 4]).unwrap();
    let mut it = v1.nnz_or_zip(&v3);
    let mut got = Vec::new();
    while let Some(e) = it.next() {
        got.push(e);
    }
    assert_eq!(
        got,
        vec![
            NnzEither::Left((0, 1)),
            NnzEither::Right((1, 3)),
            NnzEither::Both((2, 1, 3)),
            NnzEither::Left((4, 1)),
            NnzEither::Right((5, 3)),
            NnzEither::Both((6, 1, 3)),
        ]
    );
}

#[test]
fn raw_output_beyond_the_count_is_untouched() {
    let a = CsMat::new_owned(CSR, 2, 4, vec![0, 3, 4], vec![0, 1, 3, 2], vec![5i64, 2, 7, 1])
        .unwrap();
    let b = CsMat::new_owned(CSR, 2, 4, vec![0, 2, 4], vec![1, 2, 0, 2], vec![2i64, 9, 4, 1])
        .unwrap();
    let mut indptr = vec![77usize; 3];
    let mut indices = vec![77usize; 10];
    let mut data = vec![-77i64; 10];
    let nnz = binop::csmat_binop_same_storage_raw(
        a.borrowed(),
        b.borrowed(),
        |x, y| x - y,
        &mut indptr,
        &mut indices,
        &mut data,
    );
    assert_eq!(nnz, 4);
    assert_eq!(indptr, vec![0, 3, 4]);
    assert_eq!(indices, vec![0, 2, 3, 0, 77, 77, 77, 77, 77, 77]);
    assert_eq!(data, vec![5, -9, 7, -4, -77, -77, -77, -77, -77, -77]);

    let mut indptr = vec![77usize; 3];
    let mut indices = vec![77usize; 6];
    let mut data = vec![-77i64; 6];
    binop::scalar_mul_mat_raw(a.borrowed(), 3, &mut indptr, &mut indices, &mut data);
    assert_eq!(indptr, vec![0, 3, 4]);
    assert_eq!(indices, vec![0, 1, 3, 2, 77, 77]);
    assert_eq!(data, vec![15, 6, 21, 3, -77, -77]);
}

#[test]
fn sums_store_no_more_than_both_operands() {
    let a = mat1();
    let b = mat2();
    let c = binop::add_mat_same_storage(&a, &b).unwrap();
    assert!(c.nb_nonzero() <= a.nb_nonzero() + b.nb_nonzero());
    assert_eq!(c.nb_nonzero(), 15);
    let v1 = CsVec::new_owned(8, vec![0, 2, 4, 6], vec![1i64; 4]).unwrap();
    let v3 = CsVec::new_owned(8, vec![1, 2, 5, 6], vec![3i64; 4]).unwrap();
    let res = binop::csvec_binop(v1.borrowed(), v3.borrowed(), |x, y| x + y).unwrap();
    assert_eq!(res.nnz(), 6);
    assert_eq!(a.to_csc().nb_nonzero(), 7);
    assert_eq!(a.to_csr().nb_nonzero(), 7);
}
