use sprs::csmat::{CsMat, CsMatOwned, CsMatVecView, CsMatView};
use sprs::errors::SprsError;
use sprs::raw::convert_mat_storage;
use sprs::vec::{CsVec, CsVecOwned};
use sprs::CompressedStorage::{CSC, CSR};
use sprs::CompressedStorage;

fn mat1() -> CsMatOwned<f64> {
    let indptr = vec![0, 2, 4, 5, 6, 7];
    let indices = vec![2, 3, 3, 4, 2, 1, 3];
    let data = vec![3., 4., 2., 5., 5., 8., 7.];
    CsMat::new_owned(CSR, 5, 5, indptr, indices, data).unwrap()
}

#[test]
fn unsorted_slice_is_rejected() {
    let r: Result<CsMatView<i64>, SprsError> =
        CsMat::new_borrowed(CSR, 1, 4, &[0, 2], &[3, 2], &[1, 1]);
    assert_eq!(r, Err(SprsError::NonSortedIndices));
    let r: Result<CsMatView<i64>, SprsError> =
        CsMat::new_borrowed(CSR, 1, 4, &[0, 2], &[2, 2], &[1, 1]);
    assert_eq!(r, Err(SprsError::NonSortedIndices));
    let r: Result<CsMatView<i64>, SprsError> =
        CsMat::new_borrowed(CSR, 1, 4, &[0, 2], &[2, 3], &[1, 1]);
    assert!(r.is_ok());
}

#[test]
fn index_at_inner_dimension_is_rejected() {
    let r: Result<CsMatView<i64>, SprsError> =
        CsMat::new_borrowed(CSR, 2, 3, &[0, 1, 2], &[0, 3], &[1, 1]);
    assert_eq!(r, Err(SprsError::OutOfBoundsIndex));
    let r: Result<CsMatView<i64>, SprsError> =
        CsMat::new_borrowed(CSC, 3, 2, &[0, 1, 2], &[0, 3], &[1, 1]);
    assert_eq!(r, Err(SprsError::OutOfBoundsIndex));
    let r: Result<CsMatView<i64>, SprsError> =
        CsMat::new_borrowed(CSC, 4, 2, &[0, 1, 2], &[0, 3], &[1, 1]);
    assert!(r.is_ok());
}

#[test]
fn first_broken_rule_decides_the_error() {
    // unsorted in the first slice, out of bounds in the second
    let r: Result<CsMatView<i64>, SprsError> =
        CsMat::new_borrowed(CSR, 2, 3, &[0, 2, 3], &[1, 0, 7], &[1, 1, 1]);
    assert_eq!(r, Err(SprsError::NonSortedIndices));
    // out of bounds in the first slice, unsorted in the second
    let r: Result<CsMatView<i64>, SprsError> =
        CsMat::new_borrowed(CSR, 2, 3, &[0, 1, 3], &[7, 1, 0], &[1, 1, 1]);
    assert_eq!(r, Err(SprsError::OutOfBoundsIndex));
    // offsets that do not start at zero leave an entry out
    let r: Result<CsMatView<i64>, SprsError> =
        CsMat::new_borrowed(CSR, 2, 3, &[1, 2, 3], &[0, 1, 2], &[1, 1, 1]);
    assert_eq!(r, Err(SprsError::BadNnzCount));
    let r: Result<CsMatView<i64>, SprsError> = CsMat::new_borrowed(CSR, 0, 3, &[], &[], &[]);
    assert_eq!(r, Err(SprsError::BadIndptrLength));
    let r: Result<CsMatView<i64>, SprsError> = CsMat::new_borrowed(CSR, 0, 3, &[0], &[], &[]);
    assert!(r.is_ok());
    let r: Result<CsMatView<i64>, SprsError> =
        CsMat::new_borrowed(CSR, 3, 0, &[0, 0, 0, 0], &[], &[]);
    assert!(r.is_ok());
    let m = mat1();
    assert_eq!(m.check_compressed_structure(), Ok(()));
    let v = m.borrowed();
    let block = v.middle_outer_views(1, 2).unwrap();
    assert_eq!(block.check_compressed_structure(), Err(SprsError::BadNnzCount));
}

#[test]
fn accessors() {
    let m = mat1();
    assert_eq!(m.storage(), CSR);
    assert_eq!(m.rows(), 5);
    assert_eq!(m.cols(), 5);
    assert_eq!(m.nb_nonzero(), 7);
    assert_eq!(m.outer_dims(), 5);
    assert_eq!(m.inner_dims(), 5);
    assert_eq!(m.indptr(), &[0, 2, 4, 5, 6, 7]);
    assert_eq!(m.indices(), &[2, 3, 3, 4, 2, 1, 3]);
    assert_eq!(m.data(), &[3., 4., 2., 5., 5., 8., 7.]);
    assert!(m.is_csr());
    assert!(!m.is_csc());
    assert_eq!(CSR.other_storage(), CSC);
    assert_eq!(CSC.other_storage(), CSR);
    let t: CsMatOwned<i64> = CsMat::zero(3, 7);
    assert_eq!(t.outer_dims(), 3);
    assert_eq!(t.inner_dims(), 7);
    let t = t.transpose_into();
    assert_eq!(t.storage(), CompressedStorage::CSC);
    assert_eq!(t.rows(), 7);
    assert_eq!(t.cols(), 3);
    assert_eq!(t.outer_dims(), 3);
    assert_eq!(t.inner_dims(), 7);
    assert!(t.is_csc());
}

#[test]
fn element_access() {
    let m = mat1();
    assert_eq!(m.at(&(0, 2)), Some(3.));
    assert_eq!(m.at(&(0, 3)), Some(4.));
    assert_eq!(m.at(&(0, 0)), None);
    assert_eq!(m.at(&(0, 4)), None);
    assert_eq!(m.at(&(3, 1)), Some(8.));
    assert_eq!(m.at(&(4, 3)), Some(7.));
    assert_eq!(m.at(&(4, 4)), None);
    assert_eq!(m.at_outer_inner(&(1, 4)), Some(5.));
    assert_eq!(m.at_outer_inner(&(5, 0)), None);
    assert_eq!(m.at_outer_inner(&(1, 9)), None);
    let v = m.outer_view(1).unwrap();
    assert_eq!(v.dim(), 5);
    assert_eq!(v.nnz(), 2);
    assert_eq!(v.indices(), &[3, 4]);
    assert_eq!(v.data(), &[2., 5.]);
    assert_eq!(v.at(4), Some(5.));
    assert_eq!(v.at(0), None);
    assert!(m.outer_view(5).is_none());
    let c = m.to_other_storage();
    assert_eq!(c.at(&(0, 2)), Some(3.));
    assert_eq!(c.at(&(3, 1)), Some(8.));
    assert_eq!(c.at(&(1, 3)), Some(2.));
    assert_eq!(c.at(&(2, 0)), None);
}

#[test]
fn transposition_moves_no_data() {
    let mut m = mat1();
    let t = m.transpose_view();
    assert_eq!(t.storage(), CSC);
    assert_eq!(t.indptr(), m.indptr());
    assert_eq!(t.indices(), m.indices());
    assert_eq!(t.data(), m.data());
    assert_eq!(t.at(&(2, 0)), Some(3.));
    assert_eq!(t.at(&(0, 2)), None);
    m.transpose_mut();
    assert_eq!(m.storage(), CSC);
    assert_eq!(m.indptr(), &[0, 2, 4, 5, 6, 7]);
    assert_eq!(m.at(&(1, 3)), Some(8.));
    assert_eq!(m.at(&(3, 1)), Some(2.));
    m.transpose_mut();
    assert_eq!(m, mat1());
}

#[test]
fn conversion_round_trip() {
    let a = mat1();
    let there = a.to_other_storage();
    assert_eq!(there.storage(), CSC);
    assert_eq!(there.rows(), 5);
    assert_eq!(there.cols(), 5);
    assert_eq!(there.indptr(), &[0, 0, 1, 3, 6, 7]);
    assert_eq!(there.indices(), &[3, 0, 2, 0, 1, 4, 1]);
    assert_eq!(there.data(), &[8., 3., 5., 4., 2., 7., 5.]);
    let back = there.to_other_storage();
    assert_eq!(back, a);
    let rect = CsMat::new_owned(CSR, 2, 4, vec![0, 3, 4], vec![0, 1, 3, 2], vec![5i64, 2, 7, 1])
        .unwrap();
    let rect_csc = rect.to_csc();
    assert_eq!(rect_csc.rows(), 2);
    assert_eq!(rect_csc.cols(), 4);
    assert_eq!(rect_csc.indptr(), &[0, 1, 2, 3, 4]);
    assert_eq!(rect_csc.indices(), &[0, 0, 1, 0]);
    assert_eq!(rect_csc.data(), &[5, 2, 1, 7]);
    assert_eq!(rect_csc.to_csc(), rect_csc);
    assert_eq!(rect_csc.to_csr(), rect);
    assert_eq!(rect.to_csr(), rect);
    assert_eq!(rect.to_other_storage().to_other_storage(), rect);
}

#[test]
fn raw_conversion_fills_the_given_arrays() {
    let a = mat1();
    let mut indptr = vec![0usize; 6];
    let mut indices = vec![0usize; 7];
    let mut data = vec![0f64; 7];
    convert_mat_storage(a.borrowed(), &mut indptr, &mut indices, &mut data);
    assert_eq!(indptr, vec![0, 0, 1, 3, 6, 7]);
    assert_eq!(indices, vec![3, 0, 2, 0, 1, 4, 1]);
    assert_eq!(data, vec![8., 3., 5., 4., 2., 7., 5.]);
}

#[test]
fn building_by_appending() {
    let mut m: CsMatOwned<i64> = CsMat::empty(CSR, 3);
    assert_eq!(m.rows(), 0);
    assert_eq!(m.cols(), 3);
    assert_eq!(m.indptr(), &[0]);
    m.reserve_outer_dim(4);
    m.reserve_nnz(8);
    m.reserve_outer_dim_exact(4);
    m.reserve_nnz_exact(8);
    assert_eq!(m.indptr(), &[0]);
    assert_eq!(m.nb_nonzero(), 0);
    let m = m.append_outer(&[0, 4, 0]);
    let m = m.append_outer(&[0, 0, 0]);
    let m = m.append_outer(&[1, 0, 2]);
    assert_eq!(m.rows(), 3);
    assert_eq!(m.indptr(), &[0, 1, 1, 3]);
    assert_eq!(m.indices(), &[1, 0, 2]);
    assert_eq!(m.data(), &[4, 1, 2]);
    assert_eq!(m.check_compressed_structure(), Ok(()));
    let c: CsMatOwned<i64> = CsMat::empty(CSC, 3);
    assert_eq!(c.rows(), 3);
    assert_eq!(c.cols(), 0);
    let v = CsVec::new_owned(3, vec![0, 2], vec![7i64, 9]).unwrap();
    let c = c.append_outer_csvec(v.borrowed());
    assert_eq!(c.cols(), 1);
    assert_eq!(c.rows(), 3);
    assert_eq!(c.indptr(), &[0, 2]);
    assert_eq!(c.at(&(2, 0)), Some(9));
    assert_eq!(c.at(&(1, 0)), None);
}

#[test]
fn identity_and_zero() {
    let eye: CsMatOwned<i64> = CsMat::eye(CSC, 4);
    assert_eq!(eye.indptr(), &[0, 1, 2, 3, 4]);
    assert_eq!(eye.indices(), &[0, 1, 2, 3]);
    assert_eq!(eye.data(), &[1, 1, 1, 1]);
    assert_eq!(eye.storage(), CSC);
    assert_eq!(eye.check_compressed_structure(), Ok(()));
    let none: CsMatOwned<i64> = CsMat::eye(CSR, 0);
    assert_eq!(none.indptr(), &[0]);
    let z: CsMatOwned<i64> = CsMat::zero(2, 3);
    assert_eq!(z.storage(), CSR);
    assert_eq!(z.indptr(), &[0, 0, 0]);
    assert_eq!(z.nb_nonzero(), 0);
    assert_eq!(z.at(&(1, 2)), None);
    assert_eq!(z.check_compressed_structure(), Ok(()));
}

#[test]
fn values_can_be_changed_in_place() {
    let mut m = mat1();
    for v in m.data_mut() {
        *v = *v + 1.;
    }
    assert_eq!(m.data(), &[4., 5., 3., 6., 6., 9., 8.]);
    assert_eq!(m.indices(), &[2, 3, 3, 4, 2, 1, 3]);
    let mut s = CsMat::new_owned(CSR, 1, 2, vec![0, 2], vec![0, 1], vec![3i64, -4]).unwrap();
    s.scale(-3);
    assert_eq!(s.data(), &[-9, 12]);
    s.scale(0);
    assert_eq!(s.data(), &[0, 0]);
    assert_eq!(s.nb_nonzero(), 2);
}

#[test]
fn unchecked_constructors_keep_what_they_are_given() {
    let indptr: &[usize] = &[1, 2, 4];
    let indices: &[usize] = &[9, 0, 1, 2, 9];
    let data: &[i64] = &[0, 5, 6, 7, 0];
    let v = CsMat::new_raw(CSR, 2, 3, indptr, indices, data);
    assert_eq!(v.nb_nonzero(), 3);
    assert_eq!(v.at(&(0, 0)), Some(5));
    assert_eq!(v.at(&(1, 1)), Some(6));
    assert_eq!(v.at(&(1, 2)), Some(7));
    assert_eq!(v.at(&(0, 1)), None);
    let w: CsMatVecView<i64> = CsMat::new_vecview_raw(CSC, 3, 1, vec![0, 2], &indices[1..3], &data[1..3]);
    assert_eq!(w.nb_nonzero(), 2);
    assert_eq!(w.at(&(1, 0)), Some(6));
    let o = w.to_owned();
    assert_eq!(o.indices(), &[0, 1]);
}

#[test]
fn sparse_vectors() {
    let v: CsVecOwned<i64> = CsVec::new_owned(6, vec![1, 3, 5], vec![10, 30, 50]).unwrap();
    assert_eq!(v.dim(), 6);
    assert_eq!(v.nnz(), 3);
    assert_eq!(v.at(3), Some(30));
    assert_eq!(v.at(5), Some(50));
    assert_eq!(v.at(1), Some(10));
    assert_eq!(v.at(0), None);
    assert_eq!(v.at(4), None);
    assert_eq!(v.at(17), None);
    assert_eq!(v.check_structure(), Ok(()));
    assert_eq!(v.to_owned(), v);
    assert_eq!(
        CsVec::new_owned(6, vec![1, 3], vec![10i64]),
        Err(SprsError::DataIndicesMismatch)
    );
    assert_eq!(
        CsVec::new_owned(6, vec![3, 1], vec![10i64, 30]),
        Err(SprsError::NonSortedIndices)
    );
    assert_eq!(
        CsVec::new_owned(6, vec![3, 3], vec![10i64, 30]),
        Err(SprsError::NonSortedIndices)
    );
    assert_eq!(
        CsVec::new_owned(6, vec![3, 6], vec![10i64, 30]),
        Err(SprsError::OutOfBoundsIndex)
    );
    assert_eq!(
        CsVec::new_borrowed(6, &[7, 6], &[10i64, 30]),
        Err(SprsError::NonSortedIndices)
    );
    assert!(CsVec::new_borrowed(0, &[], &[0i64; 0]).is_ok());
    let mut e: CsVecOwned<i64> = CsVec::empty(4);
    e.reserve(2);
    e.reserve_exact(2);
    e.append(1, 5);
    e.append(3, 6);
    assert_eq!(e.indices(), &[1, 3]);
    assert_eq!(e.data(), &[5, 6]);
    assert_eq!(e, CsVec::new_owned_raw(4, vec![1, 3], vec![5, 6]));
    let r = CsVec::new_raw(4, e.indices(), e.data());
    assert_eq!(r.at(3), Some(6));
}
