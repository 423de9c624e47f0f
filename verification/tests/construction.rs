use sprs::csmat::CompressedStorage::{CSC, CSR};
use sprs::csmat::{CsMat, CsMatOwned, CsMatView};
use sprs::errors::SprsError;

#[test]
fn test_new_csr_success() {
    let indptr_ok: &[usize] = &[0, 1, 2, 3];
    let indices_ok: &[usize] = &[0, 1, 2];
    let data_ok: &[f64] = &[1., 1., 1.];
    let m = CsMat::new_borrowed(CSR, 3, 3, indptr_ok, indices_ok, data_ok);
    assert!(m.is_ok());
}

#[test]
fn test_new_csr_fails() {
    let indptr_ok: &[usize] = &[0, 1, 2, 3];
    let indices_ok: &[usize] = &[0, 1, 2];
    let data_ok: &[f64] = &[1., 1., 1.];
    let indptr_fail1: &[usize] = &[0, 1, 2];
    let indptr_fail2: &[usize] = &[0, 1, 2, 4];
    let indptr_fail3: &[usize] = &[0, 2, 1, 3];
    let indices_fail1: &[usize] = &[0, 1];
    let indices_fail2: &[usize] = &[0, 1, 4];
    let data_fail1: &[f64] = &[1., 1., 1., 1.];
    let data_fail2: &[f64] = &[1., 1.];
    assert_eq!(
        CsMat::new_borrowed(CSR, 3, 3, indptr_fail1, indices_ok, data_ok),
        Err(SprsError::BadIndptrLength)
    );
    assert_eq!(
        CsMat::new_borrowed(CSR, 3, 3, indptr_fail2, indices_ok, data_ok),
        Err(SprsError::OutOfBoundsIndptr)
    );
    assert_eq!(
        CsMat::new_borrowed(CSR, 3, 3, indptr_fail3, indices_ok, data_ok),
        Err(SprsError::UnsortedIndptr)
    );
    assert_eq!(
        CsMat::new_borrowed(CSR, 3, 3, indptr_ok, indices_fail1, data_ok),
        Err(SprsError::DataIndicesMismatch)
    );
    assert_eq!(
        CsMat::new_borrowed(CSR, 3, 3, indptr_ok, indices_fail2, data_ok),
        Err(SprsError::OutOfBoundsIndex)
    );
    assert_eq!(
        CsMat::new_borrowed(CSR, 3, 3, indptr_ok, indices_ok, data_fail1),
        Err(SprsError::DataIndicesMismatch)
    );
    assert_eq!(
        CsMat::new_borrowed(CSR, 3, 3, indptr_ok, indices_ok, data_fail2),
        Err(SprsError::DataIndicesMismatch)
    );
}

#[test]
fn test_new_csr_fail_indices_ordering() {
    let indptr: &[usize] = &[0, 2, 4, 5, 6, 7];
    // good indices would be [2, 3, 3, 4, 2, 1, 3];
    let indices: &[usize] = &[3, 2, 3, 4, 2, 1, 3];
    let data: &[f64] = &[
        0.35310881, 0.42380633, 0.28035896, 0.58082095, 0.53350123, 0.88132896, 0.72527863,
    ];
    assert_eq!(
        CsMat::new_borrowed(CSR, 5, 5, indptr, indices, data),
        Err(SprsError::NonSortedIndices)
    );
}

#[test]
fn test_new_csr_csc_success() {
    let indptr_ok: &[usize] = &[0, 2, 5, 6];
    let indices_ok: &[usize] = &[2, 3, 1, 2, 3, 3];
    let data_ok: &[f64] = &[
        0.05734571, 0.15543348, 0.75628258, 0.83054515, 0.71851547, 0.46202352,
    ];
    assert!(CsMat::new_borrowed(CSR, 3, 4, indptr_ok, indices_ok, data_ok).is_ok());
    assert!(CsMat::new_borrowed(CSC, 4, 3, indptr_ok, indices_ok, data_ok).is_ok());
}

#[test]
fn test_new_csr_csc_fails() {
    let indptr_ok: &[usize] = &[0, 2, 5, 6];
    let indices_ok: &[usize] = &[2, 3, 1, 2, 3, 3];
    let data_ok: &[f64] = &[
        0.05734571, 0.15543348, 0.75628258, 0.83054515, 0.71851547, 0.46202352,
    ];
    assert_eq!(
        CsMat::new_borrowed(CSR, 4, 3, indptr_ok, indices_ok, data_ok),
        Err(SprsError::BadIndptrLength)
    );
    assert_eq!(
        CsMat::new_borrowed(CSC, 3, 4, indptr_ok, indices_ok, data_ok),
        Err(SprsError::BadIndptrLength)
    );
}

#[test]
fn test_new_csr_vec_borrowed() {
    let indptr_ok = vec![0, 1, 2, 3];
    let indices_ok = vec![0, 1, 2];
    let data_ok: Vec<f64> = vec![1., 1., 1.];
    assert!(CsMat::new_borrowed(CSR, 3, 3, &indptr_ok, &indices_ok, &data_ok).is_ok());
}

#[test]
fn test_new_csr_vec_owned() {
    let indptr_ok = vec![0, 1, 2, 3];
    let indices_ok = vec![0, 1, 2];
    let data_ok: Vec<f64> = vec![1., 1., 1.];
    assert!(CsMat::new_owned(CSR, 3, 3, indptr_ok, indices_ok, data_ok).is_ok());
}

#[test]
fn new_csr_with_empty_row() {
    let indptr: &[usize] = &[0, 3, 3, 5, 6, 7];
    let indices: &[usize] = &[1, 2, 3, 2, 3, 4, 4];
    let data: &[f64] = &[
        0.75672424, 0.1649078, 0.30140296, 0.10358244, 0.6283315, 0.39244208, 0.57202407,
    ];
    assert!(CsMat::new_borrowed(CSR, 5, 5, indptr, indices, data).is_ok());
}

fn mat1() -> CsMatOwned<f64> {
    let indptr = vec![0, 2, 4, 5, 6, 7];
    let indices = vec![2, 3, 3, 4, 2, 1, 3];
    let data = vec![3., 4., 2., 5., 5., 8., 7.];
    CsMat::new_owned(CSR, 5, 5, indptr, indices, data).unwrap()
}

fn mat1_csc() -> CsMatOwned<f64> {
    let indptr = vec![0, 0, 1, 3, 6, 7];
    let indices = vec![3, 0, 2, 0, 1, 4, 1];
    let data = vec![8., 3., 5., 4., 2., 7., 5.];
    CsMat::new_owned(CSC, 5, 5, indptr, indices, data).unwrap()
}

#[test]
fn csr_to_csc() {
    let a = mat1();
    let a_csc_ground_truth = mat1_csc();
    let a_csc = a.to_other_storage();
    assert_eq!(a_csc, a_csc_ground_truth);
}

#[test]
fn offsets_must_account_for_every_entry() {
    let indptr: &[usize] = &[0, 1, 2];
    let indices: &[usize] = &[0, 1, 1];
    let data: &[f64] = &[1., 2., 3.];
    let r: Result<CsMatView<f64>, SprsError> = CsMat::new_borrowed(CSR, 2, 2, indptr, indices, data);
    assert_eq!(r, Err(SprsError::BadNnzCount));
}
