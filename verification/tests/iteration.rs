use sprs::csmat::{CsMat, CsMatOwned};
use sprs::errors::SprsError;
use sprs::permutation::PermView;
use sprs::symmetric::is_symmetric;
use sprs::vec::CsVec;
use sprs::CompressedStorage::{CSC, CSR};

fn mat1() -> CsMatOwned<f64> {
    let indptr = vec![0, 2, 4, 5, 6, 7];
    let indices = vec![2, 3, 3, 4, 2, 1, 3];
    let data = vec![3., 4., 2., 5., 5., 8., 7.];
    CsMat::new_owned(CSR, 5, 5, indptr, indices, data).unwrap()
}

#[test]
fn outer_block_iter() {
    let mat: CsMatOwned<i64> = CsMat::eye(CSR, 11);
    let mut block_iter = mat.outer_block_iter(3).unwrap();
    assert_eq!(block_iter.next().unwrap().rows(), 3);
    assert_eq!(block_iter.next().unwrap().rows(), 3);
    assert_eq!(block_iter.next().unwrap().rows(), 3);
    assert_eq!(block_iter.next().unwrap().rows(), 2);
    assert_eq!(block_iter.next(), None);

    let mut block_iter = mat.outer_block_iter(4).unwrap();
    assert_eq!(block_iter.next().unwrap().cols(), 11);
    block_iter.next().unwrap();
    block_iter.next().unwrap();
    assert_eq!(block_iter.next(), None);
}

#[test]
fn is_symmetric_simple() {
    let indptr: &[usize] = &[0, 2, 5, 6, 7, 13, 14, 17, 20, 24, 28];
    let indices: &[usize] = &[
        0, 8, 1, 4, 9, 2, 3, 1, 4, 6, 7, 8, 9, 5, 4, 6, 9, 4, 7, 8, 0, 4, 7, 8, 1, 4, 6, 9,
    ];
    let data: &[f64] = &[
        1.7, 0.13, 1., 0.02, 0.01, 1.5, 1.1, 0.02, 2.6, 0.16, 0.09, 0.52, 0.53, 1.2, 0.16, 1.3,
        0.56, 0.09, 1.6, 0.11, 0.13, 0.52, 0.11, 1.4, 0.01, 0.53, 0.56, 3.1,
    ];

    let a = CsMat::new_borrowed(CSR, 10, 10, indptr, indices, data).unwrap();

    assert!(is_symmetric(&a));
}

#[test]
fn flipped_sign_breaks_symmetry() {
    let indptr = vec![0, 2, 4, 5];
    let indices = vec![0, 1, 0, 2, 1];
    let data = vec![4i64, 7, 7, 9, 9];
    let a = CsMat::new_owned(CSR, 3, 3, indptr.clone(), indices.clone(), data).unwrap();
    assert!(is_symmetric(&a));
    // (0, 1) no longer equals (1, 0)
    let flipped = vec![4i64, -7, 7, 9, 9];
    let b = CsMat::new_owned(CSR, 3, 3, indptr, indices, flipped).unwrap();
    assert!(!is_symmetric(&b));
}

#[test]
fn missing_mirror_or_shape_breaks_symmetry() {
    let a = CsMat::new_owned(CSR, 2, 2, vec![0, 1, 1], vec![1], vec![3i64]).unwrap();
    assert!(!is_symmetric(&a));
    let wide = CsMat::new_owned(CSR, 2, 3, vec![0, 1, 2], vec![0, 1], vec![1i64, 1]).unwrap();
    assert!(!is_symmetric(&wide));
    let empty: CsMatOwned<i64> = CsMat::zero(4, 4);
    assert!(is_symmetric(&empty));
    let eye: CsMatOwned<i64> = CsMat::eye(CSC, 6);
    assert!(is_symmetric(&eye));
}

#[test]
fn outer_iterator_walks_both_ways() {
    let a = mat1();
    let mut it = a.outer_iterator();
    assert_eq!(it.len(), 5);
    assert_eq!(it.size_hint(), (5, Some(5)));
    let (o, v) = it.next().unwrap();
    assert_eq!(o, 0);
    assert_eq!(v.dim(), 5);
    assert_eq!(v.indices(), &[2, 3]);
    assert_eq!(v.data(), &[3., 4.]);
    let (o, v) = it.next_back().unwrap();
    assert_eq!(o, 4);
    assert_eq!(v.indices(), &[3]);
    assert_eq!(v.data(), &[7.]);
    assert_eq!(it.len(), 3);
    let (o, v) = it.next_back().unwrap();
    assert_eq!(o, 3);
    assert_eq!(v.indices(), &[1]);
    let (o, _) = it.next().unwrap();
    assert_eq!(o, 1);
    let (o, v) = it.next().unwrap();
    assert_eq!(o, 2);
    assert_eq!(v.data(), &[5.]);
    assert!(it.next().is_none());
    assert!(it.next_back().is_none());
    assert_eq!(it.len(), 0);
}

#[test]
fn outer_iterator_perm_follows_the_permutation() {
    let a = mat1();
    let perm: &[usize] = &[2, 0, 1, 4, 3];
    let perm_inv: &[usize] = &[1, 2, 0, 4, 3];
    let mut it = a.outer_iterator_perm(PermView::FinitePerm { perm, perm_inv });
    assert_eq!(it.size_hint(), (5, Some(5)));
    let mut seen = Vec::new();
    while let Some((o, v)) = it.next() {
        seen.push((o, v.indices().to_vec()));
    }
    assert_eq!(
        seen,
        vec![
            (2, vec![2]),
            (0, vec![2, 3]),
            (1, vec![3, 4]),
            (4, vec![3]),
            (3, vec![1]),
        ]
    );
    // a CSC matrix is walked by the inverse permutation
    let a_csc = a.to_other_storage();
    let mut it = a_csc.outer_iterator_perm(PermView::FinitePerm { perm, perm_inv });
    let (o, _) = it.next().unwrap();
    assert_eq!(o, 1);
    let mut it = a.outer_iterator_perm(PermView::identity());
    let (o, _) = it.next().unwrap();
    assert_eq!(o, 0);
    assert_eq!(PermView::identity().at(7), 7);
    assert_eq!(PermView::FinitePerm { perm, perm_inv }.reborrow_inv().at(0), 1);
}

#[test]
fn blocks_share_the_entries_of_the_matrix() {
    let a = mat1();
    let v = a.borrowed();
    let block = v.middle_outer_views(1, 3).unwrap();
    assert_eq!(block.rows(), 3);
    assert_eq!(block.cols(), 5);
    assert_eq!(block.nb_nonzero(), 4);
    assert_eq!(block.indptr(), &[2, 4, 5, 6]);
    assert_eq!(block.at(&(0, 3)), Some(2.));
    assert_eq!(block.at(&(0, 4)), Some(5.));
    assert_eq!(block.at(&(1, 2)), Some(5.));
    assert_eq!(block.at(&(2, 1)), Some(8.));
    assert_eq!(block.at(&(2, 2)), None);
    assert_eq!(v.middle_outer_views(1, 0), Err(SprsError::EmptyBlock));
    assert_eq!(v.middle_outer_views(5, 1), Err(SprsError::OutOfBoundsIndex));
    assert_eq!(v.middle_outer_views(3, 3), Err(SprsError::OutOfBoundsIndex));
    assert_eq!(v.middle_outer_views(usize::MAX, 2), Err(SprsError::OutOfBoundsIndex));
    assert!(v.middle_outer_views(0, 5).is_ok());
    // a block of a CSC matrix keeps its rows
    let a_csc = a.to_other_storage();
    let w = a_csc.borrowed();
    let block = w.middle_outer_views(2, 2).unwrap();
    assert_eq!(block.rows(), 5);
    assert_eq!(block.cols(), 2);
    assert_eq!(block.at(&(0, 0)), Some(3.));
    assert_eq!(block.at(&(1, 1)), Some(2.));
    // a block can be converted and copied like any matrix
    let back = block.to_other_storage();
    assert_eq!(back.storage(), CSR);
    assert_eq!(back.indptr(), &[0, 2, 3, 4, 4, 5]);
    assert_eq!(back.indices(), &[0, 1, 1, 0, 1]);
    assert_eq!(back.data(), &[3., 4., 2., 5., 7.]);
}

#[test]
fn block_iteration_edge_cases() {
    let a = mat1();
    assert!(matches!(a.outer_block_iter(0), Err(SprsError::EmptyBlock)));
    let mut it = a.outer_block_iter(5).unwrap();
    assert_eq!(it.next().unwrap().rows(), 5);
    assert_eq!(it.next(), None);
    let mut it = a.outer_block_iter(100).unwrap();
    assert_eq!(it.next().unwrap().rows(), 5);
    assert_eq!(it.next(), None);
    assert!(matches!(a.outer_block_iter(1), Ok(_)));
    let none: CsMatOwned<f64> = CsMat::empty(CSR, 4);
    assert!(matches!(none.outer_block_iter(0), Err(SprsError::EmptyBlock)));
    let mut it = none.outer_block_iter(2).unwrap();
    assert_eq!(it.next(), None);
}

#[test]
fn copied_view_is_independent_of_later_appends() {
    let mut a: CsMatOwned<i64> = CsMat::empty(CSR, 4);
    a = a.append_outer(&[0, 5, 0, 7]);
    a = a.append_outer(&[1, 0, 0, 0]);
    a = a.append_outer(&[0, 0, 3, 0]);
    let copy = {
        let v = a.borrowed();
        v.middle_outer_views(1, 2).unwrap().to_owned()
    };
    assert_eq!(copy.indptr(), &[2, 3, 4]);
    assert_eq!(copy.indices(), &[1, 3, 0, 2]);
    assert_eq!(copy.data(), &[5, 7, 1, 3]);
    let a = a.append_outer(&[9, 9, 9, 9]);
    let sv = CsVec::new_owned(4, vec![1, 2], vec![6i64, 8]).unwrap();
    let a = a.append_outer_csvec(sv.borrowed());
    assert_eq!(a.rows(), 5);
    assert_eq!(a.nb_nonzero(), 10);
    assert_eq!(a.at(&(4, 2)), Some(8));
    assert_eq!(copy.rows(), 2);
    assert_eq!(copy.indptr(), &[2, 3, 4]);
    assert_eq!(copy.indices(), &[1, 3, 0, 2]);
    assert_eq!(copy.data(), &[5, 7, 1, 3]);
    assert_eq!(copy.at(&(0, 0)), Some(1));
    assert_eq!(copy.at(&(1, 2)), Some(3));
}
