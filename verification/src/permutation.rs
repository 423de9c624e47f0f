//! Permutations of an index range, as used for permuted iteration.

use vstd::prelude::*;

verus! {

/// What a permutation view holds: nothing for the identity, else the
/// images of the indices and their preimages.
pub enum PermModel {
    /// Every index is its own image.
    Identity,
    /// `perm[i]` is the image of `i`, and `perm_inv[j]` the preimage of `j`.
    FinitePerm { perm: Seq<usize>, perm_inv: Seq<usize> },
}

impl PermModel {
    /// The two arrays have the same length and undo each other.
    pub open spec fn wf(self) -> bool {
        match self {
            PermModel::Identity => true,
            PermModel::FinitePerm { perm, perm_inv } => {
                &&& perm.len() == perm_inv.len()
                &&& forall|i: int|
                    0 <= i < perm.len() ==> 0 <= #[trigger] perm[i] < perm.len() && perm_inv[perm[i] as int]
                        == i
                &&& forall|j: int|
                    0 <= j < perm.len() ==> 0 <= #[trigger] perm_inv[j] < perm.len()
                        && perm[perm_inv[j] as int] == j
            },
        }
    }

    /// The permutation can be applied to the indices below `n`.
    pub open spec fn covers(self, n: int) -> bool {
        match self {
            PermModel::Identity => true,
            PermModel::FinitePerm { perm, perm_inv } => perm.len() == n,
        }
    }

    /// The index `i` has an image.
    pub open spec fn defined_at(self, i: int) -> bool {
        match self {
            PermModel::Identity => true,
            PermModel::FinitePerm { perm, perm_inv } => 0 <= i < perm.len(),
        }
    }

    /// The image of `i`.
    pub open spec fn apply(self, i: int) -> int {
        match self {
            PermModel::Identity => i,
            PermModel::FinitePerm { perm, perm_inv } => perm[i] as int,
        }
    }

    /// The inverse permutation.
    pub open spec fn inverse(self) -> PermModel {
        match self {
            PermModel::Identity => PermModel::Identity,
            PermModel::FinitePerm { perm, perm_inv } => PermModel::FinitePerm {
                perm: perm_inv,
                perm_inv: perm,
            },
        }
    }
}

/// A borrowed permutation: the identity, or two arrays that undo each
/// other.
pub enum PermView<'a> {
    /// Every index is its own image.
    Identity,
    /// `perm[i]` is the image of `i`, and `perm_inv[j]` the preimage of `j`.
    FinitePerm { perm: &'a [usize], perm_inv: &'a [usize] },
}

impl<'a> View for PermView<'a> {
    type V = PermModel;

    open spec fn view(&self) -> PermModel {
        match *self {
            PermView::Identity => PermModel::Identity,
            PermView::FinitePerm { perm, perm_inv } => PermModel::FinitePerm {
                perm: perm@,
                perm_inv: perm_inv@,
            },
        }
    }
}

impl<'a> PermView<'a> {
    /// The identity permutation.
    pub fn identity() -> (p: PermView<'a>)
        ensures
            p@ == PermModel::Identity,
            p@.wf(),
    {
        PermView::Identity
    }

    /// The image of `index`.
    pub fn at(&self, index: usize) -> (r: usize)
        requires
            self@.wf(),
            self@.defined_at(index as int),
        ensures
            r == self@.apply(index as int),
    {
        match *self {
            PermView::Identity => index,
            PermView::FinitePerm { perm, perm_inv } => perm[index],
        }
    }

    /// The same permutation, borrowed again.
    pub fn reborrow(&self) -> (p: PermView<'a>)
        ensures
            p@ == self@,
    {
        match *self {
            PermView::Identity => PermView::Identity,
            PermView::FinitePerm { perm, perm_inv } => PermView::FinitePerm { perm, perm_inv },
        }
    }

    /// The inverse permutation, over the same arrays.
    pub fn reborrow_inv(&self) -> (p: PermView<'a>)
        ensures
            p@ == self@.inverse(),
    {
        match *self {
            PermView::Identity => PermView::Identity,
            PermView::FinitePerm { perm, perm_inv } => PermView::FinitePerm {
                perm: perm_inv,
                perm_inv: perm,
            },
        }
    }
}

} // verus!
