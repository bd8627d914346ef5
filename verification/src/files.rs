//! Three-way merging of file contents, as the tree merge asks for it.

use vstd::prelude::*;
use crate::repo_path::bytes_eq;

verus! {

/// One stretch of a merged file.
#[derive(Debug, PartialEq, Eq)]
pub enum MergeHunk {
    /// Bytes on which the merge settled.
    Resolved(Vec<u8>),
    /// A stretch that the two sides changed in different ways.
    Conflict { base: Vec<u8>, left: Vec<u8>, right: Vec<u8> },
}

/// The outcome of merging the contents of a file.
#[derive(Debug, PartialEq, Eq)]
pub enum MergeResult {
    /// The merged contents.
    Resolved(Vec<u8>),
    /// The stretches of a file that could not be merged.
    Conflict(Vec<MergeHunk>),
}

impl MergeResult {
    /// The merged contents, where the merge settled.
    pub open spec fn resolution(&self) -> Option<Seq<u8>> {
        match self {
            MergeResult::Resolved(contents) => Some(contents@),
            MergeResult::Conflict(_) => None,
        }
    }
}

/// A three-way merge of file contents.  What it returns depends on the
/// three contents alone.
pub trait FileMerger {
    /// The merged contents of `side1` and `side2`, which both come from
    /// `base`; `None` where the merger does not settle.
    spec fn resolution(&self, base: Seq<u8>, side1: Seq<u8>, side2: Seq<u8>) -> Option<Seq<u8>>;

    /// Merges `side1` and `side2`, which both come from `base`.
    fn merge(&self, base: &Vec<u8>, side1: &Vec<u8>, side2: &Vec<u8>) -> (r: MergeResult)
        ensures
            r.resolution() == self.resolution(base@, side1@, side2@),
    ;
}

/// The merger that looks at whole files only: where one side is the base it
/// takes the other side, where both sides are the same it takes them, and
/// otherwise it does not settle.
#[derive(Debug, Clone, Copy)]
pub struct WholeFileMerger;

impl FileMerger for WholeFileMerger {
    open spec fn resolution(&self, base: Seq<u8>, side1: Seq<u8>, side2: Seq<u8>) -> Option<
        Seq<u8>,
    > {
        if base == side1 {
            Some(side2)
        } else if base == side2 || side1 == side2 {
            Some(side1)
        } else {
            None
        }
    }

    fn merge(&self, base: &Vec<u8>, side1: &Vec<u8>, side2: &Vec<u8>) -> (r: MergeResult)
        ensures
            match r {
                MergeResult::Resolved(_) => true,
                MergeResult::Conflict(hunks) => hunks@.len() == 1 && (match hunks@[0] {
                    MergeHunk::Conflict { base: b, left, right } => b@ == base@ && left@
                        == side1@ && right@ == side2@,
                    MergeHunk::Resolved(_) => false,
                }),
            },
    {
        if bytes_eq(base, side1) {
            MergeResult::Resolved(side2.clone())
        } else if bytes_eq(base, side2) || bytes_eq(side1, side2) {
            MergeResult::Resolved(side1.clone())
        } else {
            let mut hunks: Vec<MergeHunk> = Vec::new();
            hunks.push(
                MergeHunk::Conflict {
                    base: base.clone(),
                    left: side1.clone(),
                    right: side2.clone(),
                },
            );
            MergeResult::Conflict(hunks)
        }
    }
}

/// A merger made of a function.
pub struct FnMerger<F: Fn(&Vec<u8>, &Vec<u8>, &Vec<u8>) -> MergeResult> {
    merge_fn: F,
}

/// The function can be called on all contents, and on equal contents it
/// settles on equal contents or does not settle.
pub open spec fn is_merge_fn<F: Fn(&Vec<u8>, &Vec<u8>, &Vec<u8>) -> MergeResult>(f: F) -> bool {
    &&& forall|base: &Vec<u8>, side1: &Vec<u8>, side2: &Vec<u8>|
        #[trigger] f.requires((base, side1, side2))
    &&& forall|
        base: &Vec<u8>,
        side1: &Vec<u8>,
        side2: &Vec<u8>,
        r: MergeResult,
        base2: &Vec<u8>,
        side12: &Vec<u8>,
        side22: &Vec<u8>,
        r2: MergeResult,
    |
        #[trigger] f.ensures((base, side1, side2), r) && #[trigger] f.ensures(
            (base2, side12, side22),
            r2,
        ) && base@ == base2@ && side1@ == side12@ && side2@ == side22@ ==> r.resolution()
            == r2.resolution()
}

impl<F: Fn(&Vec<u8>, &Vec<u8>, &Vec<u8>) -> MergeResult> FnMerger<F> {
    #[verifier::type_invariant]
    spec fn inv(self) -> bool {
        is_merge_fn(self.merge_fn)
    }

    /// The function that the merger calls.
    pub closed spec fn merge_fn(&self) -> F {
        self.merge_fn
    }

    /// The merger that calls `merge_fn`.
    pub fn new(merge_fn: F) -> (r: Self)
        requires
            is_merge_fn(merge_fn),
        ensures
            r.merge_fn() == merge_fn,
    {
        FnMerger { merge_fn }
    }
}

impl<F: Fn(&Vec<u8>, &Vec<u8>, &Vec<u8>) -> MergeResult> FileMerger for FnMerger<F> {
    open spec fn resolution(&self, base: Seq<u8>, side1: Seq<u8>, side2: Seq<u8>) -> Option<
        Seq<u8>,
    > {
        let call = choose|b: Vec<u8>, s1: Vec<u8>, s2: Vec<u8>, r: MergeResult|
            b@ == base && s1@ == side1 && s2@ == side2 && #[trigger] self.merge_fn().ensures(
                (&b, &s1, &s2),
                r,
            );
        call.3.resolution()
    }

    fn merge(&self, base: &Vec<u8>, side1: &Vec<u8>, side2: &Vec<u8>) -> (r: MergeResult) {
        proof {
            use_type_invariant(self);
        }
        let r = (self.merge_fn)(base, side1, side2);
        assert(self.merge_fn().ensures((base, side1, side2), r));
        r
    }
}

} // verus!
