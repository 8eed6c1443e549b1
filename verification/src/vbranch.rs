use vstd::prelude::*;

use crate::keyed::{has_key, key_idx, unique_keys, find_by_key, Keyed};
use crate::ownership::{covers, hunks_bounded, FileOwnership};

verus! {

/// A named, independently applicable partition of the uncommitted changes of
/// one project. Branches persist until deleted; `applied` says whether the
/// branch's claimed changes are materialized in the working directory.
#[derive(Clone, Debug)]
pub struct VirtualBranch {
    pub id: u64,
    pub name: String,
    /// Explicit ranking among applied branches; the lowest-ordered applied
    /// branch is the default owner of unclaimed changes.
    pub order: u64,
    pub applied: bool,
    pub ownership: Vec<FileOwnership>,
    pub upstream: Option<String>,
    /// Cached tree of the last materialization, if any.
    pub tree_hash: Option<u64>,
    /// Local commit ancestry pointer, if the branch has committed.
    pub head: Option<u64>,
    /// Set by base sync when the branch's commits no longer merge cleanly
    /// against the moved base; the branch stays applied.
    pub conflicted: bool,
}

/// What a creation request carries.
#[derive(Clone, Debug)]
pub struct BranchCreateRequest {
    pub name: String,
    pub order: Option<u64>,
}

/// What an update request carries; absent fields are left as they stand.
#[derive(Clone, Debug)]
pub struct BranchUpdateRequest {
    pub id: u64,
    pub name: Option<String>,
    pub order: Option<u64>,
}

/// Whether branch `b` claims `line` of `path`'s diff against base.
pub open spec fn branch_claims(b: VirtualBranch, path: Seq<char>, line: int) -> bool {
    has_key(b.ownership@, path) && covers(b.ownership@[key_idx(b.ownership@, path)].hunks@, line)
}

/// A branch's ownership records are well formed: one record per path, with
/// machine-bounded ranges.
pub open spec fn branch_wf(b: VirtualBranch) -> bool {
    unique_keys(b.ownership@) && (forall|i: int|
        0 <= i < b.ownership@.len() ==> hunks_bounded((#[trigger] b.ownership@[i]).hunks@))
}

/// No line of any file is claimed by two applied branches.
pub open spec fn claims_disjoint(bs: Seq<VirtualBranch>) -> bool {
    forall|i: int, j: int, path: Seq<char>, line: int|
        0 <= i < j < bs.len() && bs[i].applied && bs[j].applied ==> !(#[trigger] branch_claims(
            bs[i],
            path,
            line,
        ) && #[trigger] branch_claims(bs[j], path, line))
}

/// The default branch: the first applied branch with the least `order`, or -1
/// when no branch is applied.
pub open spec fn default_idx(bs: Seq<VirtualBranch>) -> int
    decreases bs.len(),
{
    if bs.len() == 0 {
        -1
    } else {
        let r = default_idx(bs.skip(1));
        if !bs[0].applied {
            if r < 0 {
                -1
            } else {
                r + 1
            }
        } else if r < 0 {
            0
        } else if bs[0].order <= bs.skip(1)[r].order {
            0
        } else {
            r + 1
        }
    }
}

/// What `default_idx` returns: an applied branch of least order, the earliest
/// among equals, or -1 when no branch is applied.
pub proof fn lemma_default_idx(bs: Seq<VirtualBranch>)
    ensures
        default_idx(bs) == -1 ==> forall|i: int|
            0 <= i < bs.len() ==> !(#[trigger] bs[i]).applied,
        default_idx(bs) >= 0 ==> {
            let r = default_idx(bs);
            &&& r < bs.len()
            &&& bs[r].applied
            &&& forall|i: int|
                0 <= i < bs.len() && (#[trigger] bs[i]).applied ==> bs[r].order <= bs[i].order
            &&& forall|i: int|
                0 <= i < r && (#[trigger] bs[i]).applied ==> bs[r].order < bs[i].order
        },
    decreases bs.len(),
{
    if bs.len() == 0 {
    } else {
        lemma_default_idx(bs.skip(1));
        assert forall|i: int| 1 <= i < bs.len() implies bs.skip(1)[i - 1] == bs[i] by {}
    }
}

impl VirtualBranch {
    /// Whether this branch claims `line` of `path`.
    pub fn claims_line(&self, path: &String, line: usize) -> (r: bool)
        requires
            branch_wf(*self),
        ensures
            r == branch_claims(*self, path@, line as int),
    {
        match find_by_key(&self.ownership, path) {
            None => false,
            Some(i) => {
                proof {
                    crate::keyed::lemma_key_idx_is(self.ownership@, path@, i as int);
                }
                let fo = &self.ownership[i];
                let mut j: usize = 0;
                let mut found: bool = false;
                while j < fo.hunks.len()
                    invariant
                        j <= fo.hunks@.len(),
                        found == exists|q: int|
                            0 <= q < j && crate::ownership::hunk_covers(fo.hunks@[q], line as int),
                    decreases fo.hunks@.len() - j,
                {
                    let h = fo.hunks[j];
                    if h.start <= line && line - h.start < h.count {
                        proof {
                            assert(crate::ownership::hunk_covers(fo.hunks@[j as int], line as int));
                        }
                        found = true;
                    }
                    j += 1;
                }
                proof {
                    if found {
                        assert(covers(fo.hunks@, line as int));
                    } else {
                        assert(!covers(fo.hunks@, line as int));
                    }
                }
                found
            },
        }
    }
}

} // verus!
