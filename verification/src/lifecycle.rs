use vstd::prelude::*;

use crate::diff::{apply_hunks, diff_wf, masked, splice_lines, DiffHunk, FileDiff, WdFile};
use crate::error::CoreError;
use crate::keyed::{find_by_key, has_key, key_idx, lemma_key_idx_is, unique_keys, Keyed};
use crate::ownership::{covers, hunk_covers, hunks_bounded, Hunk};
use crate::project::{wf, Project};
use crate::vbranch::{branch_claims, branch_wf, claims_disjoint, default_idx, VirtualBranch};

verus! {

/// Whether some applied branch claims `line` of `path`.
pub open spec fn some_applied_claims(bs: Seq<VirtualBranch>, path: Seq<char>, line: int) -> bool {
    exists|b: int|
        0 <= b < bs.len() && (#[trigger] bs[b]).applied && branch_claims(bs[b], path, line)
}

/// Whether any branch, applied or not, claims `line` of `path`.
pub open spec fn some_claims(bs: Seq<VirtualBranch>, path: Seq<char>, line: int) -> bool {
    exists|b: int| 0 <= b < bs.len() && branch_claims(#[trigger] bs[b], path, line)
}

/// Whether a diff hunk starting at `line` of `path` belongs in the working
/// directory: an applied branch claims it, or no branch at all claims it and
/// a default branch exists to own it. A hunk claimed only by unapplied
/// branches stays out: unapplying removed it.
pub open spec fn hunk_live(bs: Seq<VirtualBranch>, path: Seq<char>, line: int) -> bool {
    some_applied_claims(bs, path, line) || (!some_claims(bs, path, line) && default_idx(bs) >= 0)
}

/// Whether branch `b` owns the diff hunk starting at `line` of `path`: it is
/// applied and claims the line, or it is the default branch and no branch
/// claims the line.
pub open spec fn owns_hunk(bs: Seq<VirtualBranch>, b: int, path: Seq<char>, line: int) -> bool {
    &&& 0 <= b < bs.len()
    &&& bs[b].applied
    &&& (branch_claims(bs[b], path, line) || (b == default_idx(bs) && !some_claims(
        bs,
        path,
        line,
    )))
}

/// For each hunk, whether it belongs in the working directory.
pub open spec fn keep_mask(bs: Seq<VirtualBranch>, path: Seq<char>, hs: Seq<DiffHunk>) -> Seq<
    bool,
> {
    Seq::new(hs.len(), |q: int| hunk_live(bs, path, hs[q].start as int))
}

/// For each hunk, whether branch `b` owns it.
pub open spec fn owns_mask(bs: Seq<VirtualBranch>, b: int, path: Seq<char>, hs: Seq<DiffHunk>) -> Seq<
    bool,
> {
    Seq::new(hs.len(), |q: int| owns_hunk(bs, b, path, hs[q].start as int))
}

/// A live diff from the backend is well formed against the base snapshot: one
/// entry per path, each over a file the base has, with ordered, disjoint,
/// in-bounds hunks.
pub open spec fn live_diff_wf(diff: Seq<FileDiff>, base: Seq<WdFile>) -> bool {
    &&& unique_keys(diff)
    &&& forall|i: int|
        0 <= i < diff.len() ==> has_key(base, (#[trigger] diff[i]).path@) && diff_wf(
            diff[i].hunks@,
            base[key_idx(base, diff[i].path@)].lines@.len() as int,
        )
}

/// One file's working-directory lines: the base lines patched with exactly
/// the live hunks of its diff.
pub open spec fn file_materialized(bs: Seq<VirtualBranch>, f: WdFile, diff: Seq<FileDiff>) -> Seq<
    Seq<char>,
> {
    if has_key(diff, f.path@) {
        let hs = diff[key_idx(diff, f.path@)].hunks@;
        crate::diff::patch_spec(f.lines.deep_view(), masked(hs, keep_mask(bs, f.path@, hs)))
    } else {
        f.lines.deep_view()
    }
}

/// The whole working directory is the derived view of base, diff and the
/// applied branches: one output file per base file, each materialized.
pub open spec fn wd_materialized(
    bs: Seq<VirtualBranch>,
    base: Seq<WdFile>,
    diff: Seq<FileDiff>,
    out: Seq<WdFile>,
) -> bool {
    &&& out.len() == base.len()
    &&& forall|i: int|
        0 <= i < base.len() ==> (#[trigger] out[i]).path@ == base[i].path@
            && out[i].lines.deep_view() == file_materialized(bs, base[i], diff)
}

/// Two branches both claim some line of some file.
pub open spec fn pair_conflict(b1: VirtualBranch, b2: VirtualBranch) -> bool {
    exists|p: Seq<char>, l: int| #[trigger] branch_claims(b1, p, l) && #[trigger] branch_claims(
        b2,
        p,
        l,
    )
}

/// Applying branch `bi` would clobber a claim of another applied branch.
pub open spec fn apply_conflict(bs: Seq<VirtualBranch>, bi: int) -> bool {
    exists|j: int|
        0 <= j < bs.len() && j != bi && (#[trigger] bs[j]).applied && pair_conflict(bs[bi], bs[j])
}

/// Ownership coverage: with the applied branches' claims pairwise disjoint,
/// every hunk of the diff that the working directory reflects is owned by
/// exactly one applied branch — its applied claimant, or the default branch
/// for a hunk no branch claims — so the owned hunks of the applied branches
/// partition the materialized diff: no overlap, no gap.
pub proof fn lemma_ownership_coverage(bs: Seq<VirtualBranch>, path: Seq<char>, line: int)
    requires
        claims_disjoint(bs),
    ensures
        hunk_live(bs, path, line) <==> exists|b: int| owns_hunk(bs, b, path, line),
        forall|b1: int, b2: int|
            #[trigger] owns_hunk(bs, b1, path, line) && #[trigger] owns_hunk(bs, b2, path, line)
                ==> b1 == b2,
{
    crate::vbranch::lemma_default_idx(bs);
    if hunk_live(bs, path, line) {
        if some_applied_claims(bs, path, line) {
            let b = choose|b: int|
                0 <= b < bs.len() && (#[trigger] bs[b]).applied && branch_claims(bs[b], path, line);
            assert(owns_hunk(bs, b, path, line));
        } else {
            let d = default_idx(bs);
            assert(owns_hunk(bs, d, path, line));
        }
    }
    if exists|b: int| owns_hunk(bs, b, path, line) {
        let b = choose|b: int| owns_hunk(bs, b, path, line);
        if branch_claims(bs[b], path, line) {
            assert(some_applied_claims(bs, path, line));
        }
    }
    assert forall|b1: int, b2: int|
        #[trigger] owns_hunk(bs, b1, path, line) && #[trigger] owns_hunk(bs, b2, path, line)
            implies b1 == b2 by {
        if b1 != b2 {
            if branch_claims(bs[b1], path, line) && branch_claims(bs[b2], path, line) {
                if b1 < b2 {
                    assert(!(branch_claims(bs[b1], path, line) && branch_claims(
                        bs[b2],
                        path,
                        line,
                    )));
                } else {
                    assert(!(branch_claims(bs[b2], path, line) && branch_claims(
                        bs[b1],
                        path,
                        line,
                    )));
                }
            } else if branch_claims(bs[b1], path, line) {
                assert(!some_claims(bs, path, line));
                assert(some_claims(bs, path, line));
            } else if branch_claims(bs[b2], path, line) {
                assert(!some_claims(bs, path, line));
                assert(some_claims(bs, path, line));
            }
        }
    }
}

/// Unapply after apply is the identity on the branch set, and the working
/// directory is a pure function of base, diff and branches: applying a
/// branch and unapplying it again restores the working directory, byte for
/// byte, for every file — in particular for the regions the branch owned.
pub proof fn lemma_apply_unapply_roundtrip(bs: Seq<VirtualBranch>, bi: int)
    requires
        0 <= bi < bs.len(),
        !bs[bi].applied,
    ensures
        ({
            let during = bs.update(bi, VirtualBranch { applied: true, ..bs[bi] });
            let restored = during.update(bi, VirtualBranch { applied: false, ..during[bi] });
            restored == bs
        }),
{
    let during = bs.update(bi, VirtualBranch { applied: true, ..bs[bi] });
    let restored = during.update(bi, VirtualBranch { applied: false, ..during[bi] });
    assert(restored[bi] == bs[bi]);
    assert(restored =~= bs);
}

/// Any two working directories materialized from the same base, diff and
/// branches read the same, file for file and line for line.
pub proof fn lemma_materialization_unique(
    bs: Seq<VirtualBranch>,
    base: Seq<WdFile>,
    diff: Seq<FileDiff>,
    out1: Seq<WdFile>,
    out2: Seq<WdFile>,
)
    requires
        wd_materialized(bs, base, diff, out1),
        wd_materialized(bs, base, diff, out2),
    ensures
        out1.len() == out2.len(),
        forall|i: int|
            0 <= i < out1.len() ==> (#[trigger] out1[i]).path@ == out2[i].path@
                && out1[i].lines.deep_view() == out2[i].lines.deep_view(),
{
}

/// Whether two hunk lists claim a common line.
pub fn hunks_overlap(a: &Vec<Hunk>, b: &Vec<Hunk>) -> (r: bool)
    requires
        hunks_bounded(a@),
        hunks_bounded(b@),
    ensures
        r == exists|l: int| #[trigger] covers(a@, l) && covers(b@, l),
{
    let mut i: usize = 0;
    while i < a.len()
        invariant
            i <= a@.len(),
            hunks_bounded(a@),
            hunks_bounded(b@),
            forall|q: int, l: int|
                0 <= q < i ==> !(#[trigger] hunk_covers(a@[q], l) && covers(b@, l)),
        decreases a@.len() - i,
    {
        let ha = a[i];
        let mut j: usize = 0;
        while j < b.len()
            invariant
                j <= b@.len(),
                hunks_bounded(a@),
                hunks_bounded(b@),
                i < a@.len(),
                ha == a@[i as int],
                forall|q: int, l: int|
                    0 <= q < j ==> !(hunk_covers(ha, l) && #[trigger] hunk_covers(b@[q], l)),
            decreases b@.len() - j,
        {
            let hb = b[j];
            let lo: usize = if ha.start > hb.start {
                ha.start
            } else {
                hb.start
            };
            let a_end: usize = ha.start + ha.count;
            let b_end: usize = hb.start + hb.count;
            let hi: usize = if a_end < b_end {
                a_end
            } else {
                b_end
            };
            if lo < hi {
                proof {
                    assert(hunk_covers(ha, lo as int) && hunk_covers(hb, lo as int));
                    assert(covers(a@, lo as int) && covers(b@, lo as int));
                }
                return true;
            }
            j += 1;
        }
        i += 1;
    }
    proof {
        if exists|l: int| #[trigger] covers(a@, l) && covers(b@, l) {
            let l = choose|l: int| #[trigger] covers(a@, l) && covers(b@, l);
            let q = choose|q: int| 0 <= q < a@.len() && hunk_covers(a@[q], l);
            assert(!(hunk_covers(a@[q], l) && covers(b@, l)));
        }
    }
    false
}

impl Project {
    /// Whether any branch at all claims `line` of `path`.
    pub fn any_claims(&self, path: &String, line: usize) -> (r: bool)
        requires
            forall|q: int| 0 <= q < self.branches@.len() ==> branch_wf(#[trigger] self.branches@[q]),
        ensures
            r == some_claims(self.branches@, path@, line as int),
    {
        let mut b: usize = 0;
        while b < self.branches.len()
            invariant
                b <= self.branches@.len(),
                forall|q: int|
                    0 <= q < self.branches@.len() ==> branch_wf(#[trigger] self.branches@[q]),
                forall|q: int|
                    0 <= q < b ==> !branch_claims(#[trigger] self.branches@[q], path@, line as int),
            decreases self.branches@.len() - b,
        {
            if self.branches[b].claims_line(path, line) {
                return true;
            }
            b += 1;
        }
        false
    }

    /// Whether some applied branch claims `line` of `path`.
    pub fn any_applied_claims(&self, path: &String, line: usize) -> (r: bool)
        requires
            forall|q: int| 0 <= q < self.branches@.len() ==> branch_wf(#[trigger] self.branches@[q]),
        ensures
            r == some_applied_claims(self.branches@, path@, line as int),
    {
        let mut b: usize = 0;
        while b < self.branches.len()
            invariant
                b <= self.branches@.len(),
                forall|q: int|
                    0 <= q < self.branches@.len() ==> branch_wf(#[trigger] self.branches@[q]),
                forall|q: int|
                    0 <= q < b ==> !((#[trigger] self.branches@[q]).applied && branch_claims(
                        self.branches@[q],
                        path@,
                        line as int,
                    )),
            decreases self.branches@.len() - b,
        {
            if self.branches[b].applied && self.branches[b].claims_line(path, line) {
                return true;
            }
            b += 1;
        }
        false
    }

    /// Whether the diff hunk starting at `line` of `path` belongs in the
    /// working directory.
    pub fn hunk_live_at(&self, path: &String, line: usize) -> (r: bool)
        requires
            forall|q: int| 0 <= q < self.branches@.len() ==> branch_wf(#[trigger] self.branches@[q]),
        ensures
            r == hunk_live(self.branches@, path@, line as int),
    {
        if self.any_applied_claims(path, line) {
            true
        } else if self.any_claims(path, line) {
            false
        } else {
            self.default_branch_index().is_some()
        }
    }

    /// Whether branch `bi` owns the diff hunk starting at `line` of `path`.
    pub fn owns_hunk_at(&self, bi: usize, path: &String, line: usize) -> (r: bool)
        requires
            forall|q: int| 0 <= q < self.branches@.len() ==> branch_wf(#[trigger] self.branches@[q]),
            bi < self.branches@.len(),
        ensures
            r == owns_hunk(self.branches@, bi as int, path@, line as int),
    {
        if !self.branches[bi].applied {
            return false;
        }
        if self.branches[bi].claims_line(path, line) {
            return true;
        }
        match self.default_branch_index() {
            Some(d) => {
                if d == bi {
                    !self.any_claims(path, line)
                } else {
                    false
                }
            },
            None => false,
        }
    }

    /// The derived working directory: every base file with exactly the live
    /// hunks of the diff applied. The working directory is never the source
    /// of truth; this view is recomputed from base, diff and branches.
    pub fn materialize(&self, live_diff: &Vec<FileDiff>) -> (r: Vec<WdFile>)
        requires
            wf(*self),
            live_diff_wf(live_diff@, self.base_wd@),
        ensures
            wd_materialized(self.branches@, self.base_wd@, live_diff@, r@),
    {
        let mut out: Vec<WdFile> = Vec::new();
        let mut i: usize = 0;
        while i < self.base_wd.len()
            invariant
                i <= self.base_wd@.len(),
                wf(*self),
                live_diff_wf(live_diff@, self.base_wd@),
                out@.len() == i,
                forall|q: int|
                    0 <= q < i ==> (#[trigger] out@[q]).path@ == self.base_wd@[q].path@
                        && out@[q].lines.deep_view() == file_materialized(
                        self.branches@,
                        self.base_wd@[q],
                        live_diff@,
                    ),
            decreases self.base_wd@.len() - i,
        {
            let f = &self.base_wd[i];
            match find_by_key(live_diff, &f.path) {
                None => {
                    let empty: Vec<String> = Vec::new();
                    let lines = splice_lines(&f.lines, 0, 0, &empty);
                    proof {
                        assert(lines.deep_view() =~= f.lines.deep_view());
                    }
                    out.push(WdFile { path: f.path.clone(), lines });
                },
                Some(di) => {
                    proof {
                        lemma_key_idx_is(live_diff@, f.path@, di as int);
                        lemma_key_idx_is(self.base_wd@, f.path@, i as int);
                    }
                    let hunks = &live_diff[di].hunks;
                    let mut keep: Vec<bool> = Vec::new();
                    let mut q: usize = 0;
                    while q < hunks.len()
                        invariant
                            q <= hunks@.len(),
                            keep@.len() == q,
                            wf(*self),
                            i < self.base_wd@.len(),
                            di < live_diff@.len(),
                            hunks@ == live_diff@[di as int].hunks@,
                            f == &self.base_wd@[i as int],
                            forall|w: int|
                                0 <= w < q ==> keep@[w] == hunk_live(
                                    self.branches@,
                                    f.path@,
                                    (#[trigger] hunks@[w]).start as int,
                                ),
                        decreases hunks@.len() - q,
                    {
                        let live = self.hunk_live_at(&f.path, hunks[q].start);
                        keep.push(live);
                        q += 1;
                    }
                    proof {
                        assert(keep@ =~= keep_mask(self.branches@, f.path@, hunks@));
                    }
                    let lines = apply_hunks(&f.lines, hunks, &keep);
                    out.push(WdFile { path: f.path.clone(), lines });
                },
            }
            i += 1;
        }
        out
    }

    /// The branch's current contribution: for every file of the live diff,
    /// exactly the hunks the branch owns.
    pub fn diff_for(&self, bi: usize, live_diff: &Vec<FileDiff>) -> (r: Vec<FileDiff>)
        requires
            wf(*self),
            bi < self.branches@.len(),
        ensures
            r@.len() == live_diff@.len(),
            forall|i: int|
                0 <= i < live_diff@.len() ==> (#[trigger] r@[i]).path@ == live_diff@[i].path@ && {
                    let want = masked(
                        live_diff@[i].hunks@,
                        owns_mask(self.branches@, bi as int, live_diff@[i].path@, live_diff@[i].hunks@),
                    );
                    &&& r@[i].hunks@.len() == want.len()
                    &&& forall|w: int|
                        0 <= w < want.len() ==> (#[trigger] r@[i].hunks@[w]).start == want[w].start
                            && r@[i].hunks@[w].removed == want[w].removed
                            && r@[i].hunks@[w].lines.deep_view() == want[w].lines.deep_view()
                },
    {
        let mut out: Vec<FileDiff> = Vec::new();
        let mut i: usize = 0;
        while i < live_diff.len()
            invariant
                i <= live_diff@.len(),
                wf(*self),
                bi < self.branches@.len(),
                out@.len() == i,
                forall|q: int|
                    0 <= q < i ==> (#[trigger] out@[q]).path@ == live_diff@[q].path@ && {
                        let want = masked(
                            live_diff@[q].hunks@,
                            owns_mask(
                                self.branches@,
                                bi as int,
                                live_diff@[q].path@,
                                live_diff@[q].hunks@,
                            ),
                        );
                        &&& out@[q].hunks@.len() == want.len()
                        &&& forall|w: int|
                            0 <= w < want.len() ==> (#[trigger] out@[q].hunks@[w]).start
                                == want[w].start && out@[q].hunks@[w].removed == want[w].removed
                                && out@[q].hunks@[w].lines.deep_view() == want[w].lines.deep_view()
                    },
            decreases live_diff@.len() - i,
        {
            let fd = &live_diff[i];
            let mut hs: Vec<DiffHunk> = Vec::new();
            let ghost all = fd.hunks@;
            let mut q: usize = 0;
            while q < fd.hunks.len()
                invariant
                    q <= all.len(),
                    wf(*self),
                    bi < self.branches@.len(),
                    i < live_diff@.len(),
                    fd == &live_diff@[i as int],
                    all == fd.hunks@,
                    ({
                        let want = masked(
                            all.take(q as int),
                            owns_mask(self.branches@, bi as int, fd.path@, all.take(q as int)),
                        );
                        &&& hs@.len() == want.len()
                        &&& forall|w: int|
                            0 <= w < want.len() ==> (#[trigger] hs@[w]).start == want[w].start
                                && hs@[w].removed == want[w].removed && hs@[w].lines.deep_view()
                                == want[w].lines.deep_view()
                    }),
                decreases all.len() - q,
            {
                let owned = self.owns_hunk_at(bi, &fd.path, fd.hunks[q].start);
                let ghost pre_take = all.take(q as int);
                let ghost pre_mask = owns_mask(self.branches@, bi as int, fd.path@, pre_take);
                if owned {
                    let h = &fd.hunks[q];
                    let empty: Vec<String> = Vec::new();
                    let lines = splice_lines(&h.lines, 0, 0, &empty);
                    proof {
                        assert(lines.deep_view() =~= h.lines.deep_view());
                    }
                    hs.push(DiffHunk { start: h.start, removed: h.removed, lines });
                }
                proof {
                    lemma_masked_take_step(
                        all,
                        q as int,
                        self.branches@,
                        bi as int,
                        fd.path@,
                    );
                }
                q += 1;
            }
            proof {
                assert(all.take(all.len() as int) =~= all);
            }
            out.push(FileDiff { path: fd.path.clone(), hunks: hs });
            i += 1;
        }
        out
    }
}

/// Whether two line lists read the same.
pub fn lines_equal(x: &Vec<String>, y: &Vec<String>) -> (r: bool)
    ensures
        r == (x.deep_view() == y.deep_view()),
{
    if x.len() != y.len() {
        proof {
            assert(x.deep_view().len() == x@.len());
            assert(y.deep_view().len() == y@.len());
        }
        return false;
    }
    let mut i: usize = 0;
    while i < x.len()
        invariant
            i <= x@.len(),
            x@.len() == y@.len(),
            forall|q: int| 0 <= q < i ==> x.deep_view()[q] == y.deep_view()[q],
        decreases x@.len() - i,
    {
        if !x[i].eq(&y[i]) {
            proof {
                assert(x.deep_view()[i as int] != y.deep_view()[i as int]);
            }
            return false;
        }
        i += 1;
    }
    proof {
        assert(x.deep_view() =~= y.deep_view());
    }
    true
}

/// Whether two working-directory snapshots read the same, file for file.
pub fn wd_matches(a: &Vec<WdFile>, b: &Vec<WdFile>) -> (r: bool)
    ensures
        r == (a@.len() == b@.len() && (forall|i: int|
            0 <= i < a@.len() ==> (#[trigger] a@[i]).path@ == b@[i].path@
                && a@[i].lines.deep_view() == b@[i].lines.deep_view())),
{
    if a.len() != b.len() {
        return false;
    }
    let mut i: usize = 0;
    while i < a.len()
        invariant
            i <= a@.len(),
            a@.len() == b@.len(),
            forall|q: int|
                0 <= q < i ==> (#[trigger] a@[q]).path@ == b@[q].path@ && a@[q].lines.deep_view()
                    == b@[q].lines.deep_view(),
        decreases a@.len() - i,
    {
        if !a[i].path.eq(&b[i].path) {
            return false;
        }
        if !lines_equal(&a[i].lines, &b[i].lines) {
            return false;
        }
        i += 1;
    }
    true
}

/// The index of the branch with the given id; meaningful when `has_branch`
/// and the ids are distinct.
pub open spec fn branch_idx(bs: Seq<VirtualBranch>, id: u64) -> int {
    choose|i: int| 0 <= i < bs.len() && bs[i].id == id
}

/// Whether some branch carries the id.
pub open spec fn has_branch(bs: Seq<VirtualBranch>, id: u64) -> bool {
    exists|i: int| 0 <= i < bs.len() && bs[i].id == id
}

/// With distinct ids, any index carrying `id` is `branch_idx`.
pub proof fn lemma_branch_idx_is(bs: Seq<VirtualBranch>, id: u64, i: int)
    requires
        forall|a: int, b: int|
            0 <= a < b < bs.len() ==> (#[trigger] bs[a]).id != (#[trigger] bs[b]).id,
        0 <= i < bs.len(),
        bs[i].id == id,
    ensures
        has_branch(bs, id),
        branch_idx(bs, id) == i,
{
    assert(has_branch(bs, id));
    let j = branch_idx(bs, id);
    if j != i {
        if j < i {
            assert(bs[j].id != bs[i].id);
        } else {
            assert(bs[i].id != bs[j].id);
        }
    }
}

impl Project {
    /// Applies a branch: verifies that no currently applied branch's claimed
    /// hunks would be clobbered — refusing with `OwnershipConflict` and
    /// changing nothing otherwise — then marks the branch applied and returns
    /// the working directory recomputed as the union of all applied branches'
    /// contributions over the shared base.
    pub fn apply_branch(&mut self, branch_id: u64, live_diff: &Vec<FileDiff>) -> (r: Result<
        Vec<WdFile>,
        CoreError,
    >)
        requires
            wf(*old(self)),
            live_diff_wf(live_diff@, old(self).base_wd@),
            has_branch(old(self).branches@, branch_id),
        ensures
            wf(*final(self)),
            r is Err ==> *final(self) == *old(self) && r == Err::<Vec<WdFile>, CoreError>(
                CoreError::OwnershipConflict,
            ),
            r is Err <==> apply_conflict(
                old(self).branches@,
                branch_idx(old(self).branches@, branch_id),
            ),
            r matches Ok(wd) ==> ({
                let bi = branch_idx(old(self).branches@, branch_id);
                &&& final(self).branches@ == old(self).branches@.update(
                    bi,
                    VirtualBranch { applied: true, ..old(self).branches@[bi] },
                )
                &&& wd_materialized(final(self).branches@, old(self).base_wd@, live_diff@, wd@)
                &&& *final(self) == (Project { branches: final(self).branches, ..*old(self) })
            }),
    {
        let bi = match self.branch_index(branch_id) {
            Some(b) => b,
            None => {
                proof {
                    let w = choose|i: int|
                        0 <= i < self.branches@.len() && self.branches@[i].id == branch_id;
                    assert(self.branches@[w].id == branch_id);
                    assert(false);
                }
                return Err(CoreError::OwnershipConflict);
            },
        };
        proof {
            lemma_branch_idx_is(self.branches@, branch_id, bi as int);
        }
        // Verify that applying would clobber no applied branch's claims.
        let mut j: usize = 0;
        while j < self.branches.len()
            invariant
                *self == *old(self),
                wf(*self),
                j <= self.branches@.len(),
                bi < self.branches@.len(),
                bi as int == branch_idx(old(self).branches@, branch_id),
                forall|q: int|
                    0 <= q < j && q != bi as int && (#[trigger] self.branches@[q]).applied
                        ==> !pair_conflict(self.branches@[bi as int], self.branches@[q]),
            decreases self.branches@.len() - j,
        {
            if j != bi && self.branches[j].applied {
                let mut k: usize = 0;
                while k < self.branches[bi].ownership.len()
                    invariant
                        *self == *old(self),
                        wf(*self),
                        j < self.branches@.len(),
                        bi < self.branches@.len(),
                        bi as int == branch_idx(old(self).branches@, branch_id),
                        j != bi,
                        self.branches@[j as int].applied,
                        k <= self.branches@[bi as int].ownership@.len(),
                        forall|kk: int, l: int|
                            0 <= kk < k ==> !(#[trigger] covers(
                                self.branches@[bi as int].ownership@[kk].hunks@,
                                l,
                            ) && branch_claims(
                                self.branches@[j as int],
                                self.branches@[bi as int].ownership@[kk].file_path@,
                                l,
                            )),
                    decreases self.branches@[bi as int].ownership@.len() - k,
                {
                    match find_by_key(
                        &self.branches[j].ownership,
                        &self.branches[bi].ownership[k].file_path,
                    ) {
                        Some(m) => {
                            proof {
                                lemma_key_idx_is(
                                    self.branches@[j as int].ownership@,
                                    self.branches@[bi as int].ownership@[k as int].file_path@,
                                    m as int,
                                );
                            }
                            if hunks_overlap(
                                &self.branches[bi].ownership[k].hunks,
                                &self.branches[j].ownership[m].hunks,
                            ) {
                                proof {
                                    let fo = self.branches@[bi as int].ownership@[k as int];
                                    let l = choose|l: int|
                                        #[trigger] covers(fo.hunks@, l) && covers(
                                            self.branches@[j as int].ownership@[m as int].hunks@,
                                            l,
                                        );
                                    lemma_key_idx_is(
                                        self.branches@[bi as int].ownership@,
                                        fo.file_path@,
                                        k as int,
                                    );
                                    assert(branch_claims(
                                        self.branches@[bi as int],
                                        fo.file_path@,
                                        l,
                                    ));
                                    assert(branch_claims(
                                        self.branches@[j as int],
                                        fo.file_path@,
                                        l,
                                    ));
                                    assert(pair_conflict(
                                        self.branches@[bi as int],
                                        self.branches@[j as int],
                                    ));
                                    assert(self.branches@[j as int].applied);
                                    assert(j as int != bi as int);
                                    assert(apply_conflict(self.branches@, bi as int));
                                }
                                return Err(CoreError::OwnershipConflict);
                            }
                        },
                        None => {},
                    }
                    k += 1;
                }
                proof {
                    assert forall|p: Seq<char>, l: int| !(#[trigger] branch_claims(
                        self.branches@[bi as int],
                        p,
                        l,
                    ) && #[trigger] branch_claims(self.branches@[j as int], p, l)) by {
                        if branch_claims(self.branches@[bi as int], p, l) {
                            let kk = key_idx(self.branches@[bi as int].ownership@, p);
                            assert(self.branches@[bi as int].ownership@[kk].file_path@ == p);
                            assert(covers(self.branches@[bi as int].ownership@[kk].hunks@, l));
                        }
                    }
                    assert(!pair_conflict(self.branches@[bi as int], self.branches@[j as int]));
                }
            }
            j += 1;
        }
        proof {
            if apply_conflict(self.branches@, bi as int) {
                let w = choose|w: int|
                    0 <= w < self.branches@.len() && w != bi as int
                        && (#[trigger] self.branches@[w]).applied && pair_conflict(
                        self.branches@[bi as int],
                        self.branches@[w],
                    );
                assert(!pair_conflict(self.branches@[bi as int], self.branches@[w]));
            }
        }
        let ghost pre = self.branches@;
        let mut b = self.branches.remove(bi);
        b.applied = true;
        self.branches.insert(bi, b);
        proof {
            assert(self.branches@ =~= pre.update(bi as int, self.branches@[bi as int]));
            lemma_applied_toggle_wf(*old(self), *self, bi as int, true);
        }
        Ok(self.materialize(live_diff))
    }

    /// Unapplies a branch: removes exactly this branch's owned hunks from the
    /// working directory, restoring those regions to base content while
    /// preserving every other applied branch's edits. If the accessor's
    /// current working directory does not read as the derived view — an
    /// overlapping unsaved edit from another source — the call refuses with
    /// `DirtyUnapplyConflict` and the branch remains applied.
    pub fn unapply_branch(
        &mut self,
        branch_id: u64,
        live_diff: &Vec<FileDiff>,
        current_wd: &Vec<WdFile>,
    ) -> (r: Result<Vec<WdFile>, CoreError>)
        requires
            wf(*old(self)),
            live_diff_wf(live_diff@, old(self).base_wd@),
            has_branch(old(self).branches@, branch_id),
            old(self).branches@[branch_idx(old(self).branches@, branch_id)].applied,
        ensures
            wf(*final(self)),
            r is Err ==> *final(self) == *old(self) && r == Err::<Vec<WdFile>, CoreError>(
                CoreError::DirtyUnapplyConflict,
            ),
            r is Err <==> !wd_materialized(
                old(self).branches@,
                old(self).base_wd@,
                live_diff@,
                current_wd@,
            ),
            r matches Ok(wd) ==> ({
                let bi = branch_idx(old(self).branches@, branch_id);
                &&& final(self).branches@ == old(self).branches@.update(
                    bi,
                    VirtualBranch { applied: false, ..old(self).branches@[bi] },
                )
                &&& wd_materialized(final(self).branches@, old(self).base_wd@, live_diff@, wd@)
                &&& *final(self) == (Project { branches: final(self).branches, ..*old(self) })
            }),
    {
        let bi = match self.branch_index(branch_id) {
            Some(b) => b,
            None => {
                proof {
                    let w = choose|i: int|
                        0 <= i < self.branches@.len() && self.branches@[i].id == branch_id;
                    assert(self.branches@[w].id == branch_id);
                    assert(false);
                }
                return Err(CoreError::DirtyUnapplyConflict);
            },
        };
        proof {
            lemma_branch_idx_is(self.branches@, branch_id, bi as int);
        }
        let expected = self.materialize(live_diff);
        if !wd_matches(current_wd, &expected) {
            proof {
                if wd_materialized(self.branches@, self.base_wd@, live_diff@, current_wd@) {
                    lemma_materialization_unique(
                        self.branches@,
                        self.base_wd@,
                        live_diff@,
                        current_wd@,
                        expected@,
                    );
                }
            }
            return Err(CoreError::DirtyUnapplyConflict);
        }
        proof {
            assert(wd_materialized(self.branches@, self.base_wd@, live_diff@, current_wd@)) by {
                assert forall|i: int|
                    0 <= i < self.base_wd@.len() implies (#[trigger] current_wd@[i]).path@
                        == self.base_wd@[i].path@ && current_wd@[i].lines.deep_view()
                        == file_materialized(self.branches@, self.base_wd@[i], live_diff@) by {
                    assert(current_wd@[i].path@ == expected@[i].path@);
                    assert(current_wd@[i].lines.deep_view() == expected@[i].lines.deep_view());
                }
            }
        }
        let ghost pre = self.branches@;
        let mut b = self.branches.remove(bi);
        b.applied = false;
        self.branches.insert(bi, b);
        proof {
            assert(self.branches@ =~= pre.update(bi as int, self.branches@[bi as int]));
            lemma_applied_toggle_wf(*old(self), *self, bi as int, false);
        }
        Ok(self.materialize(live_diff))
    }
}

/// Toggling one branch's `applied` flag keeps the project invariant when the
/// branch's claims, turned on, conflict with no applied branch's claims.
pub proof fn lemma_applied_toggle_wf(pre: Project, post: Project, bi: int, to: bool)
    requires
        wf(pre),
        0 <= bi < pre.branches@.len(),
        post.branches@ == pre.branches@.update(
            bi,
            VirtualBranch { applied: to, ..pre.branches@[bi] },
        ),
        post == (Project { branches: post.branches, ..pre }),
        to ==> !apply_conflict(pre.branches@, bi),
    ensures
        wf(post),
{
    let bs = post.branches@;
    let old_bs = pre.branches@;
    assert forall|q: int| 0 <= q < bs.len() implies branch_wf(#[trigger] bs[q]) by {
        if q != bi {
            assert(bs[q] == old_bs[q]);
        } else {
            assert(bs[q].ownership == old_bs[q].ownership);
        }
    }
    assert forall|q: int|
        0 <= q < bs.len() implies ((#[trigger] bs[q]).head matches Some(h) ==> 1 <= h
            <= post.commits@.len()) by {
        if q != bi {
            assert(bs[q] == old_bs[q]);
        }
    }
    assert forall|a: int, b: int|
        0 <= a < b < bs.len() implies (#[trigger] bs[a]).id != (#[trigger] bs[b]).id by {
        assert(bs[a].id == old_bs[a].id && bs[b].id == old_bs[b].id);
    }
    assert forall|q: int|
        0 <= q < bs.len() implies (#[trigger] bs[q]).id < post.next_branch_id by {
        assert(bs[q].id == old_bs[q].id);
    }
    assert forall|a: int, b: int, p: Seq<char>, l: int|
        0 <= a < b < bs.len() && bs[a].applied && bs[b].applied implies !(
    #[trigger] branch_claims(bs[a], p, l) && #[trigger] branch_claims(bs[b], p, l)) by {
        assert(bs[a].ownership == old_bs[a].ownership);
        assert(bs[b].ownership == old_bs[b].ownership);
        assert(branch_claims(bs[a], p, l) == branch_claims(old_bs[a], p, l));
        assert(branch_claims(bs[b], p, l) == branch_claims(old_bs[b], p, l));
        if a != bi && b != bi {
            assert(old_bs[a].applied && old_bs[b].applied);
        } else if to {
            let other = if a == bi {
                b
            } else {
                a
            };
            assert(old_bs[other].applied);
            if branch_claims(old_bs[bi], p, l) && branch_claims(old_bs[other], p, l) {
                assert(pair_conflict(old_bs[bi], old_bs[other]));
                assert(apply_conflict(old_bs, bi));
            }
        } else {
            assert(!bs[bi].applied);
        }
    }
}

/// Whether an ownership list claims `line` of `path`; `branch_claims` is this
/// predicate over a branch's list.
pub open spec fn list_claims(own: Seq<crate::ownership::FileOwnership>, p: Seq<char>, l: int) -> bool {
    has_key(own, p) && covers(own[key_idx(own, p)].hunks@, l)
}

/// Takes the range out of the list's claims on `path`, splitting ranges as
/// needed; claims on every other path stand as they are.
pub fn remove_claim(own: &mut Vec<crate::ownership::FileOwnership>, path: &String, range: Hunk)
    requires
        unique_keys(old(own)@),
        forall|i: int|
            0 <= i < old(own)@.len() ==> hunks_bounded((#[trigger] old(own)@[i]).hunks@),
        crate::ownership::hunk_bounded(range),
    ensures
        unique_keys(final(own)@),
        forall|i: int|
            0 <= i < final(own)@.len() ==> hunks_bounded((#[trigger] final(own)@[i]).hunks@),
        forall|l: int|
            #[trigger] list_claims(final(own)@, path@, l) == (list_claims(old(own)@, path@, l)
                && !hunk_covers(range, l)),
        forall|p: Seq<char>, l: int|
            p != path@ ==> #[trigger] list_claims(final(own)@, p, l) == list_claims(
                old(own)@,
                p,
                l,
            ),
{
    let ghost pre = own@;
    match find_by_key(own, path) {
        None => {},
        Some(i) => {
            proof {
                lemma_key_idx_is(pre, path@, i as int);
            }
            let mut fo = own.remove(i);
            let hunks = crate::ownership::remove_range(&fo.hunks, range);
            fo.hunks = hunks;
            own.insert(i, fo);
            proof {
                assert(own@ =~= pre.update(i as int, own@[i as int]));
                crate::keyed::lemma_update_same_key(pre, i as int, own@[i as int]);
                lemma_key_idx_is(own@, path@, i as int);
                assert forall|p: Seq<char>, l: int|
                    p != path@ implies #[trigger] list_claims(own@, p, l) == list_claims(
                    pre,
                    p,
                    l,
                ) by {
                    if has_key(pre, p) {
                        let q = key_idx(pre, p);
                        assert(own@[q].key() == p);
                        assert(own@[q] == pre[q]);
                    }
                }
            }
        },
    }
}

/// Adds the range to the list's claims on `path`, merging it with what the
/// list already claims there; claims on every other path stand as they are.
pub fn add_claim(own: &mut Vec<crate::ownership::FileOwnership>, path: &String, range: Hunk)
    requires
        unique_keys(old(own)@),
        forall|i: int|
            0 <= i < old(own)@.len() ==> hunks_bounded((#[trigger] old(own)@[i]).hunks@),
        crate::ownership::hunk_bounded(range),
    ensures
        unique_keys(final(own)@),
        forall|i: int|
            0 <= i < final(own)@.len() ==> hunks_bounded((#[trigger] final(own)@[i]).hunks@),
        forall|l: int|
            #[trigger] list_claims(final(own)@, path@, l) == (list_claims(old(own)@, path@, l)
                || hunk_covers(range, l)),
        forall|p: Seq<char>, l: int|
            p != path@ ==> #[trigger] list_claims(final(own)@, p, l) == list_claims(
                old(own)@,
                p,
                l,
            ),
{
    let ghost pre = own@;
    match find_by_key(own, path) {
        None => {
            let mut hunks: Vec<Hunk> = Vec::new();
            proof {
                crate::ownership::lemma_covers_push(hunks@, range);
            }
            hunks.push(range);
            let fo = crate::ownership::FileOwnership { file_path: path.clone(), hunks };
            proof {
                crate::keyed::lemma_push_fresh_key(pre, fo);
            }
            own.push(fo);
            proof {
                lemma_key_idx_is(own@, path@, pre.len() as int);
                assert forall|p: Seq<char>, l: int|
                    p != path@ implies #[trigger] list_claims(own@, p, l) == list_claims(
                    pre,
                    p,
                    l,
                ) by {
                    if has_key(pre, p) {
                        let q = key_idx(pre, p);
                        assert(own@[q].key() == p);
                        assert(own@[q] == pre[q]);
                    }
                }
            }
        },
        Some(i) => {
            proof {
                lemma_key_idx_is(pre, path@, i as int);
            }
            let mut fo = own.remove(i);
            let mut hunks = crate::ownership::remove_range(&fo.hunks, range);
            proof {
                crate::ownership::lemma_covers_push(hunks@, range);
            }
            hunks.push(range);
            fo.hunks = hunks;
            own.insert(i, fo);
            proof {
                assert(own@ =~= pre.update(i as int, own@[i as int]));
                crate::keyed::lemma_update_same_key(pre, i as int, own@[i as int]);
                lemma_key_idx_is(own@, path@, i as int);
                assert forall|p: Seq<char>, l: int|
                    p != path@ implies #[trigger] list_claims(own@, p, l) == list_claims(
                    pre,
                    p,
                    l,
                ) by {
                    if has_key(pre, p) {
                        let q = key_idx(pre, p);
                        assert(own@[q].key() == p);
                        assert(own@[q] == pre[q]);
                    }
                }
            }
        },
    }
}

impl Project {
    /// Claims a hunk range of one file for a branch: the range is taken away
    /// from every other applied branch's claims, splitting their ranges as
    /// needed, and merged into the target branch's claims, so that the claims
    /// of the applied branches stay pairwise disjoint. Refused with
    /// `OwnershipConflict`, changing nothing, when the target is missing or
    /// not applied: only an applied branch takes part in the non-overlap
    /// invariant.
    pub fn assign(&mut self, file_path: &String, range: Hunk, branch_id: u64) -> (r: Result<
        (),
        CoreError,
    >)
        requires
            wf(*old(self)),
            crate::ownership::hunk_bounded(range),
        ensures
            wf(*final(self)),
            r is Err ==> *final(self) == *old(self) && r == Err::<(), CoreError>(
                CoreError::OwnershipConflict,
            ),
            r is Err <==> !(exists|q: int|
                0 <= q < old(self).branches@.len() && (#[trigger] old(self).branches@[q]).id
                    == branch_id && old(self).branches@[q].applied),
            r is Ok ==> ({
                let bi = branch_idx(old(self).branches@, branch_id);
                &&& final(self).branches@.len() == old(self).branches@.len()
                &&& (forall|l: int|
                    #[trigger] branch_claims(final(self).branches@[bi], file_path@, l) == (
                    branch_claims(old(self).branches@[bi], file_path@, l) || hunk_covers(
                        range,
                        l,
                    )))
                &&& (forall|q: int, l: int|
                    0 <= q < old(self).branches@.len() && q != bi && old(
                        self,
                    ).branches@[q].applied ==> #[trigger] branch_claims(
                        final(self).branches@[q],
                        file_path@,
                        l,
                    ) == (branch_claims(old(self).branches@[q], file_path@, l) && !hunk_covers(
                        range,
                        l,
                    )))
                &&& (forall|q: int|
                    0 <= q < old(self).branches@.len() && q != bi && !old(
                        self,
                    ).branches@[q].applied ==> final(self).branches@[q] == old(self).branches@[q])
                &&& (forall|q: int, p: Seq<char>, l: int|
                    0 <= q < old(self).branches@.len() && p != file_path@
                        ==> #[trigger] branch_claims(final(self).branches@[q], p, l)
                        == branch_claims(old(self).branches@[q], p, l))
                &&& (forall|q: int|
                    0 <= q < old(self).branches@.len() ==> #[trigger] final(self).branches@[q]
                        == (VirtualBranch {
                        ownership: final(self).branches@[q].ownership,
                        ..old(self).branches@[q]
                    }))
                &&& *final(self) == (Project { branches: final(self).branches, ..*old(self) })
            }),
    {
        let ti = match self.branch_index(branch_id) {
            Some(t) => t,
            None => {
                return Err(CoreError::OwnershipConflict);
            },
        };
        if !self.branches[ti].applied {
            proof {
                assert forall|q: int|
                    0 <= q < self.branches@.len() && (#[trigger] self.branches@[q]).id == branch_id
                        implies !self.branches@[q].applied by {
                    if q != ti as int {
                        assert(self.branches@[q].id != self.branches@[ti as int].id);
                    }
                }
            }
            return Err(CoreError::OwnershipConflict);
        }
        proof {
            lemma_branch_idx_is(self.branches@, branch_id, ti as int);
        }
        let mut j: usize = 0;
        while j < self.branches.len()
            invariant
                j <= self.branches@.len(),
                ti < self.branches@.len(),
                wf(*old(self)),
                crate::ownership::hunk_bounded(range),
                ti as int == branch_idx(old(self).branches@, branch_id),
                old(self).branches@[ti as int].applied,
                self.branches@.len() == old(self).branches@.len(),
                self.commits == old(self).commits,
                self.current_session == old(self).current_session,
                self.closed_sessions == old(self).closed_sessions,
                self.wd_text == old(self).wd_text,
                self.base_wd == old(self).base_wd,
                self.base_branch == old(self).base_branch,
                self.project_id == old(self).project_id,
                self.next_session_id == old(self).next_session_id,
                self.next_branch_id == old(self).next_branch_id,
                self.verify_warnings == old(self).verify_warnings,
                forall|q: int| j <= q < self.branches@.len() ==> #[trigger] self.branches@[q]
                    == old(self).branches@[q],
                forall|q: int|
                    0 <= q < self.branches@.len() ==> #[trigger] self.branches@[q]
                        == (VirtualBranch {
                        ownership: self.branches@[q].ownership,
                        ..old(self).branches@[q]
                    }),
                forall|q: int| 0 <= q < self.branches@.len() ==> branch_wf(#[trigger] self.branches@[q]),
                j > ti ==> (forall|l: int|
                    #[trigger] branch_claims(self.branches@[ti as int], file_path@, l) == (
                    branch_claims(old(self).branches@[ti as int], file_path@, l) || hunk_covers(
                        range,
                        l,
                    ))),
                forall|q: int, l: int|
                    0 <= q < j && q != ti as int && old(self).branches@[q].applied
                        ==> #[trigger] branch_claims(self.branches@[q], file_path@, l) == (
                    branch_claims(old(self).branches@[q], file_path@, l) && !hunk_covers(range, l)),
                forall|q: int|
                    0 <= q < j && q != ti as int && !old(self).branches@[q].applied
                        ==> #[trigger] self.branches@[q] == old(self).branches@[q],
                forall|q: int, p: Seq<char>, l: int|
                    0 <= q < j && p != file_path@ ==> #[trigger] branch_claims(
                        self.branches@[q],
                        p,
                        l,
                    ) == branch_claims(old(self).branches@[q], p, l),
            decreases self.branches@.len() - j,
        {
            let ghost pre_bs = self.branches@;
            if j == ti {
                let mut b = self.branches.remove(j);
                let ghost own0 = b.ownership@;
                add_claim(&mut b.ownership, file_path, range);
                self.branches.insert(j, b);
                proof {
                    assert(self.branches@ =~= pre_bs.update(j as int, self.branches@[j as int]));
                    let nb = self.branches@[j as int];
                    assert forall|l: int|
                        #[trigger] branch_claims(nb, file_path@, l) == (branch_claims(
                        old(self).branches@[j as int],
                        file_path@,
                        l,
                    ) || hunk_covers(range, l)) by {
                        assert(list_claims(nb.ownership@, file_path@, l) == (list_claims(
                            own0,
                            file_path@,
                            l,
                        ) || hunk_covers(range, l)));
                        assert(own0 == old(self).branches@[j as int].ownership@);
                    }
                    assert forall|p: Seq<char>, l: int|
                        p != file_path@ implies #[trigger] branch_claims(nb, p, l)
                            == branch_claims(old(self).branches@[j as int], p, l) by {
                        assert(list_claims(nb.ownership@, p, l) == list_claims(own0, p, l));
                    }
                }
            } else if self.branches[j].applied {
                let mut b = self.branches.remove(j);
                let ghost own0 = b.ownership@;
                remove_claim(&mut b.ownership, file_path, range);
                self.branches.insert(j, b);
                proof {
                    assert(self.branches@ =~= pre_bs.update(j as int, self.branches@[j as int]));
                    let nb = self.branches@[j as int];
                    assert forall|l: int|
                        #[trigger] branch_claims(nb, file_path@, l) == (branch_claims(
                        old(self).branches@[j as int],
                        file_path@,
                        l,
                    ) && !hunk_covers(range, l)) by {
                        assert(list_claims(nb.ownership@, file_path@, l) == (list_claims(
                            own0,
                            file_path@,
                            l,
                        ) && !hunk_covers(range, l)));
                        assert(own0 == old(self).branches@[j as int].ownership@);
                    }
                    assert forall|p: Seq<char>, l: int|
                        p != file_path@ implies #[trigger] branch_claims(nb, p, l)
                            == branch_claims(old(self).branches@[j as int], p, l) by {
                        assert(list_claims(nb.ownership@, p, l) == list_claims(own0, p, l));
                    }
                }
            }
            j += 1;
        }
        proof {
            lemma_assign_preserves_wf(*old(self), *self, ti as int, file_path@, range);
        }
        Ok(())
    }
}

/// After an assignment the claims of the applied branches are pairwise
/// disjoint again: the range now belongs to the target alone, and outside the
/// range every claim is at most what it was.
pub proof fn lemma_assign_preserves_wf(
    pre: Project,
    post: Project,
    ti: int,
    path: Seq<char>,
    range: Hunk,
)
    requires
        wf(pre),
        0 <= ti < pre.branches@.len(),
        pre.branches@[ti].applied,
        post.branches@.len() == pre.branches@.len(),
        post == (Project { branches: post.branches, ..pre }),
        forall|q: int|
            0 <= q < post.branches@.len() ==> #[trigger] post.branches@[q] == (VirtualBranch {
                ownership: post.branches@[q].ownership,
                ..pre.branches@[q]
            }),
        forall|q: int| 0 <= q < post.branches@.len() ==> branch_wf(#[trigger] post.branches@[q]),
        forall|l: int|
            #[trigger] branch_claims(post.branches@[ti], path, l) == (branch_claims(
                pre.branches@[ti],
                path,
                l,
            ) || hunk_covers(range, l)),
        forall|q: int, l: int|
            0 <= q < pre.branches@.len() && q != ti && pre.branches@[q].applied
                ==> #[trigger] branch_claims(post.branches@[q], path, l) == (branch_claims(
                pre.branches@[q],
                path,
                l,
            ) && !hunk_covers(range, l)),
        forall|q: int|
            0 <= q < pre.branches@.len() && q != ti && !pre.branches@[q].applied
                ==> #[trigger] post.branches@[q] == pre.branches@[q],
        forall|q: int, p: Seq<char>, l: int|
            0 <= q < pre.branches@.len() && p != path ==> #[trigger] branch_claims(
                post.branches@[q],
                p,
                l,
            ) == branch_claims(pre.branches@[q], p, l),
    ensures
        wf(post),
{
    let bs = post.branches@;
    let obs = pre.branches@;
    assert forall|a: int, b: int|
        0 <= a < b < bs.len() implies (#[trigger] bs[a]).id != (#[trigger] bs[b]).id by {
        assert(bs[a].id == obs[a].id && bs[b].id == obs[b].id);
    }
    assert forall|q: int| 0 <= q < bs.len() implies (#[trigger] bs[q]).id < post.next_branch_id by {
        assert(bs[q].id == obs[q].id);
    }
    assert forall|q: int|
        0 <= q < bs.len() implies ((#[trigger] bs[q]).head matches Some(h) ==> 1 <= h
            <= post.commits@.len()) by {
        assert(bs[q].head == obs[q].head);
    }
    assert forall|a: int, b: int, p: Seq<char>, l: int|
        0 <= a < b < bs.len() && bs[a].applied && bs[b].applied implies !(#[trigger] branch_claims(
        bs[a],
        p,
        l,
    ) && #[trigger] branch_claims(bs[b], p, l)) by {
        assert(bs[a].applied == obs[a].applied && bs[b].applied == obs[b].applied);
        if p != path {
            assert(branch_claims(bs[a], p, l) == branch_claims(obs[a], p, l));
            assert(branch_claims(bs[b], p, l) == branch_claims(obs[b], p, l));
        } else {
            if a != ti && b != ti {
                assert(branch_claims(bs[a], p, l) == (branch_claims(obs[a], p, l) && !hunk_covers(
                    range,
                    l,
                )));
                assert(branch_claims(bs[b], p, l) == (branch_claims(obs[b], p, l) && !hunk_covers(
                    range,
                    l,
                )));
            } else {
                let other = if a == ti {
                    b
                } else {
                    a
                };
                assert(branch_claims(bs[other], p, l) == (branch_claims(obs[other], p, l)
                    && !hunk_covers(range, l)));
                if branch_claims(bs[ti], p, l) && branch_claims(bs[other], p, l) {
                    assert(branch_claims(obs[ti], p, l) || hunk_covers(range, l));
                    assert(!hunk_covers(range, l));
                    if ti < other {
                        assert(!(branch_claims(obs[ti], p, l) && branch_claims(obs[other], p, l)));
                    } else {
                        assert(!(branch_claims(obs[other], p, l) && branch_claims(obs[ti], p, l)));
                    }
                }
            }
        }
    }
}

/// Extending the selected prefix by one hunk extends the owned selection by
/// that hunk exactly when the branch owns it.
pub proof fn lemma_masked_take_step(
    all: Seq<DiffHunk>,
    q: int,
    bs: Seq<VirtualBranch>,
    bi: int,
    path: Seq<char>,
)
    requires
        0 <= q < all.len(),
    ensures
        masked(all.take(q + 1), owns_mask(bs, bi, path, all.take(q + 1))) == if owns_hunk(
            bs,
            bi,
            path,
            all[q].start as int,
        ) {
            masked(all.take(q), owns_mask(bs, bi, path, all.take(q))).push(all[q])
        } else {
            masked(all.take(q), owns_mask(bs, bi, path, all.take(q)))
        },
    decreases q,
{
    lemma_masked_snoc(all.take(q + 1), owns_mask(bs, bi, path, all.take(q + 1)));
    assert(all.take(q + 1).drop_last() =~= all.take(q));
    assert(all.take(q + 1).last() == all[q]);
    let m1 = owns_mask(bs, bi, path, all.take(q + 1));
    let m0 = owns_mask(bs, bi, path, all.take(q));
    assert(m1.drop_last() =~= m0);
    assert(m1.last() == owns_hunk(bs, bi, path, all[q].start as int));
}

/// Selecting from a sequence splits at its last element.
pub proof fn lemma_masked_snoc(hs: Seq<DiffHunk>, keep: Seq<bool>)
    requires
        hs.len() > 0,
        keep.len() == hs.len(),
    ensures
        masked(hs, keep) == if keep.last() {
            masked(hs.drop_last(), keep.drop_last()).push(hs.last())
        } else {
            masked(hs.drop_last(), keep.drop_last())
        },
    decreases hs.len(),
{
    if hs.len() == 1 {
        assert(hs.skip(1) =~= Seq::<DiffHunk>::empty());
        assert(hs.drop_last() =~= Seq::<DiffHunk>::empty());
        assert(keep.drop_last() =~= Seq::<bool>::empty());
        if keep[0] {
            assert(masked(hs, keep) == seq![hs[0]] + masked(hs.skip(1), keep.skip(1)));
            assert(masked(hs, keep) =~= Seq::<DiffHunk>::empty().push(hs[0]));
        }
    } else {
        lemma_masked_snoc(hs.skip(1), keep.skip(1));
        assert(hs.skip(1).drop_last() =~= hs.drop_last().skip(1));
        assert(keep.skip(1).drop_last() =~= keep.drop_last().skip(1));
        assert(hs.skip(1).last() == hs.last());
        assert(keep.skip(1).last() == keep.last());
        assert(hs.drop_last()[0] == hs[0]);
        assert(keep.drop_last()[0] == keep[0]);
        if keep[0] {
            if keep.last() {
                assert(masked(hs, keep) == seq![hs[0]] + masked(hs.skip(1), keep.skip(1)));
                assert(masked(hs.drop_last(), keep.drop_last()) == seq![hs[0]] + masked(
                    hs.drop_last().skip(1),
                    keep.drop_last().skip(1),
                ));
                assert(masked(hs, keep) =~= masked(hs.drop_last(), keep.drop_last()).push(
                    hs.last(),
                ));
            } else {
                assert(masked(hs, keep) =~= masked(hs.drop_last(), keep.drop_last()));
            }
        } else {
            if keep.last() {
                assert(masked(hs, keep) =~= masked(hs.drop_last(), keep.drop_last()).push(
                    hs.last(),
                ));
            } else {
                assert(masked(hs, keep) =~= masked(hs.drop_last(), keep.drop_last()));
            }
        }
    }
}

} // verus!
