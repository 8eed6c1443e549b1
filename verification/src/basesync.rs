use vstd::prelude::*;

use crate::error::CoreError;
use crate::project::{wf, Commit, Project, TextFile};

verus! {

/// The cached view of the upstream base branch, recomputed on demand by
/// `sync` and retained, marked stale, when the upstream is unreachable.
#[derive(Clone, Debug)]
pub struct BaseBranch {
    pub name: String,
    pub remote_reference: String,
    pub merge_base_hash: Option<u64>,
    pub behind_commits: Vec<u64>,
    pub ahead_commits: Vec<u64>,
    pub integrated_commit_hashes: Vec<u64>,
    pub stale: bool,
}

/// Whether commit `id` is `tip` or one of its ancestors, walking parent
/// pointers, which always point to earlier commits.
pub open spec fn in_ancestry(commits: Seq<Commit>, tip: int, id: int) -> bool
    decreases tip,
{
    if !(1 <= tip <= commits.len()) {
        false
    } else if tip == id {
        true
    } else {
        match commits[tip - 1].parent {
            Some(p) => 0 < p < tip && in_ancestry(commits, p as int, id),
            None => false,
        }
    }
}

/// Whether commit `id` is reachable from some applied branch's head.
pub open spec fn in_local_history(p: Project, id: int) -> bool {
    exists|b: int|
        0 <= b < p.branches@.len() && (#[trigger] p.branches@[b]).applied && (
        p.branches@[b].head matches Some(h) && in_ancestry(p.commits@, h as int, id))
}

/// Two trees store the same files with the same text, position by position.
pub open spec fn trees_match(a: Seq<TextFile>, b: Seq<TextFile>) -> bool {
    a.len() == b.len() && (forall|i: int|
        0 <= i < a.len() ==> (#[trigger] a[i]).path@ == b[i].path@ && a[i].text@ == b[i].text@)
}

/// A commit only upstream: reachable from the upstream tip but from no
/// applied branch.
pub open spec fn behind_commit(p: Project, tip: int, id: int) -> bool {
    in_ancestry(p.commits@, tip, id) && !in_local_history(p, id)
}

/// A commit only local: reachable from an applied branch but not upstream.
pub open spec fn ahead_commit(p: Project, tip: int, id: int) -> bool {
    in_local_history(p, id) && !in_ancestry(p.commits@, tip, id)
}

/// A local-only commit whose changes are already upstream: some upstream
/// commit carries an equivalent tree. Used to hide noise, never to rewrite
/// history.
pub open spec fn integrated_commit(p: Project, tip: int, id: int) -> bool {
    ahead_commit(p, tip, id) && (exists|u: int|
        1 <= u <= p.commits@.len() && #[trigger] in_ancestry(p.commits@, tip, u) && trees_match(
            p.commits@[id - 1].tree@,
            p.commits@[u - 1].tree@,
        ))
}

impl Project {
    /// Whether commit `id` is `tip` or one of its ancestors.
    pub fn is_ancestor(&self, tip: u64, id: u64) -> (r: bool)
        requires
            wf(*self),
        ensures
            r == in_ancestry(self.commits@, tip as int, id as int),
    {
        let mut cur: u64 = tip;
        loop
            invariant
                wf(*self),
                in_ancestry(self.commits@, cur as int, id as int) == in_ancestry(
                    self.commits@,
                    tip as int,
                    id as int,
                ),
            decreases cur,
        {
            if cur < 1 || cur > self.commits.len() as u64 {
                return false;
            }
            if cur == id {
                return true;
            }
            let ci: usize = (cur - 1) as usize;
            match self.commits[ci].parent {
                Some(p) => {
                    if p < 1 || p >= cur {
                        return false;
                    }
                    cur = p;
                },
                None => {
                    return false;
                },
            }
        }
    }

    /// Whether commit `id` is reachable from some applied branch's head.
    pub fn in_local(&self, id: u64) -> (r: bool)
        requires
            wf(*self),
        ensures
            r == in_local_history(*self, id as int),
    {
        let mut b: usize = 0;
        while b < self.branches.len()
            invariant
                wf(*self),
                b <= self.branches@.len(),
                forall|q: int|
                    0 <= q < b ==> !((#[trigger] self.branches@[q]).applied && (
                    self.branches@[q].head matches Some(h) && in_ancestry(
                        self.commits@,
                        h as int,
                        id as int,
                    ))),
            decreases self.branches@.len() - b,
        {
            if self.branches[b].applied {
                match self.branches[b].head {
                    Some(h) => {
                        if self.is_ancestor(h, id) {
                            return true;
                        }
                    },
                    None => {},
                }
            }
            b += 1;
        }
        false
    }

    /// Whether two commits' trees store the same files with the same text.
    pub fn trees_equivalent(&self, a: usize, b: usize) -> (r: bool)
        requires
            a < self.commits@.len(),
            b < self.commits@.len(),
        ensures
            r == trees_match(self.commits@[a as int].tree@, self.commits@[b as int].tree@),
    {
        let ta = &self.commits[a].tree;
        let tb = &self.commits[b].tree;
        if ta.len() != tb.len() {
            return false;
        }
        let mut i: usize = 0;
        while i < ta.len()
            invariant
                i <= ta@.len(),
                ta@ == self.commits@[a as int].tree@,
                tb@ == self.commits@[b as int].tree@,
                ta@.len() == tb@.len(),
                forall|q: int|
                    0 <= q < i ==> (#[trigger] ta@[q]).path@ == tb@[q].path@ && ta@[q].text@
                        == tb@[q].text@,
            decreases ta@.len() - i,
        {
            if !ta[i].path.eq(&tb[i].path) {
                return false;
            }
            let mut w: usize = 0;
            let xa = &ta[i].text;
            let xb = &tb[i].text;
            if xa.len() != xb.len() {
                return false;
            }
            while w < xa.len()
                invariant
                    w <= xa@.len(),
                    xa@ == ta@[i as int].text@,
                    xb@ == tb@[i as int].text@,
                    i < ta@.len(),
                    ta@ == self.commits@[a as int].tree@,
                    tb@ == self.commits@[b as int].tree@,
                    xa@.len() == xb@.len(),
                    forall|q: int| 0 <= q < w ==> xa@[q] == xb@[q],
                decreases xa@.len() - w,
            {
                if xa[w] != xb[w] {
                    return false;
                }
                w += 1;
            }
            proof {
                assert(xa@ =~= xb@);
            }
            i += 1;
        }
        true
    }

    /// Sets the base branch the virtual branches track and reconcile against.
    pub fn set_base_branch(&mut self, name: String, remote_reference: String, tip: Option<u64>)
        requires
            wf(*old(self)),
            tip matches Some(t) ==> 1 <= t <= old(self).commits@.len(),
        ensures
            wf(*final(self)),
            final(self).base_branch matches Some(b) && b.name@ == name@ && b.remote_reference@
                == remote_reference@ && b.merge_base_hash == tip && b.stale == false
                && b.behind_commits@.len() == 0 && b.ahead_commits@.len() == 0
                && b.integrated_commit_hashes@.len() == 0,
            *final(self) == (Project { base_branch: final(self).base_branch, ..*old(self) }),
    {
        self.base_branch = Some(
            BaseBranch {
                name,
                remote_reference,
                merge_base_hash: tip,
                behind_commits: Vec::new(),
                ahead_commits: Vec::new(),
                integrated_commit_hashes: Vec::new(),
                stale: false,
            },
        );
    }

    /// The cached base-branch data, if a base was ever set.
    pub fn get_base_branch_data(&self) -> (r: &Option<BaseBranch>)
        ensures
            r == &self.base_branch,
    {
        &self.base_branch
    }

    /// Reconciles against upstream movement: recomputes, from the fetched
    /// upstream tip, the merge base, the commits the workspace is behind,
    /// the commits it is ahead, and the ahead commits whose trees are already
    /// upstream under another hash. When the upstream is unreachable the
    /// cached data is retained, marked stale, and `SyncUnavailable` is
    /// surfaced.
    pub fn sync(&mut self, upstream_tip: u64, reachable: bool) -> (r: Result<(), CoreError>)
        requires
            wf(*old(self)),
            old(self).base_branch is Some,
            1 <= upstream_tip <= old(self).commits@.len(),
            old(self).commits@.len() < usize::MAX,
        ensures
            wf(*final(self)),
            r is Err <==> !reachable,
            r is Err ==> r == Err::<(), CoreError>(CoreError::SyncUnavailable)
                && final(self).base_branch == Some(
                (BaseBranch { stale: true, ..old(self).base_branch->Some_0 }),
            ) && *final(self) == (Project { base_branch: final(self).base_branch, ..*old(self) }),
            r is Ok ==> (final(self).base_branch matches Some(b) && {
                let n = old(self).commits@.len() as int;
                let tip = upstream_tip as int;
                &&& b.name == old(self).base_branch->Some_0.name
                &&& b.remote_reference == old(self).base_branch->Some_0.remote_reference
                &&& b.stale == false
                &&& (forall|k: int|
                    0 <= k < b.behind_commits@.len() ==> behind_commit(
                        *old(self),
                        tip,
                        #[trigger] b.behind_commits@[k] as int,
                    ))
                &&& (forall|id: int|
                    1 <= id <= n && behind_commit(*old(self), tip, id) ==> b.behind_commits@.contains(
                        id as u64,
                    ))
                &&& (forall|k: int|
                    0 <= k < b.ahead_commits@.len() ==> ahead_commit(
                        *old(self),
                        tip,
                        #[trigger] b.ahead_commits@[k] as int,
                    ))
                &&& (forall|id: int|
                    1 <= id <= n && ahead_commit(*old(self), tip, id) ==> b.ahead_commits@.contains(
                        id as u64,
                    ))
                &&& (forall|k: int|
                    0 <= k < b.integrated_commit_hashes@.len() ==> integrated_commit(
                        *old(self),
                        tip,
                        #[trigger] b.integrated_commit_hashes@[k] as int,
                    ))
                &&& (forall|id: int|
                    1 <= id <= n && integrated_commit(*old(self), tip, id)
                        ==> b.integrated_commit_hashes@.contains(id as u64))
                &&& (b.merge_base_hash matches Some(m) ==> 1 <= m <= n && in_ancestry(
                    old(self).commits@,
                    tip,
                    m as int,
                ) && in_local_history(*old(self), m as int) && (forall|id: int|
                    m < id <= n ==> !(in_ancestry(old(self).commits@, tip, id)
                        && in_local_history(*old(self), id))))
                &&& (b.merge_base_hash is None ==> (forall|id: int|
                    1 <= id <= n ==> !(in_ancestry(old(self).commits@, tip, id)
                        && in_local_history(*old(self), id))))
            }) && *final(self) == (Project { base_branch: final(self).base_branch, ..*old(self) }),
    {
        if !reachable {
            match &mut self.base_branch {
                Some(b) => {
                    b.stale = true;
                },
                None => {
                    proof {
                        assert(false);
                    }
                },
            }
            return Err(CoreError::SyncUnavailable);
        }
        let n: usize = self.commits.len();
        let mut behind: Vec<u64> = Vec::new();
        let mut ahead: Vec<u64> = Vec::new();
        let mut integrated: Vec<u64> = Vec::new();
        let mut merge_base: Option<u64> = None;
        let mut id: usize = 1;
        while id <= n
            invariant
                wf(*self),
                *self == *old(self),
                n == self.commits@.len(),
                n < usize::MAX,
                1 <= upstream_tip <= n,
                1 <= id <= n + 1,
                forall|k: int|
                    0 <= k < behind@.len() ==> behind_commit(
                        *self,
                        upstream_tip as int,
                        #[trigger] behind@[k] as int,
                    ),
                forall|w: int|
                    1 <= w < id && behind_commit(*self, upstream_tip as int, w) ==> behind@.contains(
                        w as u64,
                    ),
                forall|k: int|
                    0 <= k < ahead@.len() ==> ahead_commit(
                        *self,
                        upstream_tip as int,
                        #[trigger] ahead@[k] as int,
                    ),
                forall|w: int|
                    1 <= w < id && ahead_commit(*self, upstream_tip as int, w) ==> ahead@.contains(
                        w as u64,
                    ),
                forall|k: int|
                    0 <= k < integrated@.len() ==> integrated_commit(
                        *self,
                        upstream_tip as int,
                        #[trigger] integrated@[k] as int,
                    ),
                forall|w: int|
                    1 <= w < id && integrated_commit(*self, upstream_tip as int, w)
                        ==> integrated@.contains(w as u64),
                merge_base matches Some(m) ==> 1 <= m < id && in_ancestry(
                    self.commits@,
                    upstream_tip as int,
                    m as int,
                ) && in_local_history(*self, m as int) && (forall|w: int|
                    m < w < id ==> !(in_ancestry(self.commits@, upstream_tip as int, w)
                        && in_local_history(*self, w))),
                merge_base is None ==> (forall|w: int|
                    1 <= w < id ==> !(in_ancestry(self.commits@, upstream_tip as int, w)
                        && in_local_history(*self, w))),
            decreases n + 1 - id,
        {
            let up = self.is_ancestor(upstream_tip, id as u64);
            let local = self.in_local(id as u64);
            if up && local {
                merge_base = Some(id as u64);
            }
            if up && !local {
                let ghost pre = behind@;
                behind.push(id as u64);
                proof {
                    assert forall|w: int|
                        1 <= w < id + 1 && behind_commit(*self, upstream_tip as int, w)
                            implies behind@.contains(w as u64) by {
                        if w < id {
                            assert(pre.contains(w as u64));
                            let k = choose|k: int| 0 <= k < pre.len() && pre[k] == w as u64;
                            assert(behind@[k] == w as u64);
                        } else {
                            assert(behind@[pre.len() as int] == w as u64);
                        }
                    }
                }
            }
            if !up && local {
                let ghost pre = ahead@;
                ahead.push(id as u64);
                proof {
                    assert forall|w: int|
                        1 <= w < id + 1 && ahead_commit(*self, upstream_tip as int, w)
                            implies ahead@.contains(w as u64) by {
                        if w < id {
                            assert(pre.contains(w as u64));
                            let k = choose|k: int| 0 <= k < pre.len() && pre[k] == w as u64;
                            assert(ahead@[k] == w as u64);
                        } else {
                            assert(ahead@[pre.len() as int] == w as u64);
                        }
                    }
                }
                // Is this ahead commit's tree already upstream?
                let mut u: usize = 1;
                let mut found: bool = false;
                while u <= n
                    invariant
                        wf(*self),
                        *self == *old(self),
                        n == self.commits@.len(),
                        n < usize::MAX,
                        1 <= upstream_tip <= n,
                        1 <= id <= n,
                        1 <= u <= n + 1,
                        found == exists|v: int|
                            1 <= v < u && #[trigger] in_ancestry(
                                self.commits@,
                                upstream_tip as int,
                                v,
                            ) && trees_match(
                                self.commits@[id - 1].tree@,
                                self.commits@[v - 1].tree@,
                            ),
                    decreases n + 1 - u,
                {
                    if self.is_ancestor(upstream_tip, u as u64) && self.trees_equivalent(
                        id - 1,
                        u - 1,
                    ) {
                        proof {
                            assert(in_ancestry(self.commits@, upstream_tip as int, u as int)
                                && trees_match(
                                self.commits@[id - 1].tree@,
                                self.commits@[u as int - 1].tree@,
                            ));
                        }
                        found = true;
                    }
                    u += 1;
                }
                if found {
                    let ghost prei = integrated@;
                    integrated.push(id as u64);
                    proof {
                        assert(integrated_commit(*self, upstream_tip as int, id as int));
                        assert forall|w: int|
                            1 <= w < id + 1 && integrated_commit(*self, upstream_tip as int, w)
                                implies integrated@.contains(w as u64) by {
                            if w < id {
                                assert(prei.contains(w as u64));
                                let k = choose|k: int| 0 <= k < prei.len() && prei[k] == w as u64;
                                assert(integrated@[k] == w as u64);
                            } else {
                                assert(integrated@[prei.len() as int] == w as u64);
                            }
                        }
                    }
                } else {
                    proof {
                        assert(!integrated_commit(*self, upstream_tip as int, id as int)) by {
                            if integrated_commit(*self, upstream_tip as int, id as int) {
                                let v = choose|v: int|
                                    1 <= v <= self.commits@.len() && #[trigger] in_ancestry(
                                        self.commits@,
                                        upstream_tip as int,
                                        v,
                                    ) && trees_match(
                                        self.commits@[id - 1].tree@,
                                        self.commits@[v - 1].tree@,
                                    );
                            }
                        }
                    }
                }
            } else {
                proof {
                    assert(!integrated_commit(*self, upstream_tip as int, id as int));
                }
            }
            id += 1;
        }
        match &mut self.base_branch {
            Some(b) => {
                b.merge_base_hash = merge_base;
                b.behind_commits = behind;
                b.ahead_commits = ahead;
                b.integrated_commit_hashes = integrated;
                b.stale = false;
            },
            None => {
                proof {
                    assert(false);
                }
            },
        }
        Ok(())
    }
}

} // verus!
