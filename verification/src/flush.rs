use vstd::prelude::*;
use vstd::string::*;

use crate::error::CoreError;
use crate::keyed::{find_by_key, has_key, key_idx, lemma_key_idx_is, lemma_push_fresh_key,
    lemma_update_same_key, unique_keys, Keyed};
use crate::ops::splice_chars;
use crate::project::{
    branch_base_tree, file_claimant, file_owner, lemma_file_claimant, tree_text, wd_text_of, wf,
    wf_commits, wf_session, Commit, Project, TextFile,
};
use crate::session::Session;
use crate::vbranch::{branch_claims, default_idx, lemma_default_idx, VirtualBranch};

verus! {

/// Whether the flush of `pre`'s open session produces a commit for branch
/// `i`: the branch is applied and owns at least one file of the session.
pub open spec fn branch_flushed(pre: Project, i: int) -> bool {
    let files = pre.current_session->Some_0.files@;
    &&& pre.branches@[i].applied
    &&& exists|j: int|
        0 <= j < files.len() && file_owner(pre.branches@, (#[trigger] files[j]).path@) == i
}

/// What a completed flush of `pre` into `post` guarantees, with `closed` the
/// session it returned: the session is closed and archived with the first new
/// commit as its hash; history is extended, never rewritten; every applied
/// branch owning session files gains exactly one commit whose parent is its
/// old head and whose tree is its old tree with the owned files replaced by
/// their journal-replayed text; every other branch and all other state stand
/// untouched.
pub open spec fn flush_success(pre: Project, post: Project, closed: Session, now_ms: u64) -> bool {
    let files = pre.current_session->Some_0.files@;
    &&& pre.current_session is Some
    &&& closed == Session {
        ended_at_ms: Some(now_ms),
        commit_hash: if files.len() > 0 {
            Some((pre.commits@.len() + 1) as u64)
        } else {
            None
        },
        ..pre.current_session->Some_0.meta
    }
    &&& post.current_session is None
    &&& post.closed_sessions@ == pre.closed_sessions@.push(closed)
    &&& post.commits@.len() >= pre.commits@.len()
    &&& post.commits@.take(pre.commits@.len() as int) == pre.commits@
    &&& post.branches@.len() == pre.branches@.len()
    &&& (forall|i: int|
        0 <= i < pre.branches@.len() && !branch_flushed(pre, i) ==> post.branches@[i]
            == pre.branches@[i])
    &&& (forall|i: int|
        0 <= i < pre.branches@.len() && #[trigger] branch_flushed(pre, i) ==> {
            let b = post.branches@[i];
            &&& b.head matches Some(h)
            &&& pre.commits@.len() < b.head->Some_0 <= post.commits@.len()
            &&& b.tree_hash == b.head
            &&& b == VirtualBranch { head: b.head, tree_hash: b.tree_hash, ..pre.branches@[i] }
            &&& {
                let c = post.commits@[b.head->Some_0 - 1];
                &&& c.parent == pre.branches@[i].head
                &&& (forall|j: int|
                    0 <= j < files.len() && file_owner(pre.branches@, (#[trigger] files[j]).path@)
                        == i ==> tree_text(c.tree@, files[j].path@) == Some(
                        wd_text_of(pre.wd_text@, files[j].path@),
                    ))
                &&& (forall|p: Seq<char>|
                    file_owner(pre.branches@, p) != i || !has_key(files, p)
                        ==> #[trigger] tree_text(c.tree@, p) == tree_text(
                        branch_base_tree(pre, i),
                        p,
                    ))
            }
        })
    &&& post.wd_text == pre.wd_text
    &&& post.base_wd == pre.base_wd
    &&& post.base_branch == pre.base_branch
    &&& post.project_id == pre.project_id
    &&& post.next_session_id == pre.next_session_id
    &&& post.next_branch_id == pre.next_branch_id
}

/// Flush idempotence on retry: a failed flush leaves the project exactly as
/// it was, so an immediately following successful flush completes from the
/// very state the failed one saw and produces the commit set a single
/// successful flush of the same accumulated deltas produces.
pub proof fn lemma_flush_retry(
    pre: Project,
    after_failure: Project,
    post: Project,
    closed: Session,
    now_ms: u64,
)
    requires
        after_failure == pre,
        flush_success(after_failure, post, closed, now_ms),
    ensures
        flush_success(pre, post, closed, now_ms),
{
}

/// No data loss: every file the session recorded before a successful flush
/// appears, with its journal-replayed text, in a commit that this flush
/// produced.
pub proof fn lemma_flush_no_data_loss(pre: Project, post: Project, closed: Session, now_ms: u64)
    requires
        flush_success(pre, post, closed, now_ms),
        default_idx(pre.branches@) >= 0,
    ensures
        forall|j: int|
            0 <= j < pre.current_session->Some_0.files@.len() ==> exists|c: int|
                pre.commits@.len() <= c < post.commits@.len() && tree_text(
                    post.commits@[c].tree@,
                    (#[trigger] pre.current_session->Some_0.files@[j]).path@,
                ) == Some(wd_text_of(pre.wd_text@, pre.current_session->Some_0.files@[j].path@)),
{
    let files = pre.current_session->Some_0.files@;
    assert forall|j: int| 0 <= j < files.len() implies exists|c: int|
        pre.commits@.len() <= c < post.commits@.len() && tree_text(
            post.commits@[c].tree@,
            (#[trigger] files[j]).path@,
        ) == Some(wd_text_of(pre.wd_text@, files[j].path@)) by {
        let p = files[j].path@;
        lemma_file_claimant(pre.branches@, p);
        lemma_default_idx(pre.branches@);
        let o = file_owner(pre.branches@, p);
        assert(0 <= o < pre.branches@.len());
        assert(pre.branches@[o].applied);
        assert(branch_flushed(pre, o));
        let b = post.branches@[o];
        let cid = b.head->Some_0;
        assert(tree_text(post.commits@[cid - 1].tree@, p) == Some(wd_text_of(pre.wd_text@, p)));
        assert(pre.commits@.len() <= cid - 1 < post.commits@.len());
    }
}

/// A pointwise-equal copy of a tree with one entry per path gives the same
/// text for every path.
pub proof fn lemma_tree_text_pointwise(a: Seq<TextFile>, b: Seq<TextFile>)
    requires
        unique_keys(a),
        a.len() == b.len(),
        forall|i: int|
            0 <= i < a.len() ==> (#[trigger] a[i]).path@ == b[i].path@ && a[i].text@ == b[i].text@,
    ensures
        unique_keys(b),
        forall|p: Seq<char>| #[trigger] tree_text(a, p) == tree_text(b, p),
{
    assert forall|i: int, j: int| 0 <= i < j < b.len() implies b[i].key() != b[j].key() by {
        assert(a[i].path@ != a[j].path@);
    }
    assert forall|p: Seq<char>| #[trigger] tree_text(a, p) == tree_text(b, p) by {
        if has_key(a, p) {
            let i = key_idx(a, p);
            assert(b[i].path@ == p);
            assert(has_key(b, p));
        }
        if has_key(b, p) {
            let k = key_idx(b, p);
            assert(a[k].path@ == p);
            assert(has_key(a, p));
            lemma_key_idx_is(a, p, k);
        }
    }
}

impl Project {
    /// The index of the default branch: the first applied branch of least
    /// order, if any branch is applied.
    pub fn default_branch_index(&self) -> (r: Option<usize>)
        ensures
            match r {
                Some(i) => i == default_idx(self.branches@),
                None => default_idx(self.branches@) == -1,
            },
    {
        proof {
            lemma_default_idx(self.branches@);
        }
        let mut best: Option<usize> = None;
        let mut i: usize = 0;
        while i < self.branches.len()
            invariant
                i <= self.branches@.len(),
                match best {
                    Some(b) => {
                        &&& b < i
                        &&& self.branches@[b as int].applied
                        &&& forall|q: int|
                            0 <= q < i && (#[trigger] self.branches@[q]).applied ==> self.branches@[b as int].order <= self.branches@[q].order
                        &&& forall|q: int|
                            0 <= q < b && (#[trigger] self.branches@[q]).applied ==> self.branches@[b as int].order < self.branches@[q].order
                    },
                    None => forall|q: int| 0 <= q < i ==> !(#[trigger] self.branches@[q]).applied,
                },
            decreases self.branches@.len() - i,
        {
            if self.branches[i].applied {
                match best {
                    None => {
                        best = Some(i);
                    },
                    Some(b) => {
                        if self.branches[i].order < self.branches[b].order {
                            best = Some(i);
                        }
                    },
                }
            }
            i += 1;
        }
        proof {
            let d = default_idx(self.branches@);
            match best {
                Some(b) => {
                    assert(d >= 0);
                    if d != b {
                        assert(self.branches@[d].order <= self.branches@[b as int].order);
                        assert(self.branches@[b as int].order <= self.branches@[d].order);
                        if d < b {
                            assert(self.branches@[b as int].order < self.branches@[d].order);
                        } else {
                            assert(self.branches@[d].order < self.branches@[b as int].order);
                        }
                    }
                },
                None => {
                    if d >= 0 {
                        assert(self.branches@[d].applied);
                    }
                },
            }
        }
        best
    }

    /// The branch that owns `path`'s session deltas, if any branch is applied:
    /// its first applied claimant, or the default branch.
    pub fn file_owner_index(&self, path: &String) -> (r: Option<usize>)
        ensures
            match r {
                Some(i) => i == file_owner(self.branches@, path@),
                None => file_owner(self.branches@, path@) == -1,
            },
    {
        proof {
            lemma_file_claimant(self.branches@, path@);
        }
        let mut i: usize = 0;
        while i < self.branches.len()
            invariant
                i <= self.branches@.len(),
                forall|q: int|
                    0 <= q < i ==> !((#[trigger] self.branches@[q]).applied && has_key(
                        self.branches@[q].ownership@,
                        path@,
                    )),
            decreases self.branches@.len() - i,
        {
            if self.branches[i].applied {
                match find_by_key(&self.branches[i].ownership, path) {
                    Some(_) => {
                        proof {
                            lemma_file_claimant(self.branches@, path@);
                            let fc = file_claimant(self.branches@, path@);
                            assert(self.branches@[i as int].applied && has_key(
                                self.branches@[i as int].ownership@,
                                path@,
                            ));
                            assert(fc >= 0);
                            if fc < i as int {
                                assert(!(self.branches@[fc].applied && has_key(
                                    self.branches@[fc].ownership@,
                                    path@,
                                )));
                                assert(false);
                            }
                            if fc > i as int {
                                assert(!(self.branches@[i as int].applied && has_key(
                                    self.branches@[i as int].ownership@,
                                    path@,
                                )));
                            }
                        }
                        return Some(i);
                    },
                    None => {},
                }
            }
            i += 1;
        }
        proof {
            lemma_file_claimant(self.branches@, path@);
            let fc = file_claimant(self.branches@, path@);
            if fc >= 0 {
                assert(!(self.branches@[fc].applied && has_key(
                    self.branches@[fc].ownership@,
                    path@,
                )));
                assert(false);
            }
        }
        self.default_branch_index()
    }
}

impl Project {
    /// Converts the open session and the ownership claims into commits:
    /// closes the session, writes one commit per applied branch owning
    /// session files, advances those branches' heads, and archives the
    /// session with the first new commit as its hash. Fails with
    /// `FlushFailed`, leaving every part of the state exactly as it was — the
    /// session open, heads unchanged, no delta lost — when the backend is not
    /// ready, when no session is open, or when a non-empty session has no
    /// applied branch to own it; a retry is then safe. A failed ownership
    /// verification is downgraded to a warning and the flush continues.
    #[verifier::rlimit(60)]
    pub fn flush(&mut self, now_ms: u64, ownership_verified: bool, backend_ok: bool) -> (r: Result<
        Session,
        CoreError,
    >)
        requires
            wf(*old(self)),
            old(self).commits@.len() + old(self).branches@.len() < u64::MAX,
        ensures
            wf(*final(self)),
            r is Err ==> *final(self) == *old(self) && r == Err::<Session, CoreError>(
                CoreError::FlushFailed,
            ),
            r is Err <==> (!backend_ok || old(self).current_session is None || (old(
                self,
            ).current_session->Some_0.files@.len() > 0 && default_idx(old(self).branches@) == -1)),
            r matches Ok(closed) ==> flush_success(*old(self), *final(self), closed, now_ms),
            r is Ok ==> final(self).verify_warnings == (if ownership_verified {
                old(self).verify_warnings
            } else if old(self).verify_warnings < u64::MAX {
                (old(self).verify_warnings + 1) as u64
            } else {
                u64::MAX
            }),
    {
        if !backend_ok {
            return Err(CoreError::FlushFailed);
        }
        let files_len: usize = match &self.current_session {
            None => {
                return Err(CoreError::FlushFailed);
            },
            Some(s) => s.files.len(),
        };
        let dflt = self.default_branch_index();
        if files_len > 0 && dflt.is_none() {
            return Err(CoreError::FlushFailed);
        }
        let ghost files_pre = self.current_session->Some_0.files@;

        // The owner of every session file, against the unmodified branches.
        let mut owners: Vec<usize> = Vec::new();
        let mut j: usize = 0;
        while j < files_len
            invariant
                *self == *old(self),
                wf(*old(self)),
                j <= files_len,
                owners@.len() == j,
                self.current_session is Some,
                files_pre == self.current_session->Some_0.files@,
                files_len == files_pre.len(),
                files_len > 0 ==> default_idx(self.branches@) >= 0,
                forall|q: int|
                    0 <= q < j ==> owners@[q] == file_owner(
                        self.branches@,
                        (#[trigger] files_pre[q]).path@,
                    ),
                forall|q: int|
                    0 <= q < j ==> 0 <= #[trigger] owners@[q] < self.branches@.len()
                        && self.branches@[owners@[q] as int].applied,
            decreases files_len - j,
        {
            let o = {
                let sess = self.current_session.as_ref().unwrap();
                self.file_owner_index(&sess.files[j].path)
            };
            proof {
                lemma_file_claimant(self.branches@, files_pre[j as int].path@);
                lemma_default_idx(self.branches@);
            }
            match o {
                Some(ow) => {
                    owners.push(ow);
                },
                None => {
                    proof {
                        assert(file_owner(self.branches@, files_pre[j as int].path@) == -1);
                        assert(false);
                    }
                    return Err(CoreError::FlushFailed);
                },
            }
            j += 1;
        }

        let pre_len: usize = self.commits.len();
        let n_branches: usize = self.branches.len();
        let mut i: usize = 0;
        while i < n_branches
            invariant
                wf(*old(self)),
                old(self).commits@.len() + old(self).branches@.len() < u64::MAX,
                i <= n_branches,
                n_branches == self.branches@.len(),
                n_branches == old(self).branches@.len(),
                pre_len == old(self).commits@.len(),
                self.current_session == old(self).current_session,
                self.current_session is Some,
                files_pre == self.current_session->Some_0.files@,
                files_len == files_pre.len(),
                owners@.len() == files_len,
                self.wd_text == old(self).wd_text,
                self.base_wd == old(self).base_wd,
                self.base_branch == old(self).base_branch,
                self.closed_sessions == old(self).closed_sessions,
                self.project_id == old(self).project_id,
                self.next_session_id == old(self).next_session_id,
                self.next_branch_id == old(self).next_branch_id,
                self.verify_warnings == old(self).verify_warnings,
                forall|q: int|
                    0 <= q < files_len ==> owners@[q] == file_owner(
                        old(self).branches@,
                        (#[trigger] files_pre[q]).path@,
                    ),
                forall|q: int|
                    0 <= q < files_len ==> 0 <= #[trigger] owners@[q] < n_branches
                        && old(self).branches@[owners@[q] as int].applied,
                self.commits@.len() >= pre_len,
                self.commits@.len() <= pre_len + i,
                self.commits@.take(pre_len as int) == old(self).commits@,
                wf_commits(*self),
                wf_session(*self),
                crate::vbranch::claims_disjoint(self.branches@),
                forall|q: int|
                    0 <= q < n_branches ==> crate::vbranch::branch_wf(#[trigger] self.branches@[q]),
                forall|q: int, q2: int|
                    0 <= q < q2 < n_branches ==> (#[trigger] self.branches@[q]).id
                        != (#[trigger] self.branches@[q2]).id,
                forall|q: int|
                    0 <= q < n_branches ==> ((#[trigger] self.branches@[q]).head matches Some(h)
                        ==> 1 <= h <= self.commits@.len()),
                forall|q: int| i <= q < n_branches ==> self.branches@[q] == old(self).branches@[q],
                forall|q: int|
                    0 <= q < i && !(exists|jj: int| 0 <= jj < files_len && owners@[jj] == q)
                        ==> self.branches@[q] == old(self).branches@[q],
                forall|q: int|
                    0 <= q < i && (exists|jj: int| 0 <= jj < files_len && #[trigger] owners@[jj]
                        == q) ==> {
                        let b = #[trigger] self.branches@[q];
                        &&& b.head matches Some(h)
                        &&& pre_len < b.head->Some_0 <= self.commits@.len()
                        &&& b.tree_hash == b.head
                        &&& b == VirtualBranch {
                            head: b.head,
                            tree_hash: b.tree_hash,
                            ..old(self).branches@[q]
                        }
                        &&& {
                            let c = self.commits@[b.head->Some_0 - 1];
                            &&& c.parent == old(self).branches@[q].head
                            &&& (forall|jj: int|
                                0 <= jj < files_len && #[trigger] owners@[jj] == q ==> tree_text(
                                    c.tree@,
                                    files_pre[jj].path@,
                                ) == Some(wd_text_of(old(self).wd_text@, files_pre[jj].path@)))
                            &&& (forall|p: Seq<char>|
                                file_owner(old(self).branches@, p) != q || !has_key(files_pre, p)
                                    ==> #[trigger] tree_text(c.tree@, p) == tree_text(
                                    branch_base_tree(*old(self), q),
                                    p,
                                ))
                        }
                    },
            decreases n_branches - i,
        {
            let mut any: bool = false;
            let mut j2: usize = 0;
            while j2 < files_len
                invariant
                    j2 <= files_len,
                    owners@.len() == files_len,
                    any == exists|q: int| 0 <= q < j2 && #[trigger] owners@[q] == i,
                decreases files_len - j2,
            {
                if owners[j2] == i {
                    proof {
                        assert(owners@[j2 as int] == i as int);
                    }
                    any = true;
                }
                j2 += 1;
            }
            if any {
                let parent_head: Option<u64> = self.branches[i].head;
                let ghost tree0 = branch_base_tree(*old(self), i as int);
                let mut tree: Vec<TextFile> = match parent_head {
                    Some(h) => {
                        let hi: usize = (h - 1) as usize;
                        proof {
                            assert(self.commits@[hi as int] == old(self).commits@[hi as int]) by {
                                assert(self.commits@.take(pre_len as int)[hi as int]
                                    == old(self).commits@[hi as int]);
                            }
                        }
                        let t = copy_tree(&self.commits[hi].tree);
                        proof {
                            lemma_tree_text_pointwise(self.commits@[hi as int].tree@, t@);
                        }
                        t
                    },
                    None => Vec::new(),
                };
                proof {
                    assert(unique_keys(tree@));
                    assert(forall|p: Seq<char>| #[trigger] tree_text(tree@, p) == tree_text(tree0, p));
                }
                let mut j3: usize = 0;
                while j3 < files_len
                    invariant
                        wf(*old(self)),
                        j3 <= files_len,
                        i < n_branches,
                        owners@.len() == files_len,
                        self.current_session == old(self).current_session,
                        self.current_session is Some,
                        files_pre == self.current_session->Some_0.files@,
                        files_len == files_pre.len(),
                        self.wd_text == old(self).wd_text,
                        unique_keys(tree@),
                        forall|q: int|
                            0 <= q < files_len ==> owners@[q] == file_owner(
                                old(self).branches@,
                                (#[trigger] files_pre[q]).path@,
                            ),
                        forall|q: int|
                            0 <= q < j3 && #[trigger] owners@[q] == i ==> tree_text(
                                tree@,
                                files_pre[q].path@,
                            ) == Some(wd_text_of(old(self).wd_text@, files_pre[q].path@)),
                        forall|p: Seq<char>|
                            (forall|q: int|
                                0 <= q < j3 ==> !(#[trigger] owners@[q] == i && files_pre[q].path@
                                    == p)) ==> #[trigger] tree_text(tree@, p) == tree_text(
                                tree0,
                                p,
                            ),
                    decreases files_len - j3,
                {
                    if owners[j3] == i {
                        let text: Vec<char> = {
                            let sess = self.current_session.as_ref().unwrap();
                            let path = &sess.files[j3].path;
                            match find_by_key(&self.wd_text, path) {
                                Some(w) => {
                                    proof {
                                        lemma_key_idx_is(self.wd_text@, path@, w as int);
                                    }
                                    let e: Vec<char> = Vec::new();
                                    let c = splice_chars(&self.wd_text[w].text, 0, 0, &e);
                                    proof {
                                        assert(c@ =~= wd_text_of(old(self).wd_text@, path@));
                                    }
                                    c
                                },
                                None => {
                                    proof {
                                        assert(has_key(
                                            old(self).wd_text@,
                                            files_pre[j3 as int].path@,
                                        ));
                                        assert(false);
                                    }
                                    Vec::new()
                                },
                            }
                        };
                        let ghost tree_before = tree@;
                        let path2 = {
                            let sess = self.current_session.as_ref().unwrap();
                            sess.files[j3].path.clone()
                        };
                        tree_upsert(&mut tree, &path2, text);
                        proof {
                            assert(path2@ == files_pre[j3 as int].path@);
                            assert forall|q: int|
                                0 <= q < j3 + 1 && #[trigger] owners@[q] == i implies tree_text(
                                tree@,
                                files_pre[q].path@,
                            ) == Some(
                                wd_text_of(old(self).wd_text@, files_pre[q].path@),
                            ) by {
                                if q < j3 {
                                    assert(files_pre[q].path@ != files_pre[j3 as int].path@);
                                }
                            }
                        }
                    }
                    j3 += 1;
                }
                proof {
                    assert(self.commits@.len() < pre_len + n_branches);
                }
                let cid: u64 = (self.commits.len() as u64) + 1;
                let ghost commits_before = self.commits@;
                let message = String::from_str("session flush");
                self.commits.push(Commit { id: cid, parent: parent_head, message, tree });
                let ghost branches_before = self.branches@;
                let mut b = self.branches.remove(i);
                b.head = Some(cid);
                b.tree_hash = Some(cid);
                self.branches.insert(i, b);
                proof {
                    assert(self.branches@ =~= branches_before.update(
                        i as int,
                        self.branches@[i as int],
                    ));
                    assert(self.commits@.take(pre_len as int) =~= commits_before.take(
                        pre_len as int,
                    ));
                    assert forall|q: int|
                        0 <= q < self.commits@.len() implies {
                        let c = #[trigger] self.commits@[q];
                        &&& c.id == q + 1
                        &&& (c.parent matches Some(pp) ==> 1 <= pp <= q)
                        &&& unique_keys(c.tree@)
                    } by {
                        if q < commits_before.len() {
                            assert(self.commits@[q] == commits_before[q]);
                        }
                    }
                    assert(crate::vbranch::claims_disjoint(self.branches@)) by {
                        assert forall|a: int, bq: int, p: Seq<char>, l: int|
                            0 <= a < bq < self.branches@.len() && self.branches@[a].applied
                                && self.branches@[bq].applied implies !(#[trigger] branch_claims(
                            self.branches@[a],
                            p,
                            l,
                        ) && #[trigger] branch_claims(self.branches@[bq], p, l)) by {
                            assert(self.branches@[a].ownership == branches_before[a].ownership
                                && self.branches@[a].applied == branches_before[a].applied);
                            assert(self.branches@[bq].ownership == branches_before[bq].ownership
                                && self.branches@[bq].applied == branches_before[bq].applied);
                            assert(branch_claims(self.branches@[a], p, l) == branch_claims(
                                branches_before[a],
                                p,
                                l,
                            ));
                            assert(branch_claims(self.branches@[bq], p, l) == branch_claims(
                                branches_before[bq],
                                p,
                                l,
                            ));
                        }
                    }
                    // The new head and commit satisfy the per-branch clause.
                    assert(self.commits@[cid - 1].tree@ == tree@);
                    assert forall|p: Seq<char>|
                        file_owner(old(self).branches@, p) != i as int || !has_key(files_pre, p)
                            implies #[trigger] tree_text(tree@, p) == tree_text(tree0, p) by {
                        if exists|q: int|
                            0 <= q < files_len && #[trigger] owners@[q] == i && files_pre[q].path@
                                == p {
                            let q = choose|q: int|
                                0 <= q < files_len && #[trigger] owners@[q] == i
                                    && files_pre[q].path@ == p;
                            assert(file_owner(old(self).branches@, p) == i as int);
                            assert(files_pre[q].key() == p);
                            assert(has_key(files_pre, p));
                        }
                    }
                }
            }
            i += 1;
        }

        // Close and archive the session; keep the journal's tracked text.
        let meta: Session = match &self.current_session {
            Some(s) => s.meta,
            None => {
                proof {
                    assert(false);
                }
                return Err(CoreError::FlushFailed);
            },
        };
        let commit_hash: Option<u64> = if files_len > 0 {
            Some((pre_len as u64) + 1)
        } else {
            None
        };
        let closed = Session {
            id: meta.id,
            project_id: meta.project_id,
            started_at_ms: meta.started_at_ms,
            ended_at_ms: Some(now_ms),
            commit_hash,
        };
        self.closed_sessions.push(closed);
        self.current_session = None;
        if !ownership_verified {
            if self.verify_warnings < u64::MAX {
                self.verify_warnings = self.verify_warnings + 1;
            }
        }
        proof {
            lemma_default_idx(old(self).branches@);
            assert forall|q: int|
                0 <= q < n_branches implies (branch_flushed(*old(self), q) == exists|jj: int|
                0 <= jj < files_len && #[trigger] owners@[jj] == q) by {
                if branch_flushed(*old(self), q) {
                    let jj = choose|jj: int|
                        0 <= jj < files_len && file_owner(
                            old(self).branches@,
                            (#[trigger] files_pre[jj]).path@,
                        ) == q;
                    assert(owners@[jj] == q);
                }
                if exists|jj: int| 0 <= jj < files_len && #[trigger] owners@[jj] == q {
                    let jj = choose|jj: int| 0 <= jj < files_len && #[trigger] owners@[jj] == q;
                    assert(file_owner(old(self).branches@, files_pre[jj].path@) == q);
                    assert(old(self).branches@[q].applied);
                }
            }
            if files_len > 0 {
                let jj0 = 0int;
                let q0 = owners@[jj0] as int;
                assert(owners@[jj0] == q0);
                assert(branch_flushed(*old(self), q0));
                let b0 = self.branches@[q0];
                assert(pre_len < b0.head->Some_0 <= self.commits@.len());
                assert(self.commits@.len() > pre_len);
            }
            assert(flush_success(*old(self), *self, closed, now_ms));
        }
        Ok(closed)
    }
}

/// Builds a copy of a tree whose paths and texts read the same.
pub fn copy_tree(t: &Vec<TextFile>) -> (r: Vec<TextFile>)
    ensures
        r@.len() == t@.len(),
        forall|i: int|
            0 <= i < t@.len() ==> (#[trigger] r@[i]).path@ == t@[i].path@ && r@[i].text@
                == t@[i].text@,
{
    let mut out: Vec<TextFile> = Vec::new();
    let mut i: usize = 0;
    while i < t.len()
        invariant
            i <= t@.len(),
            out@.len() == i,
            forall|q: int|
                0 <= q < i ==> (#[trigger] out@[q]).path@ == t@[q].path@ && out@[q].text@
                    == t@[q].text@,
        decreases t@.len() - i,
    {
        let e: Vec<char> = Vec::new();
        let text = splice_chars(&t[i].text, 0, 0, &e);
        proof {
            assert(text@ =~= t@[i as int].text@);
        }
        out.push(TextFile { path: t[i].path.clone(), text });
        i += 1;
    }
    out
}

/// Replaces or adds one path's text in a tree.
pub fn tree_upsert(tree: &mut Vec<TextFile>, path: &String, text: Vec<char>)
    requires
        unique_keys(old(tree)@),
    ensures
        unique_keys(final(tree)@),
        tree_text(final(tree)@, path@) == Some(text@),
        forall|p: Seq<char>|
            p != path@ ==> #[trigger] tree_text(final(tree)@, p) == tree_text(old(tree)@, p),
{
    let ghost pre = tree@;
    match find_by_key(tree, path) {
        Some(i) => {
            proof {
                lemma_key_idx_is(pre, path@, i as int);
            }
            let mut tf = tree.remove(i);
            tf.text = text;
            tree.insert(i, tf);
            proof {
                assert(tree@ =~= pre.update(i as int, tree@[i as int]));
                lemma_update_same_key(pre, i as int, tree@[i as int]);
                lemma_key_idx_is(tree@, path@, i as int);
                assert forall|p: Seq<char>|
                    p != path@ implies #[trigger] tree_text(tree@, p) == tree_text(pre, p) by {
                    if has_key(pre, p) {
                        let q = key_idx(pre, p);
                        assert(tree@[q].key() == p);
                    }
                }
            }
        },
        None => {
            let tf = TextFile { path: path.clone(), text };
            proof {
                lemma_push_fresh_key(pre, tf);
            }
            tree.push(tf);
            proof {
                lemma_key_idx_is(tree@, path@, pre.len() as int);
                assert forall|p: Seq<char>|
                    p != path@ implies #[trigger] tree_text(tree@, p) == tree_text(pre, p) by {
                    if has_key(pre, p) {
                        let q = key_idx(pre, p);
                        assert(tree@[q].key() == p);
                    }
                }
            }
        },
    }
}

} // verus!
