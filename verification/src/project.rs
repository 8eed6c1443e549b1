use vstd::prelude::*;

use crate::basesync::BaseBranch;
use crate::diff::WdFile;
use crate::error::CoreError;
use crate::keyed::{find_by_key, has_key, key_idx, lemma_key_idx_is, lemma_push_fresh_key,
    lemma_update_same_key, unique_keys, Keyed};
use crate::ops::{apply_op, op_valid, replay_spec, replay_valid, splice_chars, Delta, Operation};
use crate::session::{lemma_ops_of_push, ops_of, FileDeltas, OpenSession, Session};
use crate::vbranch::{
    branch_claims, branch_wf, claims_disjoint, default_idx, BranchCreateRequest,
    BranchUpdateRequest, VirtualBranch,
};

verus! {

/// One file's current text, tracked by the journal.
#[derive(Clone, Debug)]
pub struct TextFile {
    pub path: String,
    pub text: Vec<char>,
}

impl Keyed for TextFile {
    open spec fn key(&self) -> Seq<char> {
        self.path@
    }

    fn key_matches(&self, path: &String) -> (r: bool) {
        self.path.eq(path)
    }
}

/// A commit object of the model backend: an appended, never mutated record.
#[derive(Clone, Debug)]
pub struct Commit {
    pub id: u64,
    pub parent: Option<u64>,
    pub message: String,
    pub tree: Vec<TextFile>,
}

/// The state of one project: its journal, its virtual branches, its commit
/// store and its base-branch cache. All mutating entry points of the engine
/// are methods of this type; callers serialize them per project.
#[derive(Debug)]
pub struct Project {
    pub project_id: u64,
    pub next_session_id: u64,
    pub next_branch_id: u64,
    pub commits: Vec<Commit>,
    pub branches: Vec<VirtualBranch>,
    pub current_session: Option<OpenSession>,
    pub closed_sessions: Vec<Session>,
    pub wd_text: Vec<TextFile>,
    pub base_wd: Vec<WdFile>,
    pub base_branch: Option<BaseBranch>,
    pub verify_warnings: u64,
}

/// The tracked text of `path`, or empty when the journal has not seen it.
pub open spec fn wd_text_of(files: Seq<TextFile>, path: Seq<char>) -> Seq<char> {
    if has_key(files, path) {
        files[key_idx(files, path)].text@
    } else {
        Seq::empty()
    }
}

/// The text a tree stores for `path`, if any.
pub open spec fn tree_text(tree: Seq<TextFile>, path: Seq<char>) -> Option<Seq<char>> {
    if has_key(tree, path) {
        Some(tree[key_idx(tree, path)].text@)
    } else {
        None
    }
}

/// The operations the open session has recorded for `path`, in capture order.
pub open spec fn session_ops(s: Option<OpenSession>, path: Seq<char>) -> Seq<Operation> {
    match s {
        Some(open) => if has_key(open.files@, path) {
            ops_of(open.files@[key_idx(open.files@, path)].deltas@)
        } else {
            Seq::empty()
        },
        None => Seq::empty(),
    }
}

/// The open session's journal is consistent: one entry per file, each entry's
/// deltas replay, and the tracked text is exactly their replay over the
/// entry's session-start text.
pub open spec fn wf_session(p: Project) -> bool {
    match p.current_session {
        None => true,
        Some(s) => {
            &&& unique_keys(s.files@)
            &&& s.meta.project_id == p.project_id
            &&& s.meta.ended_at_ms is None
            &&& s.meta.commit_hash is None
            &&& forall|i: int|
                0 <= i < s.files@.len() ==> {
                    let f = #[trigger] s.files@[i];
                    &&& replay_valid(f.base_text@, ops_of(f.deltas@))
                    &&& has_key(p.wd_text@, f.path@)
                    &&& wd_text_of(p.wd_text@, f.path@) == replay_spec(
                        f.base_text@,
                        ops_of(f.deltas@),
                    )
                }
        },
    }
}

/// Commit ids are their position in the store plus one, parents come earlier,
/// and every tree holds one entry per path.
pub open spec fn wf_commits(p: Project) -> bool {
    forall|i: int|
        0 <= i < p.commits@.len() ==> {
            let c = #[trigger] p.commits@[i];
            &&& c.id == i + 1
            &&& (c.parent matches Some(q) ==> 1 <= q <= i)
            &&& unique_keys(c.tree@)
        }
}

/// Branch records are well formed: distinct ids, well-formed ownership, heads
/// that point into the commit store, and pairwise disjoint claims among the
/// applied branches.
pub open spec fn wf_branches(p: Project) -> bool {
    &&& forall|i: int, j: int|
        0 <= i < j < p.branches@.len() ==> (#[trigger] p.branches@[i]).id
            != (#[trigger] p.branches@[j]).id
    &&& forall|i: int| 0 <= i < p.branches@.len() ==> branch_wf(#[trigger] p.branches@[i])
    &&& forall|i: int|
        0 <= i < p.branches@.len() ==> ((#[trigger] p.branches@[i]).head matches Some(h) ==> 1 <= h
            <= p.commits@.len())
    &&& forall|i: int|
        0 <= i < p.branches@.len() ==> (#[trigger] p.branches@[i]).id < p.next_branch_id
    &&& claims_disjoint(p.branches@)
}

/// The well-formedness invariant of a project: every constructor establishes
/// it and every method preserves it.
pub open spec fn wf(p: Project) -> bool {
    &&& unique_keys(p.wd_text@)
    &&& unique_keys(p.base_wd@)
    &&& wf_session(p)
    &&& wf_commits(p)
    &&& wf_branches(p)
}

/// The branch that owns `path`'s session deltas: the first applied branch
/// with an ownership record for the path, or the default branch when no
/// applied branch claims it, or -1 when no branch is applied.
pub open spec fn file_claimant(bs: Seq<VirtualBranch>, path: Seq<char>) -> int
    decreases bs.len(),
{
    if bs.len() == 0 {
        -1
    } else if bs[0].applied && has_key(bs[0].ownership@, path) {
        0
    } else {
        let r = file_claimant(bs.skip(1), path);
        if r < 0 {
            -1
        } else {
            r + 1
        }
    }
}

/// What `file_claimant` returns: the least applied index with a record for
/// the path, or -1 when there is none.
pub proof fn lemma_file_claimant(bs: Seq<VirtualBranch>, path: Seq<char>)
    ensures
        file_claimant(bs, path) == -1 ==> forall|i: int|
            0 <= i < bs.len() ==> !((#[trigger] bs[i]).applied && has_key(bs[i].ownership@, path)),
        file_claimant(bs, path) >= 0 ==> {
            let r = file_claimant(bs, path);
            &&& r < bs.len()
            &&& bs[r].applied
            &&& has_key(bs[r].ownership@, path)
            &&& forall|i: int|
                0 <= i < r ==> !((#[trigger] bs[i]).applied && has_key(bs[i].ownership@, path))
        },
    decreases bs.len(),
{
    if bs.len() == 0 {
    } else {
        lemma_file_claimant(bs.skip(1), path);
        assert forall|i: int| 1 <= i < bs.len() implies bs.skip(1)[i - 1] == bs[i] by {}
    }
}

/// The tree a branch's next commit builds on: its head commit's tree, or an
/// empty tree for a branch that has not committed.
pub open spec fn branch_base_tree(pre: Project, i: int) -> Seq<TextFile> {
    match pre.branches@[i].head {
        Some(h) => pre.commits@[h - 1].tree@,
        None => Seq::empty(),
    }
}

/// The owner of `path`'s session deltas at flush time.
pub open spec fn file_owner(bs: Seq<VirtualBranch>, path: Seq<char>) -> int {
    if file_claimant(bs, path) >= 0 {
        file_claimant(bs, path)
    } else {
        default_idx(bs)
    }
}

impl Project {
    /// A fresh project with an empty journal, no branches, no commits, and
    /// the given base working-directory snapshot.
    pub fn new(project_id: u64, base_wd: Vec<WdFile>) -> (r: Project)
        requires
            unique_keys(base_wd@),
        ensures
            wf(r),
            r.project_id == project_id,
            r.base_wd == base_wd,
            r.commits@.len() == 0,
            r.branches@.len() == 0,
            r.current_session is None,
            r.closed_sessions@.len() == 0,
            r.wd_text@.len() == 0,
            r.verify_warnings == 0,
    {
        Project {
            project_id,
            next_session_id: 1,
            next_branch_id: 1,
            commits: Vec::new(),
            branches: Vec::new(),
            current_session: None,
            closed_sessions: Vec::new(),
            wd_text: Vec::new(),
            base_wd,
            base_branch: None,
            verify_warnings: 0,
        }
    }

    /// A read-only snapshot of the open session's metadata.
    pub fn current(&self) -> (r: Option<Session>)
        ensures
            r == match self.current_session {
                Some(s) => Some(s.meta),
                None => None::<Session>,
            },
    {
        match &self.current_session {
            Some(s) => Some(s.meta),
            None => None,
        }
    }

    /// Appends one operation to the open session, creating the session if
    /// none is open. Fails with `MalformedOperation`, leaving all state
    /// unchanged, exactly when the operation's offsets are inconsistent with
    /// the file's tracked text; otherwise the tracked text advances by the
    /// operation and the journal grows by one delta carrying it.
    pub fn record(&mut self, file_path: &String, operation: Operation, now_ms: u64) -> (r: Result<
        (),
        CoreError,
    >)
        requires
            wf(*old(self)),
            old(self).next_session_id < u64::MAX,
        ensures
            wf(*final(self)),
            r is Ok <==> op_valid(wd_text_of(old(self).wd_text@, file_path@), operation),
            r is Err ==> *final(self) == *old(self) && r == Err::<(), CoreError>(
                CoreError::MalformedOperation,
            ),
            r is Ok ==> {
                &&& wd_text_of(final(self).wd_text@, file_path@) == apply_op(
                    wd_text_of(old(self).wd_text@, file_path@),
                    operation,
                )
                &&& forall|p: Seq<char>|
                    p != file_path@ ==> wd_text_of(final(self).wd_text@, p) == wd_text_of(
                        old(self).wd_text@,
                        p,
                    )
                &&& final(self).current_session is Some
                &&& session_ops(final(self).current_session, file_path@) == session_ops(
                    old(self).current_session,
                    file_path@,
                ).push(operation)
                &&& forall|p: Seq<char>|
                    p != file_path@ ==> session_ops(final(self).current_session, p) == session_ops(
                        old(self).current_session,
                        p,
                    )
                &&& (final(self).current_session matches Some(s) ==> s.meta == match old(
                    self,
                ).current_session {
                    Some(o) => o.meta,
                    None => Session {
                        id: old(self).next_session_id,
                        project_id: old(self).project_id,
                        started_at_ms: now_ms,
                        ended_at_ms: None,
                        commit_hash: None,
                    },
                })
                &&& final(self).branches == old(self).branches
                &&& final(self).commits == old(self).commits
                &&& final(self).closed_sessions == old(self).closed_sessions
                &&& final(self).base_wd == old(self).base_wd
                &&& final(self).base_branch == old(self).base_branch
                &&& final(self).project_id == old(self).project_id
            },
    {
        // Validate against the tracked text before touching any state.
        let wd_idx = find_by_key(&self.wd_text, file_path);
        let new_text: Vec<char> = match wd_idx {
            Some(i) => {
                proof {
                    lemma_key_idx_is(self.wd_text@, file_path@, i as int);
                }
                match operation.apply(&self.wd_text[i].text) {
                    Ok(t) => t,
                    Err(e) => {
                        return Err(e);
                    },
                }
            },
            None => {
                let empty_text: Vec<char> = Vec::new();
                match operation.apply(&empty_text) {
                    Ok(t) => t,
                    Err(e) => {
                        return Err(e);
                    },
                }
            },
        };
        let ghost old_text = wd_text_of(self.wd_text@, file_path@);

        // Open a session if none is open.
        if self.current_session.is_none() {
            self.current_session = Some(
                OpenSession {
                    meta: Session {
                        id: self.next_session_id,
                        project_id: self.project_id,
                        started_at_ms: now_ms,
                        ended_at_ms: None,
                        commit_hash: None,
                    },
                    files: Vec::new(),
                },
            );
            self.next_session_id = self.next_session_id + 1;
        }

        // Append the delta to the file's journal entry, creating the entry
        // with the session-start text on first touch.
        let delta = Delta { timestamp_ms: now_ms, operations: vec![operation] };
        proof {
            assert(delta.operations@ =~= seq![operation]);
        }
        let ghost pre_files = self.current_session->Some_0.files@;
        let ghost pre_meta = self.current_session->Some_0.meta;
        let ghost pre_ops = session_ops(self.current_session, file_path@);
        proof {
            assert(pre_ops == session_ops(old(self).current_session, file_path@)) by {
                if old(self).current_session is Some {
                } else {
                    assert(pre_files.len() == 0);
                    assert(!has_key(pre_files, file_path@));
                }
            }
        }
        match &mut self.current_session {
            None => {
                proof {
                    assert(false);
                }
            },
            Some(open) => {
                match find_by_key(&open.files, file_path) {
                    Some(i) => {
                        proof {
                            lemma_key_idx_is(pre_files, file_path@, i as int);
                        }
                        let mut fd = open.files.remove(i);
                        fd.deltas.push(delta);
                        open.files.insert(i, fd);
                        proof {
                            let e = open.files@[i as int];
                            assert(open.files@ =~= pre_files.update(i as int, e));
                            lemma_update_same_key(pre_files, i as int, e);
                            lemma_key_idx_is(open.files@, file_path@, i as int);
                            lemma_ops_of_push(pre_files[i as int].deltas@, delta);
                            assert(ops_of(e.deltas@) =~= pre_ops.push(operation));
                        }
                    },
                    None => {
                        let base_text: Vec<char> = match wd_idx {
                            Some(wi) => {
                                let e: Vec<char> = Vec::new();
                                let c = splice_chars(&self.wd_text[wi].text, 0, 0, &e);
                                proof {
                                    assert(c@ =~= self.wd_text@[wi as int].text@);
                                }
                                c
                            },
                            None => Vec::new(),
                        };
                        let mut fd = FileDeltas {
                            path: file_path.clone(),
                            base_text,
                            deltas: Vec::new(),
                        };
                        fd.deltas.push(delta);
                        proof {
                            lemma_push_fresh_key(pre_files, fd);
                            lemma_ops_of_push(Seq::<Delta>::empty(), delta);
                            assert(ops_of(fd.deltas@) =~= pre_ops.push(operation)) by {
                                assert(fd.deltas@ =~= Seq::<Delta>::empty().push(delta));
                                assert(pre_ops =~= Seq::<Operation>::empty());
                            }
                        }
                        open.files.push(fd);
                        proof {
                            lemma_key_idx_is(open.files@, file_path@, pre_files.len() as int);
                        }
                    },
                }
            },
        }
        let ghost post_files = self.current_session->Some_0.files@;
        proof {
            // One entry per path, the touched entry advanced by the delta,
            // every other entry untouched.
            assert(unique_keys(post_files));
            assert(has_key(post_files, file_path@));
            let fi = key_idx(post_files, file_path@);
            let e = post_files[fi];
            assert(e.key() == file_path@);
            assert(ops_of(e.deltas@) == pre_ops.push(operation));
            assert(replay_valid(e.base_text@, pre_ops) && replay_spec(e.base_text@, pre_ops)
                == old_text) by {
                if has_key(pre_files, file_path@) {
                    let pe = pre_files[key_idx(pre_files, file_path@)];
                    assert(e.base_text@ == pe.base_text@);
                    assert(wd_text_of(old(self).wd_text@, pe.path@) == replay_spec(
                        pe.base_text@,
                        ops_of(pe.deltas@),
                    ));
                } else {
                    assert(pre_ops =~= Seq::<Operation>::empty());
                }
            }
        }

        // Advance the tracked text.
        let ghost pre_wd = self.wd_text@;
        match wd_idx {
            Some(i) => {
                let mut tf = self.wd_text.remove(i);
                tf.text = new_text;
                self.wd_text.insert(i, tf);
                proof {
                    assert(self.wd_text@ =~= pre_wd.update(i as int, self.wd_text@[i as int]));
                    lemma_update_same_key(pre_wd, i as int, self.wd_text@[i as int]);
                    lemma_key_idx_is(self.wd_text@, file_path@, i as int);
                }
            },
            None => {
                let tf = TextFile { path: file_path.clone(), text: new_text };
                proof {
                    lemma_push_fresh_key(pre_wd, tf);
                }
                self.wd_text.push(tf);
                proof {
                    lemma_key_idx_is(self.wd_text@, file_path@, pre_wd.len() as int);
                }
            },
        }

        proof {
            assert(pre_wd == old(self).wd_text@);
            assert(wd_text_of(self.wd_text@, file_path@) == apply_op(old_text, operation));
            assert forall|p: Seq<char>|
                p != file_path@ implies wd_text_of(self.wd_text@, p) == wd_text_of(pre_wd, p) by {
                if has_key(pre_wd, p) {
                    let q = key_idx(pre_wd, p);
                    assert(key_idx(self.wd_text@, p) == q);
                    assert(self.wd_text@[q].key() == p);
                }
            }
            assert forall|p: Seq<char>|
                p != file_path@ implies session_ops(self.current_session, p) == session_ops(
                old(self).current_session,
                p,
            ) by {
                if old(self).current_session is Some {
                    if has_key(pre_files, p) {
                        let q = key_idx(pre_files, p);
                        assert(key_idx(post_files, p) == q);
                        assert(post_files[q].key() == p);
                    }
                } else {
                    assert(!has_key(pre_files, p));
                    assert(!has_key(post_files, p));
                }
            }
            // The journal invariant holds entry by entry.
            let s = self.current_session->Some_0;
            assert(wf_session(*self)) by {
                assert forall|i: int| 0 <= i < s.files@.len() implies {
                    let f = #[trigger] s.files@[i];
                    &&& replay_valid(f.base_text@, ops_of(f.deltas@))
                    &&& has_key(self.wd_text@, f.path@)
                    &&& wd_text_of(self.wd_text@, f.path@) == replay_spec(
                        f.base_text@,
                        ops_of(f.deltas@),
                    )
                } by {
                    let f = s.files@[i];
                    if i == key_idx(s.files@, file_path@) {
                        crate::ops::lemma_replay_snoc(f.base_text@, pre_ops, operation);
                    } else {
                        assert(f.key() != file_path@);
                        if has_key(pre_files, f.path@) {
                        }
                    }
                }
            }
            assert(session_ops(self.current_session, file_path@) == session_ops(
                old(self).current_session,
                file_path@,
            ).push(operation));
        }
        Ok(())
    }

    /// Marks the open session ended and archives it without producing a
    /// commit; the next `record` call opens a fresh session. Flushing is the
    /// path that makes a session's deltas durable; closing alone discards
    /// them from the journal.
    pub fn close(&mut self, now_ms: u64) -> (r: Session)
        requires
            wf(*old(self)),
            old(self).current_session is Some,
        ensures
            wf(*final(self)),
            r == (Session {
                ended_at_ms: Some(now_ms),
                ..old(self).current_session->Some_0.meta
            }),
            final(self).current_session is None,
            final(self).closed_sessions@ == old(self).closed_sessions@.push(r),
            *final(self) == (Project {
                current_session: None,
                closed_sessions: final(self).closed_sessions,
                ..*old(self)
            }),
    {
        let meta: Session = match &self.current_session {
            Some(s) => s.meta,
            None => {
                proof {
                    assert(false);
                }
                Session {
                    id: 0,
                    project_id: 0,
                    started_at_ms: 0,
                    ended_at_ms: None,
                    commit_hash: None,
                }
            },
        };
        let closed = Session {
            id: meta.id,
            project_id: meta.project_id,
            started_at_ms: meta.started_at_ms,
            ended_at_ms: Some(now_ms),
            commit_hash: None,
        };
        self.closed_sessions.push(closed);
        self.current_session = None;
        closed
    }

    /// The index of the branch with the given id, if it exists.
    pub fn branch_index(&self, branch_id: u64) -> (r: Option<usize>)
        ensures
            match r {
                Some(i) => i < self.branches@.len() && self.branches@[i as int].id == branch_id,
                None => forall|q: int|
                    0 <= q < self.branches@.len() ==> (#[trigger] self.branches@[q]).id
                        != branch_id,
            },
    {
        let mut i: usize = 0;
        while i < self.branches.len()
            invariant
                i <= self.branches@.len(),
                forall|q: int| 0 <= q < i ==> (#[trigger] self.branches@[q]).id != branch_id,
            decreases self.branches@.len() - i,
        {
            if self.branches[i].id == branch_id {
                return Some(i);
            }
            i += 1;
        }
        None
    }

    /// Creates a virtual branch. The first branch of a bare project is
    /// applied at once; any later branch starts unapplied. Returns the new
    /// branch's id.
    pub fn create_virtual_branch(&mut self, req: &BranchCreateRequest) -> (r: u64)
        requires
            wf(*old(self)),
            old(self).next_branch_id < u64::MAX,
        ensures
            wf(*final(self)),
            r == old(self).next_branch_id,
            final(self).next_branch_id == old(self).next_branch_id + 1,
            final(self).branches@ == old(self).branches@.push(
                VirtualBranch {
                    id: r,
                    name: final(self).branches@.last().name,
                    order: match req.order {
                        Some(o) => o,
                        None => old(self).branches@.len() as u64,
                    },
                    applied: old(self).branches@.len() == 0,
                    ownership: final(self).branches@.last().ownership,
                    upstream: None,
                    tree_hash: None,
                    head: None,
                    conflicted: false,
                },
            ),
            final(self).branches@.last().name@ == req.name@,
            final(self).branches@.last().ownership@.len() == 0,
            *final(self) == (Project {
                next_branch_id: final(self).next_branch_id,
                branches: final(self).branches,
                ..*old(self)
            }),
    {
        let id = self.next_branch_id;
        self.next_branch_id = id + 1;
        let order: u64 = match req.order {
            Some(o) => o,
            None => self.branches.len() as u64,
        };
        let applied = self.branches.is_empty();
        let b = VirtualBranch {
            id,
            name: req.name.clone(),
            order,
            applied,
            ownership: Vec::new(),
            upstream: None,
            tree_hash: None,
            head: None,
            conflicted: false,
        };
        self.branches.push(b);
        proof {
            assert(self.branches@.take(old(self).branches@.len() as int) =~= old(self).branches@);
            lemma_branches_push_wf(*old(self), *self);
        }
        id
    }

    /// Creates a virtual branch seeded from an existing branch reference:
    /// the new branch tracks the reference as its upstream and starts from
    /// the given head commit. Returns the new branch's id.
    pub fn create_virtual_branch_from_branch(
        &mut self,
        name: String,
        upstream: String,
        head: Option<u64>,
    ) -> (r: u64)
        requires
            wf(*old(self)),
            old(self).next_branch_id < u64::MAX,
            head matches Some(h) ==> 1 <= h <= old(self).commits@.len(),
        ensures
            wf(*final(self)),
            r == old(self).next_branch_id,
            final(self).next_branch_id == old(self).next_branch_id + 1,
            final(self).branches@.len() == old(self).branches@.len() + 1,
            final(self).branches@.take(old(self).branches@.len() as int) == old(self).branches@,
            final(self).branches@.last() == (VirtualBranch {
                id: r,
                name: final(self).branches@.last().name,
                order: old(self).branches@.len() as u64,
                applied: old(self).branches@.len() == 0,
                ownership: final(self).branches@.last().ownership,
                upstream: final(self).branches@.last().upstream,
                tree_hash: None,
                head,
                conflicted: false,
            }),
            final(self).branches@.last().name@ == name@,
            (final(self).branches@.last().upstream matches Some(u) && u@ == upstream@),
            final(self).branches@.last().ownership@.len() == 0,
            *final(self) == (Project {
                next_branch_id: final(self).next_branch_id,
                branches: final(self).branches,
                ..*old(self)
            }),
    {
        let id = self.next_branch_id;
        self.next_branch_id = id + 1;
        let order: u64 = self.branches.len() as u64;
        let applied = self.branches.is_empty();
        let b = VirtualBranch {
            id,
            name,
            order,
            applied,
            ownership: Vec::new(),
            upstream: Some(upstream),
            tree_hash: None,
            head,
            conflicted: false,
        };
        self.branches.push(b);
        proof {
            assert(self.branches@.take(old(self).branches@.len() as int) =~= old(self).branches@);
            lemma_branches_push_wf(*old(self), *self);
        }
        id
    }

    /// The project's virtual branches, in stored order.
    pub fn list_virtual_branches(&self) -> (r: &Vec<VirtualBranch>)
        ensures
            r@ == self.branches@,
    {
        &self.branches
    }

    /// Renames or reorders a branch; absent request fields are left as they
    /// stand.
    pub fn update_virtual_branch(&mut self, req: BranchUpdateRequest)
        requires
            wf(*old(self)),
            exists|q: int|
                0 <= q < old(self).branches@.len() && (#[trigger] old(self).branches@[q]).id
                    == req.id,
        ensures
            wf(*final(self)),
            final(self).branches@.len() == old(self).branches@.len(),
            forall|q: int|
                0 <= q < old(self).branches@.len() && (#[trigger] old(self).branches@[q]).id
                    != req.id ==> final(self).branches@[q] == old(self).branches@[q],
            forall|q: int|
                0 <= q < old(self).branches@.len() && (#[trigger] old(self).branches@[q]).id
                    == req.id ==> final(self).branches@[q] == (VirtualBranch {
                    name: match req.name {
                        Some(n) => n,
                        None => old(self).branches@[q].name,
                    },
                    order: match req.order {
                        Some(o) => o,
                        None => old(self).branches@[q].order,
                    },
                    ..old(self).branches@[q]
                }),
            *final(self) == (Project { branches: final(self).branches, ..*old(self) }),
    {
        let bi = match self.branch_index(req.id) {
            Some(bi) => bi,
            None => {
                proof {
                    assert(false);
                }
                return ;
            },
        };
        let ghost pre = self.branches@;
        let mut b = self.branches.remove(bi);
        match req.name {
            Some(n) => {
                b.name = n;
            },
            None => {},
        }
        match req.order {
            Some(o) => {
                b.order = o;
            },
            None => {},
        }
        self.branches.insert(bi, b);
        proof {
            assert(self.branches@ =~= pre.update(bi as int, self.branches@[bi as int]));
            assert forall|q: int|
                0 <= q < pre.len() && (#[trigger] pre[q]).id == req.id implies q == bi as int by {
                if q != bi as int {
                    assert(pre[q].id != pre[bi as int].id);
                }
            }
            lemma_branch_fields_keep_claims(pre, self.branches@);
        }
    }

    /// Deletes a branch. Deletion requires the branch to be unapplied; its
    /// ownership records are discarded with it, irreversibly.
    pub fn delete_virtual_branch(&mut self, branch_id: u64)
        requires
            wf(*old(self)),
            exists|q: int|
                0 <= q < old(self).branches@.len() && (#[trigger] old(self).branches@[q]).id
                    == branch_id && !old(self).branches@[q].applied,
        ensures
            wf(*final(self)),
            final(self).branches@.len() == old(self).branches@.len() - 1,
            forall|q: int|
                0 <= q < final(self).branches@.len() ==> (#[trigger] final(self).branches@[q]).id
                    != branch_id,
            forall|q: int|
                0 <= q < final(self).branches@.len() ==> exists|p: int|
                    0 <= p < old(self).branches@.len() && #[trigger] final(self).branches@[q]
                        == #[trigger] old(self).branches@[p],
            *final(self) == (Project { branches: final(self).branches, ..*old(self) }),
    {
        let bi = match self.branch_index(branch_id) {
            Some(bi) => bi,
            None => {
                proof {
                    assert(false);
                }
                return ;
            },
        };
        let ghost pre = self.branches@;
        let _ = self.branches.remove(bi);
        proof {
            assert forall|q: int|
                0 <= q < self.branches@.len() implies exists|p: int|
                0 <= p < pre.len() && #[trigger] self.branches@[q] == #[trigger] pre[p] by {
                if q < bi as int {
                    assert(self.branches@[q] == pre[q]);
                } else {
                    assert(self.branches@[q] == pre[q + 1]);
                }
            }
            assert forall|q: int|
                0 <= q < self.branches@.len() implies (#[trigger] self.branches@[q]).id
                    != branch_id by {
                if q < bi as int {
                    assert(self.branches@[q] == pre[q]);
                    if pre[q].id == branch_id {
                        assert(pre[q].id != pre[bi as int].id);
                    }
                } else {
                    assert(self.branches@[q] == pre[q + 1]);
                    if pre[q + 1].id == branch_id {
                        assert(pre[bi as int].id != pre[q + 1].id);
                    }
                }
            }
            assert(claims_disjoint(self.branches@)) by {
                assert forall|a: int, b: int, p: Seq<char>, l: int|
                    0 <= a < b < self.branches@.len() && self.branches@[a].applied
                        && self.branches@[b].applied implies !(#[trigger] branch_claims(
                    self.branches@[a],
                    p,
                    l,
                ) && #[trigger] branch_claims(self.branches@[b], p, l)) by {
                    let pa = if a < bi as int {
                        a
                    } else {
                        a + 1
                    };
                    let pb = if b < bi as int {
                        b
                    } else {
                        b + 1
                    };
                    assert(self.branches@[a] == pre[pa]);
                    assert(self.branches@[b] == pre[pb]);
                }
            }
            assert forall|a: int, b: int|
                0 <= a < b < self.branches@.len() implies (#[trigger] self.branches@[a]).id
                    != (#[trigger] self.branches@[b]).id by {
                let pa = if a < bi as int {
                    a
                } else {
                    a + 1
                };
                let pb = if b < bi as int {
                    b
                } else {
                    b + 1
                };
                assert(self.branches@[a] == pre[pa]);
                assert(self.branches@[b] == pre[pb]);
            }
        }
    }
}

/// Pushing a fresh branch with no claims preserves the project invariant.
pub proof fn lemma_branches_push_wf(pre: Project, post: Project)
    requires
        wf(pre),
        post.branches@.len() == pre.branches@.len() + 1,
        post.branches@.take(pre.branches@.len() as int) == pre.branches@,
        post.branches@.last().ownership@.len() == 0,
        post.branches@.last().id == pre.next_branch_id,
        pre.next_branch_id < u64::MAX,
        post.next_branch_id == pre.next_branch_id + 1,
        (post.branches@.last().head matches Some(h) ==> 1 <= h <= post.commits@.len()),
        post == (Project { next_branch_id: post.next_branch_id, branches: post.branches, ..pre }),
    ensures
        wf(post),
{
    let n = pre.branches@.len() as int;
    assert forall|q: int|
        0 <= q < post.branches@.len() implies (#[trigger] post.branches@[q]).id
            < post.next_branch_id by {
        if q < n {
            assert(post.branches@[q] == post.branches@.take(n)[q]);
            assert(post.branches@[q] == pre.branches@[q]);
        } else {
            assert(post.branches@[q] == post.branches@.last());
        }
    }
    assert forall|q: int| 0 <= q < post.branches@.len() implies branch_wf(
        #[trigger] post.branches@[q],
    ) by {
        if q < n {
            assert(post.branches@[q] == post.branches@.take(n)[q]);
        } else {
            assert(post.branches@[q] == post.branches@.last());
        }
    }
    assert forall|q: int|
        0 <= q < post.branches@.len() implies ((#[trigger] post.branches@[q]).head matches Some(h)
            ==> 1 <= h <= post.commits@.len()) by {
        if q < n {
            assert(post.branches@[q] == post.branches@.take(n)[q]);
            assert(post.branches@[q] == pre.branches@[q]);
        }
    }
    assert forall|a: int, b: int|
        0 <= a < b < post.branches@.len() implies (#[trigger] post.branches@[a]).id
            != (#[trigger] post.branches@[b]).id by {
        if b < n {
            assert(post.branches@[a] == pre.branches@[a]);
            assert(post.branches@[b] == pre.branches@[b]);
        } else {
            if a < n {
                assert(post.branches@[a] == pre.branches@[a]);
            }
        }
    }
    assert(claims_disjoint(post.branches@)) by {
        assert forall|a: int, b: int, p: Seq<char>, l: int|
            0 <= a < b < post.branches@.len() && post.branches@[a].applied
                && post.branches@[b].applied implies !(#[trigger] branch_claims(
            post.branches@[a],
            p,
            l,
        ) && #[trigger] branch_claims(post.branches@[b], p, l)) by {
            if b < n {
                assert(post.branches@[a] == pre.branches@[a]);
                assert(post.branches@[b] == pre.branches@[b]);
            } else {
                assert(post.branches@[b] == post.branches@.last());
                assert(!crate::keyed::has_key(post.branches@[b].ownership@, p));
            }
        }
    }
}

/// Changing only a branch's name, order, head, tree or conflict flag — not
/// its `applied` flag or its ownership — keeps the claims of every branch,
/// and so keeps them disjoint.
pub proof fn lemma_branch_fields_keep_claims(pre: Seq<VirtualBranch>, post: Seq<VirtualBranch>)
    requires
        claims_disjoint(pre),
        post.len() == pre.len(),
        forall|q: int|
            0 <= q < pre.len() ==> (#[trigger] post[q]).ownership == pre[q].ownership
                && post[q].applied == pre[q].applied,
    ensures
        claims_disjoint(post),
        forall|q: int, p: Seq<char>, l: int|
            0 <= q < pre.len() ==> #[trigger] branch_claims(post[q], p, l) == branch_claims(
                pre[q],
                p,
                l,
            ),
{
    assert forall|q: int, p: Seq<char>, l: int|
        0 <= q < pre.len() implies #[trigger] branch_claims(post[q], p, l) == branch_claims(
        pre[q],
        p,
        l,
    ) by {
        assert(post[q].ownership@ == pre[q].ownership@);
    }
    assert forall|a: int, b: int, p: Seq<char>, l: int|
        0 <= a < b < post.len() && post[a].applied && post[b].applied implies !(
        #[trigger] branch_claims(post[a], p, l) && #[trigger] branch_claims(post[b], p, l)) by {
        assert(branch_claims(post[a], p, l) == branch_claims(pre[a], p, l));
        assert(branch_claims(post[b], p, l) == branch_claims(pre[b], p, l));
    }
}

} // verus!
