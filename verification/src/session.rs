use vstd::prelude::*;

use crate::keyed::Keyed;
use crate::ops::{Delta, Operation};

verus! {

/// A bounded window of recorded edits for one project. Created when the first
/// edit after the previous flush occurs; closed, with a commit hash assigned,
/// exactly when a flush completes.
#[derive(Clone, Copy, Debug, PartialEq, Eq, Structural)]
pub struct Session {
    pub id: u64,
    pub project_id: u64,
    pub started_at_ms: u64,
    pub ended_at_ms: Option<u64>,
    pub commit_hash: Option<u64>,
}

/// The journal of one file within the open session: the text the file had
/// when the session first touched it, and the deltas recorded since, in
/// capture order.
#[derive(Clone, Debug)]
pub struct FileDeltas {
    pub path: String,
    pub base_text: Vec<char>,
    pub deltas: Vec<Delta>,
}

impl Keyed for FileDeltas {
    open spec fn key(&self) -> Seq<char> {
        self.path@
    }

    fn key_matches(&self, path: &String) -> (r: bool) {
        self.path.eq(path)
    }
}

/// The currently open session of a project: its metadata and its per-file
/// journal.
#[derive(Clone, Debug)]
pub struct OpenSession {
    pub meta: Session,
    pub files: Vec<FileDeltas>,
}

/// All operations of a sequence of deltas, flattened in capture order.
pub open spec fn ops_of(deltas: Seq<Delta>) -> Seq<Operation>
    decreases deltas.len(),
{
    if deltas.len() == 0 {
        Seq::empty()
    } else {
        deltas[0].operations@ + ops_of(deltas.skip(1))
    }
}

/// Appending a delta appends its operations.
pub proof fn lemma_ops_of_push(deltas: Seq<Delta>, d: Delta)
    ensures
        ops_of(deltas.push(d)) == ops_of(deltas) + d.operations@,
    decreases deltas.len(),
{
    if deltas.len() == 0 {
        assert(deltas.push(d).skip(1) =~= Seq::<Delta>::empty());
        assert(ops_of(Seq::<Delta>::empty()) == Seq::<Operation>::empty());
        assert(ops_of(deltas.push(d)) == deltas.push(d)[0].operations@ + ops_of(
            deltas.push(d).skip(1),
        ));
        assert(deltas.push(d)[0] == d);
        assert(ops_of(deltas.push(d)) =~= ops_of(deltas) + d.operations@);
    } else {
        assert(deltas.push(d)[0] == deltas[0]);
        assert(deltas.push(d).skip(1) =~= deltas.skip(1).push(d));
        lemma_ops_of_push(deltas.skip(1), d);
        assert(deltas[0].operations@ + (ops_of(deltas.skip(1)) + d.operations@)
            =~= (deltas[0].operations@ + ops_of(deltas.skip(1))) + d.operations@);
    }
}

} // verus!
