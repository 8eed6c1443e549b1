use vstd::prelude::*;

use crate::error::CoreError;
use crate::ops::{
    apply_op, lemma_replay_snoc, replay_spec, replay_valid, splice_chars, Delta, Operation,
};
use crate::session::{lemma_ops_of_push, ops_of, FileDeltas};

verus! {

/// One hit of the document index, as the index hands it back.
pub struct SearchResult {
    pub session_hash: String,
    pub file_path: String,
    pub index: u64,
}

/// One document for the index, per operation of a flushed session: which
/// delta of which file, and the exact text the operation added or removed.
pub struct IndexRecord {
    pub index: u64,
    pub session_hash: String,
    pub file_path: String,
    pub diff: Vec<char>,
    pub is_addition: bool,
    pub is_deletion: bool,
}

/// The text an operation adds or removes: the inserted text, or the slice of
/// the pre-delete state that the deletion takes out. The journal does not
/// store deleted text; it is reconstructed by replaying up to the operation.
pub open spec fn op_diff(text: Seq<char>, op: Operation) -> Seq<char> {
    match op {
        Operation::Insert { at, text: ins } => ins@,
        Operation::Delete { at, count } => text.subrange(at as int, at + count),
    }
}

/// The added-or-removed text of every operation, each against the state the
/// preceding operations left.
pub open spec fn diffs_of(text: Seq<char>, ops: Seq<Operation>) -> Seq<Seq<char>>
    decreases ops.len(),
{
    if ops.len() == 0 {
        Seq::empty()
    } else {
        seq![op_diff(text, ops[0])] + diffs_of(apply_op(text, ops[0]), ops.skip(1))
    }
}

/// There is one diff per operation.
pub proof fn lemma_diffs_len(text: Seq<char>, ops: Seq<Operation>)
    ensures
        diffs_of(text, ops).len() == ops.len(),
    decreases ops.len(),
{
    if ops.len() > 0 {
        lemma_diffs_len(apply_op(text, ops[0]), ops.skip(1));
    }
}

/// One more operation appends one more diff, taken against the replayed
/// prefix.
pub proof fn lemma_diffs_snoc(text: Seq<char>, ops: Seq<Operation>, op: Operation)
    requires
        replay_valid(text, ops),
    ensures
        diffs_of(text, ops.push(op)) == diffs_of(text, ops).push(
            op_diff(replay_spec(text, ops), op),
        ),
    decreases ops.len(),
{
    if ops.len() == 0 {
        assert(ops.push(op)[0] == op);
        assert(ops.push(op).skip(1) =~= Seq::<Operation>::empty());
        assert(diffs_of(apply_op(text, op), Seq::<Operation>::empty()) == Seq::<
            Seq<char>,
        >::empty());
        assert(diffs_of(text, ops) == Seq::<Seq<char>>::empty());
        assert(replay_spec(text, ops) == text);
        assert(diffs_of(text, ops.push(op)) == seq![op_diff(text, op)] + Seq::<
            Seq<char>,
        >::empty());
        assert(diffs_of(text, ops.push(op)) =~= diffs_of(text, ops).push(
            op_diff(replay_spec(text, ops), op),
        ));
    } else {
        assert(ops.push(op)[0] == ops[0]);
        assert(ops.push(op).skip(1) =~= ops.skip(1).push(op));
        lemma_diffs_snoc(apply_op(text, ops[0]), ops.skip(1), op);
        assert(diffs_of(text, ops.push(op)) =~= diffs_of(text, ops).push(
            op_diff(replay_spec(text, ops), op),
        ));
    }
}

/// Builds the index documents of one delta: one record per operation, with
/// the delta's position, the session hash, the file path and the exact text
/// the operation added or removed, and returns the text the delta leaves.
/// Fails with `MalformedOperation` exactly when the delta does not replay
/// over `text_before`.
pub fn records_for_delta(
    path: &String,
    hash: &String,
    delta_index: u64,
    text_before: &Vec<char>,
    delta: &Delta,
) -> (r: Result<(Vec<IndexRecord>, Vec<char>), CoreError>)
    ensures
        r is Ok <==> replay_valid(text_before@, delta.operations@),
        r matches Ok((recs, after)) ==> {
            &&& after@ == replay_spec(text_before@, delta.operations@)
            &&& recs@.len() == delta.operations@.len()
            &&& forall|k: int|
                0 <= k < recs@.len() ==> {
                    let rec = #[trigger] recs@[k];
                    &&& rec.index == delta_index
                    &&& rec.session_hash@ == hash@
                    &&& rec.file_path@ == path@
                    &&& rec.diff@ == diffs_of(text_before@, delta.operations@)[k]
                    &&& rec.is_addition == (delta.operations@[k] is Insert)
                    &&& rec.is_deletion == (delta.operations@[k] is Delete)
                }
        },
        r is Err ==> r == Err::<(Vec<IndexRecord>, Vec<char>), CoreError>(
            CoreError::MalformedOperation,
        ),
{
    let empty: Vec<char> = Vec::new();
    let mut text = splice_chars(text_before, 0, 0, &empty);
    proof {
        assert(text@ =~= text_before@);
    }
    let mut recs: Vec<IndexRecord> = Vec::new();
    let mut oi: usize = 0;
    while oi < delta.operations.len()
        invariant
            oi <= delta.operations@.len(),
            replay_valid(text_before@, delta.operations@.take(oi as int)),
            text@ == replay_spec(text_before@, delta.operations@.take(oi as int)),
            recs@.len() == oi,
            forall|k: int|
                0 <= k < oi ==> {
                    let rec = #[trigger] recs@[k];
                    &&& rec.index == delta_index
                    &&& rec.session_hash@ == hash@
                    &&& rec.file_path@ == path@
                    &&& rec.diff@ == diffs_of(text_before@, delta.operations@.take(oi as int))[k]
                    &&& rec.is_addition == (delta.operations@[k] is Insert)
                    &&& rec.is_deletion == (delta.operations@[k] is Delete)
                },
        decreases delta.operations@.len() - oi,
    {
        let ghost prefix = delta.operations@.take(oi as int);
        proof {
            lemma_replay_snoc(text_before@, prefix, delta.operations@[oi as int]);
            lemma_diffs_snoc(text_before@, prefix, delta.operations@[oi as int]);
            lemma_diffs_len(text_before@, prefix);
            lemma_diffs_len(text_before@, prefix.push(delta.operations@[oi as int]));
            assert(prefix.push(delta.operations@[oi as int]) =~= delta.operations@.take(oi + 1));
        }
        let op = &delta.operations[oi];
        let diff: Vec<char>;
        let is_addition: bool;
        match op {
            Operation::Insert { at: _, text: ins } => {
                let inner_empty: Vec<char> = Vec::new();
                let d = splice_chars(ins, 0, 0, &inner_empty);
                proof {
                    assert(d@ =~= ins@);
                }
                diff = d;
                is_addition = true;
            },
            Operation::Delete { at, count } => {
                if *count > text.len() || *at > text.len() - *count {
                    proof {
                        crate::ops::lemma_replay_prefix_invalid(
                            text_before@,
                            delta.operations@,
                            oi as int,
                        );
                    }
                    return Err(CoreError::MalformedOperation);
                }
                // The removed slice, reconstructed from the replayed state.
                let mut cut: Vec<char> = Vec::new();
                let mut w: usize = 0;
                while w < *count
                    invariant
                        w <= *count,
                        *at + *count <= text@.len(),
                        text@.len() <= usize::MAX,
                        cut@ == text@.subrange(*at as int, *at + w),
                    decreases *count - w,
                {
                    cut.push(text[*at + w]);
                    proof {
                        assert(cut@ =~= text@.subrange(*at as int, *at + w + 1));
                    }
                    w += 1;
                }
                diff = cut;
                is_addition = false;
            },
        };
        match op.apply(&text) {
            Ok(next) => {
                recs.push(
                    IndexRecord {
                        index: delta_index,
                        session_hash: hash.clone(),
                        file_path: path.clone(),
                        diff,
                        is_addition,
                        is_deletion: !is_addition,
                    },
                );
                text = next;
            },
            Err(_) => {
                proof {
                    crate::ops::lemma_replay_prefix_invalid(
                        text_before@,
                        delta.operations@,
                        oi as int,
                    );
                }
                return Err(CoreError::MalformedOperation);
            },
        }
        oi += 1;
    }
    proof {
        assert(delta.operations@.take(delta.operations@.len() as int) =~= delta.operations@);
        lemma_diffs_len(text_before@, delta.operations@);
    }
    Ok((recs, text))
}

/// The documents of a whole file's session journal: the records of each
/// delta in order, each delta read against the state the previous deltas
/// left, carrying its position in the journal.
pub open spec fn file_record_views(text: Seq<char>, deltas: Seq<Delta>, di: int) -> Seq<
    (int, Seq<char>, bool, bool),
>
    decreases deltas.len(),
{
    if deltas.len() == 0 {
        Seq::empty()
    } else {
        Seq::new(
            deltas[0].operations@.len(),
            |k: int|
                (
                    di,
                    diffs_of(text, deltas[0].operations@)[k],
                    deltas[0].operations@[k] is Insert,
                    deltas[0].operations@[k] is Delete,
                ),
        ) + file_record_views(replay_spec(text, deltas[0].operations@), deltas.skip(1), di + 1)
    }
}

/// One more delta appends its records, read against the replayed journal.
pub proof fn lemma_file_record_views_snoc(text: Seq<char>, deltas: Seq<Delta>, d: Delta, di: int)
    requires
        replay_valid(text, ops_of(deltas)),
    ensures
        file_record_views(text, deltas.push(d), di) == file_record_views(text, deltas, di)
            + Seq::new(
            d.operations@.len(),
            |k: int|
                (
                    di + deltas.len(),
                    diffs_of(replay_spec(text, ops_of(deltas)), d.operations@)[k],
                    d.operations@[k] is Insert,
                    d.operations@[k] is Delete,
                ),
        ),
    decreases deltas.len(),
{
    if deltas.len() == 0 {
        assert(deltas.push(d)[0] == d);
        assert(deltas.push(d).skip(1) =~= Seq::<Delta>::empty());
        assert(ops_of(deltas) =~= Seq::<Operation>::empty());
        assert(replay_spec(text, ops_of(deltas)) == text);
        assert(file_record_views(replay_spec(text, d.operations@), Seq::<Delta>::empty(), di + 1)
            == Seq::<(int, Seq<char>, bool, bool)>::empty());
        assert(file_record_views(text, deltas, di) == Seq::<(int, Seq<char>, bool, bool)>::empty());
        assert(file_record_views(text, deltas.push(d), di) =~= file_record_views(text, deltas, di)
            + Seq::new(
            d.operations@.len(),
            |k: int|
                (
                    di + deltas.len(),
                    diffs_of(replay_spec(text, ops_of(deltas)), d.operations@)[k],
                    d.operations@[k] is Insert,
                    d.operations@[k] is Delete,
                ),
        ));
    } else {
        assert(deltas.push(d)[0] == deltas[0]);
        assert(deltas.push(d).skip(1) =~= deltas.skip(1).push(d));
        assert(replay_valid(text, deltas[0].operations@) && replay_valid(
            replay_spec(text, deltas[0].operations@),
            ops_of(deltas.skip(1)),
        ) && replay_spec(text, ops_of(deltas)) == replay_spec(
            replay_spec(text, deltas[0].operations@),
            ops_of(deltas.skip(1)),
        )) by {
            lemma_replay_split(text, deltas[0].operations@, ops_of(deltas.skip(1)));
            assert(deltas[0].operations@ + ops_of(deltas.skip(1)) == ops_of(deltas));
        }
        lemma_file_record_views_snoc(
            replay_spec(text, deltas[0].operations@),
            deltas.skip(1),
            d,
            di + 1,
        );
        assert(file_record_views(text, deltas.push(d), di) =~= file_record_views(text, deltas, di)
            + Seq::new(
            d.operations@.len(),
            |k: int|
                (
                    di + deltas.len(),
                    diffs_of(replay_spec(text, ops_of(deltas)), d.operations@)[k],
                    d.operations@[k] is Insert,
                    d.operations@[k] is Delete,
                ),
        ));
    }
}

/// Replaying a concatenation is replaying the first part, then the second.
pub proof fn lemma_replay_split(base: Seq<char>, a: Seq<Operation>, b: Seq<Operation>)
    ensures
        replay_valid(base, a + b) == (replay_valid(base, a) && replay_valid(
            replay_spec(base, a),
            b,
        )),
        (replay_valid(base, a) && replay_valid(replay_spec(base, a), b)) ==> replay_spec(
            base,
            a + b,
        ) == replay_spec(replay_spec(base, a), b),
    decreases a.len(),
{
    if a.len() == 0 {
        assert(a + b =~= b);
        assert(replay_valid(base, a));
        assert(replay_spec(base, a) == base);
    } else {
        assert((a + b)[0] == a[0]);
        assert((a + b).skip(1) =~= a.skip(1) + b);
        lemma_replay_split(apply_op(base, a[0]), a.skip(1), b);
    }
}

/// Builds the stream of index documents of one file's session journal. Never
/// fails on a journal the session invariant holds of: every delta replays.
pub fn records_for_file(hash: &String, file: &FileDeltas) -> (r: Result<Vec<IndexRecord>, CoreError>)
    ensures
        r is Ok <==> replay_valid(file.base_text@, ops_of(file.deltas@)),
        r matches Ok(recs) ==> {
            let views = file_record_views(file.base_text@, file.deltas@, 0);
            &&& recs@.len() == views.len()
            &&& forall|k: int|
                0 <= k < recs@.len() ==> {
                    let rec = #[trigger] recs@[k];
                    &&& rec.index == views[k].0
                    &&& rec.session_hash@ == hash@
                    &&& rec.file_path@ == file.path@
                    &&& rec.diff@ == views[k].1
                    &&& rec.is_addition == views[k].2
                    &&& rec.is_deletion == views[k].3
                }
        },
        r is Err ==> r == Err::<Vec<IndexRecord>, CoreError>(CoreError::MalformedOperation),
{
    let empty: Vec<char> = Vec::new();
    let mut text = splice_chars(&file.base_text, 0, 0, &empty);
    proof {
        assert(text@ =~= file.base_text@);
    }
    let mut out: Vec<IndexRecord> = Vec::new();
    let mut di: usize = 0;
    while di < file.deltas.len()
        invariant
            di <= file.deltas@.len(),
            replay_valid(file.base_text@, ops_of(file.deltas@.take(di as int))),
            text@ == replay_spec(file.base_text@, ops_of(file.deltas@.take(di as int))),
            ({
                let views = file_record_views(file.base_text@, file.deltas@.take(di as int), 0);
                &&& out@.len() == views.len()
                &&& forall|k: int|
                    0 <= k < out@.len() ==> {
                        let rec = #[trigger] out@[k];
                        &&& rec.index == views[k].0
                        &&& rec.session_hash@ == hash@
                        &&& rec.file_path@ == file.path@
                        &&& rec.diff@ == views[k].1
                        &&& rec.is_addition == views[k].2
                        &&& rec.is_deletion == views[k].3
                    }
            }),
        decreases file.deltas@.len() - di,
    {
        let ghost prefix = file.deltas@.take(di as int);
        let ghost d = file.deltas@[di as int];
        proof {
            lemma_ops_of_push(prefix, d);
            lemma_file_record_views_snoc(file.base_text@, prefix, d, 0);
            lemma_replay_split(file.base_text@, ops_of(prefix), d.operations@);
            assert(prefix.push(d) =~= file.deltas@.take(di + 1));
            assert(ops_of(prefix) + d.operations@ == ops_of(prefix.push(d)));
        }
        let idx: u64 = di as u64;
        match records_for_delta(&file.path, hash, idx, &text, &file.deltas[di]) {
            Ok((mut recs, next)) => {
                let ghost out_pre = out@;
                let ghost recs_pre = recs@;
                out.append(&mut recs);
                proof {
                    assert(out@ == out_pre + recs_pre);
                }
                text = next;
            },
            Err(_) => {
                proof {
                    assert(!replay_valid(
                        replay_spec(file.base_text@, ops_of(prefix)),
                        d.operations@,
                    ));
                    assert(!replay_valid(file.base_text@, ops_of(prefix) + d.operations@));
                    lemma_replay_not_extendable(file.base_text@, file.deltas@, di as int);
                }
                return Err(CoreError::MalformedOperation);
            },
        }
        di += 1;
    }
    proof {
        assert(file.deltas@.take(file.deltas@.len() as int) =~= file.deltas@);
    }
    Ok(out)
}

/// If the journal fails to replay through delta `di`, the whole journal
/// fails to replay.
pub proof fn lemma_replay_not_extendable(base: Seq<char>, deltas: Seq<Delta>, di: int)
    requires
        0 <= di < deltas.len(),
        !replay_valid(base, ops_of(deltas.take(di + 1))),
    ensures
        !replay_valid(base, ops_of(deltas)),
    decreases deltas.len() - di,
{
    if di + 1 < deltas.len() {
        lemma_ops_of_push(deltas.take(di + 1), deltas[di + 1]);
        assert(deltas.take(di + 1).push(deltas[di + 1]) =~= deltas.take(di + 2));
        lemma_replay_split(base, ops_of(deltas.take(di + 1)), deltas[di + 1].operations@);
        lemma_replay_not_extendable(base, deltas, di + 1);
    } else {
        assert(deltas.take(di + 1) =~= deltas);
    }
}

} // verus!
