use vstd::prelude::*;

use crate::error::CoreError;

verus! {

/// A single edit applied to a file's character sequence. Operations are
/// captured against the pre-edit state and replayed strictly in recorded
/// order.
#[derive(Clone, Debug)]
pub enum Operation {
    /// Insert `text` so that its first character lands at offset `at`.
    Insert { at: usize, text: Vec<char> },
    /// Delete `count` characters starting at offset `at`.
    Delete { at: usize, count: usize },
}

/// One coalesced user edit event: the operations captured together, stamped
/// with the capture time.
#[derive(Clone, Debug)]
pub struct Delta {
    pub timestamp_ms: u64,
    pub operations: Vec<Operation>,
}

/// Whether `op`'s offsets are consistent with a sequence of this content.
pub open spec fn op_valid(text: Seq<char>, op: Operation) -> bool {
    match op {
        Operation::Insert { at, text: ins } => at <= text.len(),
        Operation::Delete { at, count } => at + count <= text.len(),
    }
}

/// The sequence after applying one operation; meaningful when `op_valid`.
pub open spec fn apply_op(text: Seq<char>, op: Operation) -> Seq<char> {
    match op {
        Operation::Insert { at, text: ins } => text.take(at as int) + ins@ + text.skip(at as int),
        Operation::Delete { at, count } => text.take(at as int) + text.skip(at + count),
    }
}

/// Whether every operation is in bounds when the sequence is folded
/// left-to-right from `base`.
pub open spec fn replay_valid(base: Seq<char>, ops: Seq<Operation>) -> bool
    decreases ops.len(),
{
    ops.len() == 0
        || (op_valid(base, ops[0]) && replay_valid(apply_op(base, ops[0]), ops.skip(1)))
}

/// The sequence after folding all operations left-to-right from `base`;
/// meaningful when `replay_valid`.
pub open spec fn replay_spec(base: Seq<char>, ops: Seq<Operation>) -> Seq<char>
    decreases ops.len(),
{
    if ops.len() == 0 {
        base
    } else {
        replay_spec(apply_op(base, ops[0]), ops.skip(1))
    }
}

/// Replaying one more operation is applying it to the replayed prefix.
pub proof fn lemma_replay_snoc(base: Seq<char>, ops: Seq<Operation>, op: Operation)
    ensures
        replay_valid(base, ops.push(op))
            == (replay_valid(base, ops) && op_valid(replay_spec(base, ops), op)),
        replay_valid(base, ops) ==> replay_spec(base, ops.push(op))
            == apply_op(replay_spec(base, ops), op),
    decreases ops.len(),
{
    if ops.len() == 0 {
        assert(ops.push(op)[0] == op);
        assert(ops.push(op).skip(1) =~= Seq::<Operation>::empty());
        assert(replay_valid(apply_op(base, op), Seq::<Operation>::empty()));
        assert(replay_spec(apply_op(base, op), Seq::<Operation>::empty())
            == apply_op(base, op));
        assert(replay_valid(base, Seq::<Operation>::empty()));
        assert(replay_spec(base, Seq::<Operation>::empty()) == base);
        assert(ops =~= Seq::<Operation>::empty());
    } else {
        assert(ops.push(op)[0] == ops[0]);
        assert(ops.push(op).skip(1) =~= ops.skip(1).push(op));
        lemma_replay_snoc(apply_op(base, ops[0]), ops.skip(1), op);
        assert(replay_valid(base, ops.push(op)) == (op_valid(base, ops[0])
            && replay_valid(apply_op(base, ops[0]), ops.skip(1).push(op))));
        assert(replay_valid(base, ops) == (op_valid(base, ops[0])
            && replay_valid(apply_op(base, ops[0]), ops.skip(1))));
        if replay_valid(base, ops) {
            assert(replay_spec(base, ops) == replay_spec(apply_op(base, ops[0]), ops.skip(1)));
            assert(replay_spec(base, ops.push(op))
                == replay_spec(apply_op(base, ops[0]), ops.skip(1).push(op)));
        }
    }
}

/// Replay determinism: for any base and any sequence of recorded operations,
/// two replays of the same operations from the same base yield identical
/// output. The executable `replay` pins its result to `replay_spec`, so this
/// holds of any two of its calls.
pub proof fn lemma_replay_deterministic(
    base: Seq<char>,
    ops: Seq<Operation>,
    first: Seq<char>,
    second: Seq<char>,
)
    requires
        first == replay_spec(base, ops),
        second == replay_spec(base, ops),
    ensures
        first == second,
{
}

/// Builds `text` with `remove` characters at `at` replaced by `ins`.
pub fn splice_chars(text: &Vec<char>, at: usize, remove: usize, ins: &Vec<char>) -> (r: Vec<char>)
    requires
        at + remove <= text@.len(),
    ensures
        r@ == text@.take(at as int) + ins@ + text@.skip(at + remove),
{
    let mut out: Vec<char> = Vec::new();
    let mut i: usize = 0;
    while i < at
        invariant
            i <= at,
            at + remove <= text@.len(),
            out@ == text@.take(i as int),
        decreases at - i,
    {
        out.push(text[i]);
        assert(out@ =~= text@.take(i + 1));
        i += 1;
    }
    let mut j: usize = 0;
    while j < ins.len()
        invariant
            j <= ins@.len(),
            at + remove <= text@.len(),
            out@ == text@.take(at as int) + ins@.take(j as int),
        decreases ins@.len() - j,
    {
        out.push(ins[j]);
        assert(out@ =~= text@.take(at as int) + ins@.take(j + 1));
        j += 1;
    }
    assert(ins@.take(ins@.len() as int) =~= ins@);
    let n: usize = text.len();
    let mut k: usize = at + remove;
    while k < n
        invariant
            n == text@.len(),
            at + remove <= k <= text@.len(),
            out@ == text@.take(at as int) + ins@ + text@.subrange((at + remove) as int, k as int),
        decreases text@.len() - k,
    {
        out.push(text[k]);
        assert(out@ =~= text@.take(at as int) + ins@
            + text@.subrange((at + remove) as int, k + 1));
        k += 1;
    }
    assert(text@.subrange((at + remove) as int, text@.len() as int) =~= text@.skip(at + remove));
    out
}

impl Operation {
    /// Applies this operation to `text`. Total and deterministic; fails with
    /// `MalformedOperation` exactly when the offsets are out of bounds, and
    /// never clamps.
    pub fn apply(&self, text: &Vec<char>) -> (r: Result<Vec<char>, CoreError>)
        ensures
            r is Ok <==> op_valid(text@, *self),
            r matches Ok(out) ==> out@ == apply_op(text@, *self),
            r is Err ==> r == Err::<Vec<char>, CoreError>(CoreError::MalformedOperation),
    {
        match self {
            Operation::Insert { at, text: ins } => {
                if *at > text.len() {
                    return Err(CoreError::MalformedOperation);
                }
                let r = splice_chars(text, *at, 0, ins);
                assert(r@ =~= apply_op(text@, *self));
                Ok(r)
            },
            Operation::Delete { at, count } => {
                if *count > text.len() || *at > text.len() - *count {
                    return Err(CoreError::MalformedOperation);
                }
                let empty: Vec<char> = Vec::new();
                let r = splice_chars(text, *at, *count, &empty);
                assert(r@ =~= apply_op(text@, *self));
                Ok(r)
            },
        }
    }
}

/// Folds `ops` left-to-right over `base`. Fails with `MalformedOperation`
/// exactly when some operation's offsets are inconsistent with the sequence
/// it is replayed against; on success the result is `replay_spec`, so replay
/// is deterministic.
pub fn replay(base: &Vec<char>, ops: &Vec<Operation>) -> (r: Result<Vec<char>, CoreError>)
    ensures
        r is Ok <==> replay_valid(base@, ops@),
        r matches Ok(out) ==> out@ == replay_spec(base@, ops@),
        r is Err ==> r == Err::<Vec<char>, CoreError>(CoreError::MalformedOperation),
{
    let empty: Vec<char> = Vec::new();
    let mut cur: Vec<char> = splice_chars(base, 0, 0, &empty);
    assert(cur@ =~= base@);
    let mut i: usize = 0;
    while i < ops.len()
        invariant
            i <= ops@.len(),
            replay_valid(base@, ops@.take(i as int)),
            cur@ == replay_spec(base@, ops@.take(i as int)),
        decreases ops@.len() - i,
    {
        proof {
            lemma_replay_snoc(base@, ops@.take(i as int), ops@[i as int]);
            assert(ops@.take(i as int).push(ops@[i as int]) =~= ops@.take(i + 1));
        }
        match ops[i].apply(&cur) {
            Ok(next) => {
                cur = next;
            },
            Err(_) => {
                proof {
                    lemma_replay_prefix_invalid(base@, ops@, i as int);
                }
                return Err(CoreError::MalformedOperation);
            },
        }
        i += 1;
    }
    assert(ops@.take(ops@.len() as int) =~= ops@);
    Ok(cur)
}

/// If replay is valid up to `i` but the operation at `i` is out of bounds,
/// the whole sequence does not replay.
pub proof fn lemma_replay_prefix_invalid(base: Seq<char>, ops: Seq<Operation>, i: int)
    requires
        0 <= i < ops.len(),
        replay_valid(base, ops.take(i)),
        !op_valid(replay_spec(base, ops.take(i)), ops[i]),
    ensures
        !replay_valid(base, ops),
    decreases i,
{
    if i == 0 {
        assert(ops.take(0) =~= Seq::<Operation>::empty());
    } else {
        assert(ops.take(i)[0] == ops[0]);
        assert(ops.take(i).skip(1) =~= ops.skip(1).take(i - 1));
        assert(ops.skip(1)[i - 1] == ops[i]);
        lemma_replay_prefix_invalid(apply_op(base, ops[0]), ops.skip(1), i - 1);
    }
}

} // verus!
