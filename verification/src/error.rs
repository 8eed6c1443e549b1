use vstd::prelude::*;

verus! {

/// The recoverable failures the engine reports. A failed call leaves all
/// durable state (journal, commits, branch heads) exactly as before the call.
#[derive(Clone, Copy, Debug, PartialEq, Eq, Structural)]
pub enum CoreError {
    /// An operation's offset or length is inconsistent with the sequence it
    /// is replayed against; never clamped, always surfaced.
    MalformedOperation,
    /// An apply or assign would violate the non-overlap invariant of claims;
    /// the operation is refused and the state unchanged.
    OwnershipConflict,
    /// An unapply cannot cleanly subtract the branch's region; the branch
    /// remains applied.
    DirtyUnapplyConflict,
    /// Commit or tree construction failed; the session remains open and
    /// branch heads unchanged, so a retry is safe.
    FlushFailed,
    /// The upstream is unreachable; cached base-branch data is retained and
    /// marked stale rather than discarded.
    SyncUnavailable,
}

impl CoreError {
    /// A short, stable description of the error.
    pub fn describe(&self) -> (r: &'static str)
        ensures
            self is MalformedOperation ==> r@ == "malformed operation"@,
            self is OwnershipConflict ==> r@ == "ownership conflict"@,
            self is DirtyUnapplyConflict ==> r@ == "dirty unapply conflict"@,
            self is FlushFailed ==> r@ == "flush failed"@,
            self is SyncUnavailable ==> r@ == "sync unavailable"@,
    {
        match self {
            CoreError::MalformedOperation => "malformed operation",
            CoreError::OwnershipConflict => "ownership conflict",
            CoreError::DirtyUnapplyConflict => "dirty unapply conflict",
            CoreError::FlushFailed => "flush failed",
            CoreError::SyncUnavailable => "sync unavailable",
        }
    }
}

} // verus!
