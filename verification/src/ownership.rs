use vstd::prelude::*;

use crate::keyed::Keyed;

verus! {

/// A claimed range of lines of one file's diff against base: `count` lines
/// starting at line `start` (half-open, zero-based).
#[derive(Clone, Copy, Debug, PartialEq, Eq, Structural)]
pub struct Hunk {
    pub start: usize,
    pub count: usize,
}

/// The portion of one file claimed by a virtual branch.
#[derive(Clone, Debug)]
pub struct FileOwnership {
    pub file_path: String,
    pub hunks: Vec<Hunk>,
}

impl Keyed for FileOwnership {
    open spec fn key(&self) -> Seq<char> {
        self.file_path@
    }

    fn key_matches(&self, path: &String) -> (r: bool) {
        self.file_path.eq(path)
    }
}

/// Whether `line` lies inside the range `h`.
pub open spec fn hunk_covers(h: Hunk, line: int) -> bool {
    h.start <= line < h.start + h.count
}

/// Whether some range in `hs` contains `line`.
pub open spec fn covers(hs: Seq<Hunk>, line: int) -> bool {
    exists|i: int| 0 <= i < hs.len() && hunk_covers(hs[i], line)
}

/// The range's end does not overflow the machine.
pub open spec fn hunk_bounded(h: Hunk) -> bool {
    h.start + h.count <= usize::MAX
}

/// Every range in `hs` is machine-bounded.
pub open spec fn hunks_bounded(hs: Seq<Hunk>) -> bool {
    forall|i: int| 0 <= i < hs.len() ==> hunk_bounded(#[trigger] hs[i])
}

/// Appending a range extends the covered lines by exactly that range.
pub proof fn lemma_covers_push(hs: Seq<Hunk>, h: Hunk)
    ensures
        forall|line: int|
            #[trigger] covers(hs.push(h), line) == (covers(hs, line) || hunk_covers(h, line)),
{
    assert forall|line: int|
        #[trigger] covers(hs.push(h), line) == (covers(hs, line) || hunk_covers(h, line)) by {
        if covers(hs, line) {
            let j = choose|j: int| 0 <= j < hs.len() && hunk_covers(hs[j], line);
            assert(hs.push(h)[j] == hs[j]);
            assert(covers(hs.push(h), line));
        }
        if hunk_covers(h, line) {
            assert(hs.push(h)[hs.len() as int] == h);
            assert(covers(hs.push(h), line));
        }
        if covers(hs.push(h), line) {
            let j = choose|j: int| 0 <= j < hs.push(h).len() && hunk_covers(hs.push(h)[j], line);
            if j < hs.len() {
                assert(hunk_covers(hs[j], line));
            } else {
                assert(hs.push(h)[j] == h);
            }
        }
    }
}

/// The lines of `hunks` with the range `r` taken out: the claims of another
/// branch after `r` has been claimed away from it. Ranges are split as
/// needed; the covered lines of the result are exactly the old covered lines
/// outside `r`.
pub fn remove_range(hunks: &Vec<Hunk>, r: Hunk) -> (out: Vec<Hunk>)
    requires
        hunks_bounded(hunks@),
        hunk_bounded(r),
    ensures
        hunks_bounded(out@),
        forall|line: int|
            #[trigger] covers(out@, line) == (covers(hunks@, line) && !hunk_covers(r, line)),
{
    let mut out: Vec<Hunk> = Vec::new();
    let mut i: usize = 0;
    while i < hunks.len()
        invariant
            i <= hunks@.len(),
            hunks_bounded(hunks@),
            hunk_bounded(r),
            hunks_bounded(out@),
            forall|line: int|
                #[trigger] covers(out@, line)
                    == (covers(hunks@.take(i as int), line) && !hunk_covers(r, line)),
        decreases hunks@.len() - i,
    {
        let h = hunks[i];
        proof {
            assert(hunks@.take(i + 1) =~= hunks@.take(i as int).push(h));
            lemma_covers_push(hunks@.take(i as int), h);
        }
        let h_end: usize = h.start + h.count;
        let r_end: usize = r.start + r.count;
        if h.start < r.start {
            let cut: usize = if h_end < r.start {
                h_end
            } else {
                r.start
            };
            let left = Hunk { start: h.start, count: cut - h.start };
            proof {
                lemma_covers_push(out@, left);
            }
            out.push(left);
        }
        if h_end > r_end {
            let rstart: usize = if h.start > r_end {
                h.start
            } else {
                r_end
            };
            let right = Hunk { start: rstart, count: h_end - rstart };
            proof {
                lemma_covers_push(out@, right);
            }
            out.push(right);
        }
        i += 1;
    }
    proof {
        assert(hunks@.take(hunks@.len() as int) =~= hunks@);
    }
    out
}

/// Re-anchors claimed ranges after an edit that replaced `removed` lines by
/// `added` lines at line `at_line`: every range that starts at or after the
/// replaced region shifts by the net line change, every other range is left
/// as it stands. This transform is run over all stored ranges whenever a
/// replay touches lines above them.
pub fn shift_hunks(hunks: &Vec<Hunk>, at_line: usize, removed: usize, added: usize) -> (out: Vec<
    Hunk,
>)
    requires
        hunks_bounded(hunks@),
        at_line + removed <= usize::MAX,
        forall|i: int|
            0 <= i < hunks@.len() ==> (#[trigger] hunks@[i]).start + hunks@[i].count + added
                <= usize::MAX,
    ensures
        out@.len() == hunks@.len(),
        forall|i: int|
            0 <= i < hunks@.len() ==> #[trigger] out@[i] == (if hunks@[i].start >= at_line
                + removed {
                Hunk {
                    start: (hunks@[i].start - removed + added) as usize,
                    count: hunks@[i].count,
                }
            } else {
                hunks@[i]
            }),
{
    let mut out: Vec<Hunk> = Vec::new();
    let mut i: usize = 0;
    while i < hunks.len()
        invariant
            i <= hunks@.len(),
            out@.len() == i,
            hunks_bounded(hunks@),
            at_line + removed <= usize::MAX,
            forall|j: int|
                0 <= j < hunks@.len() ==> (#[trigger] hunks@[j]).start + hunks@[j].count + added
                    <= usize::MAX,
            forall|j: int|
                0 <= j < i ==> #[trigger] out@[j] == (if hunks@[j].start >= at_line + removed {
                    Hunk {
                        start: (hunks@[j].start - removed + added) as usize,
                        count: hunks@[j].count,
                    }
                } else {
                    hunks@[j]
                }),
        decreases hunks@.len() - i,
    {
        let h = hunks[i];
        if h.start >= at_line + removed {
            out.push(Hunk { start: h.start - removed + added, count: h.count });
        } else {
            out.push(h);
        }
        i += 1;
    }
    out
}

} // verus!
