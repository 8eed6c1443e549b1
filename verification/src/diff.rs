use vstd::prelude::*;

use crate::keyed::Keyed;

verus! {

/// One hunk of a line-based diff against the base: `removed` base lines
/// starting at base line `start` are replaced by `lines`. Diffs come from the
/// version-control backend, which hands them over ordered and non-overlapping.
#[derive(Clone, Debug)]
pub struct DiffHunk {
    pub start: usize,
    pub removed: usize,
    pub lines: Vec<String>,
}

/// The diff hunks of one file.
#[derive(Clone, Debug)]
pub struct FileDiff {
    pub path: String,
    pub hunks: Vec<DiffHunk>,
}

impl Keyed for FileDiff {
    open spec fn key(&self) -> Seq<char> {
        self.path@
    }

    fn key_matches(&self, path: &String) -> (r: bool) {
        self.path.eq(path)
    }
}

/// One file of the working directory as the accessor sees it: its path and
/// its lines.
#[derive(Clone, Debug)]
pub struct WdFile {
    pub path: String,
    pub lines: Vec<String>,
}

impl Keyed for WdFile {
    open spec fn key(&self) -> Seq<char> {
        self.path@
    }

    fn key_matches(&self, path: &String) -> (r: bool) {
        self.path.eq(path)
    }
}

/// The lines after applying one hunk at its base coordinates; the sequence is
/// left as it stands if the hunk reaches past its end.
pub open spec fn splice_spec(s: Seq<Seq<char>>, h: DiffHunk) -> Seq<Seq<char>> {
    if h.start + h.removed <= s.len() {
        s.take(h.start as int) + h.lines.deep_view() + s.skip(h.start + h.removed)
    } else {
        s
    }
}

/// The lines after applying every hunk of `hs`, highest base position first,
/// so that each hunk lands at its base coordinates.
pub open spec fn patch_spec(s: Seq<Seq<char>>, hs: Seq<DiffHunk>) -> Seq<Seq<char>>
    decreases hs.len(),
{
    if hs.len() == 0 {
        s
    } else {
        splice_spec(patch_spec(s, hs.skip(1)), hs[0])
    }
}

/// The hunks replace pairwise disjoint base ranges, in ascending order.
pub open spec fn hunks_ordered(hs: Seq<DiffHunk>) -> bool {
    forall|i: int, j: int|
        0 <= i < j < hs.len() ==> (#[trigger] hs[i]).start + hs[i].removed
            <= (#[trigger] hs[j]).start
}

/// Every hunk replaces a range inside a base of `n` lines.
pub open spec fn hunks_within(hs: Seq<DiffHunk>, n: int) -> bool {
    forall|i: int| 0 <= i < hs.len() ==> (#[trigger] hs[i]).start + hs[i].removed <= n
}

/// Every hunk starts at or after line `k`.
pub open spec fn starts_from(hs: Seq<DiffHunk>, k: int) -> bool {
    forall|i: int| 0 <= i < hs.len() ==> k <= (#[trigger] hs[i]).start
}

/// A well-formed diff of a file with `n` base lines.
pub open spec fn diff_wf(hs: Seq<DiffHunk>, n: int) -> bool {
    hunks_ordered(hs) && hunks_within(hs, n)
}

/// The hunks whose flag in `keep` is set, in order.
pub open spec fn masked(hs: Seq<DiffHunk>, keep: Seq<bool>) -> Seq<DiffHunk>
    decreases hs.len(),
{
    if hs.len() == 0 {
        Seq::empty()
    } else if keep.len() > 0 && keep[0] {
        seq![hs[0]] + masked(hs.skip(1), keep.skip(1))
    } else {
        masked(hs.skip(1), keep.skip(1))
    }
}

/// Selecting hunks keeps them ordered, within bounds and at or after `k`.
pub proof fn lemma_masked_props(hs: Seq<DiffHunk>, keep: Seq<bool>, n: int, k: int)
    requires
        hunks_ordered(hs),
        hunks_within(hs, n),
        starts_from(hs, k),
    ensures
        hunks_ordered(masked(hs, keep)),
        hunks_within(masked(hs, keep), n),
        starts_from(masked(hs, keep), k),
    decreases hs.len(),
{
    if hs.len() == 0 {
    } else {
        let rest = hs.skip(1);
        let e = hs[0].start + hs[0].removed;
        assert(starts_from(rest, e)) by {
            assert forall|i: int| 0 <= i < rest.len() implies e <= (#[trigger] rest[i]).start by {
                assert(rest[i] == hs[i + 1]);
            }
        }
        lemma_masked_props(rest, keep.skip(1), n, e);
        let mrest = masked(rest, keep.skip(1));
        assert(starts_from(mrest, k)) by {
            assert forall|i: int| 0 <= i < mrest.len() implies k <= (#[trigger] mrest[i]).start by {
                assert(e <= mrest[i].start);
            }
        }
        if keep.len() > 0 && keep[0] {
            let m = seq![hs[0]] + mrest;
            assert forall|i: int, j: int|
                0 <= i < j < m.len() implies (#[trigger] m[i]).start + m[i].removed
                    <= (#[trigger] m[j]).start by {
                if i == 0 {
                    assert(m[0] == hs[0]);
                    assert(m[j] == mrest[j - 1]);
                    assert(e <= mrest[j - 1].start);
                } else {
                    assert(m[i] == mrest[i - 1] && m[j] == mrest[j - 1]);
                }
            }
            assert forall|i: int|
                0 <= i < m.len() implies (#[trigger] m[i]).start + m[i].removed <= n by {
                if i > 0 {
                    assert(m[i] == mrest[i - 1]);
                }
            }
            assert forall|i: int| 0 <= i < m.len() implies k <= (#[trigger] m[i]).start by {
                if i > 0 {
                    assert(m[i] == mrest[i - 1]);
                }
            }
        }
    }
}

/// Patching with hunks that all start at or after `k` keeps the first `k`
/// lines and leaves at least `k` lines.
pub proof fn lemma_patch_bounds(s: Seq<Seq<char>>, hs: Seq<DiffHunk>, k: int)
    requires
        hunks_ordered(hs),
        hunks_within(hs, s.len() as int),
        starts_from(hs, k),
        0 <= k <= s.len(),
    ensures
        patch_spec(s, hs).len() >= k,
        patch_spec(s, hs).take(k) == s.take(k),
    decreases hs.len(),
{
    if hs.len() == 0 {
    } else {
        let h = hs[0];
        let e = h.start + h.removed;
        let rest = hs.skip(1);
        assert(starts_from(rest, e)) by {
            assert forall|i: int| 0 <= i < rest.len() implies e <= (#[trigger] rest[i]).start by {
                assert(rest[i] == hs[i + 1]);
            }
        }
        assert(hunks_ordered(rest) && hunks_within(rest, s.len() as int)) by {
            assert forall|i: int, j: int|
                0 <= i < j < rest.len() implies (#[trigger] rest[i]).start + rest[i].removed
                    <= (#[trigger] rest[j]).start by {
                assert(rest[i] == hs[i + 1] && rest[j] == hs[j + 1]);
            }
            assert forall|i: int|
                0 <= i < rest.len() implies (#[trigger] rest[i]).start + rest[i].removed
                    <= s.len() by {
                assert(rest[i] == hs[i + 1]);
            }
        }
        lemma_patch_bounds(s, rest, e);
        let inner = patch_spec(s, rest);
        assert(e <= inner.len());
        let out = splice_spec(inner, h);
        assert(out == inner.take(h.start as int) + h.lines.deep_view() + inner.skip(e));
        assert(out.len() >= k);
        assert forall|idx: int| 0 <= idx < k implies out[idx] == s[idx] by {
            assert(out[idx] == inner.take(h.start as int)[idx]);
            assert(inner[idx] == inner.take(e)[idx]);
            assert(inner.take(e)[idx] == s.take(e)[idx]);
        }
        assert(out.take(k) =~= s.take(k));
    }
}

/// Appends a copy of one line, extending the view by exactly that line.
pub fn push_line(out: &mut Vec<String>, s: &String)
    ensures
        final(out)@.len() == old(out)@.len() + 1,
        final(out).deep_view() == old(out).deep_view().push(s@),
{
    let ghost pre = out.deep_view();
    out.push(s.clone());
    proof {
        assert forall|q: int| 0 <= q < pre.len() implies out.deep_view()[q] == pre[q] by {
            assert(out@[q] == old(out)@[q]);
        }
        assert(out.deep_view()[pre.len() as int] == s@);
        assert(out.deep_view() =~= pre.push(s@));
    }
}

/// Builds `lines` with `remove` lines at `at` replaced by `ins`.
pub fn splice_lines(lines: &Vec<String>, at: usize, remove: usize, ins: &Vec<String>) -> (r: Vec<
    String,
>)
    requires
        at + remove <= lines@.len(),
    ensures
        r.deep_view() == lines.deep_view().take(at as int) + ins.deep_view() + lines.deep_view()
            .skip(at + remove),
{
    let mut out: Vec<String> = Vec::new();
    let mut i: usize = 0;
    while i < at
        invariant
            i <= at,
            at + remove <= lines@.len(),
            out.deep_view() == lines.deep_view().take(i as int),
        decreases at - i,
    {
        push_line(&mut out, &lines[i]);
        assert(out.deep_view() =~= lines.deep_view().take(i + 1));
        i += 1;
    }
    let mut j: usize = 0;
    while j < ins.len()
        invariant
            j <= ins@.len(),
            at + remove <= lines@.len(),
            out.deep_view() == lines.deep_view().take(at as int) + ins.deep_view().take(j as int),
        decreases ins@.len() - j,
    {
        push_line(&mut out, &ins[j]);
        assert(out.deep_view() =~= lines.deep_view().take(at as int) + ins.deep_view().take(
            j + 1,
        ));
        j += 1;
    }
    assert(ins.deep_view().take(ins@.len() as int) =~= ins.deep_view());
    let n: usize = lines.len();
    let mut k: usize = at + remove;
    while k < n
        invariant
            n == lines@.len(),
            at + remove <= k <= lines@.len(),
            out.deep_view() == lines.deep_view().take(at as int) + ins.deep_view()
                + lines.deep_view().subrange((at + remove) as int, k as int),
        decreases lines@.len() - k,
    {
        push_line(&mut out, &lines[k]);
        assert(out.deep_view() =~= lines.deep_view().take(at as int) + ins.deep_view()
            + lines.deep_view().subrange((at + remove) as int, k + 1));
        k += 1;
    }
    assert(lines.deep_view().subrange((at + remove) as int, lines@.len() as int)
        =~= lines.deep_view().skip(at + remove));
    out
}

/// Rebuilds one file from its base lines and its diff, keeping exactly the
/// hunks whose flag in `keep` is set: the hunks owned by the branches that
/// are to appear in the result.
pub fn apply_hunks(base: &Vec<String>, hunks: &Vec<DiffHunk>, keep: &Vec<bool>) -> (out: Vec<
    String,
>)
    requires
        keep@.len() == hunks@.len(),
        diff_wf(hunks@, base@.len() as int),
    ensures
        out.deep_view() == patch_spec(base.deep_view(), masked(hunks@, keep@)),
{
    let empty: Vec<String> = Vec::new();
    let mut cur: Vec<String> = splice_lines(base, 0, 0, &empty);
    assert(cur.deep_view() =~= base.deep_view());
    let mut i: usize = hunks.len();
    assert(masked(hunks@.skip(i as int), keep@.skip(i as int)) =~= Seq::<DiffHunk>::empty());
    while i > 0
        invariant
            i <= hunks@.len(),
            keep@.len() == hunks@.len(),
            diff_wf(hunks@, base@.len() as int),
            cur.deep_view() == patch_spec(
                base.deep_view(),
                masked(hunks@.skip(i as int), keep@.skip(i as int)),
            ),
        decreases i,
    {
        i -= 1;
        let ghost tail_h = hunks@.skip(i + 1);
        let ghost tail_k = keep@.skip(i + 1);
        let ghost here_h = hunks@.skip(i as int);
        let ghost here_k = keep@.skip(i as int);
        proof {
            assert(here_h[0] == hunks@[i as int]);
            assert(here_k[0] == keep@[i as int]);
            assert(here_h.skip(1) =~= tail_h);
            assert(here_k.skip(1) =~= tail_k);
        }
        if keep[i] {
            let h = &hunks[i];
            proof {
                assert(masked(here_h, here_k) == seq![hunks@[i as int]] + masked(tail_h, tail_k));
                assert(masked(here_h, here_k).skip(1) =~= masked(tail_h, tail_k));
                assert(masked(here_h, here_k)[0] == hunks@[i as int]);
                let e = hunks@[i as int].start + hunks@[i as int].removed;
                assert(starts_from(tail_h, e)) by {
                    assert forall|j: int|
                        0 <= j < tail_h.len() implies e <= (#[trigger] tail_h[j]).start by {
                        assert(tail_h[j] == hunks@[i + 1 + j]);
                    }
                }
                assert(hunks_ordered(tail_h) && hunks_within(tail_h, base@.len() as int)) by {
                    assert forall|a: int, b: int|
                        0 <= a < b < tail_h.len() implies (#[trigger] tail_h[a]).start
                            + tail_h[a].removed <= (#[trigger] tail_h[b]).start by {
                        assert(tail_h[a] == hunks@[i + 1 + a] && tail_h[b] == hunks@[i + 1 + b]);
                    }
                    assert forall|a: int|
                        0 <= a < tail_h.len() implies (#[trigger] tail_h[a]).start
                            + tail_h[a].removed <= base@.len() by {
                        assert(tail_h[a] == hunks@[i + 1 + a]);
                    }
                }
                lemma_masked_props(tail_h, tail_k, base@.len() as int, e);
                lemma_patch_bounds(base.deep_view(), masked(tail_h, tail_k), e);
                assert(cur.deep_view().len() == cur@.len());
            }
            let next = splice_lines(&cur, h.start, h.removed, &h.lines);
            proof {
                assert(next.deep_view() == splice_spec(cur.deep_view(), hunks@[i as int]));
            }
            cur = next;
        } else {
            proof {
                assert(masked(here_h, here_k) == masked(tail_h, tail_k));
            }
        }
    }
    assert(hunks@.skip(0) =~= hunks@);
    assert(keep@.skip(0) =~= keep@);
    cur
}

} // verus!
