use vstd::prelude::*;

verus! {

/// Several stores of the engine are association lists from a file path to a
/// payload: journal entries, working-tree texts, tree files, base files and
/// diffs. This trait gives them one lookup vocabulary and one set of lemmas.
pub trait Keyed: Sized {
    /// The path that identifies the entry.
    spec fn key(&self) -> Seq<char>;

    /// Whether this entry's path equals `path`.
    fn key_matches(&self, path: &String) -> (r: bool)
        ensures
            r == (self.key() == path@),
    ;
}

/// Whether some entry carries the key `k`.
pub open spec fn has_key<T: Keyed>(items: Seq<T>, k: Seq<char>) -> bool {
    exists|i: int| 0 <= i < items.len() && items[i].key() == k
}

/// The index of an entry carrying `k` (meaningful only when `has_key` and the
/// keys are unique).
pub open spec fn key_idx<T: Keyed>(items: Seq<T>, k: Seq<char>) -> int {
    choose|i: int| 0 <= i < items.len() && items[i].key() == k
}

/// No two entries carry the same key.
pub open spec fn unique_keys<T: Keyed>(items: Seq<T>) -> bool {
    forall|i: int, j: int|
        0 <= i < j < items.len() ==> items[i].key() != items[j].key()
}

/// Finds the entry carrying `path`, scanning from the front.
pub fn find_by_key<T: Keyed>(items: &Vec<T>, path: &String) -> (r: Option<usize>)
    ensures
        match r {
            Some(i) => i < items@.len() && items@[i as int].key() == path@,
            None => !has_key(items@, path@),
        },
{
    let mut i: usize = 0;
    while i < items.len()
        invariant
            i <= items@.len(),
            forall|j: int| 0 <= j < i ==> items@[j].key() != path@,
        decreases items@.len() - i,
    {
        if items[i].key_matches(path) {
            return Some(i);
        }
        i += 1;
    }
    None
}

/// With unique keys, any entry carrying `k` stands at `key_idx`.
pub proof fn lemma_key_idx_is<T: Keyed>(items: Seq<T>, k: Seq<char>, i: int)
    requires
        unique_keys(items),
        0 <= i < items.len(),
        items[i].key() == k,
    ensures
        has_key(items, k),
        key_idx(items, k) == i,
{
    assert(has_key(items, k));
    let j = key_idx(items, k);
    if j != i {
        assert(items[i].key() != items[j].key() || !(0 <= j < items.len()));
    }
}

/// Replacing an entry with one carrying the same key keeps the keys unique
/// and leaves every other key's lookup unchanged.
pub proof fn lemma_update_same_key<T: Keyed>(items: Seq<T>, i: int, v: T)
    requires
        unique_keys(items),
        0 <= i < items.len(),
        v.key() == items[i].key(),
    ensures
        unique_keys(items.update(i, v)),
        forall|k: Seq<char>| has_key(#[trigger] items.update(i, v), k) == has_key(items, k),
        forall|k: Seq<char>|
            has_key(items, k) ==> #[trigger] key_idx(items.update(i, v), k) == key_idx(items, k),
{
    let upd = items.update(i, v);
    assert forall|k: Seq<char>| has_key(#[trigger] items.update(i, v), k) == has_key(items, k) by {
        if has_key(upd, k) {
            let j = key_idx(upd, k);
            assert(items[j].key() == upd[j].key() || j == i);
            assert(0 <= j < items.len() && items[j].key() == k);
        }
        if has_key(items, k) {
            let j = key_idx(items, k);
            assert(upd[j].key() == k);
        }
    }
    assert forall|k: Seq<char>|
        has_key(items, k) implies #[trigger] key_idx(items.update(i, v), k) == key_idx(items, k) by {
        let j = key_idx(items, k);
        assert(upd[j].key() == k);
        lemma_key_idx_is(upd, k, j);
    }
}

/// Appending an entry with a fresh key keeps the keys unique, makes the new
/// key found at the end, and leaves every other key's lookup unchanged.
pub proof fn lemma_push_fresh_key<T: Keyed>(items: Seq<T>, v: T)
    requires
        unique_keys(items),
        !has_key(items, v.key()),
    ensures
        unique_keys(items.push(v)),
        has_key(items.push(v), v.key()),
        key_idx(items.push(v), v.key()) == items.len(),
        forall|k: Seq<char>|
            k != v.key() ==> has_key(#[trigger] items.push(v), k) == has_key(items, k),
        forall|k: Seq<char>|
            k != v.key() && has_key(items, k)
                ==> #[trigger] key_idx(items.push(v), k) == key_idx(items, k),
{
    let ext = items.push(v);
    assert forall|i: int, j: int| 0 <= i < j < ext.len() implies ext[i].key() != ext[j].key() by {
        if j == items.len() {
            assert(ext[i].key() == items[i].key());
            if ext[i].key() == v.key() {
                assert(has_key(items, v.key()));
            }
        }
    }
    lemma_key_idx_is(ext, v.key(), items.len() as int);
    assert forall|k: Seq<char>|
        k != v.key() implies has_key(#[trigger] items.push(v), k) == has_key(items, k) by {
        if has_key(ext, k) {
            let j = key_idx(ext, k);
            assert(j < items.len() && items[j].key() == k);
        }
        if has_key(items, k) {
            let j = key_idx(items, k);
            assert(ext[j].key() == k);
        }
    }
    assert forall|k: Seq<char>|
        k != v.key() && has_key(items, k)
            implies #[trigger] key_idx(items.push(v), k) == key_idx(items, k) by {
        let j = key_idx(items, k);
        assert(ext[j].key() == k);
        lemma_key_idx_is(ext, k, j);
    }
}

} // verus!
