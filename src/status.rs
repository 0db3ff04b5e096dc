//! Propagation of file statuses to the directories above them.
use vstd::prelude::*;

use crate::entry::{entries_view, kind_is_dir, status_rank, Entry, EntryView, GitFileStatus};
use crate::path::{is_prefix, path_starts_with};
use crate::snapshot::Snapshot;

verus! {

/// The highest status rank among the files of `m` at or below `p`.
pub open spec fn max_status_below(m: Seq<EntryView>, p: Seq<Seq<u8>>) -> nat
    decreases m.len(),
{
    if m.len() == 0 {
        0
    } else {
        let r = max_status_below(m.drop_last(), p);
        let x = m.last();
        if is_prefix(p, x.path) && !kind_is_dir(x.kind) && status_rank(x.git_status) > r {
            status_rank(x.git_status)
        } else {
            r
        }
    }
}

/// The status of a rank.
pub open spec fn status_of_rank(n: nat) -> Option<GitFileStatus> {
    if n == 0 {
        None
    } else if n == 1 {
        Some(GitFileStatus::Added)
    } else if n == 2 {
        Some(GitFileStatus::Modified)
    } else {
        Some(GitFileStatus::Conflict)
    }
}

/// The status shown for `e`: a directory takes the highest status of the
/// files below it, a file keeps its own.
pub open spec fn propagated_status(m: Seq<EntryView>, e: EntryView) -> Option<GitFileStatus> {
    if kind_is_dir(e.kind) {
        status_of_rank(max_status_below(m, e.path))
    } else {
        e.git_status
    }
}

/// The propagated rank is the maximum: no file below has a higher status,
/// and unless it is zero some file below has exactly that status.
pub proof fn lemma_max_status_is_maximum(m: Seq<EntryView>, p: Seq<Seq<u8>>)
    ensures
        max_status_below(m, p) <= 3,
        forall|k: int|
            0 <= k < m.len() && is_prefix(p, #[trigger] m[k].path) && !kind_is_dir(m[k].kind) ==> status_rank(
                m[k].git_status,
            ) <= max_status_below(m, p),
        max_status_below(m, p) > 0 ==> exists|k: int|
            0 <= k < m.len() && is_prefix(p, #[trigger] m[k].path) && !kind_is_dir(m[k].kind) && status_rank(
                m[k].git_status,
            ) == max_status_below(m, p),
    decreases m.len(),
{
    if m.len() > 0 {
        let t = m.drop_last();
        lemma_max_status_is_maximum(t, p);
        assert forall|k: int|
            0 <= k < m.len() && is_prefix(p, #[trigger] m[k].path) && !kind_is_dir(m[k].kind) implies status_rank(
            m[k].git_status) <= max_status_below(m, p) by {
            if k < m.len() - 1 {
                assert(m[k] == t[k]);
            }
        }
        if max_status_below(m, p) > 0 {
            if max_status_below(m, p) == max_status_below(t, p) {
                let k = choose|k: int|
                    0 <= k < t.len() && is_prefix(p, #[trigger] t[k].path) && !kind_is_dir(t[k].kind)
                        && status_rank(t[k].git_status) == max_status_below(t, p);
                assert(m[k] == t[k]);
            } else {
                assert(m[m.len() - 1] == m.last());
            }
        }
    }
}

fn rank_of(s: Option<GitFileStatus>) -> (r: u8)
    ensures
        r as nat == status_rank(s),
{
    match s {
        None => 0,
        Some(GitFileStatus::Added) => 1,
        Some(GitFileStatus::Modified) => 2,
        Some(GitFileStatus::Conflict) => 3,
    }
}

fn status_from_rank(n: u8) -> (r: Option<GitFileStatus>)
    ensures
        r == status_of_rank(n as nat),
{
    if n == 0 {
        None
    } else if n == 1 {
        Some(GitFileStatus::Added)
    } else if n == 2 {
        Some(GitFileStatus::Modified)
    } else {
        Some(GitFileStatus::Conflict)
    }
}

/// The highest status of the files of `snapshot` at or below `entry`'s path.
fn max_status_for(snapshot: &Snapshot, entry: &Entry) -> (r: u8)
    ensures
        r as nat == max_status_below(snapshot@.entries, entry@.path),
{
    let ghost m = snapshot@.entries;
    let mut best: u8 = 0;
    let mut i: usize = 0;
    while i < snapshot.entry_count()
        invariant
            m == snapshot@.entries,
            i <= m.len(),
            best as nat == max_status_below(m.subrange(0, i as int), entry@.path),
            best <= 3,
        decreases m.len() - i,
    {
        let x = snapshot.entry_at(i);
        assert(m.subrange(0, i + 1).drop_last() =~= m.subrange(0, i as int));
        let rank = rank_of(x.git_status);
        if path_starts_with(&x.path, &entry.path) && !x.is_dir() && rank > best {
            best = rank;
        }
        i = i + 1;
    }
    assert(m.subrange(0, m.len() as int) =~= m);
    best
}

/// Sets the status of each of `entries` as the snapshot shows it: a directory
/// takes the highest status among the files below it (Conflict over Modified
/// over Added), whichever other entries are passed along; a file keeps its own.
pub fn propagate_git_statuses(snapshot: &Snapshot, entries: &mut Vec<Entry>)
    ensures
        final(entries)@.len() == old(entries)@.len(),
        forall|k: int|
            0 <= k < old(entries)@.len() ==> #[trigger] final(entries)@[k]@ == (EntryView {
                git_status: propagated_status(snapshot@.entries, old(entries)@[k]@),
                ..old(entries)@[k]@
            }),
{
    let ghost m = snapshot@.entries;
    let ghost original = entries_view(entries@);
    let mut i: usize = 0;
    while i < entries.len()
        invariant
            i <= entries.len(),
            m == snapshot@.entries,
            original == entries_view(old(entries)@),
            entries@.len() == original.len(),
            forall|k: int|
                0 <= k < i ==> #[trigger] entries@[k]@ == (EntryView {
                    git_status: propagated_status(m, original[k]),
                    ..original[k]
                }),
            forall|k: int| i <= k < original.len() ==> #[trigger] entries@[k]@ == original[k],
        decreases entries.len() - i,
    {
        if entries[i].is_dir() {
            let best = max_status_for(snapshot, &entries[i]);
            let mut e = entries[i].copy();
            e.git_status = status_from_rank(best);
            assert(e@ == (EntryView { git_status: propagated_status(m, original[i as int]), ..original[i as int] }));
            entries.set(i, e);
        } else {
            assert(entries@[i as int]@ == (EntryView {
                git_status: propagated_status(m, original[i as int]),
                ..original[i as int]
            }));
        }
        i = i + 1;
    }
}

} // verus!
