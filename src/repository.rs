//! Version-control repositories inside the tree and their file statuses.
use vstd::prelude::*;

use crate::entry::{EntryView, GitFileStatus};
use crate::snapshot::Snapshot;
use crate::ignore::dot_git;
use crate::path::{
    copy_path_prefix, is_prefix, path_starts_with, path_view, rebase_path,
    PathBytes,
};

verus! {

/// The status recorded for `rel`: the first record for that path.
pub open spec fn status_lookup(statuses: Seq<(Seq<Seq<u8>>, GitFileStatus)>, rel: Seq<Seq<u8>>) -> Option<
    GitFileStatus,
>
    decreases statuses.len(),
{
    if statuses.len() == 0 {
        None
    } else if statuses[0].0 == rel {
        Some(statuses[0].1)
    } else {
        status_lookup(statuses.drop_first(), rel)
    }
}

/// The mathematical value of a repository.
pub struct RepositoryView {
    pub work_directory: Seq<Seq<u8>>,
    pub statuses: Seq<(Seq<Seq<u8>>, GitFileStatus)>,
    pub scan_id: u64,
}

/// A version-control repository inside the tree: its work directory, the
/// status of each changed file (by path relative to the work directory), and
/// the scan id of its last refresh.
#[derive(Clone, Debug)]
pub struct Repository {
    pub work_directory: PathBytes,
    pub statuses: Vec<(PathBytes, GitFileStatus)>,
    pub scan_id: u64,
}

pub open spec fn statuses_view(v: Seq<(PathBytes, GitFileStatus)>) -> Seq<(Seq<Seq<u8>>, GitFileStatus)> {
    v.map_values(|s: (PathBytes, GitFileStatus)| (path_view(&s.0), s.1))
}

impl View for Repository {
    type V = RepositoryView;

    open spec fn view(&self) -> RepositoryView {
        RepositoryView {
            work_directory: path_view(&self.work_directory),
            statuses: statuses_view(self.statuses@),
            scan_id: self.scan_id,
        }
    }
}

/// The status of `p` in repository `r`: none outside its work directory.
pub open spec fn status_in(r: RepositoryView, p: Seq<Seq<u8>>) -> Option<GitFileStatus> {
    if is_prefix(r.work_directory, p) {
        status_lookup(r.statuses, p.subrange(r.work_directory.len() as int, p.len() as int))
    } else {
        None
    }
}

/// The work directory of the repository whose `.git` stands at `p`.
pub open spec fn work_directory_of(p: Seq<Seq<u8>>) -> Option<Seq<Seq<u8>>> {
    if p.len() > 0 && p.last() == dot_git() {
        Some(p.drop_last())
    } else {
        None
    }
}

/// Where a repository's work directory goes when `from` is renamed to `to`.
pub open spec fn relocated(wd: Seq<Seq<u8>>, from: Seq<Seq<u8>>, to: Seq<Seq<u8>>) -> Seq<Seq<u8>> {
    if is_prefix(from, wd) {
        to + wd.subrange(from.len() as int, wd.len() as int)
    } else {
        wd
    }
}

impl Repository {
    /// The status of the file at worktree path `path`.
    pub fn status_for_file(&self, path: &PathBytes) -> (r: Option<GitFileStatus>)
        ensures
            r == status_in(self@, path_view(path)),
    {
        if !path_starts_with(path, &self.work_directory) {
            return None;
        }
        let base = self.work_directory.len();
        let ghost rel = path_view(path).subrange(base as int, path.len() as int);
        let ghost sv = statuses_view(self.statuses@);
        assert(sv.subrange(0, sv.len() as int) =~= sv);
        let mut i: usize = 0;
        while i < self.statuses.len()
            invariant
                is_prefix(self@.work_directory, path_view(path)),
                base <= path.len(),
                base == self.work_directory.len(),
                sv == statuses_view(self.statuses@),
                i <= sv.len(),
                rel == path_view(path).subrange(base as int, path.len() as int),
                status_lookup(sv, rel) == status_lookup(sv.subrange(i as int, sv.len() as int), rel),
            decreases self.statuses.len() - i,
        {
            let ghost tail = sv.subrange(i as int, sv.len() as int);
            assert(tail.drop_first() =~= sv.subrange(i + 1, sv.len() as int));
            let rel_len = path.len() - base;
            assert(tail[0] == sv[i as int]);
            assert(sv[i as int].0 == path_view(&self.statuses@[i as int].0));
            if self.statuses[i].0.len() == rel_len && rel_matches(&self.statuses[i].0, path, base) {
                assert(tail[0].0 =~= rel);
                return Some(self.statuses[i].1);
            }
            proof {
                if tail[0].0 == rel {
                    assert(path_view(&self.statuses@[i as int].0).len() == self.statuses@[i as int].0.len());
                    assert(rel.len() == rel_len);
                    assert(self.statuses@[i as int].0.len() == rel_len);
                }
            }
            i = i + 1;
        }
        None
    }

    /// Follows a rename of `from` to `to`: a work directory at or below
    /// `from` moves with it. Statuses are relative to the work directory and
    /// stay as they are.
    pub fn follow_rename(&mut self, from: &PathBytes, to: &PathBytes)
        ensures
            final(self)@ == (RepositoryView {
                work_directory: relocated(old(self)@.work_directory, path_view(from), path_view(to)),
                ..old(self)@
            }),
    {
        if path_starts_with(&self.work_directory, from) {
            let wd = rebase_path(&self.work_directory, from.len(), to);
            self.work_directory = wd;
        }
    }
}

/// Whether the components of `rel` equal those of `path` from `base` on.
fn rel_matches(rel: &PathBytes, path: &PathBytes, base: usize) -> (r: bool)
    requires
        base <= path.len(),
        rel.len() == path.len() - base,
    ensures
        r == (path_view(rel) == path_view(path).subrange(base as int, path.len() as int)),
{
    let ghost pr = path_view(path).subrange(base as int, path.len() as int);
    let mut k: usize = 0;
    while k < rel.len()
        invariant
            base <= path.len(),
            rel.len() == path.len() - base,
            k <= rel.len(),
            pr == path_view(path).subrange(base as int, path.len() as int),
            forall|j: int| 0 <= j < k ==> #[trigger] path_view(rel)[j] == pr[j],
        decreases rel.len() - k,
    {
        assert(pr[k as int] == path_view(path)[base + k]);
        if crate::path::compare_bytes(&rel[k], &path[base + k]) != 0 {
            assert(path_view(rel)[k as int] != pr[k as int]);
            return false;
        }
        k = k + 1;
    }
    assert(path_view(rel) =~= pr);
    true
}

/// The work directory of a repository whose `.git` entry stands at `path`:
/// the directory that holds it.
pub fn work_directory_for_dot_git(path: &PathBytes) -> (r: Option<PathBytes>)
    ensures
        match r {
            Some(wd) => work_directory_of(path_view(path)) == Some(path_view(&wd)),
            None => work_directory_of(path_view(path)) is None,
        },
{
    if path.len() == 0 {
        return None;
    }
    let n = path.len() - 1;
    let last = &path[n];
    let is_git = last.len() == 4 && last[0] == 46u8 && last[1] == 103u8 && last[2] == 105u8 && last[3] == 116u8;
    proof {
        if is_git {
            assert(path_view(path).last() =~= dot_git());
        }
        if path_view(path).last() == dot_git() {
            assert(last@ == dot_git());
        }
    }
    if !is_git {
        return None;
    }
    let wd = copy_path_prefix(path, n);
    assert(path_view(path).drop_last() =~= path_view(path).subrange(0, n as int));
    Some(wd)
}

/// The work directories of the repositories that `m` shows: one for each
/// `.git` entry, in path order.
pub open spec fn work_directories_of(m: Seq<EntryView>) -> Seq<Seq<Seq<u8>>>
    decreases m.len(),
{
    if m.len() == 0 {
        Seq::<Seq<Seq<u8>>>::empty()
    } else {
        let r = work_directories_of(m.drop_last());
        match work_directory_of(m.last().path) {
            Some(wd) => r.push(wd),
            None => r,
        }
    }
}

/// The work directories of the repositories in `snapshot`: a repository
/// exists while its `.git` entry does, and moves with it.
pub fn work_directories(snapshot: &Snapshot) -> (r: Vec<PathBytes>)
    ensures
        r@.map_values(|wd: PathBytes| path_view(&wd)) == work_directories_of(snapshot@.entries),
{
    let ghost m = snapshot@.entries;
    let mut r: Vec<PathBytes> = Vec::new();
    let mut i: usize = 0;
    while i < snapshot.entry_count()
        invariant
            m == snapshot@.entries,
            i <= m.len(),
            r@.map_values(|wd: PathBytes| path_view(&wd)) == work_directories_of(m.subrange(0, i as int)),
        decreases m.len() - i,
    {
        let e = snapshot.entry_at(i);
        assert(m.subrange(0, i + 1).drop_last() =~= m.subrange(0, i as int));
        match work_directory_for_dot_git(&e.path) {
            Some(wd) => {
                let ghost before = r@;
                r.push(wd);
                assert(r@.map_values(|wd: PathBytes| path_view(&wd)) =~= before.map_values(
                    |wd: PathBytes| path_view(&wd),
                ).push(path_view(&wd)));
            },
            None => {},
        }
        i = i + 1;
    }
    assert(m.subrange(0, m.len() as int) =~= m);
    r
}

/// The repository whose work directory holds `path` most closely: among
/// those at or above it, one with the deepest work directory (the first such).
pub fn repository_for_path(repos: &Vec<Repository>, path: &PathBytes) -> (r: Option<usize>)
    ensures
        r is None <==> (forall|j: int|
            0 <= j < repos@.len() ==> !is_prefix(#[trigger] repos@[j]@.work_directory, path_view(path))),
        r matches Some(i) ==> i < repos@.len() && is_prefix(repos@[i as int]@.work_directory, path_view(path))
            && (forall|j: int|
            0 <= j < repos@.len() && is_prefix(#[trigger] repos@[j]@.work_directory, path_view(path))
                ==> repos@[j]@.work_directory.len() <= repos@[i as int]@.work_directory.len()),
{
    let mut best: Option<usize> = None;
    let mut i: usize = 0;
    while i < repos.len()
        invariant
            i <= repos.len(),
            best is None ==> (forall|j: int|
                0 <= j < i ==> !is_prefix(#[trigger] repos@[j]@.work_directory, path_view(path))),
            best matches Some(b) ==> b < i && is_prefix(repos@[b as int]@.work_directory, path_view(path))
                && (forall|j: int|
                0 <= j < i && is_prefix(#[trigger] repos@[j]@.work_directory, path_view(path))
                    ==> repos@[j]@.work_directory.len() <= repos@[b as int]@.work_directory.len()),
        decreases repos.len() - i,
    {
        if path_starts_with(path, &repos[i].work_directory) {
            let deeper = match best {
                None => true,
                Some(b) => repos[i].work_directory.len() > repos[b].work_directory.len(),
            };
            if deeper {
                best = Some(i);
            }
        }
        i = i + 1;
    }
    best
}

} // verus!
