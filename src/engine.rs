//! The local worktree: mutations, filesystem reconciliation, and the single
//! commit point that logs an update envelope per commit.
use vstd::prelude::*;

use crate::identity::{ids_fit, ids_fresh_below, lemma_filter_ids, lemma_remove_all_ids, lemma_upsert_all_ids};
use crate::entry::{entries_view, kind_is_dir, Entry, EntryKind, EntryView};
use crate::ignore::{IgnoreFile, IgnoreStack};
use crate::path::{
    copy_path, copy_path_prefix, is_prefix, path_lt, lemma_path_lt_strict_total, path_starts_with,
    path_view, rebase_path, PathBytes,
};
use crate::repository::{status_in, Repository, RepositoryView};
use crate::snapshot::{
    applied, ignore_status, lemma_upsert_all_same_paths, path_listed, lemma_filter_sorted, paths_view, shown_pred, sorted_by_path,
    traversal, upsert_all, upserted, without_subtree, EnvelopeView, Snapshot, SnapshotView,
    UpdateEnvelope, before_pred, after_pred,
};

verus! {

/// Why a mutation was refused.
#[derive(Clone, Copy, Debug, PartialEq, Eq, Structural)]
pub enum WorktreeError {
    NotFound,
    AlreadyExists,
    InvalidPath,
}

/// Applies each envelope in turn.
pub open spec fn apply_all(s: SnapshotView, envs: Seq<EnvelopeView>) -> SnapshotView
    decreases envs.len(),
{
    if envs.len() == 0 {
        s
    } else {
        applied(apply_all(s, envs.drop_last()), envs.last())
    }
}

/// Some entry of `m` has path `p`.
pub open spec fn has_path(m: Seq<EntryView>, p: Seq<Seq<u8>>) -> bool {
    exists|k: int| 0 <= k < m.len() && #[trigger] m[k].path == p
}

/// Some entry of `m` at path `p` is not a directory.
pub open spec fn non_dir_at(m: Seq<EntryView>, p: Seq<Seq<u8>>) -> bool {
    exists|k: int| 0 <= k < m.len() && #[trigger] m[k].path == p && !kind_is_dir(m[k].kind)
}

/// Some entry of `m` at path `p` is a directory.
pub open spec fn dir_at(m: Seq<EntryView>, p: Seq<Seq<u8>>) -> bool {
    exists|k: int| 0 <= k < m.len() && #[trigger] m[k].path == p && kind_is_dir(m[k].kind)
}

/// `to` can receive a moved entry: it is not the root, and its parent is a
/// directory.
pub open spec fn parent_is_dir(m: Seq<EntryView>, to: Seq<Seq<u8>>) -> bool {
    to.len() > 0 && dir_at(m, to.drop_last())
}

/// A fresh entry as the engine creates it.
pub open spec fn fresh_entry(
    id: int,
    p: Seq<Seq<u8>>,
    kind: EntryKind,
    inode: u64,
    mtime: u64,
    is_ignored: bool,
    is_external: bool,
) -> EntryView {
    EntryView {
        id: id as u64,
        path: p,
        kind,
        inode,
        mtime,
        is_ignored,
        is_external,
        git_status: None,
    }
}

/// The directories that creating `p` adds: each missing ancestor among the
/// first `n` (the root first), with identifiers counted up from `next`.
pub open spec fn missing_dirs(
    m: Seq<EntryView>,
    rules: Seq<crate::ignore::IgnoreFileView>,
    visible_paths: Seq<Seq<Seq<u8>>>,
    p: Seq<Seq<u8>>,
    n: nat,
    next: int,
) -> Seq<EntryView>
    decreases n,
{
    if n == 0 {
        Seq::<EntryView>::empty()
    } else {
        let r = missing_dirs(m, rules, visible_paths, p, (n - 1) as nat, next);
        let q = p.subrange(0, n - 1);
        if has_path(m, q) {
            r
        } else {
            r.push(fresh_entry(next + r.len(), q, EntryKind::Directory, 0, 0, ignore_status(rules, visible_paths, q), false))
        }
    }
}

pub proof fn lemma_missing_dirs_len(
    m: Seq<EntryView>,
    rules: Seq<crate::ignore::IgnoreFileView>,
    visible_paths: Seq<Seq<Seq<u8>>>,
    p: Seq<Seq<u8>>,
    n: nat,
    next: int,
)
    ensures
        missing_dirs(m, rules, visible_paths, p, n, next).len() <= n,
    decreases n,
{
    if n > 0 {
        lemma_missing_dirs_len(m, rules, visible_paths, p, (n - 1) as nat, next);
    }
}

/// Where a renamed entry goes: `to` in place of `from_len` leading components,
/// with the ignore status of its new place.
pub open spec fn moved_entry(
    e: EntryView,
    from_len: nat,
    to: Seq<Seq<u8>>,
    rules: Seq<crate::ignore::IgnoreFileView>,
    visible_paths: Seq<Seq<Seq<u8>>>,
) -> EntryView {
    let np = to + e.path.subrange(from_len as int, e.path.len() as int);
    EntryView { path: np, is_ignored: ignore_status(rules, visible_paths, np), ..e }
}

/// The subtree of `from`, moved under `to`.
pub open spec fn moved_entries(
    m: Seq<EntryView>,
    from: Seq<Seq<u8>>,
    to: Seq<Seq<u8>>,
    rules: Seq<crate::ignore::IgnoreFileView>,
    visible_paths: Seq<Seq<Seq<u8>>>,
) -> Seq<EntryView> {
    traversal(m, true, true, from).map_values(|e: EntryView| moved_entry(e, from.len(), to, rules, visible_paths))
}

/// What adding an entry of `kind` at `p` does: the empty path is refused; so
/// is a path where something stands, unless both are directories (then
/// nothing changes and that entry is returned), and a path with a
/// non-directory above it. Otherwise the missing ancestors are created as
/// directories, root first, then the entry, with identifiers counted up from
/// the next free one, all in one commit.
pub open spec fn added(
    w0: Worktree,
    w1: Worktree,
    p: Seq<Seq<u8>>,
    kind: EntryKind,
    inode: u64,
    mtime: u64,
    is_external: bool,
    r: Result<Entry, WorktreeError>,
) -> bool {
    let m = w0@.entries;
    &&& w1.ignore_rules() == w0.ignore_rules()
    &&& (r is Err ==> r == Err::<Entry, WorktreeError>(WorktreeError::InvalidPath) || r == Err::<
        Entry,
        WorktreeError,
    >(WorktreeError::AlreadyExists))
    &&& (r == Err::<Entry, WorktreeError>(WorktreeError::InvalidPath) <==> (p.len() == 0 || (!has_path(m, p)
        && exists|j: int| 0 <= j < p.len() && non_dir_at(m, #[trigger] p.subrange(0, j)))))
    &&& (r == Err::<Entry, WorktreeError>(WorktreeError::AlreadyExists) <==> (p.len() > 0 && has_path(m, p) && (
    !kind_is_dir(kind) || non_dir_at(m, p))))
    &&& (r is Err || has_path(m, p) ==> w1@ == w0@ && w1.history() == w0.history() && w1.envelopes()
        == w0.envelopes() && w1.next_entry_id() == w0.next_entry_id())
    &&& (r matches Ok(e) ==> (has_path(m, p) ==> exists|k: int| 0 <= k < m.len() && #[trigger] m[k] == e@))
    &&& (r matches Ok(e) ==> (!has_path(m, p) ==> {
        let dirs = missing_dirs(m, w0.ignore_rules(), w0.tracked_paths(), p, p.len(), w0.next_entry_id() as int);
        &&& e@ == fresh_entry(
            w0.next_entry_id() + dirs.len(),
            p,
            kind,
            inode,
            mtime,
            ignore_status(w0.ignore_rules(), w0.tracked_paths(), p),
            is_external,
        )
        &&& w1@.entries == upsert_all(m, dirs.push(e@))
        &&& w1.history() == w0.history().push(w1@)
        &&& w1@.scan_id == w0@.scan_id + 1
        &&& w1.next_entry_id() == w0.next_entry_id() + dirs.len() + 1
    }))
}

/// The entries of `m` with the ignore status that the rules now give them.
pub open spec fn with_ignore_status(
    m: Seq<EntryView>,
    rules: Seq<crate::ignore::IgnoreFileView>,
    tracked_paths: Seq<Seq<Seq<u8>>>,
) -> Seq<EntryView> {
    m.map_values(|x: EntryView| EntryView { is_ignored: ignore_status(rules, tracked_paths, x.path), ..x })
}

/// The entries of `m` with the statuses that repository `repo` reports: each
/// file takes its status there, directories are left as they are.
pub open spec fn with_repository_statuses(m: Seq<EntryView>, repo: RepositoryView) -> Seq<EntryView> {
    m.map_values(
        |x: EntryView|
            if kind_is_dir(x.kind) {
                x
            } else {
                EntryView { git_status: status_in(repo, x.path), ..x }
            },
    )
}

/// How an entry changed in a commit, as the event bus reports it.
#[derive(Clone, Copy, Debug, PartialEq, Eq, Structural)]
pub enum PathChange {
    /// Found by the initial scan.
    Loaded,
    /// Created after the initial scan.
    Added,
    Removed,
    /// Same identifier, new metadata.
    Updated,
    /// Replayed without knowing the earlier state.
    AddedOrUpdated,
}

/// What the filesystem reports for a path when it is stated again.
#[derive(Clone, Copy, Debug, PartialEq, Eq, Structural)]
pub struct Metadata {
    pub kind: EntryKind,
    pub inode: u64,
    pub mtime: u64,
    pub is_external: bool,
}

/// The entry at `p` of a sorted `m` is the one at index `k`.
pub open spec fn entry_at_path(m: Seq<EntryView>, p: Seq<Seq<u8>>, k: int) -> bool {
    0 <= k < m.len() && m[k].path == p
}

/// What reconciling `p` with the metadata `md` that the filesystem reports
/// does (see `Worktree::reconcile`).
pub open spec fn reconciled(
    w0: Worktree,
    w1: Worktree,
    p: Seq<Seq<u8>>,
    observed: Option<Metadata>,
    initial_scan: bool,
    r: Result<Option<(PathChange, Vec<Entry>)>, WorktreeError>,
) -> bool {
    let m = w0@.entries;
    let rules = w0.ignore_rules();
    let visible_paths = w0.tracked_paths();
    let unchanged = w1@ == w0@ && w1.history() == w0.history() && w1.envelopes() == w0.envelopes()
        && w1.next_entry_id() == w0.next_entry_id();
    &&& w1.ignore_rules() == rules
    &&& (!has_path(m, p) && observed is None ==> r == Ok::<Option<(PathChange, Vec<Entry>)>, WorktreeError>(None)
        && unchanged)
    &&& (!has_path(m, p) && observed is Some ==> {
        let md = observed->Some_0;
        match r {
            Ok(Some((c, es))) => c == (if initial_scan {
                PathChange::Loaded
            } else {
                PathChange::Added
            }) && es@.len() == 1 && added(w0, w1, p, md.kind, md.inode, md.mtime, md.is_external, Ok(es@[0])),
            Ok(None) => false,
            Err(err) => added(w0, w1, p, md.kind, md.inode, md.mtime, md.is_external, Err(err)),
        }
    })
    &&& (has_path(m, p) && observed is None && p.len() == 0 ==> r == Err::<
        Option<(PathChange, Vec<Entry>)>,
        WorktreeError,
    >(WorktreeError::InvalidPath) && unchanged)
    &&& (has_path(m, p) && observed is None && p.len() > 0 ==> exists|k: int|
        #[trigger] entry_at_path(m, p, k) && (r matches Ok(Some((c, es))) && c == PathChange::Removed
            && entries_view(es@) == traversal(m, true, true, p)) && w1@.entries == without_subtree(m, p) && w1@.scan_id == w0@.scan_id + 1 && w1.history()
            == w0.history().push(w1@))
    &&& (has_path(m, p) && observed is Some ==> {
        let md = observed->Some_0;
        exists|k: int|
            #[trigger] entry_at_path(m, p, k) && {
                let x = m[k];
                if md.kind == x.kind && md.inode == x.inode && md.mtime == x.mtime && md.is_external
                    == x.is_external {
                    r == Ok::<Option<(PathChange, Vec<Entry>)>, WorktreeError>(None) && unchanged
                } else if kind_is_dir(md.kind) == kind_is_dir(x.kind) {
                    (r matches Ok(Some((c, es))) && c == PathChange::Updated && es@.len() == 1 && es@[0]@ == (EntryView {
                        kind: md.kind,
                        inode: md.inode,
                        mtime: md.mtime,
                        is_external: md.is_external,
                        is_ignored: ignore_status(rules, visible_paths, p),
                        ..x
                    }) && w1@.entries == upserted(m, es@[0]@)) && w1@.scan_id == w0@.scan_id + 1 && w1.history()
                        == w0.history().push(w1@)
                } else {
                    (r matches Ok(Some((c, es))) && c == PathChange::Added && es@.len() == 1 && es@[0]@ == fresh_entry(
                        w0.next_entry_id() as int,
                        p,
                        md.kind,
                        md.inode,
                        md.mtime,
                        ignore_status(rules, visible_paths, p),
                        md.is_external,
                    ) && w1@.entries == upserted(without_subtree(m, p), es@[0]@)) && w1@.scan_id == w0@.scan_id
                        + 1 && w1.next_entry_id() == w0.next_entry_id() + 1 && w1.history() == w0.history().push(w1@)
                }
            }
    })
}

/// Every entry's ignore status is what the rules give its path, visible_paths
/// paths staying visible.
pub open spec fn ignore_consistent(
    m: Seq<EntryView>,
    rules: Seq<crate::ignore::IgnoreFileView>,
    visible_paths: Seq<Seq<Seq<u8>>>,
) -> bool {
    forall|i: int| 0 <= i < m.len() ==> #[trigger] m[i].is_ignored == ignore_status(rules, visible_paths, m[i].path)
}

/// Removing subtrees and putting entries whose statuses follow the rules
/// keeps every status following the rules.
pub proof fn lemma_apply_consistent(
    m: Seq<EntryView>,
    ps: Seq<Seq<Seq<u8>>>,
    es: Seq<EntryView>,
    rules: Seq<crate::ignore::IgnoreFileView>,
    visible_paths: Seq<Seq<Seq<u8>>>,
)
    requires
        ignore_consistent(m, rules, visible_paths),
        ignore_consistent(es, rules, visible_paths),
    ensures
        ignore_consistent(upsert_all(crate::snapshot::remove_all(m, ps), es), rules, visible_paths),
{
    let base = crate::snapshot::remove_all(m, ps);
    lemma_remove_all_consistent(m, ps, rules, visible_paths);
    let r = upsert_all(base, es);
    assert forall|i: int| 0 <= i < r.len() implies #[trigger] r[i].is_ignored == ignore_status(
        rules,
        visible_paths,
        r[i].path,
    ) by {
        assert(r.contains(r[i]));
        crate::identity::lemma_upsert_all_from(base, es, r[i]);
        if base.contains(r[i]) {
            let q = choose|q: int| 0 <= q < base.len() && base[q] == r[i];
        } else {
            let q = choose|q: int| 0 <= q < es.len() && es[q] == r[i];
        }
    }
}

proof fn lemma_remove_all_consistent(
    m: Seq<EntryView>,
    ps: Seq<Seq<Seq<u8>>>,
    rules: Seq<crate::ignore::IgnoreFileView>,
    visible_paths: Seq<Seq<Seq<u8>>>,
)
    requires
        ignore_consistent(m, rules, visible_paths),
    ensures
        ignore_consistent(crate::snapshot::remove_all(m, ps), rules, visible_paths),
    decreases ps.len(),
{
    if ps.len() > 0 {
        lemma_remove_all_consistent(m, ps.drop_last(), rules, visible_paths);
        let x = crate::snapshot::remove_all(m, ps.drop_last());
        let f = crate::snapshot::outside_pred(ps.last());
        let r = x.filter(f);
        assert forall|i: int| 0 <= i < r.len() implies #[trigger] r[i].is_ignored == ignore_status(
            rules,
            visible_paths,
            r[i].path,
        ) by {
            assert(r.contains(r[i]));
            x.lemma_filter_contains_rev(f, r[i]);
            let q = choose|q: int| 0 <= q < x.len() && x[q] == r[i];
        }
    }
}

proof fn lemma_missing_dirs_consistent(
    m: Seq<EntryView>,
    rules: Seq<crate::ignore::IgnoreFileView>,
    visible_paths: Seq<Seq<Seq<u8>>>,
    p: Seq<Seq<u8>>,
    n: nat,
    next: int,
)
    ensures
        ignore_consistent(missing_dirs(m, rules, visible_paths, p, n, next), rules, visible_paths),
    decreases n,
{
    if n > 0 {
        lemma_missing_dirs_consistent(m, rules, visible_paths, p, (n - 1) as nat, next);
        let r = missing_dirs(m, rules, visible_paths, p, (n - 1) as nat, next);
        let t = missing_dirs(m, rules, visible_paths, p, n, next);
        assert forall|i: int| 0 <= i < t.len() implies #[trigger] t[i].is_ignored == ignore_status(
            rules,
            visible_paths,
            t[i].path,
        ) by {
            if i < r.len() {
                assert(t[i] == r[i]);
            }
        }
    }
}

/// A local worktree: the current snapshot, the ignore rules in force, and the
/// log of every commit's envelope. All mutations go through one commit point.
pub struct Worktree {
    snapshot: Snapshot,
    rules: IgnoreStack,
    kept_visible: Vec<PathBytes>,
    next_id: u64,
    log: Vec<UpdateEnvelope>,
    history: Ghost<Seq<SnapshotView>>,
}

pub open spec fn log_view(v: Seq<UpdateEnvelope>) -> Seq<EnvelopeView> {
    v.map_values(|e: UpdateEnvelope| e@)
}

impl View for Worktree {
    type V = SnapshotView;

    closed spec fn view(&self) -> SnapshotView {
        self.snapshot@
    }
}

impl Worktree {
    /// The snapshot published after each commit, the first one empty.
    pub closed spec fn history(&self) -> Seq<SnapshotView> {
        self.history@
    }

    /// The envelope of each commit, in order.
    pub closed spec fn envelopes(&self) -> Seq<EnvelopeView> {
        log_view(self.log@)
    }

    /// The identifier that the next new entry gets.
    pub closed spec fn next_entry_id(&self) -> u64 {
        self.next_id
    }

    /// The paths that the version-control system tracks: they stay visible
    /// whatever the ignore rules say.
    pub closed spec fn tracked_paths(&self) -> Seq<Seq<Seq<u8>>> {
        paths_view(self.kept_visible@)
    }

    /// The ignore rules in force.
    pub closed spec fn ignore_rules(&self) -> Seq<crate::ignore::IgnoreFileView> {
        self.rules@
    }

    pub closed spec fn wf(&self) -> bool {
        self.wf_core() && ignore_consistent(self.snapshot@.entries, self.rules@, paths_view(self.kept_visible@))
    }

    /// All of `wf` but the ignore statuses.
    closed spec fn wf_core(&self) -> bool {
        let h = self.history@;
        let l = log_view(self.log@);
        &&& self.snapshot.wf()
        &&& ids_fresh_below(self.snapshot@.entries, self.next_id as int)
        &&& h.len() == l.len() + 1
        &&& h.last() == self.snapshot@
        &&& h[0].scan_id == 0
        &&& forall|j: int| 0 <= j < l.len() ==> applied(h[j], #[trigger] l[j]) == h[j + 1]
        &&& forall|j: int| 0 <= j < l.len() ==> #[trigger] l[j].scan_id == h[j + 1].scan_id
        &&& forall|a: int, b: int|
            0 <= a < b < h.len() ==> #[trigger] h[a].scan_id < #[trigger] h[b].scan_id
    }

    /// A worktree with no entries at scan id 0 and no ignore rules.
    pub fn new() -> (r: Worktree)
        ensures
            r.wf(),
            r@.entries == seq![
                fresh_entry(1, Seq::<Seq<u8>>::empty(), EntryKind::Directory, 0, 0, false, false),
            ],
            r@.scan_id == 0,
            r.history() == seq![r@],
            r.envelopes().len() == 0,
            r.ignore_rules().len() == 0,
            r.tracked_paths().len() == 0,
            r.next_entry_id() == 2,
    {
        let mut snapshot = Snapshot::new();
        let root = Entry {
            id: 1,
            path: Vec::new(),
            kind: EntryKind::Directory,
            inode: 0,
            mtime: 0,
            is_ignored: false,
            is_external: false,
            git_status: None,
        };
        let ghost rv = root@;
        assert(rv.path =~= Seq::<Seq<u8>>::empty());
        snapshot.insert_entry(root);
        proof {
            let e = Seq::<EntryView>::empty();
            assert(e.filter(crate::snapshot::before_pred(rv.path)) =~= e) by {
                reveal(Seq::filter);
            }
            assert(e.filter(crate::snapshot::after_pred(rv.path)) =~= e) by {
                reveal(Seq::filter);
            }
            assert(snapshot@.entries =~= seq![rv]);
            assert(!crate::ignore::in_dot_git(rv.path));
        }
        let ghost h = seq![snapshot@];
        let r = Worktree {
            snapshot,
            rules: IgnoreStack::new(),
            kept_visible: Vec::new(),
            next_id: 2,
            log: Vec::new(),
            history: Ghost(h),
        };
        assert(log_view(r.log@) =~= Seq::<EnvelopeView>::empty());
        assert(paths_view(r.kept_visible@) =~= Seq::<Seq<Seq<u8>>>::empty());
        r
    }

    /// A copy of the current snapshot.
    pub fn snapshot(&self) -> (r: Snapshot)
        requires
            self.wf(),
        ensures
            r@ == self@,
            r.wf(),
    {
        self.snapshot.copy()
    }

    pub fn scan_id(&self) -> (r: u64)
        ensures
            r == self@.scan_id,
    {
        self.snapshot.scan_id()
    }

    /// The identifier that the next new entry gets.
    pub fn next_id(&self) -> (r: u64)
        ensures
            r == self.next_entry_id(),
    {
        self.next_id
    }

    /// Copies of the envelopes of every commit so far, in order.
    pub fn updates(&self) -> (r: Vec<UpdateEnvelope>)
        ensures
            log_view(r@) == self.envelopes(),
    {
        let mut r: Vec<UpdateEnvelope> = Vec::new();
        let mut i: usize = 0;
        while i < self.log.len()
            invariant
                i <= self.log.len(),
                log_view(r@) == log_view(self.log@).subrange(0, i as int),
            decreases self.log.len() - i,
        {
            let e = self.log[i].copy();
            let ghost before = r@;
            r.push(e);
            assert(log_view(r@) =~= log_view(before).push(e@));
            assert(log_view(r@) =~= log_view(self.log@).subrange(0, i + 1));
            i = i + 1;
        }
        assert(log_view(self.log@).subrange(0, i as int) =~= log_view(self.log@));
        r
    }

    /// Whether the rules in force ignore `p`, visible_paths paths staying visible.
    fn ignored(&self, p: &PathBytes) -> (r: bool)
        ensures
            r == ignore_status(self.rules@, self.tracked_paths(), path_view(p)),
    {
        self.rules.is_path_ignored(p) && !path_listed(&self.kept_visible, p)
    }

    /// Puts a pattern file in force, in place of an earlier one in its
    /// directory, and recomputes every entry's ignore status in one commit.
    pub fn set_ignore_file(&mut self, file: IgnoreFile)
        requires
            old(self).wf(),
            old(self)@.scan_id < u64::MAX,
        ensures
            final(self).wf(),
            final(self).ignore_rules() == old(self).ignore_rules().filter(
                |f: crate::ignore::IgnoreFileView| f.dir != file@.dir,
            ).push(file@),
            final(self).tracked_paths() == old(self).tracked_paths(),
            final(self)@.entries == with_ignore_status(
                old(self)@.entries,
                final(self).ignore_rules(),
                final(self).tracked_paths(),
            ),
            final(self)@.scan_id == old(self)@.scan_id + 1,
            final(self).history() == old(self).history().push(final(self)@),
            final(self).next_entry_id() == old(self).next_entry_id(),
    {
        self.rules.set_file(file);
        self.refresh_all();
    }

    /// Drops the pattern file of directory `dir`, and recomputes every
    /// entry's ignore status in one commit.
    pub fn remove_ignore_file(&mut self, dir: &PathBytes)
        requires
            old(self).wf(),
            old(self)@.scan_id < u64::MAX,
        ensures
            final(self).wf(),
            final(self).ignore_rules() == old(self).ignore_rules().filter(
                |f: crate::ignore::IgnoreFileView| f.dir != path_view(dir),
            ),
            final(self).tracked_paths() == old(self).tracked_paths(),
            final(self)@.entries == with_ignore_status(
                old(self)@.entries,
                final(self).ignore_rules(),
                final(self).tracked_paths(),
            ),
            final(self)@.scan_id == old(self)@.scan_id + 1,
            final(self).history() == old(self).history().push(final(self)@),
            final(self).next_entry_id() == old(self).next_entry_id(),
    {
        self.rules.remove_file(dir);
        self.refresh_all();
    }

    /// Takes the paths that the version-control system tracks (they stay
    /// visible whatever the rules say), and recomputes every entry's ignore
    /// status in one commit.
    pub fn set_tracked_paths(&mut self, tracked_paths: Vec<PathBytes>)
        requires
            old(self).wf(),
            old(self)@.scan_id < u64::MAX,
        ensures
            final(self).wf(),
            final(self).tracked_paths() == paths_view(tracked_paths@),
            final(self).ignore_rules() == old(self).ignore_rules(),
            final(self)@.entries == with_ignore_status(
                old(self)@.entries,
                final(self).ignore_rules(),
                final(self).tracked_paths(),
            ),
            final(self)@.scan_id == old(self)@.scan_id + 1,
            final(self).history() == old(self).history().push(final(self)@),
            final(self).next_entry_id() == old(self).next_entry_id(),
    {
        self.kept_visible = tracked_paths;
        self.refresh_all();
    }

    /// The single commit point: removes the subtrees of `removed`, puts the
    /// entries of `updated`, bumps the scan id once, logs the envelope and
    /// moves the next free identifier to `new_next`.
    fn commit(&mut self, removed: Vec<PathBytes>, updated: Vec<Entry>, new_next: u64)
        requires
            old(self).wf_core(),
            ignore_consistent(
                upsert_all(
                    crate::snapshot::remove_all(old(self)@.entries, paths_view(removed@)),
                    entries_view(updated@),
                ),
                old(self).ignore_rules(),
                old(self).tracked_paths(),
            ),
            old(self)@.scan_id < u64::MAX,
            old(self).next_entry_id() <= new_next,
            ids_fit(
                crate::snapshot::remove_all(old(self)@.entries, paths_view(removed@)),
                entries_view(updated@),
                new_next as int,
            ),
        ensures
            final(self).wf(),
            final(self)@ == applied(
                old(self)@,
                EnvelopeView {
                    scan_id: (old(self)@.scan_id + 1) as u64,
                    updated: entries_view(updated@),
                    removed: paths_view(removed@),
                },
            ),
            final(self)@.scan_id == old(self)@.scan_id + 1,
            final(self).history() == old(self).history().push(final(self)@),
            final(self).envelopes() == old(self).envelopes().push(
                EnvelopeView {
                    scan_id: (old(self)@.scan_id + 1) as u64,
                    updated: entries_view(updated@),
                    removed: paths_view(removed@),
                },
            ),
            final(self).next_entry_id() == new_next,
            final(self).ignore_rules() == old(self).ignore_rules(),
            final(self).tracked_paths() == old(self).tracked_paths(),
    {
        let ghost m = self@.entries;
        let ghost rv = paths_view(removed@);
        let ghost uv = entries_view(updated@);
        proof {
            assert(ids_fresh_below(m, new_next as int));
            lemma_remove_all_ids(m, rv, new_next as int);
            lemma_upsert_all_ids(crate::snapshot::remove_all(m, rv), uv, new_next as int);
        }
        let env = UpdateEnvelope { scan_id: self.snapshot.scan_id() + 1, updated, removed };
        self.snapshot.apply_remote_update(&env);
        self.next_id = new_next;
        let ghost h = self.history@;
        let ghost l = log_view(self.log@);
        self.log.push(env);
        self.history = Ghost(h.push(self.snapshot@));
        assert(log_view(self.log@) =~= l.push(env@));
        assert forall|a: int, b: int| 0 <= a < b < self.history@.len() implies #[trigger] self.history@[a].scan_id
            < #[trigger] self.history@[b].scan_id by {
            if b == h.len() && a < h.len() - 1 {
                assert(h[a].scan_id < h[h.len() - 1].scan_id);
            }
        }
    }

    /// Removes the entry with identifier `id` and its subtree. The root
    /// cannot be removed.
    pub fn delete_entry(&mut self, id: u64) -> (r: Result<Vec<Entry>, WorktreeError>)
        requires
            old(self).wf(),
            old(self)@.scan_id < u64::MAX,
        ensures
            final(self).wf(),
            r == Err::<Vec<Entry>, WorktreeError>(WorktreeError::NotFound) <==> (forall|k: int|
                0 <= k < old(self)@.entries.len() ==> #[trigger] old(self)@.entries[k].id != id),
            r is Err ==> final(self)@ == old(self)@ && final(self).history() == old(self).history()
                && final(self).envelopes() == old(self).envelopes(),
            forall|k: int|
                0 <= k < old(self)@.entries.len() && #[trigger] old(self)@.entries[k].id == id ==> {
                    let p = old(self)@.entries[k].path;
                    &&& (r == Err::<Vec<Entry>, WorktreeError>(WorktreeError::InvalidPath) <==> p.len() == 0)
                    &&& (r is Ok <==> p.len() > 0)
                    &&& (r matches Ok(gone) ==> entries_view(gone@) == traversal(old(self)@.entries, true, true, p))
                    &&& (r is Ok ==> final(self).envelopes() == old(self).envelopes().push(
                        EnvelopeView {
                            scan_id: (old(self)@.scan_id + 1) as u64,
                            updated: Seq::<EntryView>::empty(),
                            removed: seq![p],
                        },
                    ))
                    &&& (r is Ok ==> final(self)@.entries == without_subtree(old(self)@.entries, p)
                        && final(self)@.scan_id == old(self)@.scan_id + 1 && final(self).history()
                        == old(self).history().push(final(self)@))
                },
            final(self).next_entry_id() == old(self).next_entry_id(),
            final(self).ignore_rules() == old(self).ignore_rules(),
    {
        match self.snapshot.entry_for_id(id) {
            None => Err(WorktreeError::NotFound),
            Some(e) => {
                proof {
                    self.lemma_entry_of_id(e@);
                }
                if e.path.len() == 0 {
                    return Err(WorktreeError::InvalidPath);
                }
                let ghost p = e@.path;
                let gone = self.snapshot.descendent_entries(true, true, &e.path);
                let mut removed: Vec<PathBytes> = Vec::new();
                removed.push(e.path);
                assert(paths_view(removed@) =~= seq![p]);
                let updated: Vec<Entry> = Vec::new();
                let ghost m = self@.entries;
                proof {
                    let ps = seq![p];
                    lemma_remove_one(m, p);
                    assert(entries_view(updated@) =~= Seq::<EntryView>::empty());
                    let k = choose|k: int| 0 <= k < m.len() && #[trigger] m[k] == e@;
                    assert(m[k].id == id);
                }
                let nx = self.next_id;
                proof {
                    assert(ignore_consistent(entries_view(updated@), self.rules@, self.tracked_paths()));
                    lemma_apply_consistent(
                        self@.entries,
                        paths_view(removed@),
                        entries_view(updated@),
                        self.rules@,
                        self.tracked_paths(),
                    );
                }
                self.commit(removed, updated, nx);
                Ok(gone)
            },
        }
    }

    /// Moves the entry with identifier `id`, and everything below it, to
    /// `new_path`. Every moved entry keeps its identifier.
    pub fn rename_entry(&mut self, id: u64, new_path: &PathBytes) -> (r: Result<(), WorktreeError>)
        requires
            old(self).wf(),
            old(self)@.scan_id < u64::MAX,
        ensures
            final(self).wf(),
            r == Err::<(), WorktreeError>(WorktreeError::NotFound) <==> (forall|k: int|
                0 <= k < old(self)@.entries.len() ==> #[trigger] old(self)@.entries[k].id != id),
            r is Err ==> final(self)@ == old(self)@ && final(self).history() == old(self).history()
                && final(self).envelopes() == old(self).envelopes(),
            forall|k: int|
                0 <= k < old(self)@.entries.len() && #[trigger] old(self)@.entries[k].id == id ==> {
                    let m = old(self)@.entries;
                    let from = m[k].path;
                    let to = path_view(new_path);
                    &&& (r == Err::<(), WorktreeError>(WorktreeError::InvalidPath) <==> (is_prefix(from, to)
                        || !parent_is_dir(m, to)))
                    &&& (r == Err::<(), WorktreeError>(WorktreeError::AlreadyExists) <==> (!is_prefix(from, to)
                        && parent_is_dir(m, to) && has_path(m, to)))
                    &&& (r is Ok ==> final(self)@.entries == upsert_all(
                        without_subtree(m, from),
                        moved_entries(m, from, to, old(self).ignore_rules(), old(self).tracked_paths()),
                    ) && final(self)@.scan_id == old(self)@.scan_id + 1 && final(self).history()
                        == old(self).history().push(final(self)@))
                },
            final(self).next_entry_id() == old(self).next_entry_id(),
            final(self).ignore_rules() == old(self).ignore_rules(),
    {
        let e = match self.snapshot.entry_for_id(id) {
            None => {
                return Err(WorktreeError::NotFound);
            },
            Some(e) => e,
        };
        let ghost m = self@.entries;
        let ghost from = e@.path;
        let ghost to = path_view(new_path);
        proof {
            self.lemma_entry_of_id(e@);
        }
        if path_starts_with(new_path, &e.path) {
            return Err(WorktreeError::InvalidPath);
        }
        if !self.parent_dir_exists(new_path) {
            return Err(WorktreeError::InvalidPath);
        }
        match self.snapshot.entry_for_path(new_path) {
            Some(_) => {
                return Err(WorktreeError::AlreadyExists);
            },
            None => {},
        }
        self.move_subtree(&e.path, new_path, false);
        proof {
            lemma_remove_one(m, from);
        }
        Ok(())
    }

    /// The entry found for an identifier is the only one with it.
    proof fn lemma_entry_of_id(&self, e: EntryView)
        requires
            self.wf(),
            exists|k: int| 0 <= k < self@.entries.len() && #[trigger] self@.entries[k] == e,
        ensures
            forall|k: int| 0 <= k < self@.entries.len() && #[trigger] self@.entries[k].id == e.id ==> self@.entries[k] == e,
    {
        let m = self@.entries;
        let j = choose|j: int| 0 <= j < m.len() && #[trigger] m[j] == e;
        assert forall|k: int| 0 <= k < m.len() && #[trigger] m[k].id == e.id implies m[k] == e by {
            if k != j {
                assert(m[k].id != m[j].id);
            }
        }
    }

    /// Whether `to` is not the root and its parent is a directory.
    fn parent_dir_exists(&self, to: &PathBytes) -> (r: bool)
        requires
            self.wf(),
        ensures
            r == parent_is_dir(self@.entries, path_view(to)),
    {
        if to.len() == 0 {
            return false;
        }
        let ghost m = self@.entries;
        let q = copy_path_prefix(to, to.len() - 1);
        assert(path_view(to).drop_last() =~= path_view(to).subrange(0, to.len() - 1));
        proof {
            lemma_unique_path(m, path_view(&q));
        }
        match self.snapshot.entry_for_path(&q) {
            None => false,
            Some(x) => {
                let ghost k = choose|k: int| 0 <= k < m.len() && #[trigger] m[k] == x@;
                assert(m[k].path == path_view(&q));
                x.is_dir()
            },
        }
    }

    /// Moves the subtree of `from_path` under `new_path` in one commit; every
    /// moved entry keeps its identifier.
    fn move_subtree(&mut self, from_path: &PathBytes, new_path: &PathBytes, overwrite: bool)
        requires
            old(self).wf(),
            old(self)@.scan_id < u64::MAX,
        ensures
            final(self).wf(),
            final(self)@.entries == upsert_all(
                crate::snapshot::remove_all(
                    old(self)@.entries,
                    move_removals(path_view(from_path), path_view(new_path), overwrite),
                ),
                moved_entries(old(self)@.entries, path_view(from_path), path_view(new_path), old(self).ignore_rules(), old(self).tracked_paths()),
            ),
            final(self)@.scan_id == old(self)@.scan_id + 1,
            final(self).history() == old(self).history().push(final(self)@),
            final(self).next_entry_id() == old(self).next_entry_id(),
            final(self).ignore_rules() == old(self).ignore_rules(),
    {
        let ghost m = self@.entries;
        let ghost from = path_view(from_path);
        let ghost to = path_view(new_path);
        let subtree = self.snapshot.descendent_entries(true, true, from_path);
        let ghost t = traversal(m, true, true, from);
        proof {
            m.filter_lemma(shown_pred(true, true, from));
        }
        let mut moved: Vec<Entry> = Vec::new();
        let mut i: usize = 0;
        while i < subtree.len()
            invariant
                i <= subtree.len(),
                entries_view(subtree@) == t,
                t == m.filter(shown_pred(true, true, from)),
                forall|j: int| 0 <= j < t.len() ==> #[trigger] shown_pred(true, true, from)(t[j]),
                from == path_view(from_path),
                to == path_view(new_path),
                entries_view(moved@) == t.subrange(0, i as int).map_values(
                    |x: EntryView| moved_entry(x, from.len(), to, self.rules@, self.tracked_paths()),
                ),
            decreases subtree.len() - i,
        {
            let mut x = subtree[i].copy();
            assert(x@ == t[i as int]);
            assert(shown_pred(true, true, from)(t[i as int]));
            assert(from_path.len() <= x.path.len());
            let np = rebase_path(&x.path, from_path.len(), new_path);
            x.is_ignored = self.ignored(&np);
            x.path = np;
            let ghost before = moved@;
            moved.push(x);
            assert(entries_view(moved@) =~= entries_view(before).push(x@));
            assert(entries_view(moved@) =~= t.subrange(0, i + 1).map_values(
                |y: EntryView| moved_entry(y, from.len(), to, self.rules@, self.tracked_paths()),
            ));
            i = i + 1;
        }
        assert(t.subrange(0, t.len() as int) =~= t);
        let ghost mv = entries_view(moved@);
        let mut removed: Vec<PathBytes> = Vec::new();
        if overwrite {
            removed.push(copy_path(new_path));
        }
        removed.push(copy_path(from_path));
        assert(paths_view(removed@) =~= move_removals(from, to, overwrite));
        assert(mv =~= moved_entries(m, from, to, self.rules@, self.tracked_paths()));
        assert forall|k: int| 0 <= k < mv.len() implies #[trigger] mv[k].is_ignored == ignore_status(
            self.rules@,
            self.tracked_paths(),
            mv[k].path,
        ) by {
            assert(mv[k] == moved_entry(t[k], from.len(), to, self.rules@, self.tracked_paths()));
        }
        proof {
            lemma_remove_one(m, from);
            lemma_moved_ids_fit(m, from, to, self.rules@, self.tracked_paths(), self.next_id as int);
            if overwrite {
                lemma_overwrite_base(m, from, to);
                crate::identity::lemma_ids_fit_sub(
                    without_subtree(m, from),
                    crate::snapshot::remove_all(m, seq![to, from]),
                    moved_entries(m, from, to, self.rules@, self.tracked_paths()),
                    self.next_id as int,
                );
            }
        }
        let nx = self.next_id;
        proof {
            assert(ignore_consistent(entries_view(moved@), self.rules@, self.tracked_paths()));
            lemma_apply_consistent(
                self@.entries,
                paths_view(removed@),
                entries_view(moved@),
                self.rules@,
                self.tracked_paths(),
            );
        }
        self.commit(removed, moved, nx);
    }

    /// Inode-keyed rename detection: when `from` vanished and `to` appeared
    /// with metadata `md` in one batch of filesystem events, and the entry at
    /// `from` has the same inode, the subtree moves to `to` with its
    /// identifiers. Otherwise nothing changes and the two paths are to be
    /// reconciled one by one.
    pub fn reconcile_move(&mut self, from: &PathBytes, to: &PathBytes, md: Metadata) -> (r: bool)
        requires
            old(self).wf(),
            old(self)@.scan_id < u64::MAX,
        ensures
            final(self).wf(),
            r <==> exists|k: int|
                #[trigger] entry_at_path(old(self)@.entries, path_view(from), k) && old(self)@.entries[k].inode
                    == md.inode && !is_prefix(path_view(from), path_view(to)) && parent_is_dir(
                    old(self)@.entries,
                    path_view(to),
                ) && (!has_path(old(self)@.entries, path_view(to)) || (dir_at(old(self)@.entries, path_view(to))
                    && !is_prefix(path_view(to), path_view(from)))),
            r ==> final(self)@.entries == upsert_all(
                crate::snapshot::remove_all(old(self)@.entries, seq![path_view(to), path_view(from)]),
                moved_entries(old(self)@.entries, path_view(from), path_view(to), old(self).ignore_rules(), old(self).tracked_paths()),
            ) && final(self)@.scan_id == old(self)@.scan_id + 1 && final(self).history() == old(self).history().push(
                final(self)@,
            ),
            !r ==> final(self)@ == old(self)@ && final(self).history() == old(self).history()
                && final(self).envelopes() == old(self).envelopes(),
            final(self).next_entry_id() == old(self).next_entry_id(),
            final(self).ignore_rules() == old(self).ignore_rules(),
    {
        let ghost m = self@.entries;
        proof {
            lemma_unique_path(m, path_view(from));
        }
        let existing = match self.snapshot.entry_for_path(from) {
            None => {
                return false;
            },
            Some(e) => e,
        };
        let ghost k = choose|k: int| 0 <= k < m.len() && #[trigger] m[k] == existing@;
        assert(entry_at_path(m, path_view(from), k));
        if existing.inode != md.inode || path_starts_with(to, from) || !self.parent_dir_exists(to) {
            return false;
        }
        proof {
            lemma_unique_path(m, path_view(to));
        }
        match self.snapshot.entry_for_path(to) {
            Some(x) => {
                let ghost j = choose|j: int| 0 <= j < m.len() && #[trigger] m[j] == x@;
                assert(m[j].path == path_view(to));
                if !x.is_dir() || path_starts_with(from, to) {
                    return false;
                }
                assert(dir_at(m, path_view(to)));
            },
            None => {},
        }
        self.move_subtree(from, to, true);
        assert(move_removals(path_view(from), path_view(to), true) == seq![path_view(to), path_view(from)]);
        true
    }

    /// Creates a file or directory at `path`, and a directory at each missing
    /// ancestor. Creating a directory where a directory stands changes nothing.
    pub fn create_entry(&mut self, path: &PathBytes, is_dir: bool, inode: u64, mtime: u64) -> (r: Result<
        Entry,
        WorktreeError,
    >)
        requires
            old(self).wf(),
            old(self)@.scan_id < u64::MAX,
            old(self).next_entry_id() + path.len() + 1 <= u64::MAX,
        ensures
            final(self).wf(),
            added(
                *old(self),
                *final(self),
                path_view(path),
                if is_dir {
                    EntryKind::Directory
                } else {
                    EntryKind::File
                },
                inode,
                mtime,
                false,
                r,
            ),
    {
        let kind = if is_dir {
            EntryKind::Directory
        } else {
            EntryKind::File
        };
        self.add_entry(path, kind, inode, mtime, false)
    }

    /// Records an entry of any kind at `path` (as a scan finds it), and a
    /// directory at each missing ancestor. Recording a directory where a
    /// directory stands changes nothing.
    pub fn add_entry(&mut self, path: &PathBytes, kind: EntryKind, inode: u64, mtime: u64, is_external: bool) -> (r:
        Result<Entry, WorktreeError>)
        requires
            old(self).wf(),
            old(self)@.scan_id < u64::MAX,
            old(self).next_entry_id() + path.len() + 1 <= u64::MAX,
        ensures
            final(self).wf(),
            added(*old(self), *final(self), path_view(path), kind, inode, mtime, is_external, r),
    {
        let ghost m = self@.entries;
        let ghost p = path_view(path);
        let ghost rules = self.rules@;
        let ghost visible_paths = self.tracked_paths();
        let ghost next = self.next_id as int;
        if path.len() == 0 {
            return Err(WorktreeError::InvalidPath);
        }
        match self.snapshot.entry_for_path(path) {
            Some(existing) => {
                proof {
                    lemma_unique_path(m, p);
                }
                if kind.is_dir() && existing.is_dir() {
                    return Ok(existing);
                }
                return Err(WorktreeError::AlreadyExists);
            },
            None => {},
        }
        let mut created: Vec<Entry> = Vec::new();
        let mut n: usize = 0;
        while n < path.len()
            invariant
                n <= path.len(),
                m == self@.entries,
                p == path_view(path),
                rules == self.rules@,
                visible_paths == self.tracked_paths(),
                next == self.next_id as int,
                self.wf(),
                !has_path(m, p),
                self.next_id + path.len() + 1 <= u64::MAX,
                entries_view(created@) == missing_dirs(m, rules, visible_paths, p, n as nat, next),
                forall|j: int| 0 <= j < n ==> !non_dir_at(m, #[trigger] p.subrange(0, j)),
            decreases path.len() - n,
        {
            proof {
                lemma_missing_dirs_len(m, rules, visible_paths, p, n as nat, next);
                lemma_unique_path(m, p.subrange(0, n as int));
            }
            let q = copy_path_prefix(path, n);
            match self.snapshot.entry_for_path(&q) {
                Some(x) => {
                    if !x.is_dir() {
                        proof {
                            let k = choose|k: int| 0 <= k < m.len() && #[trigger] m[k] == x@;
                            assert(m[k].path == p.subrange(0, n as int));
                            assert(non_dir_at(m, p.subrange(0, n as int)));
                        }
                        return Err(WorktreeError::InvalidPath);
                    }
                    assert(has_path(m, p.subrange(0, n as int)));
                },
                None => {
                    let ignored = self.ignored(&q);
                    let d = Entry {
                        id: self.next_id + created.len() as u64,
                        path: q,
                        kind: EntryKind::Directory,
                        inode: 0,
                        mtime: 0,
                        is_ignored: ignored,
                        is_external: false,
                        git_status: None,
                    };
                    let ghost before = created@;
                    created.push(d);
                    assert(entries_view(created@) =~= entries_view(before).push(d@));
                },
            }
            assert(forall|j: int| 0 <= j < n + 1 ==> !non_dir_at(m, #[trigger] p.subrange(0, j)));
            n = n + 1;
        }
        proof {
            lemma_missing_dirs_len(m, rules, visible_paths, p, n as nat, next);
        }
        let ghost dirs = entries_view(created@);
        let id = self.next_id + created.len() as u64;
        let ignored = self.ignored(path);
        let e = Entry {
            id,
            path: copy_path(path),
            kind,
            inode,
            mtime,
            is_ignored: ignored,
            is_external,
            git_status: None,
        };
        let result = e.copy();
        let count = created.len() as u64;
        created.push(e);
        assert(entries_view(created@) =~= dirs.push(e@));
        let removed: Vec<PathBytes> = Vec::new();
        assert(paths_view(removed@) =~= Seq::<Seq<Seq<u8>>>::empty());
        proof {
            lemma_remove_none(m);
            lemma_missing_dirs_ids(m, rules, visible_paths, p, path.len() as nat, next);
            lemma_missing_dirs_consistent(m, rules, visible_paths, p, path.len() as nat, next);
            assert forall|k: int| 0 <= k < dirs.push(e@).len() implies #[trigger] dirs.push(e@)[k].is_ignored
                == ignore_status(rules, visible_paths, dirs.push(e@)[k].path) by {
                if k < dirs.len() {
                    assert(dirs.push(e@)[k] == dirs[k]);
                }
            }
            let es = dirs.push(e@);
            assert forall|k: int| 0 <= k < es.len() implies #[trigger] es[k].id == next + k by {
                if k < dirs.len() {
                    assert(es[k] == dirs[k]);
                }
            }
            assert(ids_fit(m, es, next + dirs.len() + 1));
        }
        let nx = self.next_id + count + 1;
        proof {
            assert(ignore_consistent(entries_view(created@), self.rules@, self.tracked_paths()));
            lemma_apply_consistent(
                self@.entries,
                paths_view(removed@),
                entries_view(created@),
                self.rules@,
                self.tracked_paths(),
            );
        }
        self.commit(removed, created, nx);
        proof {
            assert(self.next_id == old(self).next_entry_id() + dirs.len() + 1);
        }
        Ok(result)
    }
}

impl Worktree {
    /// Writes the file at `path` as the filesystem reports it after a write:
    /// an existing file keeps its identifier and takes the new inode, mtime
    /// and ignore status; a missing one is added with its missing ancestors.
    /// A directory cannot be written.
    pub fn write_file(&mut self, path: &PathBytes, inode: u64, mtime: u64) -> (r: Result<Entry, WorktreeError>)
        requires
            old(self).wf(),
            old(self)@.scan_id < u64::MAX,
            old(self).next_entry_id() + path.len() + 1 <= u64::MAX,
        ensures
            final(self).wf(),
            !has_path(old(self)@.entries, path_view(path)) ==> added(
                *old(self),
                *final(self),
                path_view(path),
                EntryKind::File,
                inode,
                mtime,
                false,
                r,
            ),
            has_path(old(self)@.entries, path_view(path)) ==> (r == Err::<Entry, WorktreeError>(
                WorktreeError::InvalidPath) <==> !non_dir_at(old(self)@.entries, path_view(path))),
            has_path(old(self)@.entries, path_view(path)) && non_dir_at(old(self)@.entries, path_view(path))
                ==> r is Ok,
            r is Err ==> final(self)@ == old(self)@ && final(self).history() == old(self).history()
                && final(self).envelopes() == old(self).envelopes(),
            r matches Ok(e) ==> (has_path(old(self)@.entries, path_view(path)) ==> exists|k: int|
                0 <= k < old(self)@.entries.len() && #[trigger] old(self)@.entries[k].path == path_view(path)
                    && e@ == (EntryView {
                    inode,
                    mtime,
                    is_ignored: ignore_status(old(self).ignore_rules(), old(self).tracked_paths(), path_view(path)),
                    ..old(self)@.entries[k]
                }) && final(self)@.entries == upserted(old(self)@.entries, e@) && final(self)@.scan_id
                    == old(self)@.scan_id + 1 && final(self).history() == old(self).history().push(final(self)@)),
            final(self).ignore_rules() == old(self).ignore_rules(),
    {
        let ghost m = self@.entries;
        match self.snapshot.entry_for_path(path) {
            None => self.add_entry(path, EntryKind::File, inode, mtime, false),
            Some(existing) => {
                proof {
                    lemma_unique_path(m, path_view(path));
                }
                let ghost k = choose|k: int| 0 <= k < m.len() && #[trigger] m[k] == existing@;
                if existing.is_dir() {
                    assert(!non_dir_at(m, path_view(path))) by {
                        if non_dir_at(m, path_view(path)) {
                            let j = choose|j: int| 0 <= j < m.len() && #[trigger] m[j].path == path_view(path) && !kind_is_dir(m[j].kind);
                            assert(m[k].path == path_view(path));
                        }
                    }
                    return Err(WorktreeError::InvalidPath);
                }
                assert(m[k].path == path_view(path));
                assert(non_dir_at(m, path_view(path)));
                let mut e = existing;
                e.inode = inode;
                e.mtime = mtime;
                e.is_ignored = self.ignored(path);
                let result = e.copy();
                let mut updated: Vec<Entry> = Vec::new();
                updated.push(e);
                let removed: Vec<PathBytes> = Vec::new();
                proof {
                    assert(entries_view(updated@) =~= seq![result@]);
                    assert(paths_view(removed@) =~= Seq::<Seq<Seq<u8>>>::empty());
                    lemma_remove_none(m);
                    assert(seq![result@].drop_last() =~= Seq::<EntryView>::empty());
                    assert(upsert_all(m, Seq::<EntryView>::empty()) == m);
                    assert(upsert_all(m, seq![result@]) == upserted(m, result@));
                }
                proof {
                    lemma_unique_id_same_path(m, k, result@);
                    assert(result@.id == m[k].id && m[k].id < self.next_id);
                    let es = seq![result@];
                    assert(es[0] == result@);
                    assert(ids_fit(m, es, self.next_id as int));
                }
                let nx = self.next_id;
                proof {
                    assert(ignore_consistent(entries_view(updated@), self.rules@, self.tracked_paths()));
                    lemma_apply_consistent(
                        self@.entries,
                        paths_view(removed@),
                        entries_view(updated@),
                        self.rules@,
                        self.tracked_paths(),
                    );
                }
                self.commit(removed, updated, nx);
                Ok(result)
            },
        }
    }

    /// Reconciles `path` with what the filesystem now reports for it
    /// (`None`: nothing is there), in at most one commit, and says how the
    /// entry changed: a missing entry is added (`Loaded` during the initial
    /// scan) with its missing ancestors; a vanished one is removed with its
    /// subtree; one whose metadata changed keeps its identifier (`Updated`)
    /// unless it turned between directory and non-directory, when it is
    /// replaced by a fresh entry. The root cannot be removed.
    pub fn reconcile(&mut self, path: &PathBytes, observed: Option<Metadata>, initial_scan: bool) -> (r: Result<
        Option<(PathChange, Vec<Entry>)>,
        WorktreeError,
    >)
        requires
            old(self).wf(),
            old(self)@.scan_id < u64::MAX,
            old(self).next_entry_id() + path.len() + 1 <= u64::MAX,
        ensures
            final(self).wf(),
            reconciled(*old(self), *final(self), path_view(path), observed, initial_scan, r),
    {
        let ghost m = self@.entries;
        let ghost p = path_view(path);
        match self.snapshot.entry_for_path(path) {
            None => {
                match observed {
                    None => Ok(None),
                    Some(md) => {
                        let r = self.add_entry(path, md.kind, md.inode, md.mtime, md.is_external);
                        match r {
                            Ok(e) => {
                                let c = if initial_scan {
                                    PathChange::Loaded
                                } else {
                                    PathChange::Added
                                };
                                let mut es: Vec<Entry> = Vec::new();
                                es.push(e);
                                Ok(Some((c, es)))
                            },
                            Err(err) => Err(err),
                        }
                    },
                }
            },
            Some(existing) => {
                proof {
                    lemma_unique_path(m, p);
                }
                let ghost k = choose|k: int| 0 <= k < m.len() && #[trigger] m[k] == existing@;
                assert(entry_at_path(m, p, k));
                match observed {
                    None => {
                        if path.len() == 0 {
                            return Err(WorktreeError::InvalidPath);
                        }
                        let gone = self.snapshot.descendent_entries(true, true, path);
                        let mut removed: Vec<PathBytes> = Vec::new();
                        removed.push(copy_path(path));
                        let updated: Vec<Entry> = Vec::new();
                        proof {
                            assert(paths_view(removed@) =~= seq![p]);
                            assert(entries_view(updated@) =~= Seq::<EntryView>::empty());
                            lemma_remove_one(m, p);
                        }
                        proof {
                            assert(ids_fit(without_subtree(m, p), Seq::<EntryView>::empty(), self.next_id as int));
                        }
                        let nx = self.next_id;
                        proof {
                            assert(ignore_consistent(entries_view(updated@), self.rules@, self.tracked_paths()));
                            lemma_apply_consistent(
                                self@.entries,
                                paths_view(removed@),
                                entries_view(updated@),
                                self.rules@,
                                self.tracked_paths(),
                            );
                        }
                        self.commit(removed, updated, nx);
                        Ok(Some((PathChange::Removed, gone)))
                    },
                    Some(md) => {
                        if md.kind == existing.kind && md.inode == existing.inode && md.mtime == existing.mtime
                            && md.is_external == existing.is_external {
                            return Ok(None);
                        }
                        let ignored = self.ignored(path);
                        if md.kind.is_dir() == existing.is_dir() {
                            let mut e = existing;
                            e.kind = md.kind;
                            e.inode = md.inode;
                            e.mtime = md.mtime;
                            e.is_external = md.is_external;
                            e.is_ignored = ignored;
                            let result = e.copy();
                            let mut updated: Vec<Entry> = Vec::new();
                            updated.push(e);
                            let removed: Vec<PathBytes> = Vec::new();
                            proof {
                                assert(entries_view(updated@) =~= seq![result@]);
                                assert(paths_view(removed@) =~= Seq::<Seq<Seq<u8>>>::empty());
                                lemma_remove_none(m);
                                assert(seq![result@].drop_last() =~= Seq::<EntryView>::empty());
                                assert(upsert_all(m, Seq::<EntryView>::empty()) == m);
                            }
                            proof {
                                lemma_unique_id_same_path(m, k, result@);
                                assert(result@.id == m[k].id && m[k].id < self.next_id);
                                let es = seq![result@];
                                assert(es[0] == result@);
                                assert(ids_fit(m, es, self.next_id as int));
                            }
                            let nx = self.next_id;
                            proof {
                                assert(ignore_consistent(entries_view(updated@), self.rules@, self.tracked_paths()));
                                lemma_apply_consistent(
                                    self@.entries,
                                    paths_view(removed@),
                                    entries_view(updated@),
                                    self.rules@,
                                    self.tracked_paths(),
                                );
                            }
                            self.commit(removed, updated, nx);
                            let mut es: Vec<Entry> = Vec::new();
                            es.push(result);
                            Ok(Some((PathChange::Updated, es)))
                        } else {
                            let e = Entry {
                                id: self.next_id,
                                path: copy_path(path),
                                kind: md.kind,
                                inode: md.inode,
                                mtime: md.mtime,
                                is_ignored: ignored,
                                is_external: md.is_external,
                                git_status: None,
                            };
                            let result = e.copy();
                            let mut updated: Vec<Entry> = Vec::new();
                            updated.push(e);
                            let mut removed: Vec<PathBytes> = Vec::new();
                            removed.push(copy_path(path));
                            proof {
                                assert(entries_view(updated@) =~= seq![result@]);
                                assert(paths_view(removed@) =~= seq![p]);
                                lemma_remove_one(m, p);
                                let base = without_subtree(m, p);
                                assert(seq![result@].drop_last() =~= Seq::<EntryView>::empty());
                                assert(upsert_all(base, Seq::<EntryView>::empty()) == base);
                            }
                            proof {
                                let base = without_subtree(m, p);
                                lemma_filter_ids(m, crate::snapshot::outside_pred(p), self.next_id as int);
                                assert(ids_fit(base, seq![result@], self.next_id + 1));
                            }
                            let nx = self.next_id + 1;
                            proof {
                                assert(ignore_consistent(entries_view(updated@), self.rules@, self.tracked_paths()));
                                lemma_apply_consistent(
                                    self@.entries,
                                    paths_view(removed@),
                                    entries_view(updated@),
                                    self.rules@,
                                    self.tracked_paths(),
                                );
                            }
                            self.commit(removed, updated, nx);
                            let mut es: Vec<Entry> = Vec::new();
                            es.push(result);
                            Ok(Some((PathChange::Added, es)))
                        }
                    },
                }
            },
        }
    }

    /// Takes the statuses that a repository reports onto the files of the
    /// tree, in one commit.
    pub fn set_git_statuses(&mut self, repo: &Repository)
        requires
            old(self).wf(),
            old(self)@.scan_id < u64::MAX,
        ensures
            final(self).wf(),
            final(self)@.entries == with_repository_statuses(old(self)@.entries, repo@),
            final(self)@.scan_id == old(self)@.scan_id + 1,
            final(self).history() == old(self).history().push(final(self)@),
            final(self).ignore_rules() == old(self).ignore_rules(),
            final(self).next_entry_id() == old(self).next_entry_id(),
    {
        let ghost m = self@.entries;
        let ghost target = with_repository_statuses(m, repo@);
        let mut updated: Vec<Entry> = Vec::new();
        let mut i: usize = 0;
        while i < self.snapshot.entry_count()
            invariant
                m == self@.entries,
                target == with_repository_statuses(m, repo@),
                i <= m.len(),
                entries_view(updated@) == target.subrange(0, i as int),
            decreases m.len() - i,
        {
            let mut e = self.snapshot.entry_at(i).copy();
            if !e.is_dir() {
                e.git_status = repo.status_for_file(&e.path);
            }
            let ghost before = updated@;
            updated.push(e);
            assert(entries_view(updated@) =~= entries_view(before).push(e@));
            assert(entries_view(updated@) =~= target.subrange(0, i + 1));
            i = i + 1;
        }
        let removed: Vec<PathBytes> = Vec::new();
        proof {
            assert(target.subrange(0, m.len() as int) =~= target);
            assert(paths_view(removed@) =~= Seq::<Seq<Seq<u8>>>::empty());
            lemma_remove_none(m);
            lemma_upsert_all_same_paths(m, target, m.len() as int);
            assert(target + m.subrange(m.len() as int, m.len() as int) =~= target);
            assert(ids_fit(m, target, self.next_id as int));
        }
        let nx = self.next_id;
        proof {
            assert(ignore_consistent(entries_view(updated@), self.rules@, self.tracked_paths()));
            lemma_apply_consistent(
                self@.entries,
                paths_view(removed@),
                entries_view(updated@),
                self.rules@,
                self.tracked_paths(),
            );
        }
        self.commit(removed, updated, nx);
    }

    /// Recomputes every entry's ignore status from the rules and visible_paths
    /// paths in force, in one commit.
    fn refresh_all(&mut self)
        requires
            old(self).wf_core(),
            old(self)@.scan_id < u64::MAX,
        ensures
            final(self).wf(),
            final(self)@.entries == with_ignore_status(
                old(self)@.entries,
                old(self).ignore_rules(),
                old(self).tracked_paths(),
            ),
            final(self)@.scan_id == old(self)@.scan_id + 1,
            final(self).history() == old(self).history().push(final(self)@),
            final(self).ignore_rules() == old(self).ignore_rules(),
            final(self).tracked_paths() == old(self).tracked_paths(),
            final(self).next_entry_id() == old(self).next_entry_id(),
    {
        let ghost m = self@.entries;
        let ghost target = with_ignore_status(m, self.rules@, self.tracked_paths());
        let mut updated: Vec<Entry> = Vec::new();
        let mut i: usize = 0;
        while i < self.snapshot.entry_count()
            invariant
                m == self@.entries,
                target == with_ignore_status(m, self.rules@, self.tracked_paths()),
                i <= m.len(),
                entries_view(updated@) == target.subrange(0, i as int),
            decreases m.len() - i,
        {
            let mut e = self.snapshot.entry_at(i).copy();
            e.is_ignored = self.ignored(&e.path);
            let ghost before = updated@;
            updated.push(e);
            assert(entries_view(updated@) =~= entries_view(before).push(e@));
            assert(entries_view(updated@) =~= target.subrange(0, i + 1));
            i = i + 1;
        }
        let removed: Vec<PathBytes> = Vec::new();
        proof {
            assert(target.subrange(0, m.len() as int) =~= target);
            assert(paths_view(removed@) =~= Seq::<Seq<Seq<u8>>>::empty());
            lemma_remove_none(m);
            lemma_upsert_all_same_paths(m, target, m.len() as int);
            assert(target + m.subrange(m.len() as int, m.len() as int) =~= target);
            assert(ids_fit(m, target, self.next_id as int));
            assert(ignore_consistent(target, self.rules@, self.tracked_paths()));
        }
        let nx = self.next_id;
        proof {
            assert(upsert_all(crate::snapshot::remove_all(m, paths_view(removed@)), entries_view(updated@))
                == target);
        }
        self.commit(removed, updated, nx);
    }
}

/// Pairs vanished and appeared paths of one batch of filesystem events by
/// inode, as candidates for `Worktree::reconcile_move`: each pair `(g, a)`
/// has `gone[g] == appeared[a]`, no index is used twice, and no vanished and
/// appeared path with the same inode are both left unpaired. Each appeared
/// path takes the first free vanished one.
pub fn pair_moves(gone: &Vec<u64>, appeared: &Vec<u64>) -> (r: Vec<(usize, usize)>)
    ensures
        forall|k: int|
            0 <= k < r@.len() ==> (#[trigger] r@[k]).0 < gone@.len() && r@[k].1 < appeared@.len() && gone@[r@[k].0 as int]
                == appeared@[r@[k].1 as int],
        forall|j: int, k: int|
            0 <= j < k < r@.len() ==> (#[trigger] r@[j]).0 != (#[trigger] r@[k]).0 && r@[j].1 != r@[k].1,
        forall|g: int, a: int|
            0 <= g < gone@.len() && 0 <= a < appeared@.len() && #[trigger] gone@[g] == #[trigger] appeared@[a]
                ==> (exists|k: int| 0 <= k < r@.len() && r@[k].0 == g) || (exists|k: int|
                0 <= k < r@.len() && r@[k].1 == a),
{
    let mut used: Vec<bool> = Vec::new();
    let mut i: usize = 0;
    while i < gone.len()
        invariant
            i <= gone.len(),
            used@.len() == i,
            forall|g: int| 0 <= g < i ==> !used@[g],
        decreases gone.len() - i,
    {
        used.push(false);
        i = i + 1;
    }
    let mut r: Vec<(usize, usize)> = Vec::new();
    let mut a: usize = 0;
    while a < appeared.len()
        invariant
            a <= appeared.len(),
            used@.len() == gone@.len(),
            forall|k: int|
                0 <= k < r@.len() ==> (#[trigger] r@[k]).0 < gone@.len() && r@[k].1 < a && gone@[r@[k].0 as int]
                    == appeared@[r@[k].1 as int],
            forall|j: int, k: int|
                0 <= j < k < r@.len() ==> (#[trigger] r@[j]).0 != (#[trigger] r@[k]).0 && r@[j].1 < r@[k].1,
            forall|g: int| 0 <= g < gone@.len() ==> (#[trigger] used@[g] <==> exists|k: int| 0 <= k < r@.len() && r@[k].0 == g),
            forall|g: int, b: int|
                0 <= g < gone@.len() && 0 <= b < a && #[trigger] gone@[g] == #[trigger] appeared@[b] ==> used@[g]
                    || (exists|k: int| 0 <= k < r@.len() && r@[k].1 == b),
        decreases appeared.len() - a,
    {
        let mut g: usize = 0;
        let mut found = false;
        while g < gone.len()
            invariant_except_break
                !found,
            invariant
                g <= gone.len(),
                used@.len() == gone@.len(),
                a < appeared@.len(),
                forall|h: int| 0 <= h < g ==> used@[h] || #[trigger] gone@[h] != appeared@[a as int],
            ensures
                found ==> g < gone.len() && !used@[g as int] && gone@[g as int] == appeared@[a as int],
                !found ==> g == gone.len() && forall|h: int|
                    0 <= h < gone@.len() ==> used@[h] || #[trigger] gone@[h] != appeared@[a as int],
            decreases gone.len() - g,
        {
            if !used[g] && gone[g] == appeared[a] {
                found = true;
                break;
            }
            g = g + 1;
        }
        if found && g < gone.len() {
            let ghost before = r@;
            let ghost used_before = used@;
            r.push((g, a));
            used.set(g, true);
            assert(r@[r@.len() - 1] == (g, a));
            assert forall|h: int| 0 <= h < gone@.len() implies (#[trigger] used@[h] <==> exists|k: int|
                0 <= k < r@.len() && r@[k].0 == h) by {
                if h == g {
                    assert(r@[r@.len() - 1].0 == h);
                } else {
                    if used_before[h] {
                        let k = choose|k: int| 0 <= k < before.len() && before[k].0 == h;
                        assert(r@[k] == before[k]);
                    }
                    if exists|k: int| 0 <= k < r@.len() && r@[k].0 == h {
                        let k = choose|k: int| 0 <= k < r@.len() && r@[k].0 == h;
                        assert(k < before.len());
                        assert(before[k] == r@[k]);
                    }
                }
            }
            assert forall|gg: int, b: int|
                0 <= gg < gone@.len() && 0 <= b < a + 1 && #[trigger] gone@[gg] == #[trigger] appeared@[b] implies used@[gg]
                || (exists|k: int| 0 <= k < r@.len() && r@[k].1 == b) by {
                if b == a {
                    assert(r@[r@.len() - 1].1 == b);
                } else if !used_before[gg] {
                    let k = choose|k: int| 0 <= k < before.len() && before[k].1 == b;
                    assert(r@[k] == before[k]);
                }
            }
            assert forall|j: int, k: int|
                0 <= j < k < r@.len() implies (#[trigger] r@[j]).0 != (#[trigger] r@[k]).0 && r@[j].1 < r@[k].1 by {
                if k == r@.len() - 1 {
                    assert(r@[j] == before[j]);
                    assert(used_before[before[j].0 as int]);
                }
            }
        } else {
            assert forall|gg: int, b: int|
                0 <= gg < gone@.len() && 0 <= b < a + 1 && #[trigger] gone@[gg] == #[trigger] appeared@[b] implies used@[gg]
                || (exists|k: int| 0 <= k < r@.len() && r@[k].1 == b) by {}
        }
        a = a + 1;
    }
    r
}

/// The shape of a worktree's record: one snapshot more than envelopes, the
/// last snapshot the live one, scan ids rising.
pub proof fn lemma_history_shape(w: &Worktree)
    requires
        w.wf(),
    ensures
        w.history().len() == w.envelopes().len() + 1,
        w.history().last() == w@,
        forall|a: int, b: int|
            0 <= a < b < w.history().len() ==> #[trigger] w.history()[a].scan_id
                < #[trigger] w.history()[b].scan_id,
        forall|j: int| 0 <= j < w.envelopes().len() ==> #[trigger] w.envelopes()[j].scan_id == w.history()[j + 1].scan_id,
{
}

/// A worktree's entries are in path order, so its snapshots are well formed.
pub proof fn lemma_wf_sorted(w: &Worktree)
    requires
        w.wf(),
    ensures
        sorted_by_path(w@.entries),
{
}

/// Every entry's ignore status follows the rules in force: ignored exactly
/// when the rules match its path or an ancestor (or it lies in `.git`), unless
/// it is tracked.
pub proof fn lemma_ignore_invariant(w: &Worktree)
    requires
        w.wf(),
    ensures
        ignore_consistent(w@.entries, w.ignore_rules(), w.tracked_paths()),
{
}

/// Ignoring reaches below an ignored directory: in a worktree, an entry
/// below a path that the rules ignore is ignored unless it is tracked.
pub proof fn lemma_worktree_ignore_inherited(w: &Worktree, ancestor: Seq<Seq<u8>>, k: int)
    requires
        w.wf(),
        0 <= k < w@.entries.len(),
        is_prefix(ancestor, w@.entries[k].path),
        crate::ignore::path_ignored(w.ignore_rules(), ancestor),
        !w.tracked_paths().contains(w@.entries[k].path),
    ensures
        w@.entries[k].is_ignored,
{
    crate::snapshot::lemma_ignored_below_ignored_ancestor(
        w@.entries,
        w.ignore_rules(),
        w.tracked_paths(),
        ancestor,
        k,
    );
}

/// Identity is single: no two entries of a worktree share an identifier,
/// and every identifier is below the next one to be handed out, so none is
/// ever reused.
pub proof fn lemma_ids_unique(w: &Worktree)
    requires
        w.wf(),
    ensures
        ids_fresh_below(w@.entries, w.next_entry_id() as int),
{
}

proof fn lemma_replay_prefix(w: &Worktree, j: int, k: int)
    requires
        w.wf(),
        0 <= j < w.history().len(),
        0 <= k <= w.envelopes().len(),
    ensures
        apply_all(w.history()[j], w.envelopes().subrange(0, k)) == (if k <= j {
            w.history()[j]
        } else {
            w.history()[k]
        }),
    decreases k,
{
    let h = w.history();
    let l = w.envelopes();
    if k == 0 {
        assert(l.subrange(0, 0) =~= Seq::<EnvelopeView>::empty());
    } else {
        lemma_replay_prefix(w, j, k - 1);
        assert(l.subrange(0, k).drop_last() =~= l.subrange(0, k - 1));
        assert(l.subrange(0, k).last() == l[k - 1]);
        assert(applied(h[k - 1], l[k - 1]) == h[k]);
        assert(l[k - 1].scan_id == h[k].scan_id);
        if k < j {
            assert(h[k].scan_id < h[j].scan_id);
        }
    }
}

/// Replication closure: a replica that holds the snapshot published after
/// any commit and applies every envelope of the log in order ends equal to
/// the live snapshot, identifiers included; the envelopes it already
/// reflects change nothing.
pub proof fn lemma_replication_closure(w: &Worktree, j: int)
    requires
        w.wf(),
        0 <= j < w.history().len(),
    ensures
        apply_all(w.history()[j], w.envelopes()) == w@,
{
    let l = w.envelopes();
    lemma_replay_prefix(w, j, l.len() as int);
    assert(l.subrange(0, l.len() as int) =~= l);
}

/// Commits are atomic: replaying the log from the first snapshot passes
/// through each published snapshot in turn, one per envelope.
pub proof fn lemma_replay_reproduces_history(w: &Worktree, k: int)
    requires
        w.wf(),
        0 <= k <= w.envelopes().len(),
    ensures
        apply_all(w.history()[0], w.envelopes().subrange(0, k)) == w.history()[k],
{
    lemma_replay_prefix(w, 0, k);
}

/// Putting entries in turn leaves each one that no later entry replaces.
pub proof fn lemma_upsert_all_contains(m: Seq<EntryView>, es: Seq<EntryView>, i: int)
    requires
        0 <= i < es.len(),
        forall|j: int| i < j < es.len() ==> #[trigger] es[j].path != es[i].path,
    ensures
        upsert_all(m, es).contains(es[i]),
    decreases es.len(),
{
    let x = upsert_all(m, es.drop_last());
    let e = es.last();
    let a = x.filter(before_pred(e.path));
    let c = x.filter(after_pred(e.path));
    let r = upserted(x, e);
    assert(r == a.push(e) + c);
    if i == es.len() - 1 {
        assert(r[a.len() as int] == e);
    } else {
        assert forall|j: int| i < j < es.drop_last().len() implies #[trigger] es.drop_last()[j].path
            != es.drop_last()[i].path by {
            assert(es.drop_last()[j] == es[j]);
        }
        lemma_upsert_all_contains(m, es.drop_last(), i);
        assert(es.drop_last()[i] == es[i]);
        let v = es[i];
        assert(e == es[es.len() - 1]);
        let q = choose|q: int| 0 <= q < x.len() && x[q] == v;
        lemma_path_lt_strict_total(v.path, e.path, e.path);
        if path_lt(v.path, e.path) {
            x.lemma_filter_contains(before_pred(e.path), q);
            let t = choose|t: int| 0 <= t < a.len() && a[t] == v;
            assert(r[t] == v);
        } else {
            x.lemma_filter_contains(after_pred(e.path), q);
            let t = choose|t: int| 0 <= t < c.len() && c[t] == v;
            assert(r[a.len() + 1 + t] == v);
        }
    }
}

/// Identity survives a rename: after moving the subtree of `from` under
/// `to`, each entry of it stands at its new path with its identifier and
/// inode unchanged.
pub proof fn lemma_rename_keeps_ids(
    m: Seq<EntryView>,
    from: Seq<Seq<u8>>,
    to: Seq<Seq<u8>>,
    rules: Seq<crate::ignore::IgnoreFileView>,
    visible_paths: Seq<Seq<Seq<u8>>>,
    k: int,
)
    requires
        sorted_by_path(m),
        0 <= k < m.len(),
        is_prefix(from, m[k].path),
    ensures
        upsert_all(without_subtree(m, from), moved_entries(m, from, to, rules, visible_paths)).contains(
            moved_entry(m[k], from.len(), to, rules, visible_paths),
        ),
        moved_entry(m[k], from.len(), to, rules, visible_paths).id == m[k].id,
        moved_entry(m[k], from.len(), to, rules, visible_paths).inode == m[k].inode,
        moved_entry(m[k], from.len(), to, rules, visible_paths).path == to + m[k].path.subrange(
            from.len() as int,
            m[k].path.len() as int,
        ),
{
    let f = shown_pred(true, true, from);
    let t = traversal(m, true, true, from);
    let g = |e: EntryView| moved_entry(e, from.len(), to, rules, visible_paths);
    let ms = moved_entries(m, from, to, rules, visible_paths);
    assert(f(m[k]));
    m.lemma_filter_contains(f, k);
    m.filter_lemma(f);
    lemma_filter_sorted(m, f);
    let i = choose|i: int| 0 <= i < t.len() && t[i] == m[k];
    assert(ms[i] == moved_entry(m[k], from.len(), to, rules, visible_paths));
    assert forall|j: int| i < j < ms.len() implies #[trigger] ms[j].path != ms[i].path by {
        assert(path_lt(t[i].path, t[j].path));
        lemma_path_lt_strict_total(t[i].path, t[j].path, t[j].path);
        assert(f(t[i]) && f(t[j]));
        let ri = t[i].path.subrange(from.len() as int, t[i].path.len() as int);
        let rj = t[j].path.subrange(from.len() as int, t[j].path.len() as int);
        assert(t[i].path =~= from + ri);
        assert(t[j].path =~= from + rj);
        if ms[j].path == ms[i].path {
            assert((to + ri).subrange(to.len() as int, (to + ri).len() as int) =~= ri);
            assert((to + rj).subrange(to.len() as int, (to + rj).len() as int) =~= rj);
        }
    }
    lemma_upsert_all_contains(without_subtree(m, from), ms, i);
}

/// The directories that creating a path adds take the identifiers counted
/// up from `next`, in order.
proof fn lemma_missing_dirs_ids(
    m: Seq<EntryView>,
    rules: Seq<crate::ignore::IgnoreFileView>,
    visible_paths: Seq<Seq<Seq<u8>>>,
    p: Seq<Seq<u8>>,
    n: nat,
    next: int,
)
    requires
        0 <= next,
        next + n <= u64::MAX,
    ensures
        forall|i: int|
            0 <= i < missing_dirs(m, rules, visible_paths, p, n, next).len() ==> #[trigger] missing_dirs(m, rules, visible_paths, p, n, next)[i].id
                == next + i,
    decreases n,
{
    if n > 0 {
        lemma_missing_dirs_ids(m, rules, visible_paths, p, (n - 1) as nat, next);
        lemma_missing_dirs_len(m, rules, visible_paths, p, (n - 1) as nat, next);
    }
}

/// An entry put in place of entry `k` with its identifier and path fits.
proof fn lemma_unique_id_same_path(m: Seq<EntryView>, k: int, e: EntryView)
    requires
        0 <= k < m.len(),
        e.id == m[k].id,
        e.path == m[k].path,
        forall|i: int, j: int| 0 <= i < m.len() && 0 <= j < m.len() && i != j ==> #[trigger] m[i].id != #[trigger] m[j].id,
    ensures
        forall|i: int| 0 <= i < m.len() && #[trigger] m[i].id == e.id ==> m[i].path == e.path,
{
}

/// A moved subtree keeps identifiers that no entry outside it holds.
proof fn lemma_moved_ids_fit(
    m: Seq<EntryView>,
    from: Seq<Seq<u8>>,
    to: Seq<Seq<u8>>,
    rules: Seq<crate::ignore::IgnoreFileView>,
    visible_paths: Seq<Seq<Seq<u8>>>,
    next: int,
)
    requires
        sorted_by_path(m),
        ids_fresh_below(m, next),
    ensures
        ids_fit(without_subtree(m, from), moved_entries(m, from, to, rules, visible_paths), next),
{
    let f = shown_pred(true, true, from);
    let t = traversal(m, true, true, from);
    let base = without_subtree(m, from);
    let ms = moved_entries(m, from, to, rules, visible_paths);
    lemma_filter_ids(m, f, next);
    m.filter_lemma(f);
    m.filter_lemma(crate::snapshot::outside_pred(from));
    assert forall|i: int, k: int|
        0 <= i < base.len() && 0 <= k < ms.len() && #[trigger] base[i].id == #[trigger] ms[k].id implies base[i].path
        == ms[k].path by {
        assert(ms[k].id == t[k].id);
        assert(base.contains(base[i]));
        assert(t.contains(t[k]));
        m.lemma_filter_contains_rev(crate::snapshot::outside_pred(from), base[i]);
        m.lemma_filter_contains_rev(f, t[k]);
        let a = choose|a: int| 0 <= a < m.len() && m[a] == base[i];
        let b = choose|b: int| 0 <= b < m.len() && m[b] == t[k];
        assert(crate::snapshot::outside_pred(from)(base[i]));
        assert(f(t[k]));
    }
    assert forall|j: int, k: int|
        0 <= j < ms.len() && 0 <= k < ms.len() && j != k implies #[trigger] ms[j].id != #[trigger] ms[k].id by {
        assert(ms[j].id == t[j].id);
        assert(ms[k].id == t[k].id);
    }
    assert forall|k: int| 0 <= k < ms.len() implies #[trigger] ms[k].id < next by {
        assert(ms[k].id == t[k].id);
    }
}

/// The subtrees that a move removes: the source, and first the destination
/// when it overwrites a directory.
pub open spec fn move_removals(from: Seq<Seq<u8>>, to: Seq<Seq<u8>>, overwrite: bool) -> Seq<Seq<Seq<u8>>> {
    if overwrite {
        seq![to, from]
    } else {
        seq![from]
    }
}

proof fn lemma_overwrite_base(m: Seq<EntryView>, from: Seq<Seq<u8>>, to: Seq<Seq<u8>>)
    ensures
        forall|y: EntryView|
            crate::snapshot::remove_all(m, seq![to, from]).contains(y) ==> #[trigger] without_subtree(m, from).contains(y),
{
    assert(seq![to, from].drop_last() =~= seq![to]);
    assert(seq![to, from].last() == from);
    lemma_remove_one(m, to);
    let x = without_subtree(m, to);
    let b = crate::snapshot::remove_all(m, seq![to, from]);
    assert(b == x.filter(crate::snapshot::outside_pred(from)));
    assert forall|y: EntryView| b.contains(y) implies #[trigger] without_subtree(m, from).contains(y) by {
        x.lemma_filter_contains_rev(crate::snapshot::outside_pred(from), y);
        m.lemma_filter_contains_rev(crate::snapshot::outside_pred(to), y);
        let q = choose|q: int| 0 <= q < b.len() && b[q] == y;
        b.filter_lemma(crate::snapshot::outside_pred(from));
        x.filter_lemma(crate::snapshot::outside_pred(from));
        let i = choose|i: int| 0 <= i < m.len() && m[i] == y;
        m.lemma_filter_contains(crate::snapshot::outside_pred(from), i);
    }
}

/// Removing no subtree changes nothing.
proof fn lemma_remove_none(m: Seq<EntryView>)
    ensures
        crate::snapshot::remove_all(m, Seq::<Seq<Seq<u8>>>::empty()) == m,
{
}

/// Removing one subtree is `without_subtree`.
proof fn lemma_remove_one(m: Seq<EntryView>, p: Seq<Seq<u8>>)
    ensures
        crate::snapshot::remove_all(m, seq![p]) == without_subtree(m, p),
{
    assert(seq![p].drop_last() =~= Seq::<Seq<Seq<u8>>>::empty());
    assert(seq![p].last() == p);
    lemma_remove_none(m);
}

/// Two entries of a sorted sequence never share a path.
proof fn lemma_unique_path(m: Seq<EntryView>, p: Seq<Seq<u8>>)
    requires
        sorted_by_path(m),
    ensures
        forall|a: int, b: int|
            0 <= a < m.len() && 0 <= b < m.len() && #[trigger] m[a].path == p && #[trigger] m[b].path == p ==> a == b,
{
    assert forall|a: int, b: int|
        0 <= a < m.len() && 0 <= b < m.len() && #[trigger] m[a].path == p && #[trigger] m[b].path == p implies a == b by {
        lemma_path_lt_strict_total(p, p, p);
        if a < b {
            assert(path_lt(m[a].path, m[b].path));
        } else if b < a {
            assert(path_lt(m[b].path, m[a].path));
        }
    }
}

} // verus!
