//! Snapshots: entries in path order, traversals, and update envelopes.
use vstd::prelude::*;
use vstd::seq_lib::group_seq_properties;

use crate::entry::{entries_view, kind_is_dir, Entry, EntryView};
use crate::ignore::{path_ignored, IgnoreFileView};
use crate::path::{
    compare_paths, copy_path, is_prefix, lemma_path_lt_strict_total, path_lt, path_starts_with, path_view,
    PathBytes,
};

verus! {

broadcast use group_seq_properties;

/// Entries strictly ordered by path, hence with unique paths.
pub open spec fn sorted_by_path(m: Seq<EntryView>) -> bool {
    forall|i: int, j: int| 0 <= i < j < m.len() ==> path_lt(#[trigger] m[i].path, #[trigger] m[j].path)
}

/// Whether a traversal below `parent` shows entry `e`.
pub open spec fn shown(e: EntryView, include_dirs: bool, include_ignored: bool, parent: Seq<Seq<u8>>) -> bool {
    &&& is_prefix(parent, e.path)
    &&& (include_dirs || !kind_is_dir(e.kind))
    &&& (include_ignored || !e.is_ignored)
}

pub open spec fn shown_pred(include_dirs: bool, include_ignored: bool, parent: Seq<Seq<u8>>) -> spec_fn(
    EntryView,
) -> bool {
    |e: EntryView| shown(e, include_dirs, include_ignored, parent)
}

/// The entries at or below `parent` that a traversal shows, in tree order.
pub open spec fn traversal(
    m: Seq<EntryView>,
    include_dirs: bool,
    include_ignored: bool,
    parent: Seq<Seq<u8>>,
) -> Seq<EntryView> {
    m.filter(shown_pred(include_dirs, include_ignored, parent))
}

pub open spec fn outside_pred(p: Seq<Seq<u8>>) -> spec_fn(EntryView) -> bool {
    |e: EntryView| !is_prefix(p, e.path)
}

/// `m` without the entry at `p` and everything below it.
pub open spec fn without_subtree(m: Seq<EntryView>, p: Seq<Seq<u8>>) -> Seq<EntryView> {
    m.filter(outside_pred(p))
}

pub open spec fn before_pred(p: Seq<Seq<u8>>) -> spec_fn(EntryView) -> bool {
    |e: EntryView| path_lt(e.path, p)
}

pub open spec fn after_pred(p: Seq<Seq<u8>>) -> spec_fn(EntryView) -> bool {
    |e: EntryView| path_lt(p, e.path)
}

/// `m` with `e` in place of the entry at its path, or added in order.
pub open spec fn upserted(m: Seq<EntryView>, e: EntryView) -> Seq<EntryView> {
    m.filter(before_pred(e.path)).push(e) + m.filter(after_pred(e.path))
}

/// Removes each subtree of `paths` in turn.
pub open spec fn remove_all(m: Seq<EntryView>, paths: Seq<Seq<Seq<u8>>>) -> Seq<EntryView>
    decreases paths.len(),
{
    if paths.len() == 0 {
        m
    } else {
        without_subtree(remove_all(m, paths.drop_last()), paths.last())
    }
}

/// Puts each entry of `es` in turn.
pub open spec fn upsert_all(m: Seq<EntryView>, es: Seq<EntryView>) -> Seq<EntryView>
    decreases es.len(),
{
    if es.len() == 0 {
        m
    } else {
        upserted(upsert_all(m, es.drop_last()), es.last())
    }
}

/// The mathematical value of a snapshot.
pub struct SnapshotView {
    pub entries: Seq<EntryView>,
    pub scan_id: u64,
}

/// The mathematical value of an update envelope.
pub struct EnvelopeView {
    pub scan_id: u64,
    pub updated: Seq<EntryView>,
    pub removed: Seq<Seq<Seq<u8>>>,
}

/// What applying an envelope does to a snapshot: an envelope no newer than the
/// snapshot changes nothing; otherwise the removed subtrees go, the updated
/// entries are put in order, and the snapshot takes the envelope's scan id.
pub open spec fn applied(s: SnapshotView, env: EnvelopeView) -> SnapshotView {
    if env.scan_id <= s.scan_id {
        s
    } else {
        SnapshotView {
            entries: upsert_all(remove_all(s.entries, env.removed), env.updated),
            scan_id: env.scan_id,
        }
    }
}

/// The ignore status that the rules give a path: ignored, unless the
/// version-control system tracks it.
pub open spec fn ignore_status(
    rules: Seq<IgnoreFileView>,
    tracked_paths: Seq<Seq<Seq<u8>>>,
    p: Seq<Seq<u8>>,
) -> bool {
    path_ignored(rules, p) && !tracked_paths.contains(p)
}

pub open spec fn paths_view(v: Seq<PathBytes>) -> Seq<Seq<Seq<u8>>> {
    v.map_values(|p: PathBytes| path_view(&p))
}

/// The delta of one commit, which replicas apply to reach the same state.
#[derive(Clone, Debug)]
pub struct UpdateEnvelope {
    pub scan_id: u64,
    pub updated: Vec<Entry>,
    pub removed: Vec<PathBytes>,
}

impl View for UpdateEnvelope {
    type V = EnvelopeView;

    open spec fn view(&self) -> EnvelopeView {
        EnvelopeView {
            scan_id: self.scan_id,
            updated: entries_view(self.updated@),
            removed: paths_view(self.removed@),
        }
    }
}

pub proof fn lemma_filter_push<A>(s: Seq<A>, x: A, f: spec_fn(A) -> bool)
    ensures
        s.push(x).filter(f) == (if f(x) {
            s.filter(f).push(x)
        } else {
            s.filter(f)
        }),
{
    reveal(Seq::filter);
    assert(s.push(x).drop_last() =~= s);
}

pub proof fn lemma_filter_all(s: Seq<EntryView>, f: spec_fn(EntryView) -> bool)
    requires
        forall|k: int| 0 <= k < s.len() ==> f(#[trigger] s[k]),
    ensures
        s.filter(f) == s,
    decreases s.len(),
{
    if s.len() > 0 {
        let t = s.drop_last();
        lemma_filter_all(t, f);
        assert(t.push(s.last()) =~= s);
        lemma_filter_push(t, s.last(), f);
    } else {
        reveal(Seq::filter);
    }
}

pub proof fn lemma_filter_none(s: Seq<EntryView>, f: spec_fn(EntryView) -> bool)
    requires
        forall|k: int| 0 <= k < s.len() ==> !f(#[trigger] s[k]),
    ensures
        s.filter(f) == Seq::<EntryView>::empty(),
    decreases s.len(),
{
    if s.len() > 0 {
        let t = s.drop_last();
        lemma_filter_none(t, f);
        assert(t.push(s.last()) =~= s);
        lemma_filter_push(t, s.last(), f);
    } else {
        reveal(Seq::filter);
        assert(s =~= Seq::<EntryView>::empty());
    }
}

/// Filtering keeps a sorted sequence sorted.
pub proof fn lemma_filter_sorted(s: Seq<EntryView>, f: spec_fn(EntryView) -> bool)
    requires
        sorted_by_path(s),
    ensures
        sorted_by_path(s.filter(f)),
{
    s.filter_lemma(f);
    let r = s.filter(f);
    assert forall|i: int, j: int| 0 <= i < j < r.len() implies path_lt(#[trigger] r[i].path, #[trigger] r[j].path) by {
        // both come from `s`, and filtering keeps their order
        lemma_filter_order(s, f, i, j);
    }
}

proof fn lemma_filter_order(s: Seq<EntryView>, f: spec_fn(EntryView) -> bool, i: int, j: int)
    requires
        sorted_by_path(s),
        0 <= i < j < s.filter(f).len(),
    ensures
        path_lt(s.filter(f)[i].path, s.filter(f)[j].path),
    decreases s.len(),
{
    let t = s.drop_last();
    assert(t.push(s.last()) =~= s);
    lemma_filter_push(t, s.last(), f);
    assert(sorted_by_path(t));
    t.filter_lemma(f);
    if f(s.last()) && j == s.filter(f).len() - 1 {
        let x = t.filter(f)[i];
        assert(t.filter(f).contains(x));
        t.lemma_filter_contains_rev(f, x);
        let k = choose|k: int| 0 <= k < t.len() && t[k] == x;
        assert(s[k] == x);
        assert(s[s.len() - 1] == s.last());
    } else {
        lemma_filter_order(t, f, i, j);
    }
}

/// The order fixes the listing: two path-sorted sequences that hold the same
/// entries are one sequence, so listing an unchanged tree again gives the
/// same paths in the same order.
pub proof fn lemma_sorted_listing_unique(a: Seq<EntryView>, b: Seq<EntryView>)
    requires
        sorted_by_path(a),
        sorted_by_path(b),
        forall|x: EntryView| a.contains(x) <==> b.contains(x),
    ensures
        a == b,
    decreases a.len(),
{
    if a.len() == 0 {
        if b.len() > 0 {
            assert(b.contains(b[0]));
        }
        assert(a =~= b);
    } else if b.len() == 0 {
        assert(a.contains(a[0]));
    } else {
        assert(a.contains(a[0]));
        assert(b.contains(b[0]));
        let q = choose|q: int| 0 <= q < b.len() && b[q] == a[0];
        let r = choose|r: int| 0 <= r < a.len() && a[r] == b[0];
        lemma_path_lt_strict_total(a[0].path, b[0].path, a[0].path);
        if q > 0 {
            assert(path_lt(b[0].path, b[q].path));
            if r > 0 {
                assert(path_lt(a[0].path, a[r].path));
            }
        }
        assert(a[0] == b[0]);
        let a1 = a.drop_first();
        let b1 = b.drop_first();
        assert forall|x: EntryView| a1.contains(x) <==> b1.contains(x) by {
            if a1.contains(x) {
                let t = choose|t: int| 0 <= t < a1.len() && a1[t] == x;
                assert(a[t + 1] == x);
                assert(path_lt(a[0].path, x.path));
                lemma_path_lt_strict_total(x.path, x.path, x.path);
                assert(a.contains(x));
                let u = choose|u: int| 0 <= u < b.len() && b[u] == x;
                assert(u != 0);
                assert(b1[u - 1] == x);
            }
            if b1.contains(x) {
                let t = choose|t: int| 0 <= t < b1.len() && b1[t] == x;
                assert(b[t + 1] == x);
                assert(path_lt(b[0].path, x.path));
                lemma_path_lt_strict_total(x.path, x.path, x.path);
                assert(b.contains(x));
                let u = choose|u: int| 0 <= u < a.len() && a[u] == x;
                assert(u != 0);
                assert(a1[u - 1] == x);
            }
        }
        lemma_sorted_listing_unique(a1, b1);
        assert(a =~= seq![a[0]] + a1);
        assert(b =~= seq![b[0]] + b1);
    }
}

proof fn lemma_path_lt_asym(p: Seq<Seq<u8>>, q: Seq<Seq<u8>>)
    requires
        path_lt(p, q),
    ensures
        !path_lt(q, p),
        p != q,
{
    lemma_path_lt_strict_total(p, q, p);
}

/// The two parts of `m` on either side of index `i`, once filtered before and
/// after a path that sits at `i` or just before it.
proof fn lemma_split_at(m: Seq<EntryView>, p: Seq<Seq<u8>>, lo: int, hi: int)
    requires
        0 <= lo <= hi <= m.len(),
        hi <= lo + 1,
        forall|k: int| 0 <= k < lo ==> path_lt(#[trigger] m[k].path, p),
        forall|k: int| hi <= k < m.len() ==> path_lt(p, #[trigger] m[k].path),
        lo < hi ==> m[lo].path == p,
    ensures
        m.filter(before_pred(p)) == m.subrange(0, lo),
        m.filter(after_pred(p)) == m.subrange(hi, m.len() as int),
{
    let a = m.subrange(0, lo);
    let b = m.subrange(lo, hi);
    let c = m.subrange(hi, m.len() as int);
    assert(m =~= a + b + c);
    Seq::filter_distributes_over_add(a + b, c, before_pred(p));
    Seq::filter_distributes_over_add(a, b, before_pred(p));
    Seq::filter_distributes_over_add(a + b, c, after_pred(p));
    Seq::filter_distributes_over_add(a, b, after_pred(p));
    lemma_path_lt_strict_total(p, p, p);
    assert forall|k: int| 0 <= k < a.len() implies #[trigger] before_pred(p)(a[k]) by {}
    assert forall|k: int| 0 <= k < a.len() implies !#[trigger] after_pred(p)(a[k]) by {
        lemma_path_lt_asym(a[k].path, p);
    }
    assert forall|k: int| 0 <= k < c.len() implies #[trigger] after_pred(p)(c[k]) by {}
    assert forall|k: int| 0 <= k < c.len() implies !#[trigger] before_pred(p)(c[k]) by {
        lemma_path_lt_asym(p, c[k].path);
    }
    assert forall|k: int| 0 <= k < b.len() implies !#[trigger] before_pred(p)(b[k]) by {}
    assert forall|k: int| 0 <= k < b.len() implies !#[trigger] after_pred(p)(b[k]) by {}
    lemma_filter_all(a, before_pred(p));
    lemma_filter_none(a, after_pred(p));
    lemma_filter_all(c, after_pred(p));
    lemma_filter_none(c, before_pred(p));
    lemma_filter_none(b, before_pred(p));
    lemma_filter_none(b, after_pred(p));
    assert(a + Seq::<EntryView>::empty() =~= a);
    assert(Seq::<EntryView>::empty() + Seq::<EntryView>::empty() + c =~= c);
}

/// Putting, in order, one entry for each entry of `m` at the same path gives
/// those entries.
#[verifier::rlimit(60)]
pub proof fn lemma_upsert_all_same_paths(m: Seq<EntryView>, es: Seq<EntryView>, k: int)
    requires
        sorted_by_path(m),
        es.len() == m.len(),
        forall|i: int| 0 <= i < m.len() ==> #[trigger] es[i].path == m[i].path,
        0 <= k <= es.len(),
    ensures
        upsert_all(m, es.subrange(0, k)) == es.subrange(0, k) + m.subrange(k, m.len() as int),
    decreases k,
{
    if k == 0 {
        assert(es.subrange(0, 0) =~= Seq::<EntryView>::empty());
        assert(Seq::<EntryView>::empty() + m.subrange(0, m.len() as int) =~= m);
    } else {
        lemma_upsert_all_same_paths(m, es, k - 1);
        let x = es.subrange(0, k - 1) + m.subrange(k - 1, m.len() as int);
        let e = es[k - 1];
        assert(es.subrange(0, k).drop_last() =~= es.subrange(0, k - 1));
        assert(es.subrange(0, k).last() == e);
        assert(upsert_all(m, es.subrange(0, k)) == upserted(x, e));
        lemma_same_paths_split(m, es, k, x);
        assert(x.subrange(0, k - 1) =~= es.subrange(0, k - 1));
        assert(x.subrange(k, x.len() as int) =~= m.subrange(k, m.len() as int));
        assert(es.subrange(0, k - 1).push(e) =~= es.subrange(0, k));
    }
}

proof fn lemma_same_paths_split(m: Seq<EntryView>, es: Seq<EntryView>, k: int, x: Seq<EntryView>)
    requires
        sorted_by_path(m),
        es.len() == m.len(),
        forall|i: int| 0 <= i < m.len() ==> #[trigger] es[i].path == m[i].path,
        0 < k <= es.len(),
        x == es.subrange(0, k - 1) + m.subrange(k - 1, m.len() as int),
    ensures
        x.filter(before_pred(es[k - 1].path)) == x.subrange(0, k - 1),
        x.filter(after_pred(es[k - 1].path)) == x.subrange(k, x.len() as int),
{
    let p = es[k - 1].path;
    assert forall|i: int| 0 <= i < x.len() implies #[trigger] x[i].path == m[i].path by {
        if i < k - 1 {
            assert(x[i] == es[i]);
        }
    }
    assert forall|j: int| 0 <= j < k - 1 implies path_lt(#[trigger] x[j].path, p) by {
        assert(x[j].path == m[j].path);
        assert(path_lt(m[j].path, m[k - 1].path));
    }
    assert forall|j: int| k <= j < x.len() implies path_lt(p, #[trigger] x[j].path) by {
        assert(x[j].path == m[j].path);
        assert(path_lt(m[k - 1].path, m[j].path));
    }
    assert(x[k - 1].path == p);
    lemma_split_at(x, p, k - 1, k);
}

/// Putting an entry in a sorted sequence keeps it sorted.
pub proof fn lemma_upserted_sorted(m: Seq<EntryView>, e: EntryView)
    requires
        sorted_by_path(m),
    ensures
        sorted_by_path(upserted(m, e)),
{
    let a = m.filter(before_pred(e.path));
    let c = m.filter(after_pred(e.path));
    lemma_filter_sorted(m, before_pred(e.path));
    lemma_filter_sorted(m, after_pred(e.path));
    a.filter_lemma(before_pred(e.path));
    m.filter_lemma(before_pred(e.path));
    m.filter_lemma(after_pred(e.path));
    let r = upserted(m, e);
    assert forall|i: int, j: int| 0 <= i < j < r.len() implies path_lt(#[trigger] r[i].path, #[trigger] r[j].path) by {
        if j <= a.len() {
            if j == a.len() {
                assert(before_pred(e.path)(a[i]));
            }
        } else {
            assert(after_pred(e.path)(c[j - a.len() - 1]));
            if i < a.len() {
                assert(before_pred(e.path)(a[i]));
                lemma_path_lt_strict_total(a[i].path, e.path, c[j - a.len() - 1].path);
            } else if i > a.len() {
                assert(r[i] == c[i - a.len() - 1]);
            }
        }
    }
}

/// An immutable capture of the tree: entries in path order and the scan id
/// of the last commit they reflect.
#[derive(Clone, Debug)]
pub struct Snapshot {
    entries: Vec<Entry>,
    scan_id: u64,
}

impl View for Snapshot {
    type V = SnapshotView;

    closed spec fn view(&self) -> SnapshotView {
        SnapshotView { entries: entries_view(self.entries@), scan_id: self.scan_id }
    }
}

/// A copy of a sequence of entries.
pub fn copy_entries(v: &Vec<Entry>) -> (r: Vec<Entry>)
    ensures
        entries_view(r@) == entries_view(v@),
{
    let mut r: Vec<Entry> = Vec::new();
    let mut i: usize = 0;
    while i < v.len()
        invariant
            i <= v.len(),
            entries_view(r@) == entries_view(v@).subrange(0, i as int),
        decreases v.len() - i,
    {
        let e = v[i].copy();
        let ghost before = r@;
        r.push(e);
        assert(entries_view(r@) =~= entries_view(before).push(e@));
        assert(entries_view(r@) =~= entries_view(v@).subrange(0, i + 1));
        i = i + 1;
    }
    assert(entries_view(v@).subrange(0, i as int) =~= entries_view(v@));
    r
}

impl UpdateEnvelope {
    /// A copy of this envelope.
    pub fn copy(&self) -> (r: UpdateEnvelope)
        ensures
            r@ == self@,
    {
        let mut removed: Vec<PathBytes> = Vec::new();
        let mut i: usize = 0;
        while i < self.removed.len()
            invariant
                i <= self.removed.len(),
                paths_view(removed@) == paths_view(self.removed@).subrange(0, i as int),
            decreases self.removed.len() - i,
        {
            let p = copy_path(&self.removed[i]);
            let ghost before = removed@;
            removed.push(p);
            assert(paths_view(removed@) =~= paths_view(before).push(path_view(&p)));
            assert(paths_view(removed@) =~= paths_view(self.removed@).subrange(0, i + 1));
            i = i + 1;
        }
        assert(paths_view(self.removed@).subrange(0, i as int) =~= paths_view(self.removed@));
        UpdateEnvelope { scan_id: self.scan_id, updated: copy_entries(&self.updated), removed }
    }
}

impl Snapshot {
    /// A copy of this snapshot.
    pub fn copy(&self) -> (r: Snapshot)
        ensures
            r@ == self@,
    {
        Snapshot { entries: copy_entries(&self.entries), scan_id: self.scan_id }
    }

    /// Entries ordered by path.
    pub open spec fn wf(&self) -> bool {
        sorted_by_path(self@.entries)
    }

    /// An empty snapshot at scan id 0.
    pub fn new() -> (r: Snapshot)
        ensures
            r.wf(),
            r@.entries == Seq::<EntryView>::empty(),
            r@.scan_id == 0,
    {
        let r = Snapshot { entries: Vec::new(), scan_id: 0 };
        assert(r@.entries =~= Seq::<EntryView>::empty());
        r
    }

    pub fn scan_id(&self) -> (r: u64)
        ensures
            r == self@.scan_id,
    {
        self.scan_id
    }

    pub fn entry_count(&self) -> (r: usize)
        ensures
            r == self@.entries.len(),
    {
        self.entries.len()
    }

    /// Where `path` stands: `Ok(i)` when entry `i` has that path, else
    /// `Err(i)` where an entry with that path would go.
    pub fn search(&self, path: &PathBytes) -> (r: Result<usize, usize>)
        requires
            self.wf(),
        ensures
            match r {
                Ok(i) => i < self@.entries.len() && self@.entries[i as int].path == path_view(path)
                    && (forall|k: int| 0 <= k < i ==> path_lt(#[trigger] self@.entries[k].path, path_view(path)))
                    && (forall|k: int|
                    i < k < self@.entries.len() ==> path_lt(path_view(path), #[trigger] self@.entries[k].path)),
                Err(i) => i <= self@.entries.len() && (forall|k: int|
                    0 <= k < i ==> path_lt(#[trigger] self@.entries[k].path, path_view(path))) && (forall|k: int|
                    i <= k < self@.entries.len() ==> path_lt(path_view(path), #[trigger] self@.entries[k].path)),
            },
    {
        let ghost m = self@.entries;
        let ghost p = path_view(path);
        let mut lo: usize = 0;
        let mut hi: usize = self.entries.len();
        while lo < hi
            invariant
                m == self@.entries,
                p == path_view(path),
                sorted_by_path(m),
                lo <= hi <= m.len(),
                m.len() == self.entries.len(),
                forall|k: int| 0 <= k < lo ==> path_lt(#[trigger] m[k].path, p),
                forall|k: int| hi <= k < m.len() ==> path_lt(p, #[trigger] m[k].path),
            decreases hi - lo,
        {
            let mid = lo + (hi - lo) / 2;
            let c = compare_paths(&self.entries[mid].path, path);
            assert(m[mid as int].path == path_view(&self.entries[mid as int].path));
            if c == 0 {
                return Ok(mid);
            } else if c < 0 {
                assert forall|k: int| 0 <= k < mid + 1 implies path_lt(#[trigger] m[k].path, p) by {
                    if k < mid {
                        lemma_path_lt_strict_total(m[k].path, m[mid as int].path, p);
                    }
                }
                lo = mid + 1;
            } else {
                assert forall|k: int| mid <= k < m.len() implies path_lt(p, #[trigger] m[k].path) by {
                    if k > mid {
                        lemma_path_lt_strict_total(p, m[mid as int].path, m[k].path);
                    }
                }
                hi = mid;
            }
        }
        Err(lo)
    }

    /// The entry at `path`, if there is one.
    pub fn entry_for_path(&self, path: &PathBytes) -> (r: Option<Entry>)
        requires
            self.wf(),
        ensures
            r is None <==> (forall|k: int| 0 <= k < self@.entries.len() ==> #[trigger] self@.entries[k].path != path_view(path)),
            r matches Some(e) ==> exists|k: int| 0 <= k < self@.entries.len() && #[trigger] self@.entries[k] == e@,
            r matches Some(e) ==> e@.path == path_view(path),
    {
        match self.search(path) {
            Ok(i) => {
                let e = self.entries[i].copy();
                assert(self@.entries[i as int] == e@);
                Some(e)
            },
            Err(i) => {
                assert forall|k: int| 0 <= k < self@.entries.len() implies #[trigger] self@.entries[k].path != path_view(path) by {
                    if k < i {
                        lemma_path_lt_asym(self@.entries[k].path, path_view(path));
                    } else {
                        lemma_path_lt_asym(path_view(path), self@.entries[k].path);
                    }
                }
                None
            },
        }
    }

    /// The entry with identifier `id`, if there is one (the first, in path order).
    pub fn entry_for_id(&self, id: u64) -> (r: Option<Entry>)
        ensures
            r is None <==> (forall|k: int| 0 <= k < self@.entries.len() ==> #[trigger] self@.entries[k].id != id),
            r matches Some(e) ==> exists|k: int| 0 <= k < self@.entries.len() && #[trigger] self@.entries[k] == e@,
            r matches Some(e) ==> e@.id == id,
    {
        let mut i: usize = 0;
        while i < self.entries.len()
            invariant
                i <= self.entries.len(),
                forall|k: int| 0 <= k < i ==> #[trigger] self@.entries[k].id != id,
            decreases self.entries.len() - i,
        {
            if self.entries[i].id == id {
                let e = self.entries[i].copy();
                assert(self@.entries[i as int].id == id);
                assert(self@.entries[i as int] == e@);
                return Some(e);
            }
            i = i + 1;
        }
        None
    }

    /// Puts `entry` in the tree: it replaces the entry at its path, or is added
    /// in path order.
    pub fn insert_entry(&mut self, entry: Entry)
        requires
            old(self).wf(),
        ensures
            final(self).wf(),
            final(self)@.entries == upserted(old(self)@.entries, entry@),
            final(self)@.scan_id == old(self)@.scan_id,
    {
        let ghost m = self@.entries;
        let ghost e = entry@;
        match self.search(&entry.path) {
            Ok(i) => {
                proof {
                    lemma_split_at(m, e.path, i as int, i + 1);
                }
                self.entries.set(i, entry);
                assert(self@.entries =~= m.subrange(0, i as int).push(e) + m.subrange(i + 1, m.len() as int));
            },
            Err(i) => {
                proof {
                    lemma_split_at(m, e.path, i as int, i as int);
                }
                self.entries.insert(i, entry);
                assert(self@.entries =~= m.subrange(0, i as int).push(e) + m.subrange(i as int, m.len() as int));
            },
        }
        proof {
            lemma_upserted_sorted(m, e);
        }
    }

    /// Removes the entry at `path` and everything below it.
    pub fn remove_subtree(&mut self, path: &PathBytes)
        requires
            old(self).wf(),
        ensures
            final(self).wf(),
            final(self)@.entries == without_subtree(old(self)@.entries, path_view(path)),
            final(self)@.scan_id == old(self)@.scan_id,
    {
        let ghost m = self@.entries;
        let ghost f = outside_pred(path_view(path));
        let mut kept: Vec<Entry> = Vec::new();
        let mut i: usize = 0;
        while i < self.entries.len()
            invariant
                m == entries_view(self.entries@),
                i <= self.entries.len(),
                f == outside_pred(path_view(path)),
                entries_view(kept@) == m.subrange(0, i as int).filter(f),
            decreases self.entries.len() - i,
        {
            let keep = !path_starts_with(&self.entries[i].path, path);
            proof {
                assert(m.subrange(0, i + 1) =~= m.subrange(0, i as int).push(m[i as int]));
                lemma_filter_push(m.subrange(0, i as int), m[i as int], f);
            }
            if keep {
                let c = self.entries[i].copy();
                let ghost before = kept@;
                kept.push(c);
                assert(entries_view(kept@) =~= entries_view(before).push(c@));
            }
            i = i + 1;
        }
        assert(m.subrange(0, m.len() as int) =~= m);
        self.entries = kept;
        proof {
            lemma_filter_sorted(m, f);
        }
    }

    /// The entries at or below `parent` in path order; directories only when
    /// `include_dirs`, ignored entries only when `include_ignored`.
    pub fn descendent_entries(&self, include_dirs: bool, include_ignored: bool, parent: &PathBytes) -> (r: Vec<Entry>)
        requires
            self.wf(),
        ensures
            entries_view(r@) == traversal(self@.entries, include_dirs, include_ignored, path_view(parent)),
            sorted_by_path(entries_view(r@)),
    {
        let ghost m = self@.entries;
        let ghost f = shown_pred(include_dirs, include_ignored, path_view(parent));
        let mut out: Vec<Entry> = Vec::new();
        let mut i: usize = 0;
        while i < self.entries.len()
            invariant
                m == entries_view(self.entries@),
                i <= self.entries.len(),
                f == shown_pred(include_dirs, include_ignored, path_view(parent)),
                entries_view(out@) == m.subrange(0, i as int).filter(f),
            decreases self.entries.len() - i,
        {
            let e = &self.entries[i];
            let show = path_starts_with(&e.path, parent) && (include_dirs || !e.is_dir()) && (
            include_ignored || !e.is_ignored);
            proof {
                assert(m.subrange(0, i + 1) =~= m.subrange(0, i as int).push(m[i as int]));
                lemma_filter_push(m.subrange(0, i as int), m[i as int], f);
            }
            if show {
                let c = e.copy();
                let ghost before = out@;
                out.push(c);
                assert(entries_view(out@) =~= entries_view(before).push(c@));
            }
            i = i + 1;
        }
        assert(m.subrange(0, m.len() as int) =~= m);
        proof {
            lemma_filter_sorted(m, f);
        }
        out
    }

    /// All entries in path order, ignored ones only when `include_ignored`.
    pub fn entries(&self, include_ignored: bool) -> (r: Vec<Entry>)
        requires
            self.wf(),
        ensures
            entries_view(r@) == traversal(self@.entries, true, include_ignored, Seq::<Seq<u8>>::empty()),
            sorted_by_path(entries_view(r@)),
    {
        let root: PathBytes = Vec::new();
        assert(path_view(&root) =~= Seq::<Seq<u8>>::empty());
        self.descendent_entries(true, include_ignored, &root)
    }

    /// The non-directory entries in path order from position `start` on.
    pub fn files(&self, include_ignored: bool, start: usize) -> (r: Vec<Entry>)
        requires
            self.wf(),
        ensures
            ({
                let all = traversal(self@.entries, false, include_ignored, Seq::<Seq<u8>>::empty());
                entries_view(r@) == if start <= all.len() {
                    all.subrange(start as int, all.len() as int)
                } else {
                    Seq::<EntryView>::empty()
                }
            }),
    {
        let root: PathBytes = Vec::new();
        assert(path_view(&root) =~= Seq::<Seq<u8>>::empty());
        let all = self.descendent_entries(false, include_ignored, &root);
        let mut out: Vec<Entry> = Vec::new();
        if start >= all.len() {
            assert(entries_view(out@) =~= Seq::<EntryView>::empty());
            if start == all.len() {
                assert(entries_view(all@).subrange(start as int, all.len() as int) =~= Seq::<EntryView>::empty());
            }
            return out;
        }
        let mut i: usize = start;
        while i < all.len()
            invariant
                start <= i <= all.len(),
                entries_view(out@) == entries_view(all@).subrange(start as int, i as int),
            decreases all.len() - i,
        {
            let c = all[i].copy();
            let ghost before = out@;
            out.push(c);
            assert(entries_view(out@) =~= entries_view(before).push(c@));
            assert(entries_view(out@) =~= entries_view(all@).subrange(start as int, i + 1));
            i = i + 1;
        }
        out
    }

    /// Entry `i` in path order.
    pub fn entry_at(&self, i: usize) -> (r: &Entry)
        requires
            i < self@.entries.len(),
        ensures
            r@ == self@.entries[i as int],
    {
        &self.entries[i]
    }

    /// Applies an envelope of a later commit; one no newer than this snapshot
    /// changes nothing.
    pub fn apply_remote_update(&mut self, env: &UpdateEnvelope)
        requires
            old(self).wf(),
        ensures
            final(self).wf(),
            final(self)@ == applied(old(self)@, env@),
    {
        if env.scan_id <= self.scan_id {
            return;
        }
        let ghost m = self@.entries;
        let mut j: usize = 0;
        while j < env.removed.len()
            invariant
                self.wf(),
                self.scan_id == old(self).scan_id,
                m == old(self)@.entries,
                j <= env.removed.len(),
                self@.entries == remove_all(m, env@.removed.subrange(0, j as int)),
            decreases env.removed.len() - j,
        {
            self.remove_subtree(&env.removed[j]);
            assert(env@.removed.subrange(0, j + 1).drop_last() =~= env@.removed.subrange(0, j as int));
            j = j + 1;
        }
        assert(env@.removed.subrange(0, j as int) =~= env@.removed);
        let ghost r = self@.entries;
        let mut k: usize = 0;
        while k < env.updated.len()
            invariant
                self.wf(),
                r == remove_all(m, env@.removed),
                k <= env.updated.len(),
                self@.entries == upsert_all(r, env@.updated.subrange(0, k as int)),
            decreases env.updated.len() - k,
        {
            let e = env.updated[k].copy();
            self.insert_entry(e);
            assert(env@.updated.subrange(0, k + 1).drop_last() =~= env@.updated.subrange(0, k as int));
            k = k + 1;
        }
        assert(env@.updated.subrange(0, k as int) =~= env@.updated);
        self.scan_id = env.scan_id;
    }
}

/// Whether `list` holds `path`.
pub fn path_listed(list: &Vec<PathBytes>, path: &PathBytes) -> (r: bool)
    ensures
        r == paths_view(list@).contains(path_view(path)),
{
    let mut i: usize = 0;
    while i < list.len()
        invariant
            i <= list.len(),
            forall|k: int| 0 <= k < i ==> #[trigger] paths_view(list@)[k] != path_view(path),
        decreases list.len() - i,
    {
        if compare_paths(&list[i], path) == 0 {
            assert(paths_view(list@)[i as int] == path_view(path));
            return true;
        }
        i = i + 1;
    }
    false
}

/// Ignoring reaches below a matched directory: once statuses are recomputed,
/// an entry below an ignored path is ignored unless it is tracked_paths.
pub proof fn lemma_ignored_below_ignored_ancestor(
    m: Seq<EntryView>,
    rules: Seq<IgnoreFileView>,
    tracked_paths: Seq<Seq<Seq<u8>>>,
    ancestor: Seq<Seq<u8>>,
    k: int,
)
    requires
        forall|j: int| 0 <= j < m.len() ==> #[trigger] m[j].is_ignored == ignore_status(rules, tracked_paths, m[j].path),
        0 <= k < m.len(),
        is_prefix(ancestor, m[k].path),
        path_ignored(rules, ancestor),
        !tracked_paths.contains(m[k].path),
    ensures
        m[k].is_ignored,
{
    crate::ignore::lemma_ignore_inherited(rules, ancestor, m[k].path);
}

} // verus!
