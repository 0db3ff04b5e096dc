//! Facts about entry identifiers: unique, and below the next one handed out.
use vstd::prelude::*;
use vstd::seq_lib::group_seq_properties;

use crate::entry::EntryView;
use crate::path::{lemma_path_lt_strict_total, path_lt};
use crate::snapshot::{
    after_pred, before_pred, lemma_filter_sorted, lemma_upserted_sorted, remove_all,
    sorted_by_path, upsert_all, upserted,
};

verus! {

broadcast use group_seq_properties;

/// Identifiers are unique among the entries and all below `next`.
pub open spec fn ids_fresh_below(m: Seq<EntryView>, next: int) -> bool {
    &&& forall|i: int, j: int|
        0 <= i < m.len() && 0 <= j < m.len() && i != j ==> #[trigger] m[i].id != #[trigger] m[j].id
    &&& forall|i: int| 0 <= i < m.len() ==> #[trigger] m[i].id < next
}

/// What an envelope's updated entries must be for identifiers to stay
/// unique: below `next`, distinct, and each shared with an entry of `base`
/// only at the same path.
pub open spec fn ids_fit(base: Seq<EntryView>, es: Seq<EntryView>, next: int) -> bool {
    &&& forall|k: int| 0 <= k < es.len() ==> #[trigger] es[k].id < next
    &&& forall|j: int, k: int|
        0 <= j < es.len() && 0 <= k < es.len() && j != k ==> #[trigger] es[j].id != #[trigger] es[k].id
    &&& forall|i: int, k: int|
        0 <= i < base.len() && 0 <= k < es.len() && #[trigger] base[i].id == #[trigger] es[k].id
            ==> base[i].path == es[k].path
}

/// Fitting a base carries over to a base with fewer entries.
pub proof fn lemma_ids_fit_sub(b1: Seq<EntryView>, b2: Seq<EntryView>, es: Seq<EntryView>, next: int)
    requires
        ids_fit(b1, es, next),
        forall|y: EntryView| b2.contains(y) ==> #[trigger] b1.contains(y),
    ensures
        ids_fit(b2, es, next),
{
    assert forall|i: int, k: int|
        0 <= i < b2.len() && 0 <= k < es.len() && #[trigger] b2[i].id == #[trigger] es[k].id implies b2[i].path
        == es[k].path by {
        assert(b2.contains(b2[i]));
        let q = lemma_index_of(b1, b2[i]);
    }
}

proof fn lemma_index_of(s: Seq<EntryView>, x: EntryView) -> (a: int)
    requires
        s.contains(x),
    ensures
        0 <= a < s.len(),
        s[a] == x,
{
    choose|a: int| 0 <= a < s.len() && s[a] == x
}

/// Filtering a sorted sequence keeps identifiers unique.
pub proof fn lemma_filter_ids(m: Seq<EntryView>, f: spec_fn(EntryView) -> bool, next: int)
    requires
        sorted_by_path(m),
        ids_fresh_below(m, next),
    ensures
        ids_fresh_below(m.filter(f), next),
        sorted_by_path(m.filter(f)),
{
    let r = m.filter(f);
    lemma_filter_sorted(m, f);
    assert forall|i: int| 0 <= i < r.len() implies #[trigger] r[i].id < next by {
        assert(r.contains(r[i]));
        m.lemma_filter_contains_rev(f, r[i]);
        let a = lemma_index_of(m, r[i]);
    }
    assert forall|i: int, j: int|
        0 <= i < r.len() && 0 <= j < r.len() && i != j implies #[trigger] r[i].id != #[trigger] r[j].id by {
        assert(r.contains(r[i]));
        assert(r.contains(r[j]));
        m.lemma_filter_contains_rev(f, r[i]);
        m.lemma_filter_contains_rev(f, r[j]);
        let a = lemma_index_of(m, r[i]);
        let b = lemma_index_of(m, r[j]);
        lemma_path_lt_strict_total(r[i].path, r[j].path, r[i].path);
        if i < j {
            assert(path_lt(r[i].path, r[j].path));
        } else {
            assert(path_lt(r[j].path, r[i].path));
        }
    }
}

/// Removing subtrees keeps the entries sorted with unique identifiers.
pub proof fn lemma_remove_all_ids(m: Seq<EntryView>, paths: Seq<Seq<Seq<u8>>>, next: int)
    requires
        sorted_by_path(m),
        ids_fresh_below(m, next),
    ensures
        sorted_by_path(remove_all(m, paths)),
        ids_fresh_below(remove_all(m, paths), next),
    decreases paths.len(),
{
    if paths.len() > 0 {
        lemma_remove_all_ids(m, paths.drop_last(), next);
        lemma_filter_ids(remove_all(m, paths.drop_last()), crate::snapshot::outside_pred(paths.last()), next);
    }
}

/// Every entry after putting entries in turn is one of `m` or of `es`.
pub proof fn lemma_upsert_all_from(m: Seq<EntryView>, es: Seq<EntryView>, x: EntryView)
    requires
        upsert_all(m, es).contains(x),
    ensures
        m.contains(x) || es.contains(x),
    decreases es.len(),
{
    if es.len() > 0 {
        let y = upsert_all(m, es.drop_last());
        let e = es.last();
        let a = y.filter(before_pred(e.path));
        let c = y.filter(after_pred(e.path));
        let r = a.push(e) + c;
        let t = lemma_index_of(r, x);
        if t < a.len() {
            assert(a.contains(x));
            y.lemma_filter_contains_rev(before_pred(e.path), x);
        } else if t > a.len() {
            assert(c[t - a.len() - 1] == x);
            assert(c.contains(x));
            y.lemma_filter_contains_rev(after_pred(e.path), x);
        } else {
            assert(es[es.len() - 1] == x);
        }
        if x != e && y.contains(x) {
            lemma_upsert_all_from(m, es.drop_last(), x);
            if es.drop_last().contains(x) {
                let j = lemma_index_of(es.drop_last(), x);
                assert(es[j] == x);
            }
        }
    }
}

pub proof fn lemma_upsert_all_sorted(m: Seq<EntryView>, es: Seq<EntryView>)
    requires
        sorted_by_path(m),
    ensures
        sorted_by_path(upsert_all(m, es)),
    decreases es.len(),
{
    if es.len() > 0 {
        lemma_upsert_all_sorted(m, es.drop_last());
        lemma_upserted_sorted(upsert_all(m, es.drop_last()), es.last());
    }
}

/// Putting an entry whose identifier no other path holds keeps identifiers
/// unique.
pub proof fn lemma_upserted_ids(m: Seq<EntryView>, e: EntryView, next: int)
    requires
        sorted_by_path(m),
        ids_fresh_below(m, next),
        e.id < next,
        forall|i: int| 0 <= i < m.len() && #[trigger] m[i].id == e.id ==> m[i].path == e.path,
    ensures
        ids_fresh_below(upserted(m, e), next),
{
    let a = m.filter(before_pred(e.path));
    let c = m.filter(after_pred(e.path));
    let r = upserted(m, e);
    lemma_filter_ids(m, before_pred(e.path), next);
    lemma_filter_ids(m, after_pred(e.path), next);
    a.filter_lemma(before_pred(e.path));
    m.filter_lemma(before_pred(e.path));
    m.filter_lemma(after_pred(e.path));
    lemma_upserted_sorted(m, e);
    assert forall|i: int| 0 <= i < r.len() implies #[trigger] r[i].id < next by {
        if i < a.len() {
            assert(r[i] == a[i]);
        } else if i > a.len() {
            assert(r[i] == c[i - a.len() - 1]);
        }
    }
    assert forall|i: int, j: int|
        0 <= i < r.len() && 0 <= j < r.len() && i != j implies #[trigger] r[i].id != #[trigger] r[j].id by {
        if i == a.len() || j == a.len() {
            let o = if i == a.len() {
                j
            } else {
                i
            };
            let x = r[o];
            if o < a.len() {
                assert(x == a[o]);
                assert(before_pred(e.path)(a[o]));
            } else {
                assert(x == c[o - a.len() - 1]);
                assert(after_pred(e.path)(c[o - a.len() - 1]));
            }
            lemma_path_lt_strict_total(x.path, e.path, x.path);
            assert(m.filter(before_pred(e.path)).contains(x) || m.filter(after_pred(e.path)).contains(x));
            if a.contains(x) {
                m.lemma_filter_contains_rev(before_pred(e.path), x);
            } else {
                m.lemma_filter_contains_rev(after_pred(e.path), x);
            }
            let q = lemma_index_of(m, x);
            assert(m[q].path != e.path);
        } else {
            lemma_path_lt_strict_total(r[i].path, r[j].path, r[i].path);
            if i < j {
                assert(path_lt(r[i].path, r[j].path));
            } else {
                assert(path_lt(r[j].path, r[i].path));
            }
            assert(r.contains(r[i]));
            let x = r[i];
            let y = r[j];
            if i < a.len() {
                assert(a.contains(x));
                m.lemma_filter_contains_rev(before_pred(e.path), x);
            } else {
                assert(x == c[i - a.len() - 1]);
                assert(c.contains(x));
                m.lemma_filter_contains_rev(after_pred(e.path), x);
            }
            if j < a.len() {
                assert(a.contains(y));
                m.lemma_filter_contains_rev(before_pred(e.path), y);
            } else {
                assert(y == c[j - a.len() - 1]);
                assert(c.contains(y));
                m.lemma_filter_contains_rev(after_pred(e.path), y);
            }
            let qa = lemma_index_of(m, x);
            let qb = lemma_index_of(m, y);
        }
    }
}

/// Putting entries that fit the identifiers of `m` keeps identifiers unique.
pub proof fn lemma_upsert_all_ids(m: Seq<EntryView>, es: Seq<EntryView>, next: int)
    requires
        sorted_by_path(m),
        ids_fresh_below(m, next),
        ids_fit(m, es, next),
    ensures
        ids_fresh_below(upsert_all(m, es), next),
        sorted_by_path(upsert_all(m, es)),
    decreases es.len(),
{
    lemma_upsert_all_sorted(m, es);
    if es.len() > 0 {
        let d = es.drop_last();
        assert forall|j: int, k: int|
            0 <= j < d.len() && 0 <= k < d.len() && j != k implies #[trigger] d[j].id != #[trigger] d[k].id by {
            assert(d[j] == es[j] && d[k] == es[k]);
        }
        assert forall|i: int, k: int|
            0 <= i < m.len() && 0 <= k < d.len() && #[trigger] m[i].id == #[trigger] d[k].id implies m[i].path
            == d[k].path by {
            assert(d[k] == es[k]);
        }
        assert forall|k: int| 0 <= k < d.len() implies #[trigger] d[k].id < next by {
            assert(d[k] == es[k]);
        }
        lemma_upsert_all_ids(m, d, next);
        let y = upsert_all(m, d);
        let e = es.last();
        assert(e == es[es.len() - 1]);
        assert forall|i: int| 0 <= i < y.len() && #[trigger] y[i].id == e.id implies y[i].path == e.path by {
            assert(y.contains(y[i]));
            lemma_upsert_all_from(m, d, y[i]);
            if m.contains(y[i]) {
                let q = lemma_index_of(m, y[i]);
            } else {
                let j = lemma_index_of(d, y[i]);
                assert(es[j] == y[i]);
            }
        }
        lemma_upserted_ids(y, e, next);
    }
}

} // verus!
