//! Worktree-relative paths and their component-wise order.
use vstd::prelude::*;

verus! {

/// A worktree-relative path: the sequence of its components, each a byte
/// string. The empty sequence is the worktree root.
pub type PathBytes = Vec<Vec<u8>>;

/// The mathematical value of a path.
pub open spec fn path_view(p: &PathBytes) -> Seq<Seq<u8>> {
    p@.map_values(|c: Vec<u8>| c@)
}

/// Lexicographic order on byte strings, looking from position `i` on.
pub open spec fn bytes_lt_from(a: Seq<u8>, b: Seq<u8>, i: int) -> bool
    decreases a.len() - i,
{
    if i >= a.len() {
        i < b.len()
    } else if i >= b.len() {
        false
    } else if a[i] != b[i] {
        a[i] < b[i]
    } else {
        bytes_lt_from(a, b, i + 1)
    }
}

/// Lexicographic order on byte strings (a proper prefix comes first).
pub open spec fn bytes_lt(a: Seq<u8>, b: Seq<u8>) -> bool {
    bytes_lt_from(a, b, 0)
}

/// Component-wise order on paths, looking from component `i` on.
pub open spec fn path_lt_from(p: Seq<Seq<u8>>, q: Seq<Seq<u8>>, i: int) -> bool
    decreases p.len() - i,
{
    if i >= p.len() {
        i < q.len()
    } else if i >= q.len() {
        false
    } else if p[i] != q[i] {
        bytes_lt(p[i], q[i])
    } else {
        path_lt_from(p, q, i + 1)
    }
}

/// Component-wise lexicographic order on paths: `a` precedes `a/b`, and
/// `a/b` precedes `a/c`.
pub open spec fn path_lt(p: Seq<Seq<u8>>, q: Seq<Seq<u8>>) -> bool {
    path_lt_from(p, q, 0)
}

/// `p` is `q` or one of its ancestors.
pub open spec fn is_prefix(p: Seq<Seq<u8>>, q: Seq<Seq<u8>>) -> bool {
    p.len() <= q.len() && q.subrange(0, p.len() as int) == p
}

/// `q` lies strictly below `p`.
pub open spec fn is_strict_descendant(q: Seq<Seq<u8>>, p: Seq<Seq<u8>>) -> bool {
    p.len() < q.len() && q.subrange(0, p.len() as int) == p
}

pub proof fn lemma_bytes_lt_from_irrefl(a: Seq<u8>, i: int)
    requires
        0 <= i,
    ensures
        !bytes_lt_from(a, a, i),
    decreases a.len() - i,
{
    if i < a.len() {
        lemma_bytes_lt_from_irrefl(a, i + 1);
    }
}

pub proof fn lemma_bytes_lt_from_asym(a: Seq<u8>, b: Seq<u8>, i: int)
    requires
        0 <= i,
        bytes_lt_from(a, b, i),
    ensures
        !bytes_lt_from(b, a, i),
    decreases a.len() - i,
{
    if i < a.len() && i < b.len() && a[i] == b[i] {
        lemma_bytes_lt_from_asym(a, b, i + 1);
    }
}

pub proof fn lemma_bytes_lt_from_trans(a: Seq<u8>, b: Seq<u8>, c: Seq<u8>, i: int)
    requires
        0 <= i,
        bytes_lt_from(a, b, i),
        bytes_lt_from(b, c, i),
    ensures
        bytes_lt_from(a, c, i),
    decreases a.len() - i,
{
    if i < a.len() && i < b.len() && i < c.len() && a[i] == b[i] && b[i] == c[i] {
        lemma_bytes_lt_from_trans(a, b, c, i + 1);
    }
}

pub proof fn lemma_bytes_lt_from_total(a: Seq<u8>, b: Seq<u8>, i: int)
    requires
        0 <= i <= a.len(),
        i <= b.len(),
        a.subrange(0, i) == b.subrange(0, i),
        !bytes_lt_from(a, b, i),
        !bytes_lt_from(b, a, i),
    ensures
        a == b,
    decreases a.len() - i,
{
    if i < a.len() && i < b.len() {
        assert(a.subrange(0, i + 1) =~= a.subrange(0, i).push(a[i]));
        assert(b.subrange(0, i + 1) =~= b.subrange(0, i).push(b[i]));
        lemma_bytes_lt_from_total(a, b, i + 1);
    } else {
        assert(a =~= a.subrange(0, i));
        assert(b =~= b.subrange(0, i));
    }
}

pub proof fn lemma_path_lt_from_irrefl(p: Seq<Seq<u8>>, i: int)
    requires
        0 <= i,
    ensures
        !path_lt_from(p, p, i),
    decreases p.len() - i,
{
    if i < p.len() {
        lemma_path_lt_from_irrefl(p, i + 1);
    }
}

pub proof fn lemma_path_lt_from_trans(p: Seq<Seq<u8>>, q: Seq<Seq<u8>>, r: Seq<Seq<u8>>, i: int)
    requires
        0 <= i,
        path_lt_from(p, q, i),
        path_lt_from(q, r, i),
    ensures
        path_lt_from(p, r, i),
    decreases p.len() - i,
{
    if i < p.len() && i < q.len() && i < r.len() {
        if p[i] == q[i] && q[i] == r[i] {
            lemma_path_lt_from_trans(p, q, r, i + 1);
        } else if p[i] != q[i] && q[i] != r[i] {
            lemma_bytes_lt_from_trans(p[i], q[i], r[i], 0);
            if p[i] == r[i] {
                lemma_bytes_lt_from_irrefl(p[i], 0);
            }
        }
    }
}

pub proof fn lemma_path_lt_from_total(p: Seq<Seq<u8>>, q: Seq<Seq<u8>>, i: int)
    requires
        0 <= i <= p.len(),
        i <= q.len(),
        p.subrange(0, i) == q.subrange(0, i),
        !path_lt_from(p, q, i),
        !path_lt_from(q, p, i),
    ensures
        p == q,
    decreases p.len() - i,
{
    if i < p.len() && i < q.len() {
        if p[i] != q[i] {
            assert(p[i].subrange(0, 0) =~= q[i].subrange(0, 0));
            lemma_bytes_lt_from_total(p[i], q[i], 0);
        }
        assert(p.subrange(0, i + 1) =~= p.subrange(0, i).push(p[i]));
        assert(q.subrange(0, i + 1) =~= q.subrange(0, i).push(q[i]));
        lemma_path_lt_from_total(p, q, i + 1);
    } else {
        assert(p =~= p.subrange(0, i));
        assert(q =~= q.subrange(0, i));
    }
}

/// The path order is a strict total order.
pub proof fn lemma_path_lt_strict_total(p: Seq<Seq<u8>>, q: Seq<Seq<u8>>, r: Seq<Seq<u8>>)
    ensures
        !path_lt(p, p),
        path_lt(p, q) && path_lt(q, r) ==> path_lt(p, r),
        p == q || path_lt(p, q) || path_lt(q, p),
{
    lemma_path_lt_from_irrefl(p, 0);
    if path_lt(p, q) && path_lt(q, r) {
        lemma_path_lt_from_trans(p, q, r, 0);
    }
    if !path_lt(p, q) && !path_lt(q, p) {
        assert(p.subrange(0, 0) =~= q.subrange(0, 0));
        lemma_path_lt_from_total(p, q, 0);
    }
}

pub proof fn lemma_prefix_from(p: Seq<Seq<u8>>, q: Seq<Seq<u8>>, i: int)
    requires
        0 <= i <= p.len() < q.len(),
        q.subrange(0, p.len() as int) == p,
    ensures
        path_lt_from(p, q, i),
    decreases p.len() - i,
{
    if i < p.len() {
        assert(q[i] == q.subrange(0, p.len() as int)[i]);
        lemma_prefix_from(p, q, i + 1);
    }
}

/// An ancestor precedes each of its descendants.
pub proof fn lemma_ancestor_precedes(p: Seq<Seq<u8>>, q: Seq<Seq<u8>>)
    requires
        is_strict_descendant(q, p),
    ensures
        path_lt(p, q),
{
    lemma_prefix_from(p, q, 0);
}

/// Compares two byte strings: negative, zero or positive.
pub fn compare_bytes(a: &Vec<u8>, b: &Vec<u8>) -> (r: i8)
    ensures
        r == 0 <==> a@ == b@,
        r < 0 <==> bytes_lt(a@, b@),
        r > 0 <==> bytes_lt(b@, a@),
{
    let mut i: usize = 0;
    while i < a.len() && i < b.len()
        invariant
            i <= a.len(),
            i <= b.len(),
            a@.subrange(0, i as int) == b@.subrange(0, i as int),
            bytes_lt(a@, b@) == bytes_lt_from(a@, b@, i as int),
            bytes_lt(b@, a@) == bytes_lt_from(b@, a@, i as int),
        decreases a.len() - i,
    {
        if a[i] < b[i] {
            return -1;
        }
        if a[i] > b[i] {
            return 1;
        }
        assert(a@.subrange(0, i + 1) =~= a@.subrange(0, i as int).push(a@[i as int]));
        assert(b@.subrange(0, i + 1) =~= b@.subrange(0, i as int).push(b@[i as int]));
        i = i + 1;
    }
    if a.len() < b.len() {
        -1
    } else if a.len() > b.len() {
        1
    } else {
        assert(a@ =~= a@.subrange(0, i as int));
        assert(b@ =~= b@.subrange(0, i as int));
        0
    }
}

/// Compares two paths component-wise: negative, zero or positive.
pub fn compare_paths(p: &PathBytes, q: &PathBytes) -> (r: i8)
    ensures
        r == 0 <==> path_view(p) == path_view(q),
        r < 0 <==> path_lt(path_view(p), path_view(q)),
        r > 0 <==> path_lt(path_view(q), path_view(p)),
{
    let ghost pv = path_view(p);
    let ghost qv = path_view(q);
    let mut i: usize = 0;
    while i < p.len() && i < q.len()
        invariant
            i <= p.len(),
            i <= q.len(),
            pv == path_view(p),
            qv == path_view(q),
            pv.subrange(0, i as int) == qv.subrange(0, i as int),
            path_lt(pv, qv) == path_lt_from(pv, qv, i as int),
            path_lt(qv, pv) == path_lt_from(qv, pv, i as int),
        decreases p.len() - i,
    {
        let c = compare_bytes(&p[i], &q[i]);
        if c != 0 {
            proof {
                if c < 0 {
                    lemma_bytes_lt_from_asym(pv[i as int], qv[i as int], 0);
                } else {
                    lemma_bytes_lt_from_asym(qv[i as int], pv[i as int], 0);
                }
            }
            return c;
        }
        assert(pv.subrange(0, i + 1) =~= pv.subrange(0, i as int).push(pv[i as int]));
        assert(qv.subrange(0, i + 1) =~= qv.subrange(0, i as int).push(qv[i as int]));
        i = i + 1;
    }
    if p.len() < q.len() {
        -1
    } else if p.len() > q.len() {
        1
    } else {
        assert(pv =~= pv.subrange(0, i as int));
        assert(qv =~= qv.subrange(0, i as int));
        0
    }
}

/// Whether `p` is `q` or one of its ancestors.
pub fn path_starts_with(q: &PathBytes, p: &PathBytes) -> (r: bool)
    ensures
        r == is_prefix(path_view(p), path_view(q)),
{
    if p.len() > q.len() {
        return false;
    }
    let ghost pv = path_view(p);
    let ghost qv = path_view(q);
    let mut i: usize = 0;
    while i < p.len()
        invariant
            p.len() <= q.len(),
            i <= p.len(),
            pv == path_view(p),
            qv == path_view(q),
            qv.subrange(0, i as int) == pv.subrange(0, i as int),
        decreases p.len() - i,
    {
        if compare_bytes(&p[i], &q[i]) != 0 {
            assert(qv.subrange(0, p.len() as int)[i as int] == qv[i as int]);
            return false;
        }
        assert(pv.subrange(0, i + 1) =~= pv.subrange(0, i as int).push(pv[i as int]));
        assert(qv.subrange(0, i + 1) =~= qv.subrange(0, i as int).push(qv[i as int]));
        i = i + 1;
    }
    assert(pv =~= pv.subrange(0, i as int));
    true
}

/// The path that `s` spells with `/` between components; the empty string
/// is the root.
pub open spec fn path_of_bytes(s: Seq<u8>) -> Seq<Seq<u8>> {
    if s.len() == 0 {
        Seq::<Seq<u8>>::empty()
    } else {
        crate::ignore::split_bytes(s, 47u8)
    }
}

/// Reads a worktree-relative path written with `/` between components.
pub fn parse_path(s: &Vec<u8>) -> (r: PathBytes)
    ensures
        path_view(&r) == path_of_bytes(s@),
{
    if s.len() == 0 {
        let r: PathBytes = Vec::new();
        assert(path_view(&r) =~= Seq::<Seq<u8>>::empty());
        r
    } else {
        crate::ignore::split_on(s, 47u8)
    }
}

/// A copy of a byte string.
pub fn copy_bytes(a: &Vec<u8>) -> (r: Vec<u8>)
    ensures
        r@ == a@,
{
    let mut r: Vec<u8> = Vec::new();
    let mut i: usize = 0;
    while i < a.len()
        invariant
            i <= a.len(),
            r@ == a@.subrange(0, i as int),
        decreases a.len() - i,
    {
        r.push(a[i]);
        assert(a@.subrange(0, i + 1) =~= a@.subrange(0, i as int).push(a@[i as int]));
        i = i + 1;
    }
    assert(a@ =~= a@.subrange(0, i as int));
    r
}

/// A copy of the first `n` components of a path.
pub fn copy_path_prefix(p: &PathBytes, n: usize) -> (r: PathBytes)
    requires
        n <= p.len(),
    ensures
        path_view(&r) == path_view(p).subrange(0, n as int),
{
    let mut r: PathBytes = Vec::new();
    let mut i: usize = 0;
    while i < n
        invariant
            n <= p.len(),
            i <= n,
            r.len() == i,
            path_view(&r) == path_view(p).subrange(0, i as int),
        decreases n - i,
    {
        let c = copy_bytes(&p[i]);
        r.push(c);
        assert(path_view(&r) =~= path_view(p).subrange(0, i + 1));
        i = i + 1;
    }
    r
}

/// `to` followed by the components of `p` after its first `from_len`.
pub fn rebase_path(p: &PathBytes, from_len: usize, to: &PathBytes) -> (r: PathBytes)
    requires
        from_len <= p.len(),
    ensures
        path_view(&r) == path_view(to) + path_view(p).subrange(from_len as int, p.len() as int),
{
    let mut r = copy_path(to);
    assert(path_view(&r).len() == r.len());
    assert(path_view(to).len() == to.len());
    let mut i: usize = from_len;
    while i < p.len()
        invariant
            from_len <= i <= p.len(),
            r.len() == to.len() + (i - from_len),
            path_view(&r) == path_view(to) + path_view(p).subrange(from_len as int, i as int),
        decreases p.len() - i,
    {
        let c = copy_bytes(&p[i]);
        let ghost before = path_view(&r);
        r.push(c);
        assert(path_view(&r) =~= before.push(c@));
        assert(path_view(&r) =~= path_view(to) + path_view(p).subrange(from_len as int, i + 1));
        i = i + 1;
    }
    r
}

/// A copy of a path.
pub fn copy_path(p: &PathBytes) -> (r: PathBytes)
    ensures
        path_view(&r) == path_view(p),
{
    let r = copy_path_prefix(p, p.len());
    assert(path_view(p) =~= path_view(p).subrange(0, p.len() as int));
    r
}

} // verus!
