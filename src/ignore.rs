//! Pattern files and the rules they give for ignoring paths.
use vstd::prelude::*;
use vstd::seq_lib::group_seq_properties;

use crate::path::{compare_bytes, copy_path, is_prefix, path_starts_with, path_view, PathBytes};

verus! {

broadcast use group_seq_properties;

/// Splits `s` at each `sep`: one more part than there are separators.
pub open spec fn split_bytes(s: Seq<u8>, sep: u8) -> Seq<Seq<u8>>
    decreases s.len(),
{
    if s.len() == 0 {
        seq![Seq::<u8>::empty()]
    } else {
        let parts = split_bytes(s.drop_last(), sep);
        if s.last() == sep {
            parts.push(Seq::<u8>::empty())
        } else {
            parts.update(parts.len() - 1, parts.last().push(s.last()))
        }
    }
}

pub proof fn lemma_split_bytes_nonempty(s: Seq<u8>, sep: u8)
    ensures
        split_bytes(s, sep).len() >= 1,
    decreases s.len(),
{
    if s.len() > 0 {
        lemma_split_bytes_nonempty(s.drop_last(), sep);
    }
}

/// One line of a pattern file, as matched against paths.
pub struct PatternView {
    pub components: Seq<Seq<u8>>,
    /// Matched from the pattern file's directory only, rather than at any depth.
    pub anchored: bool,
}

/// What one line of a pattern file means: nothing when empty or a comment;
/// otherwise its components, a trailing `/` dropped. A `/` at the start or in
/// the middle anchors it, and a leading `**` component lets it match at any
/// depth.
///
/// This is a subset of the usual pattern language: `*` stands only for a
/// whole component (`*.log` matches the name `*.log` literally), `**` is
/// understood only as the first component, and there is no `!` negation.
pub open spec fn pattern_of_line(line: Seq<u8>) -> Option<PatternView> {
    if line.len() == 0 || line[0] == 35u8 {
        None
    } else {
        let c0 = split_bytes(line, 47u8);
        let c1 = if c0.last().len() == 0 {
            c0.drop_last()
        } else {
            c0
        };
        let anchored = c1.len() > 1;
        let c2 = if c1.len() > 0 && c1[0].len() == 0 {
            c1.drop_first()
        } else {
            c1
        };
        let star = c2.len() > 0 && c2[0] == seq![42u8, 42u8];
        let c3 = if star {
            c2.drop_first()
        } else {
            c2
        };
        if c3.len() == 0 {
            None
        } else {
            Some(PatternView { components: c3, anchored: anchored && !star })
        }
    }
}

/// The patterns of a sequence of lines, in order.
pub open spec fn patterns_of_lines(lines: Seq<Seq<u8>>) -> Seq<PatternView>
    decreases lines.len(),
{
    if lines.len() == 0 {
        Seq::<PatternView>::empty()
    } else {
        let r = patterns_of_lines(lines.drop_last());
        match pattern_of_line(lines.last()) {
            Some(p) => r.push(p),
            None => r,
        }
    }
}

/// A pattern component matches a path component: `*` matches any.
pub open spec fn component_matches(pc: Seq<u8>, c: Seq<u8>) -> bool {
    pc == seq![42u8] || pc == c
}

/// The pattern's components match `rel` from component `s` on.
pub open spec fn matches_at(pat: Seq<Seq<u8>>, rel: Seq<Seq<u8>>, s: int) -> bool {
    &&& 0 <= s
    &&& s + pat.len() <= rel.len()
    &&& forall|k: int| 0 <= k < pat.len() ==> component_matches(#[trigger] pat[k], rel[s + k])
}

/// The pattern matches `rel` or one of its ancestors (paths relative to the
/// pattern file's directory).
pub open spec fn pattern_matches(pat: PatternView, rel: Seq<Seq<u8>>) -> bool {
    if pat.anchored {
        matches_at(pat.components, rel, 0)
    } else {
        exists|s: int| #[trigger] matches_at(pat.components, rel, s)
    }
}

/// A parsed pattern file and the directory it stands in.
pub struct IgnoreFileView {
    pub dir: Seq<Seq<u8>>,
    pub patterns: Seq<PatternView>,
}

/// The file's directory holds `p`, and one of its patterns matches `p` below it.
pub open spec fn file_ignores(f: IgnoreFileView, p: Seq<Seq<u8>>) -> bool {
    &&& is_prefix(f.dir, p)
    &&& exists|k: int|
        0 <= k < f.patterns.len() && pattern_matches(
            #[trigger] f.patterns[k],
            p.subrange(f.dir.len() as int, p.len() as int),
        )
}

pub open spec fn dot_git() -> Seq<u8> {
    seq![46u8, 103u8, 105u8, 116u8]
}

/// Some component of `p` is `.git`: a repository's own directory or inside it.
pub open spec fn in_dot_git(p: Seq<Seq<u8>>) -> bool {
    exists|k: int| 0 <= k < p.len() && #[trigger] p[k] == dot_git()
}

/// Whether the rules in `stack` ignore path `p`.
pub open spec fn path_ignored(stack: Seq<IgnoreFileView>, p: Seq<Seq<u8>>) -> bool {
    in_dot_git(p) || exists|i: int| 0 <= i < stack.len() && file_ignores(#[trigger] stack[i], p)
}

/// Ignoring is inherited: whatever lies below an ignored path is ignored.
pub proof fn lemma_ignore_inherited(stack: Seq<IgnoreFileView>, a: Seq<Seq<u8>>, p: Seq<Seq<u8>>)
    requires
        is_prefix(a, p),
        path_ignored(stack, a),
    ensures
        path_ignored(stack, p),
{
    if in_dot_git(a) {
        let k = choose|k: int| 0 <= k < a.len() && #[trigger] a[k] == dot_git();
        assert(p.subrange(0, a.len() as int)[k] == p[k]);
        assert(p[k] == dot_git());
    } else {
        let i = choose|i: int| 0 <= i < stack.len() && file_ignores(#[trigger] stack[i], a);
        let f = stack[i];
        let k = choose|k: int|
            0 <= k < f.patterns.len() && pattern_matches(
                #[trigger] f.patterns[k],
                a.subrange(f.dir.len() as int, a.len() as int),
            );
        let d = f.dir.len() as int;
        let ra = a.subrange(d, a.len() as int);
        let rp = p.subrange(d, p.len() as int);
        assert(p.subrange(0, d) =~= p.subrange(0, a.len() as int).subrange(0, d));
        assert(is_prefix(f.dir, p));
        assert forall|j: int| 0 <= j < ra.len() implies rp[j] == #[trigger] ra[j] by {
            assert(p.subrange(0, a.len() as int)[d + j] == p[d + j]);
        }
        let pat = f.patterns[k];
        if pat.anchored {
            assert(matches_at(pat.components, rp, 0));
        } else {
            let s = choose|s: int| matches_at(pat.components, ra, s);
            assert(matches_at(pat.components, rp, s));
        }
        assert(pattern_matches(f.patterns[k], rp));
        assert(file_ignores(stack[i], p));
    }
}

/// One parsed line of a pattern file.
#[derive(Clone, Debug)]
pub struct IgnorePattern {
    pub components: PathBytes,
    pub anchored: bool,
}

impl View for IgnorePattern {
    type V = PatternView;

    open spec fn view(&self) -> PatternView {
        PatternView { components: path_view(&self.components), anchored: self.anchored }
    }
}

/// A parsed pattern file.
#[derive(Clone, Debug)]
pub struct IgnoreFile {
    pub dir: PathBytes,
    pub patterns: Vec<IgnorePattern>,
}

pub open spec fn patterns_view(v: Seq<IgnorePattern>) -> Seq<PatternView> {
    v.map_values(|p: IgnorePattern| p@)
}

impl View for IgnoreFile {
    type V = IgnoreFileView;

    open spec fn view(&self) -> IgnoreFileView {
        IgnoreFileView { dir: path_view(&self.dir), patterns: patterns_view(self.patterns@) }
    }
}

/// Splits `s` at each `sep`.
pub fn split_on(s: &Vec<u8>, sep: u8) -> (r: Vec<Vec<u8>>)
    ensures
        path_view(&r) == split_bytes(s@, sep),
{
    let mut done: Vec<Vec<u8>> = Vec::new();
    let mut cur: Vec<u8> = Vec::new();
    let mut i: usize = 0;
    while i < s.len()
        invariant
            i <= s.len(),
            path_view(&done).push(cur@) == split_bytes(s@.subrange(0, i as int), sep),
        decreases s.len() - i,
    {
        let ghost t = s@.subrange(0, i + 1);
        assert(t.drop_last() =~= s@.subrange(0, i as int));
        let ghost dv = path_view(&done);
        let ghost cv = cur@;
        if s[i] == sep {
            done.push(cur);
            cur = Vec::new();
            assert(path_view(&done) =~= dv.push(cv));
            assert(path_view(&done).push(cur@) =~= dv.push(cv).push(Seq::<u8>::empty()));
        } else {
            cur.push(s[i]);
            assert(dv.push(cv).update(dv.len() as int, cv.push(s@[i as int])) =~= dv.push(cur@));
        }
        i = i + 1;
    }
    assert(s@.subrange(0, s.len() as int) =~= s@);
    let ghost dv = path_view(&done);
    let ghost cv = cur@;
    done.push(cur);
    assert(path_view(&done) =~= dv.push(cv));
    done
}

/// The pattern that one line of a pattern file states, if any.
pub fn parse_pattern_line(line: &Vec<u8>) -> (r: Option<IgnorePattern>)
    ensures
        match r {
            Some(p) => pattern_of_line(line@) == Some(p@),
            None => pattern_of_line(line@) is None,
        },
{
    if line.len() == 0 || line[0] == 35u8 {
        return None;
    }
    let mut comps = split_on(line, 47u8);
    let ghost c0 = path_view(&comps);
    proof {
        lemma_split_bytes_nonempty(line@, 47u8);
    }
    let n = comps.len();
    if comps[n - 1].len() == 0 {
        comps.pop();
        assert(path_view(&comps) =~= c0.drop_last());
    }
    let ghost c1 = path_view(&comps);
    let mut anchored = comps.len() > 1;
    if comps.len() > 0 && comps[0].len() == 0 {
        comps.remove(0);
        assert(path_view(&comps) =~= c1.drop_first());
    }
    let ghost c2 = path_view(&comps);
    let mut star = false;
    if comps.len() > 0 && comps[0].len() == 2 && comps[0][0] == 42u8 && comps[0][1] == 42u8 {
        assert(c2[0] =~= seq![42u8, 42u8]);
        star = true;
    } else {
        proof {
            if c2.len() > 0 && c2[0] == seq![42u8, 42u8] {
                assert(c2[0].len() == 2 && c2[0][0] == 42u8 && c2[0][1] == 42u8);
            }
        }
    }
    if star {
        comps.remove(0);
        assert(path_view(&comps) =~= c2.drop_first());
        anchored = false;
    }
    if comps.len() == 0 {
        None
    } else {
        Some(IgnorePattern { components: comps, anchored })
    }
}

/// Parses the contents of the pattern file that stands in `dir`.
pub fn parse_ignore_file(dir: &PathBytes, contents: &Vec<u8>) -> (r: IgnoreFile)
    ensures
        r@.dir == path_view(dir),
        r@.patterns == patterns_of_lines(split_bytes(contents@, 10u8)),
{
    let lines = split_on(contents, 10u8);
    let ghost lv = path_view(&lines);
    let mut patterns: Vec<IgnorePattern> = Vec::new();
    let mut i: usize = 0;
    while i < lines.len()
        invariant
            i <= lines.len(),
            lv == path_view(&lines),
            patterns_view(patterns@) == patterns_of_lines(lv.subrange(0, i as int)),
        decreases lines.len() - i,
    {
        assert(lv.subrange(0, i + 1).drop_last() =~= lv.subrange(0, i as int));
        match parse_pattern_line(&lines[i]) {
            Some(p) => {
                let ghost before = patterns@;
                patterns.push(p);
                assert(patterns_view(patterns@) =~= patterns_view(before).push(p@));
            },
            None => {},
        }
        i = i + 1;
    }
    assert(lv.subrange(0, lines.len() as int) =~= lv);
    IgnoreFile { dir: copy_path(dir), patterns }
}

/// Whether a pattern component matches a path component.
pub fn component_matches_exec(pc: &Vec<u8>, c: &Vec<u8>) -> (r: bool)
    ensures
        r == component_matches(pc@, c@),
{
    if pc.len() == 1 && pc[0] == 42u8 {
        assert(pc@ =~= seq![42u8]);
        return true;
    }
    proof {
        if pc@ == seq![42u8] {
            assert(pc@.len() == 1 && pc@[0] == 42u8);
        }
    }
    compare_bytes(pc, c) == 0
}

/// Whether the components of `pat` match those of `path` from `base + s` on.
fn matches_at_exec(pat: &PathBytes, path: &PathBytes, base: usize, s: usize) -> (r: bool)
    requires
        base <= path.len(),
    ensures
        r == matches_at(
            path_view(pat),
            path_view(path).subrange(base as int, path.len() as int),
            s as int,
        ),
{
    let ghost rel = path_view(path).subrange(base as int, path.len() as int);
    if s > path.len() - base || pat.len() > path.len() - base - s {
        return false;
    }
    let mut k: usize = 0;
    while k < pat.len()
        invariant
            base <= path.len(),
            s + pat.len() <= path.len() - base,
            k <= pat.len(),
            rel == path_view(path).subrange(base as int, path.len() as int),
            forall|j: int| 0 <= j < k ==> component_matches(#[trigger] path_view(pat)[j], rel[s + j]),
        decreases pat.len() - k,
    {
        assert(path_view(pat)[k as int] == pat@[k as int]@);
        assert(rel[s + k] == path_view(path)[base + s + k]);
        if !component_matches_exec(&pat[k], &path[base + s + k]) {
            assert(!component_matches(path_view(pat)[k as int], rel[s + k]));
            return false;
        }
        assert(rel[s + k] == path_view(path)[base + s + k]);
        k = k + 1;
    }
    true
}

impl IgnorePattern {
    /// Whether this pattern matches `path` below its first `base` components.
    pub fn matches(&self, path: &PathBytes, base: usize) -> (r: bool)
        requires
            base <= path.len(),
        ensures
            r == pattern_matches(self@, path_view(path).subrange(base as int, path.len() as int)),
    {
        let ghost rel = path_view(path).subrange(base as int, path.len() as int);
        if self.anchored {
            return matches_at_exec(&self.components, path, base, 0);
        }
        if self.components.len() > path.len() - base {
            assert forall|t: int| !#[trigger] matches_at(self@.components, rel, t) by {}
            return false;
        }
        let last = path.len() - base - self.components.len();
        let mut s: usize = 0;
        while s < last
            invariant
                base <= path.len(),
                s <= last,
                last + self@.components.len() == rel.len(),
                rel == path_view(path).subrange(base as int, path.len() as int),
                !self@.anchored,
                forall|t: int| 0 <= t < s ==> !#[trigger] matches_at(self@.components, rel, t),
            decreases last - s,
        {
            if matches_at_exec(&self.components, path, base, s) {
                assert(matches_at(self@.components, rel, s as int));
                assert(pattern_matches(self@, rel));
                return true;
            }
            s = s + 1;
        }
        if matches_at_exec(&self.components, path, base, last) {
            assert(matches_at(self@.components, rel, last as int));
            return true;
        }
        assert forall|t: int| !#[trigger] matches_at(self@.components, rel, t) by {
            if t > last {
                assert(t + self@.components.len() > rel.len());
            }
        }
        false
    }
}

impl IgnoreFile {
    /// A copy of this file.
    pub fn copy(&self) -> (r: IgnoreFile)
        ensures
            r@ == self@,
    {
        let mut patterns: Vec<IgnorePattern> = Vec::new();
        let mut i: usize = 0;
        while i < self.patterns.len()
            invariant
                i <= self.patterns.len(),
                patterns_view(patterns@) == patterns_view(self.patterns@).subrange(0, i as int),
            decreases self.patterns.len() - i,
        {
            let p = IgnorePattern {
                components: copy_path(&self.patterns[i].components),
                anchored: self.patterns[i].anchored,
            };
            let ghost before = patterns@;
            patterns.push(p);
            assert(p@ == self.patterns@[i as int]@);
            assert(patterns_view(patterns@) =~= patterns_view(before).push(p@));
            assert(patterns_view(patterns@) =~= patterns_view(self.patterns@).subrange(0, i + 1));
            i = i + 1;
        }
        assert(patterns_view(self.patterns@).subrange(0, i as int) =~= patterns_view(self.patterns@));
        IgnoreFile { dir: copy_path(&self.dir), patterns }
    }

    /// Whether this file's patterns ignore `path`.
    pub fn ignores(&self, path: &PathBytes) -> (r: bool)
        ensures
            r == file_ignores(self@, path_view(path)),
    {
        if !path_starts_with(path, &self.dir) {
            return false;
        }
        let base = self.dir.len();
        let mut k: usize = 0;
        while k < self.patterns.len()
            invariant
                base == self.dir.len(),
                base <= path.len(),
                is_prefix(self@.dir, path_view(path)),
                k <= self.patterns.len(),
                forall|j: int|
                    0 <= j < k ==> !pattern_matches(
                        #[trigger] self@.patterns[j],
                        path_view(path).subrange(base as int, path.len() as int),
                    ),
            decreases self.patterns.len() - k,
        {
            if self.patterns[k].matches(path, base) {
                assert(self@.patterns[k as int] == self.patterns[k as int]@);
                assert(pattern_matches(
                    self@.patterns[k as int],
                    path_view(path).subrange(self@.dir.len() as int, path_view(path).len() as int),
                ));
                assert(file_ignores(self@, path_view(path)));
                return true;
            }
            k = k + 1;
        }
        false
    }
}

/// The pattern files in force, each with the directory it stands in.
#[derive(Clone, Debug)]
pub struct IgnoreStack {
    pub files: Vec<IgnoreFile>,
}

pub open spec fn files_view(v: Seq<IgnoreFile>) -> Seq<IgnoreFileView> {
    v.map_values(|f: IgnoreFile| f@)
}

impl View for IgnoreStack {
    type V = Seq<IgnoreFileView>;

    open spec fn view(&self) -> Seq<IgnoreFileView> {
        files_view(self.files@)
    }
}

/// Whether some component of `path` is `.git`.
pub fn path_in_dot_git(path: &PathBytes) -> (r: bool)
    ensures
        r == in_dot_git(path_view(path)),
{
    let mut k: usize = 0;
    while k < path.len()
        invariant
            k <= path.len(),
            forall|j: int| 0 <= j < k ==> #[trigger] path_view(path)[j] != dot_git(),
        decreases path.len() - k,
    {
        let c = &path[k];
        if c.len() == 4 && c[0] == 46u8 && c[1] == 103u8 && c[2] == 105u8 && c[3] == 116u8 {
            assert(path_view(path)[k as int] =~= dot_git());
            return true;
        }
        assert(path_view(path)[k as int] != dot_git()) by {
            if path_view(path)[k as int] == dot_git() {
                assert(c@ == dot_git());
            }
        }
        k = k + 1;
    }
    false
}

impl IgnoreStack {
    pub fn new() -> (r: IgnoreStack)
        ensures
            r@ == Seq::<IgnoreFileView>::empty(),
    {
        let r = IgnoreStack { files: Vec::new() };
        assert(r@ =~= Seq::<IgnoreFileView>::empty());
        r
    }

    /// Adds a pattern file, in place of any earlier one in the same directory.
    pub fn set_file(&mut self, file: IgnoreFile)
        ensures
            final(self)@ == old(self)@.filter(|f: IgnoreFileView| f.dir != file@.dir).push(file@),
    {
        self.remove_file(&file.dir);
        let ghost before = self.files@;
        self.files.push(file);
        assert(self@ =~= files_view(before).push(file@));
    }

    /// Drops the pattern file of directory `dir`, if there is one.
    pub fn remove_file(&mut self, dir: &PathBytes)
        ensures
            final(self)@ == old(self)@.filter(|f: IgnoreFileView| f.dir != path_view(dir)),
    {
        let ghost m = self@;
        let ghost pred = |f: IgnoreFileView| f.dir != path_view(dir);
        let mut kept: Vec<IgnoreFile> = Vec::new();
        let mut i: usize = 0;
        while i < self.files.len()
            invariant
                m == files_view(self.files@),
                i <= self.files.len(),
                pred == (|f: IgnoreFileView| f.dir != path_view(dir)),
                files_view(kept@) == m.subrange(0, i as int).filter(pred),
            decreases self.files.len() - i,
        {
            let same = path_starts_with(&self.files[i].dir, dir) && self.files[i].dir.len() == dir.len();
            proof {
                assert(m.subrange(0, i + 1) =~= m.subrange(0, i as int).push(m[i as int]));
                crate::snapshot::lemma_filter_push(m.subrange(0, i as int), m[i as int], pred);
                if same {
                    assert(path_view(&self.files[i as int].dir) =~= path_view(dir));
                }
                if path_view(&self.files[i as int].dir) == path_view(dir) {
                    assert(self.files[i as int].dir.len() == dir.len());
                    assert(path_view(&self.files[i as int].dir).subrange(0, dir.len() as int)
                        =~= path_view(&self.files[i as int].dir));
                }
            }
            if !same {
                let f = self.files[i].copy();
                let ghost before = kept@;
                kept.push(f);
                assert(files_view(kept@) =~= files_view(before).push(m[i as int]));
            }
            i = i + 1;
        }
        assert(m.subrange(0, m.len() as int) =~= m);
        self.files = kept;
    }

    /// Whether `path` is ignored: it is inside a `.git` directory, or a
    /// pattern file above it matches it or one of its ancestors.
    pub fn is_path_ignored(&self, path: &PathBytes) -> (r: bool)
        ensures
            r == path_ignored(self@, path_view(path)),
    {
        if path_in_dot_git(path) {
            return true;
        }
        let mut i: usize = 0;
        while i < self.files.len()
            invariant
                i <= self.files.len(),
                forall|j: int| 0 <= j < i ==> !file_ignores(#[trigger] self@[j], path_view(path)),
            decreases self.files.len() - i,
        {
            if self.files[i].ignores(path) {
                assert(self@[i as int] == self.files[i as int]@);
                return true;
            }
            i = i + 1;
        }
        false
    }
}

} // verus!
