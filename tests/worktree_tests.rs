use worktree::{
    parse_ignore_file, parse_path, propagate_git_statuses, repository_for_path,
    work_directories, work_directory_for_dot_git, Entry, EntryKind, GitFileStatus, PathBytes, Repository,
    Snapshot, Worktree, WorktreeError, engine::{pair_moves, Metadata, PathChange},
};

fn p(s: &str) -> PathBytes {
    parse_path(&s.as_bytes().to_vec())
}

fn show(path: &PathBytes) -> String {
    path.iter()
        .map(|c| String::from_utf8(c.clone()).unwrap())
        .collect::<Vec<_>>()
        .join("/")
}

fn names(entries: &[Entry]) -> Vec<String> {
    entries.iter().map(|e| show(&e.path)).collect()
}

fn ignore_rules(w: &mut Worktree, dir: &str, contents: &str) {
    w.set_ignore_file(parse_ignore_file(&p(dir), &contents.as_bytes().to_vec()));
}

fn file(w: &mut Worktree, path: &str) -> Entry {
    w.create_entry(&p(path), false, 0, 0).unwrap()
}

fn dir(w: &mut Worktree, path: &str) -> Entry {
    w.create_entry(&p(path), true, 0, 0).unwrap()
}

fn replay(snapshot: &Snapshot, w: &Worktree) -> Snapshot {
    let mut replica = snapshot.clone();
    for env in w.updates() {
        replica.apply_remote_update(&env);
    }
    replica
}

#[test]
fn test_traversal() {
    let mut w = Worktree::new();
    ignore_rules(&mut w, "", "a/b\n");
    file(&mut w, ".gitignore");
    file(&mut w, "a/b");
    file(&mut w, "a/c");
    let s = w.snapshot();
    assert_eq!(names(&s.entries(false)), vec!["", ".gitignore", "a", "a/c"]);
    assert_eq!(names(&s.entries(true)), vec!["", ".gitignore", "a", "a/b", "a/c"]);
}

#[test]
fn test_descendent_entries() {
    let mut w = Worktree::new();
    ignore_rules(&mut w, "", "i/j\n");
    file(&mut w, "a");
    file(&mut w, "b/c/d");
    dir(&mut w, "b/e");
    file(&mut w, "f");
    dir(&mut w, "g/h");
    file(&mut w, "i/j/k");
    dir(&mut w, "i/l");
    file(&mut w, ".gitignore");
    let s = w.snapshot();
    assert_eq!(names(&s.descendent_entries(false, false, &p("b"))), vec!["b/c/d"]);
    assert_eq!(
        names(&s.descendent_entries(true, false, &p("b"))),
        vec!["b", "b/c", "b/c/d", "b/e"]
    );
    assert_eq!(names(&s.descendent_entries(false, false, &p("g"))), Vec::<String>::new());
    assert_eq!(names(&s.descendent_entries(true, false, &p("g"))), vec!["g", "g/h"]);
    assert_eq!(names(&s.descendent_entries(false, false, &p("i"))), Vec::<String>::new());
    assert_eq!(names(&s.descendent_entries(false, true, &p("i"))), vec!["i/j/k"]);
    assert_eq!(names(&s.descendent_entries(true, false, &p("i"))), vec!["i", "i/l"]);
}

#[test]
fn test_circular_symlinks() {
    let mut w = Worktree::new();
    file(&mut w, "lib/a/a.txt");
    file(&mut w, "lib/b/b.txt");
    let link_a = w.add_entry(&p("lib/a/lib"), EntryKind::Symlink, 0, 0, true).unwrap();
    w.add_entry(&p("lib/b/lib"), EntryKind::Symlink, 0, 0, true).unwrap();
    assert_eq!(
        names(&w.snapshot().entries(false)),
        vec!["", "lib", "lib/a", "lib/a/a.txt", "lib/a/lib", "lib/b", "lib/b/b.txt", "lib/b/lib"]
    );
    w.rename_entry(link_a.id, &p("lib/a/lib-2")).unwrap();
    assert_eq!(
        names(&w.snapshot().entries(false)),
        vec!["", "lib", "lib/a", "lib/a/a.txt", "lib/a/lib-2", "lib/b", "lib/b/b.txt", "lib/b/lib"]
    );
}

#[test]
fn test_rescan_with_gitignore() {
    // the worktree root is `tree`; the pattern file above it stands at ``
    let mut w = Worktree::new();
    ignore_rules(&mut w, "", "ancestor-ignored-file1\nancestor-ignored-file2\n");
    ignore_rules(&mut w, "tree", "ignored-dir\n");
    dir(&mut w, "tree/.git");
    file(&mut w, "tree/.gitignore");
    file(&mut w, "tree/tracked-dir/tracked-file1");
    file(&mut w, "tree/tracked-dir/ancestor-ignored-file1");
    file(&mut w, "tree/ignored-dir/ignored-file1");
    let s = w.snapshot();
    assert!(!s.entry_for_path(&p("tree/tracked-dir/tracked-file1")).unwrap().is_ignored);
    assert!(s.entry_for_path(&p("tree/tracked-dir/ancestor-ignored-file1")).unwrap().is_ignored);
    assert!(s.entry_for_path(&p("tree/ignored-dir/ignored-file1")).unwrap().is_ignored);

    w.write_file(&p("tree/tracked-dir/tracked-file2"), 0, 0).unwrap();
    w.write_file(&p("tree/tracked-dir/ancestor-ignored-file2"), 0, 0).unwrap();
    w.write_file(&p("tree/ignored-dir/ignored-file2"), 0, 0).unwrap();
    let s = w.snapshot();
    assert!(!s.entry_for_path(&p("tree/tracked-dir/tracked-file2")).unwrap().is_ignored);
    assert!(s.entry_for_path(&p("tree/tracked-dir/ancestor-ignored-file2")).unwrap().is_ignored);
    assert!(s.entry_for_path(&p("tree/ignored-dir/ignored-file2")).unwrap().is_ignored);
    assert!(s.entry_for_path(&p("tree/.git")).unwrap().is_ignored);
}

#[test]
fn test_write_file() {
    let mut w = Worktree::new();
    ignore_rules(&mut w, "", "ignored-dir\n");
    dir(&mut w, ".git");
    file(&mut w, ".gitignore");
    dir(&mut w, "tracked-dir");
    dir(&mut w, "ignored-dir");
    w.write_file(&p("tracked-dir/file.txt"), 7, 1).unwrap();
    w.write_file(&p("ignored-dir/file.txt"), 8, 1).unwrap();
    let s = w.snapshot();
    let visible = s.entry_for_path(&p("tracked-dir/file.txt")).unwrap();
    let ignored = s.entry_for_path(&p("ignored-dir/file.txt")).unwrap();
    assert!(!visible.is_ignored);
    assert!(ignored.is_ignored);
}

#[test]
fn test_create_directory_during_initial_scan() {
    let mut w = Worktree::new();
    dir(&mut w, "b");
    dir(&mut w, "c");
    dir(&mut w, "d");
    let snapshot1 = w.snapshot();
    let entry = w.create_entry(&p("a/e"), true, 0, 0).unwrap();
    assert!(entry.is_dir());
    assert_eq!(w.snapshot().entry_for_path(&p("a/e")).unwrap().kind, EntryKind::Directory);
    let snapshot2 = w.snapshot();
    assert_eq!(replay(&snapshot1, &w).entries(true), snapshot2.entries(true));
}

/// A small deterministic generator for the randomized tests.
struct Lcg(u64);

impl Lcg {
    fn below(&mut self, n: u64) -> u64 {
        self.0 = self.0.wrapping_mul(6364136223846793005).wrapping_add(1442695040888963407);
        (self.0 >> 33) % n
    }
}

/// Paths strictly ordered, identifiers unique, every non-root entry's parent
/// present as a directory.
fn check_invariants(entries: &[Entry]) {
    for pair in entries.windows(2) {
        assert!(pair[0].path < pair[1].path);
    }
    let mut ids: Vec<u64> = entries.iter().map(|e| e.id).collect();
    ids.sort();
    ids.dedup();
    assert_eq!(ids.len(), entries.len());
    for e in entries.iter().filter(|e| !e.path.is_empty()) {
        let parent = &e.path[..e.path.len() - 1];
        let found = entries.iter().find(|x| x.path.as_slice() == parent);
        assert!(found.map_or(false, |x| x.is_dir()), "no parent for {}", show(&e.path));
    }
}

fn random_mutations(seed: u64, operations: usize) {
    let mut rng = Lcg(seed);
    let mut w = Worktree::new();
    dir(&mut w, "a");
    let names = ["a", "b", "c", "d"];
    let mut snapshots = vec![w.snapshot()];
    for _ in 0..operations {
        let depth = 1 + rng.below(3) as usize;
        let path: Vec<&str> = (0..depth).map(|_| names[rng.below(4) as usize]).collect();
        let path = p(&path.join("/"));
        let entries = w.snapshot().entries(true);
        match rng.below(4) {
            0 => {
                let _ = w.create_entry(&path, rng.below(2) == 0, rng.below(100), 0);
            }
            1 => {
                let victim = &entries[rng.below(entries.len() as u64) as usize];
                let _ = w.delete_entry(victim.id);
            }
            2 => {
                let moved = &entries[rng.below(entries.len() as u64) as usize];
                let before = w.snapshot();
                if w.rename_entry(moved.id, &path).is_ok() {
                    // every moved entry keeps its identifier
                    for old in before.descendent_entries(true, true, &moved.path) {
                        let mut np = path.clone();
                        np.extend(old.path[moved.path.len()..].iter().cloned());
                        let now = w.snapshot().entry_for_path(&np).unwrap();
                        assert_eq!(now.id, old.id);
                        assert_eq!(now.inode, old.inode);
                    }
                }
            }
            _ => {
                let _ = w.write_file(&path, rng.below(100), rng.below(100));
            }
        }
        check_invariants(&w.snapshot().entries(true));
        if rng.below(3) == 0 {
            snapshots.push(w.snapshot());
        }
    }
    let live = w.snapshot().entries(true);
    check_invariants(&live);
    for s in &snapshots {
        assert_eq!(replay(s, &w).entries(true), live);
    }
    for pair in live.windows(2) {
        assert!(pair[0].path < pair[1].path);
    }
}

#[test]
fn test_random_worktree_operations_during_initial_scan() {
    for seed in 0..20 {
        random_mutations(seed, 20);
    }
}

#[test]
fn test_random_worktree_changes() {
    for seed in 100..140 {
        random_mutations(seed, 40);
    }
}

#[test]
fn test_rename_work_directory() {
    let mut w = Worktree::new();
    file(&mut w, "projects/project1/a");
    file(&mut w, "projects/project1/b");
    let git = dir(&mut w, "projects/project1/.git");
    let mut repo = Repository {
        work_directory: work_directory_for_dot_git(&git.path).unwrap(),
        statuses: vec![(p("a"), GitFileStatus::Modified), (p("b"), GitFileStatus::Added)],
        scan_id: w.scan_id(),
    };
    assert_eq!(show(&repo.work_directory), "projects/project1");
    assert_eq!(repo.status_for_file(&p("projects/project1/a")), Some(GitFileStatus::Modified));
    assert_eq!(repo.status_for_file(&p("projects/project1/b")), Some(GitFileStatus::Added));

    let project = w.snapshot().entry_for_path(&p("projects/project1")).unwrap();
    w.rename_entry(project.id, &p("projects/project2")).unwrap();
    let found: Vec<String> = work_directories(&w.snapshot()).iter().map(show).collect();
    assert_eq!(found, vec!["projects/project2"]);
    repo.follow_rename(&p("projects/project1"), &p("projects/project2"));
    assert_eq!(show(&repo.work_directory), "projects/project2");
    assert_eq!(repo.status_for_file(&p("projects/project2/a")), Some(GitFileStatus::Modified));
    assert_eq!(repo.status_for_file(&p("projects/project2/b")), Some(GitFileStatus::Added));
    assert_eq!(
        w.snapshot().entry_for_path(&p("projects/project2")).unwrap().id,
        project.id
    );
}

fn repositories(s: &Snapshot) -> Vec<Repository> {
    work_directories(s)
        .into_iter()
        .map(|work_directory| Repository { work_directory, statuses: vec![], scan_id: 0 })
        .collect()
}

#[test]
fn test_git_repository_for_path() {
    let mut w = Worktree::new();
    file(&mut w, "c.txt");
    dir(&mut w, "dir1/.git");
    dir(&mut w, "dir1/deps/dep1/.git");
    file(&mut w, "dir1/deps/dep1/src/a.txt");
    file(&mut w, "dir1/src/b.txt");
    let s = w.snapshot();
    let repos = repositories(&s);
    assert!(repository_for_path(&repos, &p("c.txt")).is_none());
    let i = repository_for_path(&repos, &p("dir1/src/b.txt")).unwrap();
    assert_eq!(show(&repos[i].work_directory), "dir1");
    let i = repository_for_path(&repos, &p("dir1/deps/dep1/src/a.txt")).unwrap();
    assert_eq!(show(&repos[i].work_directory), "dir1/deps/dep1");

    let with_repos: Vec<(String, Option<String>)> = s
        .files(false, 0)
        .iter()
        .map(|e| {
            let repo = repository_for_path(&repos, &e.path);
            (show(&e.path), repo.map(|i| show(&repos[i].work_directory)))
        })
        .collect();
    assert_eq!(
        with_repos,
        vec![
            ("c.txt".to_string(), None),
            ("dir1/deps/dep1/src/a.txt".to_string(), Some("dir1/deps/dep1".to_string())),
            ("dir1/src/b.txt".to_string(), Some("dir1".to_string())),
        ]
    );

    let git = s.entry_for_path(&p("dir1/.git")).unwrap();
    w.delete_entry(git.id).unwrap();
    let repos = repositories(&w.snapshot());
    assert!(repository_for_path(&repos, &p("dir1/src/b.txt")).is_none());
}

fn check_propagated_statuses(s: &Snapshot, expected: &[(&str, Option<GitFileStatus>)]) {
    let mut entries: Vec<Entry> =
        expected.iter().map(|(path, _)| s.entry_for_path(&p(path)).unwrap()).collect();
    propagate_git_statuses(s, &mut entries);
    let got: Vec<(String, Option<GitFileStatus>)> =
        entries.iter().map(|e| (show(&e.path), e.git_status)).collect();
    let want: Vec<(String, Option<GitFileStatus>)> =
        expected.iter().map(|(path, status)| (path.to_string(), *status)).collect();
    assert_eq!(got, want);
}

#[test]
fn test_propagate_git_statuses() {
    let mut w = Worktree::new();
    dir(&mut w, ".git");
    for f in [
        "a/b/c1.txt",
        "a/b/c2.txt",
        "a/d/e1.txt",
        "a/d/e2.txt",
        "a/d/e3.txt",
        "f/no-status.txt",
        "g/h1.txt",
        "g/h2.txt",
    ] {
        file(&mut w, f);
    }
    let repo = Repository {
        work_directory: p(""),
        statuses: vec![
            (p("a/b/c1.txt"), GitFileStatus::Added),
            (p("a/d/e2.txt"), GitFileStatus::Modified),
            (p("g/h2.txt"), GitFileStatus::Conflict),
        ],
        scan_id: 0,
    };
    w.set_git_statuses(&repo);
    let s = w.snapshot();

    check_propagated_statuses(
        &s,
        &[
            ("", Some(GitFileStatus::Conflict)),
            ("a", Some(GitFileStatus::Modified)),
            ("a/b", Some(GitFileStatus::Added)),
            ("a/b/c1.txt", Some(GitFileStatus::Added)),
            ("a/b/c2.txt", None),
            ("a/d", Some(GitFileStatus::Modified)),
            ("a/d/e2.txt", Some(GitFileStatus::Modified)),
            ("f", None),
            ("f/no-status.txt", None),
            ("g", Some(GitFileStatus::Conflict)),
            ("g/h2.txt", Some(GitFileStatus::Conflict)),
        ],
    );
    check_propagated_statuses(
        &s,
        &[
            ("a/b", Some(GitFileStatus::Added)),
            ("a/b/c1.txt", Some(GitFileStatus::Added)),
            ("a/b/c2.txt", None),
            ("a/d", Some(GitFileStatus::Modified)),
            ("a/d/e1.txt", None),
            ("a/d/e2.txt", Some(GitFileStatus::Modified)),
            ("f", None),
            ("f/no-status.txt", None),
            ("g", Some(GitFileStatus::Conflict)),
        ],
    );
    check_propagated_statuses(
        &s,
        &[
            ("a/b/c1.txt", Some(GitFileStatus::Added)),
            ("a/b/c2.txt", None),
            ("a/d/e1.txt", None),
            ("a/d/e2.txt", Some(GitFileStatus::Modified)),
            ("f/no-status.txt", None),
        ],
    );
}

#[test]
fn create_entry_errors() {
    let mut w = Worktree::new();
    assert_eq!(w.create_entry(&p(""), true, 0, 0), Err(WorktreeError::InvalidPath));
    file(&mut w, "x/y");
    assert_eq!(w.create_entry(&p("x/y"), false, 0, 0), Err(WorktreeError::AlreadyExists));
    assert_eq!(w.create_entry(&p("x/y"), true, 0, 0), Err(WorktreeError::AlreadyExists));
    assert_eq!(w.create_entry(&p("x/y/z"), false, 0, 0), Err(WorktreeError::InvalidPath));
    let before = w.scan_id();
    let existing = w.create_entry(&p("x"), true, 0, 0).unwrap();
    assert_eq!(show(&existing.path), "x");
    assert_eq!(w.scan_id(), before);
}

#[test]
fn create_entry_allocates_fresh_ids_for_missing_ancestors() {
    let mut w = Worktree::new();
    let e = file(&mut w, "a/b/c");
    // root, a and a/b come first
    assert_eq!(e.id, 4);
    let s = w.snapshot();
    let ids: Vec<u64> = s.entries(true).iter().map(|e| e.id).collect();
    assert_eq!(ids, vec![1, 2, 3, 4]);
    assert_eq!(w.scan_id(), 1);
    let f = file(&mut w, "a/d");
    assert_eq!(f.id, 5);
    assert_eq!(w.scan_id(), 2);
}

#[test]
fn delete_and_rename_errors() {
    let mut w = Worktree::new();
    let a = dir(&mut w, "a");
    let b = file(&mut w, "a/b");
    file(&mut w, "c");
    assert_eq!(w.delete_entry(999), Err(WorktreeError::NotFound));
    let root = w.snapshot().entry_for_path(&p("")).unwrap();
    assert_eq!(w.delete_entry(root.id), Err(WorktreeError::InvalidPath));
    assert_eq!(w.rename_entry(999, &p("z")), Err(WorktreeError::NotFound));
    assert_eq!(w.rename_entry(a.id, &p("a/inner")), Err(WorktreeError::InvalidPath));
    assert_eq!(w.rename_entry(b.id, &p("c")), Err(WorktreeError::AlreadyExists));
    let gone = w.delete_entry(a.id).unwrap();
    assert_eq!(names(&gone), vec!["a", "a/b"]);
    assert_eq!(names(&w.snapshot().entries(true)), vec!["", "c"]);
}

#[test]
fn rename_moves_subtree_and_keeps_ids() {
    let mut w = Worktree::new();
    let a = dir(&mut w, "a");
    let b = file(&mut w, "a/b");
    let c = file(&mut w, "a/sub/c");
    w.rename_entry(a.id, &p("z")).unwrap();
    let s = w.snapshot();
    assert_eq!(names(&s.entries(true)), vec!["", "z", "z/b", "z/sub", "z/sub/c"]);
    assert_eq!(s.entry_for_path(&p("z")).unwrap().id, a.id);
    assert_eq!(s.entry_for_path(&p("z/b")).unwrap().id, b.id);
    assert_eq!(s.entry_for_path(&p("z/sub/c")).unwrap().id, c.id);
}

#[test]
fn rename_into_ignored_directory_updates_ignore_status() {
    let mut w = Worktree::new();
    ignore_rules(&mut w, "", "build\n");
    let x = file(&mut w, "src/x");
    dir(&mut w, "build");
    assert!(!x.is_ignored);
    w.rename_entry(x.id, &p("build/x")).unwrap();
    assert!(w.snapshot().entry_for_path(&p("build/x")).unwrap().is_ignored);
}

#[test]
fn ignore_patterns_parse_and_match() {
    let f = parse_ignore_file(&p(""), &b"# comment\n\n/top\n**/target\nlogs/\nx/*/y\n".to_vec());
    assert_eq!(f.patterns.len(), 4);
    assert!(f.patterns[0].anchored);
    assert_eq!(show(&f.patterns[0].components), "top");
    assert!(!f.patterns[1].anchored);
    assert_eq!(show(&f.patterns[1].components), "target");
    assert!(!f.patterns[2].anchored);
    assert_eq!(show(&f.patterns[2].components), "logs");
    assert!(f.patterns[3].anchored);
    assert!(f.ignores(&p("top/a")));
    assert!(!f.ignores(&p("a/top")));
    assert!(f.ignores(&p("a/b/target/c")));
    assert!(f.ignores(&p("q/logs")));
    assert!(f.ignores(&p("x/any/y/z")));
    assert!(!f.ignores(&p("x/y")));
    let nested = parse_ignore_file(&p("sub"), &b"tmp\n".to_vec());
    assert!(nested.ignores(&p("sub/tmp")));
    assert!(!nested.ignores(&p("tmp")));
}

#[test]
fn refresh_after_pattern_change() {
    let mut w = Worktree::new();
    file(&mut w, "keep/a");
    file(&mut w, "drop/b");
    file(&mut w, "drop/c");
    assert!(w.snapshot().entries(false).len() == 6);
    let before = w.snapshot();
    w.set_tracked_paths(vec![p("drop/c")]);
    ignore_rules(&mut w, "", "drop\n");
    let s = w.snapshot();
    assert!(s.entry_for_path(&p("drop")).unwrap().is_ignored);
    assert!(s.entry_for_path(&p("drop/b")).unwrap().is_ignored);
    assert!(!s.entry_for_path(&p("drop/c")).unwrap().is_ignored);
    assert!(!s.entry_for_path(&p("keep/a")).unwrap().is_ignored);
    assert_eq!(names(&s.entries(false)), vec!["", "drop/c", "keep", "keep/a"]);
    assert_eq!(replay(&before, &w).entries(true), s.entries(true));
}

#[test]
fn stale_envelope_is_a_no_op() {
    let mut w = Worktree::new();
    file(&mut w, "a");
    let updates = w.updates();
    file(&mut w, "b");
    let mut s = w.snapshot();
    let listed = s.entries(true);
    s.apply_remote_update(&updates[0]);
    assert_eq!(s.entries(true), listed);
    assert_eq!(s.scan_id(), 2);
}

#[test]
fn files_skip_directories_and_start_at_index() {
    let mut w = Worktree::new();
    file(&mut w, "a/x");
    file(&mut w, "b");
    file(&mut w, "c/y");
    let s = w.snapshot();
    assert_eq!(names(&s.files(true, 0)), vec!["a/x", "b", "c/y"]);
    assert_eq!(names(&s.files(true, 1)), vec!["b", "c/y"]);
    assert!(s.files(true, 5).is_empty());
}

#[test]
fn component_order_puts_parent_before_children() {
    let mut w = Worktree::new();
    file(&mut w, "a-b");
    file(&mut w, "a/b");
    file(&mut w, "a/c");
    file(&mut w, "ab");
    assert_eq!(names(&w.snapshot().entries(true)), vec!["", "a", "a/b", "a/c", "a-b", "ab"]);
}

#[test]
fn dot_git_is_ignored_and_names_its_work_directory() {
    let mut w = Worktree::new();
    file(&mut w, "r/.git/HEAD");
    let s = w.snapshot();
    assert!(s.entry_for_path(&p("r/.git")).unwrap().is_ignored);
    assert!(s.entry_for_path(&p("r/.git/HEAD")).unwrap().is_ignored);
    assert!(!s.entry_for_path(&p("r")).unwrap().is_ignored);
    assert_eq!(show(&work_directory_for_dot_git(&p("r/.git")).unwrap()), "r");
    assert!(work_directory_for_dot_git(&p("r/git")).is_none());
    assert!(work_directory_for_dot_git(&p("")).is_none());
}

#[test]
fn propagation_takes_maximum_status() {
    let mut w = Worktree::new();
    file(&mut w, "d/x");
    file(&mut w, "d/y");
    file(&mut w, "d/z");
    let repo = Repository {
        work_directory: p("d"),
        statuses: vec![
            (p("x"), GitFileStatus::Added),
            (p("y"), GitFileStatus::Conflict),
            (p("z"), GitFileStatus::Modified),
        ],
        scan_id: 0,
    };
    w.set_git_statuses(&repo);
    let s = w.snapshot();
    assert_eq!(s.entry_for_path(&p("d/y")).unwrap().git_status, Some(GitFileStatus::Conflict));
    check_propagated_statuses(&s, &[("d", Some(GitFileStatus::Conflict)), ("", Some(GitFileStatus::Conflict))]);
    assert_eq!(repo.status_for_file(&p("x")), None);
}

fn stat(kind: EntryKind, inode: u64, mtime: u64) -> Option<Metadata> {
    Some(Metadata { kind, inode, mtime, is_external: false })
}

#[test]
fn reconcile_reports_each_kind_of_change() {
    let mut w = Worktree::new();
    let (c, loaded) = w.reconcile(&p("a/b"), stat(EntryKind::File, 5, 1), true).unwrap().unwrap();
    assert_eq!(c, PathChange::Loaded);
    assert_eq!(names(&loaded), vec!["a/b"]);
    let loaded = &loaded[0];
    assert_eq!(names(&w.snapshot().entries(true)), vec!["", "a", "a/b"]);
    let scan = w.scan_id();
    assert!(w.reconcile(&p("a/b"), stat(EntryKind::File, 5, 1), false).unwrap().is_none());
    assert_eq!(w.scan_id(), scan);
    let (c, updated) = w.reconcile(&p("a/b"), stat(EntryKind::File, 5, 2), false).unwrap().unwrap();
    assert_eq!(c, PathChange::Updated);
    assert_eq!(updated[0].id, loaded.id);
    assert_eq!(updated[0].mtime, 2);
    let (c, replaced) = w.reconcile(&p("a/b"), stat(EntryKind::Directory, 6, 2), false).unwrap().unwrap();
    assert_eq!(c, PathChange::Added);
    assert_ne!(replaced[0].id, loaded.id);
    assert_eq!(w.snapshot().entry_for_path(&p("a/b")).unwrap().kind, EntryKind::Directory);
    let (c, removed) = w.reconcile(&p("a"), None, false).unwrap().unwrap();
    assert_eq!(c, PathChange::Removed);
    assert_eq!(names(&removed), vec!["a", "a/b"]);
    assert_eq!(names(&w.snapshot().entries(true)), vec![""]);
    assert!(w.reconcile(&p("a"), None, false).unwrap().is_none());
    assert_eq!(w.reconcile(&p(""), None, false), Err(WorktreeError::InvalidPath));
    let (c, _) = w.reconcile(&p("n"), stat(EntryKind::File, 9, 0), false).unwrap().unwrap();
    assert_eq!(c, PathChange::Added);
}

#[test]
fn inode_match_turns_remove_and_add_into_rename() {
    let mut w = Worktree::new();
    let x = w.create_entry(&p("x"), true, 10, 0).unwrap();
    let child = file(&mut w, "x/f");
    let md = Metadata { kind: EntryKind::Directory, inode: 11, mtime: 0, is_external: false };
    assert!(!w.reconcile_move(&p("x"), &p("y"), md));
    let md = Metadata { kind: EntryKind::Directory, inode: 10, mtime: 0, is_external: false };
    assert!(!w.reconcile_move(&p("x"), &p("x/inner"), md));
    assert!(!w.reconcile_move(&p("gone"), &p("y"), md));
    assert!(w.reconcile_move(&p("x"), &p("y"), md));
    let s = w.snapshot();
    assert_eq!(names(&s.entries(true)), vec!["", "y", "y/f"]);
    assert_eq!(s.entry_for_path(&p("y")).unwrap().id, x.id);
    assert_eq!(s.entry_for_path(&p("y/f")).unwrap().id, child.id);
}

#[test]
fn removing_a_pattern_file_makes_entries_visible_after_refresh() {
    let mut w = Worktree::new();
    ignore_rules(&mut w, "", "out\n");
    file(&mut w, "out/x");
    assert!(w.snapshot().entry_for_path(&p("out/x")).unwrap().is_ignored);
    w.remove_ignore_file(&p(""));
    assert!(!w.snapshot().entry_for_path(&p("out/x")).unwrap().is_ignored);
    assert_eq!(names(&w.snapshot().entries(false)), vec!["", "out", "out/x"]);
}

#[test]
fn rename_needs_an_existing_parent_directory() {
    let mut w = Worktree::new();
    let a = file(&mut w, "a");
    file(&mut w, "f");
    assert_eq!(w.rename_entry(a.id, &p("x/y")), Err(WorktreeError::InvalidPath));
    assert_eq!(w.rename_entry(a.id, &p("f/y")), Err(WorktreeError::InvalidPath));
    assert_eq!(w.rename_entry(a.id, &p("")), Err(WorktreeError::InvalidPath));
    assert_eq!(w.rename_entry(a.id, &p("a")), Err(WorktreeError::InvalidPath));
    dir(&mut w, "x");
    w.rename_entry(a.id, &p("x/y")).unwrap();
    assert_eq!(names(&w.snapshot().entries(true)), vec!["", "f", "x", "x/y"]);
}

#[test]
fn tracked_file_stays_visible_when_written() {
    let mut w = Worktree::new();
    ignore_rules(&mut w, "", "build\n");
    w.set_tracked_paths(vec![p("build/keep")]);
    let e = file(&mut w, "build/keep");
    assert!(!e.is_ignored);
    let e = w.write_file(&p("build/keep"), 3, 4).unwrap();
    assert!(!e.is_ignored);
    assert!(w.snapshot().entry_for_path(&p("build")).unwrap().is_ignored);
    let before = w.snapshot();
    w.set_tracked_paths(vec![]);
    assert!(w.snapshot().entry_for_path(&p("build/keep")).unwrap().is_ignored);
    assert_eq!(replay(&before, &w).entries(true), w.snapshot().entries(true));
}

#[test]
fn move_over_an_existing_directory_replaces_it() {
    let mut w = Worktree::new();
    let src = w.create_entry(&p("src"), true, 20, 0).unwrap();
    let inner = file(&mut w, "src/f");
    dir(&mut w, "dst");
    file(&mut w, "dst/old");
    let before = w.snapshot();
    let md = Metadata { kind: EntryKind::Directory, inode: 20, mtime: 0, is_external: false };
    assert!(!w.reconcile_move(&p("src"), &p("src/x"), md));
    assert!(w.reconcile_move(&p("src"), &p("dst"), md));
    let s = w.snapshot();
    assert_eq!(names(&s.entries(true)), vec!["", "dst", "dst/f"]);
    assert_eq!(s.entry_for_path(&p("dst")).unwrap().id, src.id);
    assert_eq!(s.entry_for_path(&p("dst/f")).unwrap().id, inner.id);
    assert_eq!(replay(&before, &w).entries(true), s.entries(true));
    file(&mut w, "g");
    assert!(!w.reconcile_move(&p("dst"), &p("g"), md));
}

#[test]
fn pair_moves_matches_inodes_once() {
    let pairs = pair_moves(&vec![5, 7, 5], &vec![7, 5, 5, 9]);
    assert_eq!(pairs, vec![(1, 0), (0, 1), (2, 2)]);
    assert!(pair_moves(&vec![1], &vec![2]).is_empty());
    assert!(pair_moves(&vec![], &vec![2]).is_empty());
}

#[test]
fn new_worktree_holds_the_root_directory() {
    let w = Worktree::new();
    let s = w.snapshot();
    assert_eq!(names(&s.entries(true)), vec![""]);
    let root = s.entry_for_path(&p("")).unwrap();
    assert!(root.is_dir());
    assert_eq!(root.id, 1);
    assert_eq!(w.scan_id(), 0);
}
