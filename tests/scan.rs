use zombie_sweep::cleaner::{freed_space, total_size};
use zombie_sweep::kinds::target_name_for;
use zombie_sweep::paths::{contains_or_is, strictly_contains};
use zombie_sweep::scanner::{dir_size, is_old_enough, scan, Entry, EntryKind, Scanner, ZombieDir};
use zombie_sweep::selection::{resolve_selection, SelectItem};

const DAY: u64 = 86400;
const OLD: Option<u64> = Some(90 * DAY);
const NEW: Option<u64> = Some(3 * DAY);

fn path(p: &str) -> Vec<String> {
    p.split('/').map(|s| s.to_string()).collect()
}

fn dir(p: &str, age: Option<u64>) -> Entry {
    Entry { path: path(p), kind: EntryKind::Dir, len: 4096, age_secs: age }
}

fn file(p: &str, len: u64) -> Entry {
    Entry { path: path(p), kind: EntryKind::File, len, age_secs: OLD }
}

fn paths_of(zs: &[ZombieDir]) -> Vec<String> {
    let mut v: Vec<String> = zs.iter().map(|z| z.path.join("/")).collect();
    v.sort();
    v
}

fn zombie(p: &str, size: u64) -> ZombieDir {
    ZombieDir { path: path(p), size }
}

#[test]
fn size_of_nested_files() {
    let es = vec![
        dir("root", OLD),
        dir("root/target", OLD),
        dir("root/target/a", OLD),
        file("root/target/a/one", 100),
        dir("root/target/a/b", OLD),
        file("root/target/a/b/two", 250),
        file("root/target/a/b/three", 4096),
    ];
    let r = scan(&es, 60, "target");
    assert_eq!(r.len(), 1);
    assert_eq!(r[0].path, path("root/target"));
    assert_eq!(r[0].size, 4446);
}

#[test]
fn dir_size_counts_regular_files_only() {
    let es = vec![
        dir("root/d", OLD),
        file("root/d/f", 10),
        Entry { path: path("root/d/link"), kind: EntryKind::Symlink, len: 999, age_secs: OLD },
        dir("root/d/sub", OLD),
        file("root/d/sub/g", 5),
        file("root/other", 1000),
        file("root/d", 7),
    ];
    assert_eq!(dir_size(&es, &path("root/d")), 15);
    assert_eq!(dir_size(&es, &path("root/none")), 0);
}

#[test]
fn dir_size_saturates() {
    let es = vec![file("d/a", u64::MAX), file("d/b", 3)];
    assert_eq!(dir_size(&es, &path("d")), u64::MAX);
}

#[test]
fn age_boundary() {
    assert!(is_old_enough(Some(60 * DAY), 60));
    assert!(!is_old_enough(Some(60 * DAY - 1), 60));
    assert!(!is_old_enough(None, 0));
    assert!(is_old_enough(Some(DAY - 1), 0));
    assert!(!is_old_enough(Some(DAY - 1), 1));
}

#[test]
fn age_boundary_in_scan() {
    let es = vec![dir("root", OLD), dir("root/a/target", Some(60 * DAY)), dir("root/b/target", Some(60 * DAY - 1))];
    let r = scan(&es, 60, "target");
    assert_eq!(paths_of(&r), vec!["root/a/target".to_string()]);
}

#[test]
fn suppressed_descent() {
    let es = vec![
        dir("root", OLD),
        dir("root/a", OLD),
        dir("root/a/target", OLD),
        dir("root/a/target/target", OLD),
        file("root/a/target/target/x", 8),
    ];
    let r = scan(&es, 60, "target");
    assert_eq!(paths_of(&r), vec!["root/a/target".to_string()]);
    assert_eq!(r[0].size, 8);
}

#[test]
fn independent_siblings() {
    let es = vec![
        dir("root", OLD),
        dir("root/x", OLD),
        dir("root/x/target", NEW),
        dir("root/x/target/target", OLD),
        file("root/x/target/target/f", 12),
        file("root/x/target/g", 30),
    ];
    let r = scan(&es, 60, "target");
    assert_eq!(paths_of(&r), vec!["root/x/target/target".to_string()]);
    assert_eq!(r[0].size, 12);
}

#[test]
fn unreadable_age_does_not_qualify() {
    let es = vec![dir("root/target", None)];
    assert!(scan(&es, 0, "target").is_empty());
}

fn tree() -> Vec<Entry> {
    vec![
        dir("r", OLD),
        dir("r/p", OLD),
        dir("r/p/node_modules", OLD),
        file("r/p/node_modules/a.js", 10),
        dir("r/p/node_modules/dep", OLD),
        dir("r/p/node_modules/dep/node_modules", OLD),
        file("r/p/node_modules/dep/node_modules/b.js", 20),
        dir("r/q", OLD),
        dir("r/q/node_modules", NEW),
        dir("r/q/node_modules/x", OLD),
        dir("r/q/node_modules/x/node_modules", OLD),
        file("r/q/node_modules/x/node_modules/c.js", 40),
        dir("r/s/node_modules", OLD),
    ]
}

#[test]
fn no_match_within_another() {
    let r = scan(&tree(), 60, "node_modules");
    for (i, a) in r.iter().enumerate() {
        for (j, b) in r.iter().enumerate() {
            if i != j {
                assert!(!contains_or_is(&a.path, &b.path));
            }
        }
    }
    assert_eq!(
        paths_of(&r),
        vec![
            "r/p/node_modules".to_string(),
            "r/q/node_modules/x/node_modules".to_string(),
            "r/s/node_modules".to_string(),
        ]
    );
    assert_eq!(total_size(&r), 30 + 40);
}

#[test]
fn scanning_twice_gives_the_same_matches() {
    let es = tree();
    let a = scan(&es, 60, "node_modules");
    let b = scan(&es, 60, "node_modules");
    assert_eq!(paths_of(&a), paths_of(&b));
    // another walk order that still lists each directory before its contents
    let mut other = es.clone();
    let s = other.pop().unwrap();
    other.insert(1, s);
    let q: Vec<Entry> = other.iter().filter(|e| e.path.get(1).map(|c| c == "q").unwrap_or(false)).cloned().collect();
    let mut reordered: Vec<Entry> = other.iter().filter(|e| e.path.get(1).map(|c| c != "q").unwrap_or(true)).cloned().collect();
    reordered.splice(1..1, q);
    let c = scan(&reordered, 60, "node_modules");
    assert_eq!(paths_of(&a), paths_of(&c));
    let mut sa: Vec<u64> = a.iter().map(|z| z.size).collect();
    let mut sc: Vec<u64> = c.iter().map(|z| z.size).collect();
    sa.sort();
    sc.sort();
    assert_eq!(sa, sc);
}

#[test]
fn empty_tree() {
    let es = vec![dir("root", OLD), dir("root/src", OLD), file("root/src/main.rs", 100)];
    assert!(scan(&es, 60, "target").is_empty());
    assert!(scan(&Vec::new(), 0, "target").is_empty());
}

#[test]
fn name_is_exact_and_case_sensitive() {
    let es = vec![
        dir("root/Target", OLD),
        dir("root/targets", OLD),
        file("root/target", 5),
        Entry { path: path("root/b/target"), kind: EntryKind::Symlink, len: 0, age_secs: OLD },
    ];
    assert!(scan(&es, 0, "target").is_empty());
}

#[test]
fn scanner_step_by_step() {
    let mut sc = Scanner::new("target".to_string(), 60);
    let outer = path("w/target");
    assert!(sc.wants(&outer, EntryKind::Dir));
    assert!(!sc.wants(&outer, EntryKind::File));
    assert!(sc.record(outer.clone(), EntryKind::Dir, Some(61 * DAY), 77));
    assert!(!sc.wants(&path("w/target/target"), EntryKind::Dir));
    assert!(!sc.record(path("w/target/target"), EntryKind::Dir, Some(61 * DAY), 5));
    assert!(!sc.record(outer.clone(), EntryKind::Dir, Some(61 * DAY), 5));
    assert!(!sc.record(path("v/target"), EntryKind::Dir, Some(59 * DAY), 5));
    assert!(sc.wants(&path("v/target"), EntryKind::Dir));
    let r = sc.into_matches();
    assert_eq!(r.len(), 1);
    assert_eq!(r[0].path, outer);
    assert_eq!(r[0].size, 77);
}

#[test]
fn ancestry() {
    assert!(strictly_contains(&path("a/b"), &path("a/b/c")));
    assert!(!strictly_contains(&path("a/b"), &path("a/b")));
    assert!(!strictly_contains(&path("a/b"), &path("a/bc")));
    assert!(!strictly_contains(&path("a/b/c"), &path("a/b")));
    assert!(contains_or_is(&path("a/b"), &path("a/b")));
    assert!(contains_or_is(&path("a"), &path("a/b")));
    assert!(!contains_or_is(&path("a/c"), &path("a/b")));
}

#[test]
fn project_types() {
    assert_eq!(target_name_for("node"), Some("node_modules".to_string()));
    assert_eq!(target_name_for("npm"), Some("node_modules".to_string()));
    assert_eq!(target_name_for("cargo"), Some("target".to_string()));
    assert_eq!(target_name_for("rust"), Some("target".to_string()));
    assert_eq!(target_name_for("python"), Some("__pycache__".to_string()));
    assert_eq!(target_name_for("java"), None);
    assert_eq!(target_name_for("Node"), None);
    assert_eq!(target_name_for(""), None);
}

#[test]
fn totals() {
    let zs = vec![zombie("a", 100), zombie("b", 250), zombie("c", 4096)];
    assert_eq!(total_size(&zs), 4446);
    assert_eq!(total_size(&Vec::new()), 0);
    assert_eq!(freed_space(&zs, &vec![true, false, true]), 4196);
    assert_eq!(freed_space(&zs, &vec![false, false, false]), 0);
    assert_eq!(total_size(&vec![zombie("a", u64::MAX), zombie("b", 1)]), u64::MAX);
}

#[test]
fn selection() {
    let all = vec![zombie("a", 1), zombie("b", 2), zombie("c", 3)];
    let picked = vec![SelectItem::Directory(zombie("c", 3)), SelectItem::Directory(zombie("a", 1))];
    let r = resolve_selection(all.clone(), picked);
    assert_eq!(paths_of(&r), vec!["a".to_string(), "c".to_string()]);
    assert_eq!(r[0].path, path("c"));
    let r = resolve_selection(all.clone(), vec![SelectItem::Directory(zombie("b", 2)), SelectItem::SelectAll]);
    assert_eq!(r.len(), 3);
    let r = resolve_selection(all, vec![]);
    assert!(r.is_empty());
}
