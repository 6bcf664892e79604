use dirscan::aggregate::{aggregate_by_directory, AggregateRecord};
use dirscan::tree::file_tree;
use dirscan::path::{compare_bytes, compare_paths, path_text};
use dirscan::report::{file_records, largest_files, sort_records, top_records, SortKey};
use dirscan::scan::{
    check_root, contains_name, count_files_and_dirs, extension_of, is_excluded_dir, DirEntryInfo,
    EntryKind, FileEntry, PreconditionError, ScanConfig, Scanner,
};

fn b(s: &str) -> Vec<u8> {
    s.as_bytes().to_vec()
}

fn p(s: &str) -> Vec<Vec<u8>> {
    if s.is_empty() {
        Vec::new()
    } else {
        s.split('/').map(b).collect()
    }
}

fn text(v: &Vec<Vec<u8>>) -> String {
    String::from_utf8(path_text(v)).unwrap()
}

fn file(name: &str, size: u64) -> DirEntryInfo {
    DirEntryInfo { name: b(name), kind: EntryKind::File, size }
}

fn dir(name: &str) -> DirEntryInfo {
    DirEntryInfo { name: b(name), kind: EntryKind::Directory, size: 0 }
}

/// The sample tree: a/x.ts (10), a/y.tsx (20), node_modules/z.ts (999), b/.
fn listing_of(d: &str) -> Vec<DirEntryInfo> {
    match d {
        "" => vec![dir("a"), dir("node_modules"), dir("b")],
        "a" => vec![file("y.tsx", 20), file("x.ts", 10)],
        "node_modules" => vec![file("z.ts", 999)],
        _ => vec![],
    }
}

fn walk(config: ScanConfig) -> (Vec<FileEntry>, Vec<String>) {
    let mut s = Scanner::new(config);
    let mut visited = Vec::new();
    while let Some(d) = s.next_dir() {
        let name = text(&d);
        let l = listing_of(&name);
        s.visit(&d, &l);
        visited.push(name);
    }
    assert!(s.is_done());
    (s.found, visited)
}

fn finder_config() -> ScanConfig {
    ScanConfig { extensions: Some(vec![b("ts"), b("tsx")]), excluded: vec![b("node_modules")] }
}

#[test]
fn finder_scenario_excludes_node_modules() {
    let (found, visited) = walk(finder_config());
    assert!(!visited.contains(&"node_modules".to_string()));
    let sorted = sort_records(file_records(&found), SortKey::Path);
    let names: Vec<String> = sorted.iter().map(|r| text(&r.path)).collect();
    assert_eq!(names, vec!["a/x.ts".to_string(), "a/y.tsx".to_string()]);
}

#[test]
fn disk_usage_scenario_with_exclusion() {
    let config = ScanConfig { extensions: None, excluded: vec![b("node_modules")] };
    let (found, _) = walk(config);
    let recs = aggregate_by_directory(&found);
    assert_eq!(recs.len(), 1);
    assert_eq!(text(&recs[0].path), "a");
    assert_eq!(recs[0].file_count, 2);
    assert_eq!(recs[0].total_size, 30);
    let total: u64 = found.iter().map(|f| f.size).sum();
    assert_eq!(total, 30);
    let pct = recs[0].total_size as f64 / total as f64 * 100.0;
    assert!((pct - 100.0).abs() < 1e-9);
}

#[test]
fn disk_usage_scenario_without_exclusion() {
    let config = ScanConfig { extensions: None, excluded: vec![] };
    let (found, _) = walk(config);
    let recs = sort_records(aggregate_by_directory(&found), SortKey::Path);
    let rows: Vec<(String, u64, u64)> =
        recs.iter().map(|r| (text(&r.path), r.file_count, r.total_size)).collect();
    assert_eq!(rows, vec![("a".to_string(), 2, 30), ("node_modules".to_string(), 1, 999)]);
    let total: u64 = recs.iter().map(|r| r.total_size).sum();
    assert_eq!(total, 1029);
}

#[test]
fn missing_root_is_a_precondition_error() {
    assert_eq!(check_root(false, false), Err(PreconditionError::RootMissing));
    assert_eq!(check_root(true, false), Err(PreconditionError::RootNotDirectory));
    assert_eq!(check_root(true, true), Ok(()));
}

#[test]
fn found_set_does_not_depend_on_listing_order() {
    let config = finder_config();
    let mut s1 = Scanner::new(ScanConfig { extensions: config.extensions.clone(), excluded: config.excluded.clone() });
    let mut s2 = Scanner::new(config);
    let root = s1.next_dir().unwrap();
    assert_eq!(s2.next_dir(), Some(Vec::new()));
    let l1 = vec![file("b.ts", 1), file("a.tsx", 2), file("c.rs", 3), dir("src")];
    let l2 = vec![dir("src"), file("c.rs", 3), file("a.tsx", 2), file("b.ts", 1)];
    s1.visit(&root, &l1);
    s2.visit(&root, &l2);
    let mut k1: Vec<String> = s1.found.iter().map(|f| text(&f.path)).collect();
    let mut k2: Vec<String> = s2.found.iter().map(|f| text(&f.path)).collect();
    k1.sort();
    k2.sort();
    assert_eq!(k1, vec!["a.tsx".to_string(), "b.ts".to_string()]);
    assert_eq!(k1, k2);
    assert_eq!(s1.pending.len(), 1);
    assert_eq!(text(&s1.pending[0]), "src");
    assert_eq!(s1.pending, s2.pending);
}

#[test]
fn size_is_conserved_by_aggregation() {
    let files = vec![
        FileEntry { path: p("a/x"), size: 5 },
        FileEntry { path: p("a/b/y"), size: 7 },
        FileEntry { path: p("top"), size: 11 },
        FileEntry { path: p("a/z"), size: 13 },
    ];
    let recs = aggregate_by_directory(&files);
    let sum: u64 = recs.iter().map(|r| r.total_size).sum();
    assert_eq!(sum, 36);
    let count: u64 = recs.iter().map(|r| r.file_count).sum();
    assert_eq!(count, 4);
    let sorted = sort_records(recs, SortKey::Path);
    let rows: Vec<(String, u64, u64)> =
        sorted.iter().map(|r| (text(&r.path), r.file_count, r.total_size)).collect();
    assert_eq!(
        rows,
        vec![("".to_string(), 1, 11), ("a".to_string(), 2, 18), ("a/b".to_string(), 1, 7)]
    );
}

fn rec(path: &str, count: u64, size: u64) -> AggregateRecord {
    AggregateRecord { path: p(path), file_count: count, total_size: size }
}

fn sample() -> Vec<AggregateRecord> {
    vec![rec("c", 1, 50), rec("a", 3, 50), rec("b", 3, 70), rec("a/b", 2, 10)]
}

fn keys(v: &Vec<AggregateRecord>) -> Vec<String> {
    v.iter().map(|r| text(&r.path)).collect()
}

#[test]
fn sort_orders_with_tie_break_on_path() {
    assert_eq!(keys(&sort_records(sample(), SortKey::Path)), vec!["a", "a/b", "b", "c"]);
    assert_eq!(keys(&sort_records(sample(), SortKey::Size)), vec!["b", "a", "c", "a/b"]);
    assert_eq!(keys(&sort_records(sample(), SortKey::Count)), vec!["a", "b", "a/b", "c"]);
}

#[test]
fn sorting_twice_gives_the_same_result() {
    for key in [SortKey::Path, SortKey::Size, SortKey::Count] {
        let once = sort_records(sample(), key);
        let k1 = keys(&once);
        let twice = sort_records(once, key);
        assert_eq!(k1, keys(&twice));
    }
}

#[test]
fn paths_compare_by_component() {
    assert_eq!(compare_paths(&p("a/b"), &p("a-b")), -1);
    assert_eq!(compare_paths(&p("a"), &p("a/b")), -1);
    assert_eq!(compare_paths(&p("b"), &p("a/z")), 1);
    assert_eq!(compare_paths(&p("a/b"), &p("a/b")), 0);
    assert_eq!(compare_bytes(&b("abc"), &b("abd")), -1);
    assert_eq!(compare_bytes(&b("ab"), &b("a")), 1);
    assert_eq!(compare_bytes(&b(""), &b("")), 0);
}

#[test]
fn path_text_joins_components() {
    assert_eq!(text(&p("a/b/c.ts")), "a/b/c.ts");
    assert_eq!(text(&p("")), "");
}

#[test]
fn extensions_follow_the_last_dot() {
    assert_eq!(extension_of(&b("x.ts")), Some(b("ts")));
    assert_eq!(extension_of(&b("a.b.tsx")), Some(b("tsx")));
    assert_eq!(extension_of(&b(".bashrc")), None);
    assert_eq!(extension_of(&b("Makefile")), None);
    assert_eq!(extension_of(&b("trail.")), Some(b("")));
}

#[test]
fn extension_filter_is_case_sensitive() {
    let mut s = Scanner::new(finder_config());
    let root = Vec::new();
    s.visit(&root, &vec![file("A.TS", 1), file("b.ts", 2), file("c.d.ts", 3), file("ts", 4)]);
    let k: Vec<String> = s.found.iter().map(|f| text(&f.path)).collect();
    assert_eq!(k, vec!["b.ts", "c.d.ts"]);
}

#[test]
fn excluded_names_match_exactly() {
    let c = finder_config();
    assert!(is_excluded_dir(&c, &b("node_modules")));
    assert!(!is_excluded_dir(&c, &b("node_modules2")));
    assert!(contains_name(&vec![b("x"), b("y")], &b("y")));
    assert!(!contains_name(&vec![], &b("y")));
}

#[test]
fn excluded_name_on_a_file_does_not_exclude_it() {
    let config = ScanConfig { extensions: None, excluded: vec![b("node_modules")] };
    let mut s = Scanner::new(config);
    let root = s.next_dir().unwrap();
    assert!(s.is_done());
    s.visit(&root, &vec![file("node_modules", 4), dir("node_modules"), dir("src")]);
    assert_eq!(s.found.len(), 1);
    assert_eq!(s.pending.len(), 1);
    assert_eq!(text(&s.pending[0]), "src");
}

#[test]
fn empty_tree_gives_no_records() {
    let (found, visited) = walk(ScanConfig { extensions: None, excluded: vec![b("a"), b("b"), b("node_modules")] });
    assert!(found.is_empty());
    assert_eq!(visited, vec![""]);
    assert!(aggregate_by_directory(&found).is_empty());
    assert!(largest_files(&found, 5).is_empty());
}

#[test]
fn largest_files_are_cut_at_the_limit() {
    let files = vec![
        FileEntry { path: p("s/small"), size: 1 },
        FileEntry { path: p("big"), size: 100 },
        FileEntry { path: p("m2"), size: 50 },
        FileEntry { path: p("m1"), size: 50 },
    ];
    let top = largest_files(&files, 3);
    let rows: Vec<(String, u64, u64)> =
        top.iter().map(|r| (text(&r.path), r.file_count, r.total_size)).collect();
    assert_eq!(
        rows,
        vec![("big".to_string(), 1, 100), ("m1".to_string(), 1, 50), ("m2".to_string(), 1, 50)]
    );
    assert_eq!(largest_files(&files, 10).len(), 4);
    assert_eq!(keys(&top_records(sample(), SortKey::Count, 2)), vec!["a", "b"]);
    assert!(top_records(sample(), SortKey::Path, 0).is_empty());
}

#[test]
fn counts_files_and_directories() {
    let kinds = vec![EntryKind::Directory, EntryKind::File, EntryKind::Other, EntryKind::File];
    assert_eq!(count_files_and_dirs(&kinds), (2, 1));
    assert_eq!(count_files_and_dirs(&vec![]), (0, 0));
}

#[test]
fn file_tree_groups_by_parent_in_path_order() {
    let files = vec![
        FileEntry { path: p("a/z.ts"), size: 1 },
        FileEntry { path: p("top.ts"), size: 2 },
        FileEntry { path: p("a/b/y.ts"), size: 3 },
        FileEntry { path: p("a/x.ts"), size: 4 },
    ];
    let groups = file_tree(&files);
    let shown: Vec<(String, Vec<String>)> = groups
        .iter()
        .map(|g| (text(&g.dir), g.files.iter().map(text).collect()))
        .collect();
    assert_eq!(
        shown,
        vec![
            ("".to_string(), vec!["top.ts".to_string()]),
            ("a".to_string(), vec!["a/x.ts".to_string(), "a/z.ts".to_string()]),
            ("a/b".to_string(), vec!["a/b/y.ts".to_string()]),
        ]
    );
    assert!(file_tree(&vec![]).is_empty());
}

#[test]
fn finder_scenario_as_a_tree() {
    let (found, _) = walk(finder_config());
    let groups = file_tree(&found);
    assert_eq!(groups.len(), 1);
    assert_eq!(text(&groups[0].dir), "a");
    let names: Vec<String> = groups[0].files.iter().map(text).collect();
    assert_eq!(names, vec!["a/x.ts", "a/y.tsx"]);
}

#[test]
fn breadth_first_and_depth_first_walks_find_the_same_files() {
    let config = ScanConfig { extensions: None, excluded: vec![b("skip")] };
    let tree = |d: &str| -> Vec<DirEntryInfo> {
        match d {
            "" => vec![dir("a"), file("r", 1), dir("skip"), dir("b")],
            "a" => vec![dir("c"), file("f", 2)],
            "a/c" => vec![file("g", 3)],
            "b" => vec![file("h", 4)],
            "skip" => vec![file("hidden", 5)],
            _ => vec![],
        }
    };
    let mut depth = Scanner::new(ScanConfig { extensions: None, excluded: config.excluded.clone() });
    while let Some(d) = depth.next_dir() {
        let l = tree(&text(&d));
        depth.visit(&d, &l);
    }
    let mut breadth = Scanner::new(config);
    let mut queue = std::collections::VecDeque::new();
    queue.push_back(breadth.next_dir().unwrap());
    while let Some(d) = queue.pop_front() {
        let l = tree(&text(&d));
        breadth.visit(&d, &l);
        while let Some(n) = breadth.next_dir() {
            queue.push_back(n);
        }
    }
    let mut k1: Vec<String> = depth.found.iter().map(|f| text(&f.path)).collect();
    let mut k2: Vec<String> = breadth.found.iter().map(|f| text(&f.path)).collect();
    k1.sort();
    k2.sort();
    assert_eq!(k1, vec!["a/c/g", "a/f", "b/h", "r"]);
    assert_eq!(k1, k2);
}

#[test]
fn zero_sized_files_give_zero_totals() {
    let files = vec![FileEntry { path: p("a/e"), size: 0 }, FileEntry { path: p("b/e"), size: 0 }];
    let recs = aggregate_by_directory(&files);
    assert_eq!(recs.len(), 2);
    assert!(recs.iter().all(|r| r.total_size == 0 && r.file_count == 1));
}
