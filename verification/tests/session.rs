use dircompare::group::{FileGroup, GroupStatus, Occurrence};
use dircompare::listing::{group_files, FoundFile};
use dircompare::session::App;
use dircompare::text::{normalize_separators, str_contains, str_less};

fn found(name: &str, rel: &str, size: u64) -> FoundFile {
    FoundFile { file_name: name.to_string(), rel_path: rel.to_string(), size }
}

fn names(gs: &[FileGroup]) -> Vec<String> {
    gs.iter().map(|g| g.name.clone()).collect()
}

fn paths(os: &[Occurrence]) -> Vec<(String, u64)> {
    os.iter().map(|o| (o.rel_path.clone(), o.size)).collect()
}

fn sample_a() -> Vec<FoundFile> {
    vec![
        found("b.txt", "b.txt", 10),
        found("a.txt", "sub\\a.txt", 5),
        found("b.txt", "x/y/b.txt", 10),
        found("only_a.bin", "only_a.bin", 7),
    ]
}

fn sample_b() -> Vec<FoundFile> {
    vec![
        found("a.txt", "a.txt", 6),
        found("b.txt", "b.txt", 10),
        found("Zed.md", "docs/Zed.md", 1),
    ]
}

#[test]
fn new_session_defaults() {
    let app = App::new();
    assert!(app.dir_a.is_empty());
    assert!(app.dir_b.is_empty());
    assert!(app.groups.is_empty());
    assert!(!app.compared);
    assert!(app.error.is_none());
    assert!(app.show_matches && app.show_mismatches && app.show_only_a && app.show_only_b);
    assert!(!app.show_dups_only);
    assert!(app.search.is_empty());
    assert!(!app.can_compare());
}

#[test]
fn can_compare_needs_both_roots() {
    let mut app = App::new();
    app.dir_a = "/tmp/a".to_string();
    assert!(!app.can_compare());
    app.dir_b = "/tmp/b".to_string();
    assert!(app.can_compare());
}

#[test]
fn build_name_map_groups_by_name() {
    let m = App::build_name_map(&sample_a());
    assert_eq!(m.len(), 3);
    let b = m.iter().find(|e| e.0 == "b.txt").unwrap();
    assert_eq!(b.1, vec![("b.txt".to_string(), 10), ("x/y/b.txt".to_string(), 10)]);
    let a = m.iter().find(|e| e.0 == "a.txt").unwrap();
    assert_eq!(a.1, vec![("sub/a.txt".to_string(), 5)]);
}

#[test]
fn groups_are_sorted_union_of_names() {
    let gs = group_files(&sample_a(), &sample_b());
    // byte order: upper case before lower case
    assert_eq!(names(&gs), vec!["Zed.md", "a.txt", "b.txt", "only_a.bin"]);
    assert_eq!(paths(&gs[1].in_a), vec![("sub/a.txt".to_string(), 5)]);
    assert_eq!(paths(&gs[1].in_b), vec![("a.txt".to_string(), 6)]);
    assert_eq!(paths(&gs[2].in_a), vec![("b.txt".to_string(), 10), ("x/y/b.txt".to_string(), 10)]);
    assert!(gs[0].in_a.is_empty());
    assert!(gs[3].in_b.is_empty());
    assert!(gs.iter().all(|g| g.in_a.iter().chain(g.in_b.iter()).all(|o| !o.deleted)));
    assert_eq!(gs[0].status(), GroupStatus::OnlyB);
    assert_eq!(gs[1].status(), GroupStatus::SizeMismatch);
    assert_eq!(gs[2].status(), GroupStatus::Match);
    assert_eq!(gs[3].status(), GroupStatus::OnlyA);
}

#[test]
fn compare_rejects_missing_directories() {
    let mut app = App::new();
    app.dir_a = "/no/such".to_string();
    app.dir_b = "/tmp".to_string();
    app.compare(false, true, &sample_a(), &sample_b());
    assert_eq!(app.error.as_deref(), Some("Not a directory: /no/such"));
    assert!(!app.compared);
    assert!(app.groups.is_empty());
    app.compare(true, false, &sample_a(), &sample_b());
    assert_eq!(app.error.as_deref(), Some("Not a directory: /tmp"));
    assert!(!app.compared);
}

#[test]
fn compare_then_summary() {
    let mut app = App::new();
    app.dir_a = "/a".to_string();
    app.dir_b = "/b".to_string();
    app.error = Some("old".to_string());
    app.compare(true, true, &sample_a(), &sample_b());
    assert!(app.compared);
    assert!(app.error.is_none());
    assert_eq!(app.groups.len(), 4);
    let (m, mm, a, b, d) = app.summary();
    assert_eq!((m, mm, a, b, d), (1, 1, 1, 1, 1));
    assert_eq!(m + mm + a + b, app.groups.len());
}

#[test]
fn compare_keeps_every_file() {
    let fa = sample_a();
    let fb = sample_b();
    let gs = group_files(&fa, &fb);
    let total_a: usize = gs.iter().map(|g| g.in_a.len()).sum();
    let total_b: usize = gs.iter().map(|g| g.in_b.len()).sum();
    assert_eq!(total_a, fa.len());
    assert_eq!(total_b, fb.len());
    for f in fa.iter() {
        assert_eq!(gs.iter().filter(|g| g.name == f.file_name).count(), 1);
    }
}

#[test]
fn empty_listings_give_no_groups() {
    let mut app = App::new();
    app.compare(true, true, &Vec::new(), &Vec::new());
    assert!(app.compared);
    assert!(app.groups.is_empty());
    assert_eq!(app.summary(), (0, 0, 0, 0, 0));
}

#[test]
fn clear_drops_result() {
    let mut app = App::new();
    app.compare(true, true, &sample_a(), &sample_b());
    app.error = Some("x".to_string());
    app.clear();
    assert!(app.groups.is_empty());
    assert!(!app.compared);
    assert!(app.error.is_none());
    assert_eq!(app.summary(), (0, 0, 0, 0, 0));
}

#[test]
fn mark_deleted_removes_one_copy() {
    let mut app = App::new();
    app.compare(true, true, &sample_a(), &sample_b());
    // "b.txt" has two copies in A
    assert!(app.groups[2].dup_in_a());
    app.mark_deleted(true, 2, 1);
    assert!(app.groups[2].in_a[1].deleted);
    assert!(!app.groups[2].in_a[0].deleted);
    assert!(!app.groups[2].dup_in_a());
    assert_eq!(app.groups[2].status(), GroupStatus::Match);
    assert_eq!(app.summary(), (1, 1, 1, 1, 0));
    // deleting the only copy in B of "a.txt" leaves it only in A
    app.mark_deleted(false, 1, 0);
    assert_eq!(app.groups[1].status(), GroupStatus::OnlyA);
    assert_eq!(app.summary(), (1, 0, 2, 1, 0));
}

#[test]
fn delete_failure_message() {
    let mut app = App::new();
    app.report_delete_failure("/a/b.txt", "permission denied");
    assert_eq!(app.error.as_deref(), Some("Delete failed \u{2014} /a/b.txt: permission denied"));
}

#[test]
fn filters_by_status_duplicates_and_search() {
    let mut app = App::new();
    app.compare(true, true, &sample_a(), &sample_b());
    let key = app.search_key();
    assert!(app.groups.iter().all(|g| app.shows_group(g, &key)));
    app.show_matches = false;
    assert!(!app.shows_group(&app.groups[2], &key));
    assert!(app.shows_group(&app.groups[1], &key));
    app.show_matches = true;
    app.show_dups_only = true;
    let shown: Vec<bool> = app.groups.iter().map(|g| app.shows_group(g, &key)).collect();
    assert_eq!(shown, vec![false, false, true, false]);
    app.show_dups_only = false;
    app.search = "ZED".to_string();
    let key = app.search_key();
    assert_eq!(key, "zed");
    let shown: Vec<bool> = app.groups.iter().map(|g| app.shows_group(g, &key)).collect();
    assert_eq!(shown, vec![true, false, false, false]);
    app.search = ".TXT".to_string();
    let key = app.search_key();
    let shown: Vec<bool> = app.groups.iter().map(|g| app.shows_group(g, &key)).collect();
    assert_eq!(shown, vec![false, true, true, false]);
}

#[test]
fn search_ignores_case_beyond_ascii() {
    let mut app = App::new();
    let fa = vec![found("ÄRGER.txt", "ÄRGER.txt", 1)];
    app.compare(true, true, &fa, &Vec::new());
    app.search = "ärger".to_string();
    let key = app.search_key();
    assert!(app.shows_group(&app.groups[0], &key));
}

#[test]
fn separators_become_slashes() {
    assert_eq!(normalize_separators("a\\b\\c.txt"), "a/b/c.txt");
    assert_eq!(normalize_separators("a/b"), "a/b");
    assert_eq!(normalize_separators(""), "");
}

#[test]
fn string_order_is_byte_order() {
    assert!(str_less("B", "a"));
    assert!(str_less("a", "ab"));
    assert!(!str_less("ab", "ab"));
    assert!(str_less("z", "é"));
    assert!(!str_less("é", "z"));
    let mut v = vec!["é", "z", "B", "a", "ab"];
    v.sort();
    for w in v.windows(2) {
        assert!(str_less(w[0], w[1]));
    }
}

#[test]
fn substring_search() {
    assert!(str_contains("hello world", "o w"));
    assert!(str_contains("abc", ""));
    assert!(!str_contains("abc", "abcd"));
    assert!(!str_contains("abc", "ac"));
    assert!(str_contains("grüße", "üß"));
}

#[test]
fn delete_offered_only_for_duplicates() {
    let mut app = App::new();
    app.compare(true, true, &sample_a(), &sample_b());
    // "b.txt": two copies in A, one in B
    assert!(app.can_delete(true, 2, 0));
    assert!(app.can_delete(true, 2, 1));
    assert!(!app.can_delete(false, 2, 0));
    assert!(!app.can_delete(true, 1, 0));
    assert!(!app.can_delete(true, 9, 0));
    assert!(!app.can_delete(true, 2, 5));
    app.mark_deleted(true, 2, 1);
    // the last copy in A is no longer offered, nor the deleted one
    assert!(!app.can_delete(true, 2, 0));
    assert!(!app.can_delete(true, 2, 1));
    assert_eq!(app.groups[2].status(), GroupStatus::Match);
}
