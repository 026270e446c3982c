use dircompare::group::{FileGroup, GroupStatus, Occurrence};
use dircompare::labels::{duplicate_color, side_a_color, side_b_color, status_color, status_label};

fn occ(path: &str, size: u64, deleted: bool) -> Occurrence {
    Occurrence { rel_path: path.to_string(), size, deleted }
}

fn group(a: Vec<Occurrence>, b: Vec<Occurrence>) -> FileGroup {
    FileGroup { name: "f.txt".to_string(), in_a: a, in_b: b }
}

#[test]
fn status_only_a() {
    let g = group(vec![occ("f.txt", 3, false)], vec![]);
    assert_eq!(g.status(), GroupStatus::OnlyA);
    let g = group(vec![occ("f.txt", 3, false)], vec![occ("x/f.txt", 3, true)]);
    assert_eq!(g.status(), GroupStatus::OnlyA);
}

#[test]
fn status_only_b() {
    let g = group(vec![], vec![occ("f.txt", 3, false)]);
    assert_eq!(g.status(), GroupStatus::OnlyB);
    let g = group(vec![occ("f.txt", 9, true)], vec![occ("f.txt", 3, false)]);
    assert_eq!(g.status(), GroupStatus::OnlyB);
}

#[test]
fn status_all_deleted_is_match() {
    let g = group(vec![occ("f.txt", 3, true)], vec![occ("f.txt", 4, true)]);
    assert_eq!(g.status(), GroupStatus::Match);
    let g = group(vec![], vec![]);
    assert_eq!(g.status(), GroupStatus::Match);
}

#[test]
fn status_match_and_mismatch() {
    let g = group(vec![occ("f.txt", 3, false)], vec![occ("f.txt", 3, false)]);
    assert_eq!(g.status(), GroupStatus::Match);
    let g = group(vec![occ("f.txt", 3, false)], vec![occ("f.txt", 4, false)]);
    assert_eq!(g.status(), GroupStatus::SizeMismatch);
    // sizes differing within one side count as a mismatch too
    let g = group(
        vec![occ("f.txt", 3, false), occ("d/f.txt", 5, false)],
        vec![occ("f.txt", 3, false)],
    );
    assert_eq!(g.status(), GroupStatus::SizeMismatch);
    // a deleted copy of another size does not count
    let g = group(
        vec![occ("f.txt", 3, false), occ("d/f.txt", 5, true)],
        vec![occ("f.txt", 3, false)],
    );
    assert_eq!(g.status(), GroupStatus::Match);
}

#[test]
fn duplicates() {
    let g = group(
        vec![occ("f.txt", 3, false), occ("d/f.txt", 3, false)],
        vec![occ("f.txt", 3, false)],
    );
    assert!(g.dup_in_a());
    assert!(!g.dup_in_b());
    assert!(g.has_duplicates());
    assert_eq!(g.duplicate_sides(), "A");
    let g = group(
        vec![occ("f.txt", 3, false), occ("d/f.txt", 3, true)],
        vec![occ("f.txt", 3, false), occ("e/f.txt", 3, false)],
    );
    assert!(!g.dup_in_a());
    assert!(g.dup_in_b());
    assert_eq!(g.duplicate_sides(), "B");
    let g = group(
        vec![occ("f.txt", 3, false), occ("d/f.txt", 3, false)],
        vec![occ("f.txt", 3, false), occ("e/f.txt", 3, false)],
    );
    assert_eq!(g.duplicate_sides(), "A and B");
    let g = group(vec![occ("f.txt", 3, false)], vec![occ("f.txt", 3, false)]);
    assert!(!g.has_duplicates());
}

#[test]
fn active_occurrences() {
    let g = group(
        vec![occ("a/f.txt", 1, false), occ("b/f.txt", 2, true), occ("c/f.txt", 3, false)],
        vec![occ("f.txt", 4, true)],
    );
    let a = g.active_a();
    assert_eq!(a.len(), 2);
    assert_eq!(a[0].rel_path, "a/f.txt");
    assert_eq!(a[1].rel_path, "c/f.txt");
    assert!(g.active_b().is_empty());
}

#[test]
fn size_discrepancy_reports_largest_sizes() {
    let g = group(
        vec![occ("f.txt", 10, false), occ("d/f.txt", 700, true), occ("e/f.txt", 30, false)],
        vec![occ("f.txt", 12, false)],
    );
    assert_eq!(g.status(), GroupStatus::SizeMismatch);
    assert_eq!(g.size_discrepancy(), Some((30, 12, 18)));
    let g = group(vec![occ("f.txt", 5, false)], vec![occ("f.txt", 90, false)]);
    assert_eq!(g.size_discrepancy(), Some((5, 90, 85)));
    let g = group(vec![occ("f.txt", 5, false)], vec![occ("f.txt", 5, false)]);
    assert_eq!(g.size_discrepancy(), None);
    let g = group(vec![occ("f.txt", 5, false)], vec![]);
    assert_eq!(g.size_discrepancy(), None);
}

#[test]
fn labels_of_statuses() {
    assert_eq!(status_label(&GroupStatus::Match), "Match");
    assert_eq!(status_label(&GroupStatus::SizeMismatch), "Size mismatch");
    assert_eq!(status_label(&GroupStatus::OnlyA), "Only in A");
    assert_eq!(status_label(&GroupStatus::OnlyB), "Only in B");
}

#[test]
fn labels_are_distinct() {
    let all = [GroupStatus::Match, GroupStatus::SizeMismatch, GroupStatus::OnlyA, GroupStatus::OnlyB];
    for s in all.iter() {
        for t in all.iter() {
            if s != t {
                assert_ne!(status_label(s), status_label(t));
            }
        }
    }
}

#[test]
fn colors_of_statuses() {
    assert_eq!(status_color(&GroupStatus::Match), egui::Color32::from_rgb(80, 180, 80));
    assert_eq!(status_color(&GroupStatus::SizeMismatch), egui::Color32::from_rgb(220, 160, 30));
    assert_eq!(status_color(&GroupStatus::OnlyA), egui::Color32::from_rgb(100, 160, 240));
    assert_eq!(status_color(&GroupStatus::OnlyB), egui::Color32::from_rgb(220, 100, 100));
    assert_eq!(status_color(&GroupStatus::OnlyA).a(), 255);
}

#[test]
fn status_colors_are_distinct_and_match_sides() {
    let all = [GroupStatus::Match, GroupStatus::SizeMismatch, GroupStatus::OnlyA, GroupStatus::OnlyB];
    for s in all.iter() {
        for t in all.iter() {
            if s != t {
                assert_ne!(status_color(s), status_color(t));
            }
        }
    }
    assert_eq!(status_color(&GroupStatus::OnlyA), side_a_color());
    assert_eq!(status_color(&GroupStatus::OnlyB), side_b_color());
    assert_eq!(side_a_color(), egui::Color32::from_rgb(100, 160, 240));
    assert_eq!(side_b_color(), egui::Color32::from_rgb(220, 100, 100));
    assert_eq!(duplicate_color(), egui::Color32::from_rgb(210, 120, 220));
}

#[test]
fn groups_clone() {
    let g = group(vec![occ("f.txt", 3, false)], vec![occ("d/f.txt", 4, true)]);
    let h = g.clone();
    assert_eq!(h.name, g.name);
    assert_eq!(h.in_a.len(), 1);
    assert_eq!(h.in_b[0].rel_path, "d/f.txt");
    assert!(h.in_b[0].deleted);
    assert_eq!(h.status(), g.status());
}
