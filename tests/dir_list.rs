use vago::dir_list::{rank_by_score, visible_dirs, DriList, ScannedEntry};

fn strings(v: &[&str]) -> Vec<String> {
    v.iter().map(|s| s.to_string()).collect()
}

fn entry(path: &str, name: Option<&str>, is_dir: bool) -> ScannedEntry {
    ScannedEntry { path: path.to_string(), name: name.map(|n| n.to_string()), is_dir }
}

#[test]
fn filter_ranks_matches_above_non_matches() {
    let mut list = DriList::with_items(strings(&["alpha", "beta", "alba"]));
    let view = list.fuzzy_match("al");
    assert!(view.contains(&"alpha".to_string()));
    assert!(view.contains(&"alba".to_string()));
    let pos = |s: &str| view.iter().position(|v| v == s);
    if let Some(b) = pos("beta") {
        assert!(pos("alpha").unwrap() < b);
        assert!(pos("alba").unwrap() < b);
    }
    assert_eq!(list.cursor(), Some(0));
}

#[test]
fn hidden_directories_are_not_listed() {
    let entries = vec![entry("/p/.git", Some(".git"), true), entry("/p/src", Some("src"), true)];
    let list = DriList::new(&entries);
    assert_eq!(list.items(), &strings(&["/p/src"]));
    assert_eq!(list.cursor(), Some(0));
}

#[test]
fn only_directories_are_listed_in_read_order() {
    let entries = vec![
        entry("/p/zeta", Some("zeta"), true),
        entry("/p/file.txt", Some("file.txt"), false),
        entry("/p/.cache", Some(".cache"), true),
        entry("/p/alpha", Some("alpha"), true),
        entry("/", None, true),
    ];
    assert_eq!(visible_dirs(&entries), strings(&["/p/zeta", "/p/alpha", "/"]));
}

#[test]
fn next_from_last_wraps_to_first() {
    let mut list = DriList::with_items(strings(&["a", "b", "c"]));
    list.next();
    list.next();
    assert_eq!(list.cursor(), Some(2));
    list.next();
    assert_eq!(list.cursor(), Some(0));
}

#[test]
fn previous_from_first_wraps_to_last() {
    let mut list = DriList::with_items(strings(&["a", "b", "c"]));
    list.previous();
    assert_eq!(list.cursor(), Some(2));
    assert_eq!(list.selected(), Some("c"));
}

#[test]
fn stepping_a_full_round_returns_to_start() {
    let mut list = DriList::with_items(strings(&["a", "b", "c", "d"]));
    list.next();
    for _ in 0..4 {
        list.next();
    }
    assert_eq!(list.cursor(), Some(1));
    for _ in 0..4 {
        list.previous();
    }
    assert_eq!(list.cursor(), Some(1));
}

#[test]
fn moves_on_empty_view_keep_no_cursor() {
    let mut list = DriList::with_items(Vec::new());
    assert_eq!(list.cursor(), None);
    list.next();
    assert_eq!(list.cursor(), None);
    list.previous();
    assert_eq!(list.cursor(), None);
    assert_eq!(list.selected(), None);
}

#[test]
fn clearing_the_filter_restores_the_snapshot() {
    let dirs = strings(&["src", "target", "tests", "docs"]);
    let mut list = DriList::with_items(dirs.clone());
    let narrowed = list.fuzzy_match("ts");
    assert!(narrowed.len() < dirs.len());
    list.next();
    let all = list.fuzzy_match("");
    assert_eq!(all, dirs);
    assert_eq!(list.items(), &dirs);
    assert_eq!(list.cursor(), Some(0));
}

#[test]
fn filter_without_matches_empties_view() {
    let mut list = DriList::with_items(strings(&["alpha", "beta"]));
    let view = list.fuzzy_match("zz");
    assert!(view.is_empty());
    assert_eq!(list.cursor(), None);
    assert_eq!(list.selected(), None);
}

#[test]
fn filter_keeps_only_matching_entries() {
    let mut list = DriList::with_items(strings(&["docs", "src", "scripts"]));
    let view = list.fuzzy_match("src");
    assert!(view.contains(&"src".to_string()));
    assert!(!view.contains(&"docs".to_string()));
    assert!(view.len() <= 3);
}

#[test]
fn equal_scores_keep_snapshot_order() {
    let order = rank_by_score(&vec![Some(5), Some(7), Some(5), None, Some(7)]);
    assert_eq!(order, vec![1, 4, 0, 2]);
}

#[test]
fn ranking_of_no_scores_is_empty() {
    assert_eq!(rank_by_score(&vec![None, None]), Vec::<usize>::new());
    assert_eq!(rank_by_score(&Vec::new()), Vec::<usize>::new());
}

#[test]
fn apply_scores_ranks_by_descending_score() {
    let mut list = DriList::with_items(strings(&["a", "b", "c", "d"]));
    list.next();
    list.apply_scores(&vec![Some(1), None, Some(9), Some(1)]);
    assert_eq!(list.items(), &strings(&["c", "a", "d"]));
    assert_eq!(list.cursor(), Some(0));
    assert_eq!(list.selected(), Some("c"));
}

#[test]
fn identical_names_score_alike_and_keep_order() {
    let mut list = DriList::with_items(strings(&["x/lib", "other", "y/lib"]));
    let view = list.fuzzy_match("lib");
    let x = view.iter().position(|v| v == "x/lib").unwrap();
    let y = view.iter().position(|v| v == "y/lib").unwrap();
    assert!(x < y);
}
