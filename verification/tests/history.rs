use zatlas::git::history::{bus_factor_risk, commit_pairs, summarise_file, unlinked, unstable_candidate, FileHistory};
use zatlas::graph::Adjacency;
use zatlas::model::{Edge, EdgeKind, FileId};

fn t(time: i64, author: &str) -> (i64, String) {
    (time, author.to_string())
}

fn s(v: &[&str]) -> Vec<String> {
    v.iter().map(|x| x.to_string()).collect()
}

#[test]
fn a_file_history_counts_commits_times_and_authors() {
    let h = summarise_file(&[t(300, "Ada"), t(100, "Bob"), t(200, "Ada"), t(50, "Cy")]);
    assert_eq!(h.commits, 4);
    assert_eq!(h.last_touched, 300);
    assert_eq!(h.first_touched, 50);
    assert_eq!(h.authors, 3);
    assert_eq!(h.top_author, "Ada");
    assert_eq!(h.top_author_commits, 2);
}

#[test]
fn equal_authors_go_to_the_name_that_sorts_first() {
    let h = summarise_file(&[t(1, "Zed"), t(2, "Amy"), t(3, "Zed"), t(4, "Amy")]);
    assert_eq!(h.top_author, "Amy");
    assert_eq!(h.top_author_commits, 2);
    assert_eq!(h.authors, 2);
}

#[test]
fn a_time_of_zero_counts_as_unknown_for_the_first_touch() {
    let h = summarise_file(&[t(0, "Ada"), t(40, "Ada"), t(30, "Ada")]);
    assert_eq!(h.first_touched, 30);
    assert_eq!(h.last_touched, 40);
}

#[test]
fn three_files_in_one_commit_give_three_pairs_in_canonical_order() {
    let pairs = commit_pairs(&s(&["c.rs", "a.rs", "b.rs"]), 50);
    assert_eq!(
        pairs,
        vec![
            ("a.rs".to_string(), "c.rs".to_string()),
            ("b.rs".to_string(), "c.rs".to_string()),
            ("a.rs".to_string(), "b.rs".to_string()),
        ]
    );
}

#[test]
fn a_sweeping_commit_gives_no_pairs() {
    assert!(commit_pairs(&s(&["a", "b", "c"]), 2).is_empty());
    assert_eq!(commit_pairs(&s(&["a", "b"]), 2).len(), 1);
    assert!(commit_pairs(&s(&["a"]), 2).is_empty());
}

fn history(authors: u32, commits: u32) -> FileHistory {
    FileHistory {
        commits,
        last_touched: 0,
        first_touched: 0,
        authors,
        top_author: "Ada".into(),
        top_author_commits: commits,
    }
}

#[test]
fn a_single_author_file_with_many_dependents_is_a_bus_factor_risk() {
    assert!(bus_factor_risk(&history(1, 5), 5));
    assert!(!bus_factor_risk(&history(2, 5), 5));
    assert!(!bus_factor_risk(&history(1, 4), 9));
    assert!(!bus_factor_risk(&history(1, 9), 4));
}

#[test]
fn an_unstable_interface_needs_dependents_and_churn() {
    assert!(unstable_candidate(&history(3, 3), 3));
    assert!(!unstable_candidate(&history(3, 2), 9));
    assert!(!unstable_candidate(&history(3, 9), 2));
}

#[test]
fn files_are_unlinked_when_neither_imports_the_other() {
    let edges = vec![Edge { from: FileId(0), to: FileId(1), kind: EdgeKind::Import }];
    let deps = Adjacency::build(3, &edges);
    assert!(!unlinked(&deps, FileId(0), FileId(1)));
    assert!(!unlinked(&deps, FileId(1), FileId(0)));
    assert!(unlinked(&deps, FileId(0), FileId(2)));
}
