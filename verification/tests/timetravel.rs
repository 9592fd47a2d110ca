use zatlas::git::timetravel::{diff, label_for, label_or_unknown, label_pattern, month_label, snapshot_of, timeline_span, SnapshotDiff, TimelineOptions};

fn table(entries: &[(&str, u32)]) -> Vec<(String, u32)> {
    entries.iter().map(|(p, n)| (p.to_string(), *n)).collect()
}

#[test]
fn the_diff_reports_additions_removals_and_movement() {
    let before = table(&[("kept.ts", 100), ("gone.ts", 20), ("grew.ts", 10), ("shrank.ts", 90)]);
    let after = table(&[("kept.ts", 100), ("new.ts", 5), ("grew.ts", 60), ("shrank.ts", 40)]);

    let d = diff(&before, &after);
    assert_eq!(d.added, ["new.ts"]);
    assert_eq!(d.removed, ["gone.ts"]);
    assert_eq!(d.grown, [("grew.ts".to_string(), 50)]);
    assert_eq!(d.shrunk, [("shrank.ts".to_string(), -50)]);
}

#[test]
fn an_unchanged_file_appears_in_no_diff_bucket() {
    let same = table(&[("a.ts", 10)]);
    let d = diff(&same, &same);
    assert_eq!(d, SnapshotDiff::default());
}

#[test]
fn labels_match_the_span_being_shown() {
    let t = 1_773_576_000;

    assert_eq!(label_for(t, 300 * 86_400), "2026-03");

    assert_eq!(label_for(t, 20 * 86_400), "03-15");

    assert_eq!(label_for(t, 3_600), "12:00");
}

#[test]
fn growth_is_listed_largest_first_and_shrinkage_most_negative_first() {
    let before = table(&[("a.ts", 10), ("b.ts", 10), ("c.ts", 10), ("d.ts", 100), ("e.ts", 100), ("f.ts", 100)]);
    let after = table(&[("c.ts", 30), ("a.ts", 20), ("b.ts", 30), ("f.ts", 90), ("d.ts", 50), ("e.ts", 90)]);
    let d = diff(&before, &after);
    assert_eq!(
        d.grown,
        [("b.ts".to_string(), 20), ("c.ts".to_string(), 20), ("a.ts".to_string(), 10)]
    );
    assert_eq!(
        d.shrunk,
        [("d.ts".to_string(), -50), ("e.ts".to_string(), -10), ("f.ts".to_string(), -10)]
    );
    assert!(d.added.is_empty() && d.removed.is_empty());
}

#[test]
fn added_and_removed_paths_come_sorted() {
    let before = table(&[("z.ts", 1), ("m.ts", 1), ("a.ts", 1)]);
    let after = table(&[("y.ts", 1), ("b.ts", 1), ("k.ts", 1)]);
    let d = diff(&before, &after);
    assert_eq!(d.added, ["b.ts", "k.ts", "y.ts"]);
    assert_eq!(d.removed, ["a.ts", "m.ts", "z.ts"]);
}

#[test]
fn the_pattern_follows_the_span() {
    assert_eq!(label_pattern(0), "%H:%M");
    assert_eq!(label_pattern(2 * 86_400 - 1), "%H:%M");
    assert_eq!(label_pattern(2 * 86_400), "%m-%d");
    assert_eq!(label_pattern(75 * 86_400 - 1), "%m-%d");
    assert_eq!(label_pattern(75 * 86_400), "%Y-%m");
}

#[test]
fn a_month_label_names_the_month() {
    assert_eq!(month_label(1_773_576_000), "2026-03");
    assert_eq!(month_label(0), "1970-01");
}

#[test]
fn a_timestamp_that_cannot_be_written_is_a_question_mark() {
    assert_eq!(label_for(i64::MAX, 3_600), "?");
    assert_eq!(label_or_unknown(None), "?");
    assert_eq!(label_or_unknown(Some("x".to_string())), "x");
}

#[test]
fn a_timeline_defaults_to_a_year_in_twelve_steps() {
    let o = TimelineOptions::default();
    assert_eq!((o.steps, o.window_days), (12, 365));
}

#[test]
fn a_snapshot_sums_what_was_read_at_its_commit() {
    let s = snapshot_of("abcdef1234567890", 0, 0, &[(10, 2), (5, 1)]);
    assert_eq!(s.commit, "abcdef1");
    assert_eq!(s.time, 0);
    assert_eq!(s.label, "00:00");
    assert_eq!(s.file_count, 2);
    assert_eq!(s.total_loc, 15);
    assert_eq!(s.edge_count, 3);
    let empty = snapshot_of("abc", 86_400 * 40, 86_400 * 400, &[]);
    assert_eq!(empty.commit, "abc");
    assert_eq!(empty.label, "1970-02");
    assert_eq!((empty.file_count, empty.total_loc, empty.edge_count), (0, 0, 0));
}

#[test]
fn a_timeline_spans_from_its_first_commit_to_its_last() {
    assert_eq!(timeline_span(&[]), 0);
    assert_eq!(timeline_span(&[("a".to_owned(), 100), ("b".to_owned(), 350)]), 250);
    assert_eq!(timeline_span(&[("a".to_owned(), 350), ("b".to_owned(), 100)]), 0);
}
