use zatlas::findings::Severity;
use zatlas::model::{describe, is_failure, Language, UnresolvedReason};
use zatlas::style::{severity_word, wrap, Style};

#[test]
fn plain_style_emits_no_escape_sequences() {
    let s = Style::plain();
    assert_eq!(s.bold("x"), "x");
    assert_eq!(s.severity(Severity::Critical, "x"), "x");
    assert!(!s.dim("x").contains('\x1b'));
}

#[test]
fn a_coloured_style_wraps_text_in_its_code() {
    let s = Style::for_terminal(true, false, true, false);
    assert_eq!(s.bold("x"), "\x1b[1mx\x1b[0m");
    assert_eq!(s.severity(Severity::Critical, "x"), "\x1b[1;31mx\x1b[0m");
    let quiet = Style::for_terminal(false, true, true, true);
    assert_eq!(quiet.accent("x"), "x");
}

#[test]
fn severity_words_are_all_the_same_width_so_the_column_lines_up() {
    for severity in [Severity::Info, Severity::Low, Severity::Medium, Severity::High, Severity::Critical] {
        assert_eq!(severity_word(severity).len(), 4, "{severity:?}");
    }
}

#[test]
fn external_and_asset_outcomes_are_not_counted_as_failures() {
    assert!(!is_failure(&UnresolvedReason::External("serde".into())));
    assert!(!is_failure(&UnresolvedReason::Asset("a.css".into())));
    assert!(!is_failure(&UnresolvedReason::ExcludedFromScan("g".into())));
    assert!(is_failure(&UnresolvedReason::NoSuchFile("./x".into())));
    assert!(is_failure(&UnresolvedReason::FileNotInModuleTree));
}

#[test]
fn every_unresolved_reason_has_a_sentence_rather_than_a_debug_dump() {
    for reason in [
        UnresolvedReason::External("serde".into()),
        UnresolvedReason::NoSuchFile("./x".into()),
        UnresolvedReason::UnmatchedAlias("@app/x".into()),
        UnresolvedReason::DynamicSpecifier,
        UnresolvedReason::ReExportChainTooDeep("./b".into()),
        UnresolvedReason::NoResolverForLanguage(Language::Go),
        UnresolvedReason::ExcludedFromScan("gen/x".into()),
        UnresolvedReason::FileNotInModuleTree,
        UnresolvedReason::Asset("a.css".into()),
    ] {
        let text = describe(&reason);
        assert!(!text.is_empty());
        assert!(!text.contains('"') || text.contains(':'), "reads like a debug dump: {text}");
    }
}

#[test]
fn wrapping_never_exceeds_the_line_budget() {
    let text = "The heuristic resolver and the language server disagree about \
                where this import goes, so at least one edge on the map is wrong.";
    for line in wrap(text, 6).lines() {
        assert!(line.chars().count() <= 74, "too long: {line:?}");
    }
}

#[test]
fn wrapping_does_not_break_a_word_in_half() {
    let out = wrap("supercalifragilistic and short", 0);
    assert!(out.contains("supercalifragilistic"));
}

#[test]
fn wrapping_leaves_a_short_sentence_on_one_line() {
    assert_eq!(wrap("Short enough.", 6), "Short enough.");
}

#[test]
fn a_long_text_breaks_before_the_word_that_overruns_and_indents_the_rest() {
    let text = "word ".repeat(30);
    let out = wrap(&text, 70);
    let lines: Vec<&str> = out.lines().collect();
    assert_eq!(lines[0], "word word word word");
    assert_eq!(lines[1], format!("{}word word word word", " ".repeat(70)));
}
