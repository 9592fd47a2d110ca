use zatlas::model::Language;
use zatlas::parse::{parse, unquote, DefKind, ExportItem, ImportKind, ImportedNames, ParsedFile};
#[test]
fn loc_ignores_blank_lines_and_comments() {
    let src = "\
const a = 1;

// a comment
const b = 2;
/* block
   spanning
   lines */
const c = 3;
";
    let p = parse(Language::TypeScript, src);
    assert_eq!(p.loc, 3);
    assert_eq!(p.total_lines, 8);
}

#[test]
fn python_now_reports_both_size_and_imports() {
    let p = parse(Language::Python, "import os\n\ndef f():\n    return 1\n");
    assert_eq!(p.loc, 3);
    assert_eq!(p.imports.len(), 1);
}

#[test]
fn unquote_handles_every_string_style() {
    assert_eq!(unquote("\"./a\""), "./a");
    assert_eq!(unquote("'./a'"), "./a");
    assert_eq!(unquote("`./a`"), "./a");
    assert_eq!(unquote("./a"), "./a");
    assert_eq!(unquote("\""), "\"");
}
