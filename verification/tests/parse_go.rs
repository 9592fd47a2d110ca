use zatlas::model::Language;
use zatlas::parse::{parse, DefKind, ExportItem, ImportKind, ImportedNames, ParsedFile};
fn go(src: &str) -> ParsedFile {
    parse(Language::Go, src)
}

fn specs(p: &ParsedFile) -> Vec<&str> {
    p.imports.iter().map(|i| i.specifier.as_str()).collect()
}

#[test]
fn a_single_import_is_found() {
    let p = go("package main\n\nimport \"fmt\"\n");
    assert_eq!(specs(&p), ["fmt"]);
}

#[test]
fn a_grouped_import_block_yields_every_package() {
    let p = go(
        "package main\n\nimport (\n\t\"fmt\"\n\t\"os\"\n\t\"github.com/user/repo/pkg\"\n)\n",
    );
    let mut got = specs(&p);
    got.sort_unstable();
    assert_eq!(got, ["fmt", "github.com/user/repo/pkg", "os"]);
}

#[test]
fn an_aliased_import_records_the_package_path_not_the_alias() {
    let p = go("package main\n\nimport f \"fmt\"\n");
    assert_eq!(specs(&p), ["fmt"]);
}

#[test]
fn a_blank_import_still_counts_as_a_dependency() {
    let p = go("package main\n\nimport _ \"github.com/lib/pq\"\n");
    assert_eq!(specs(&p), ["github.com/lib/pq"]);
}

#[test]
fn a_go_import_is_always_a_whole_package() {
    let p = go("package main\n\nimport \"fmt\"\n");
    assert_eq!(p.imports[0].names, ImportedNames::Namespace);
}

#[test]
fn capitalised_names_are_exported_and_lowercase_ones_are_not() {
    let p = go("package p\n\nfunc Public() {}\nfunc private() {}\n\
         type Thing struct{}\ntype hidden struct{}\n");
    let mut exports: Vec<&str> = p.exports.iter().map(|e| e.name.as_str()).collect();
    exports.sort_unstable();
    assert_eq!(exports, ["Public", "Thing"]);
}

#[test]
fn structs_interfaces_and_aliases_are_classified() {
    let p = go("package p\n\ntype S struct{}\ntype I interface{}\ntype A = int\n");
    let kinds: Vec<DefKind> = p.definitions.iter().map(|d| d.kind).collect();
    assert!(kinds.contains(&DefKind::Struct), "{kinds:?}");
    assert!(kinds.contains(&DefKind::Interface), "{kinds:?}");
}

#[test]
fn constants_are_declarations() {
    let p = go("package p\n\nconst Version = \"1.0\"\nvar Global = 2\n");
    let names: Vec<&str> = p.definitions.iter().map(|d| d.name.as_str()).collect();
    assert!(names.contains(&"Version"), "{names:?}");
    assert!(names.contains(&"Global"), "{names:?}");
}
