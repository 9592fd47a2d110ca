use zatlas::model::Language;
use zatlas::parse::{parse, DefKind, ExportItem, ImportKind, ImportedNames, ParsedFile};
fn py(src: &str) -> ParsedFile {
    parse(Language::Python, src)
}

fn specs(p: &ParsedFile) -> Vec<&str> {
    p.imports.iter().map(|i| i.specifier.as_str()).collect()
}

#[test]
fn a_plain_import_names_the_module() {
    let p = py("import os\nimport a.b.c\n");
    assert_eq!(specs(&p), ["os", "a.b.c"]);
}

#[test]
fn multiple_modules_on_one_line_are_separate_imports() {
    let p = py("import os, sys\n");
    assert_eq!(specs(&p), ["os", "sys"]);
}

#[test]
fn an_aliased_import_records_the_real_module() {
    let p = py("import numpy as np\n");
    assert_eq!(specs(&p), ["numpy"]);
}

#[test]
fn from_import_records_the_module_and_the_symbols() {
    let p = py("from pkg.mod import thing, other\n");
    assert_eq!(specs(&p), ["pkg.mod"]);
    assert_eq!(
        p.imports[0].names,
        ImportedNames::Named(vec!["thing".into(), "other".into()])
    );
}

#[test]
fn a_relative_import_keeps_its_leading_dots() {
    let p = py("from . import sibling\nfrom .. import parent\nfrom .mod import x\n");
    let got = specs(&p);
    assert!(got.contains(&"."), "got {got:?}");
    assert!(got.contains(&".."), "got {got:?}");
    assert!(
        got.iter().any(|s| s.starts_with('.') && s.contains("mod")),
        "got {got:?}"
    );
}

#[test]
fn a_star_import_is_a_namespace_import() {
    let p = py("from pkg.mod import *\n");
    assert_eq!(p.imports[0].names, ImportedNames::Namespace);
}

#[test]
fn imports_inside_a_function_or_type_checking_block_still_count() {
    let p = py("from typing import TYPE_CHECKING\n\
         if TYPE_CHECKING:\n    from pkg.types import Thing\n\n\
         def f():\n    import lazy_module\n    return lazy_module\n");
    let got = specs(&p);
    assert!(got.contains(&"pkg.types"), "got {got:?}");
    assert!(got.contains(&"lazy_module"), "got {got:?}");
}

#[test]
fn top_level_definitions_are_found() {
    let p = py("def f():\n    pass\n\nclass C:\n    def method(self):\n        pass\n");
    let names: Vec<&str> = p.definitions.iter().map(|d| d.name.as_str()).collect();
    assert!(names.contains(&"f"), "got {names:?}");
    assert!(names.contains(&"C"), "got {names:?}");
}

#[test]
fn an_underscore_prefixed_name_is_not_exported() {
    let p = py("def public():\n    pass\n\ndef _private():\n    pass\n");
    let exports: Vec<&str> = p.exports.iter().map(|e| e.name.as_str()).collect();
    assert_eq!(exports, ["public"]);
}

#[test]
fn a_module_level_constant_is_an_export() {
    let p = py("VERSION = \"1.0\"\n_INTERNAL = 2\n");
    let exports: Vec<&str> = p.exports.iter().map(|e| e.name.as_str()).collect();
    assert_eq!(exports, ["VERSION"]);
}

#[test]
fn a_decorated_function_is_still_found() {
    let p = py("@app.route('/')\ndef handler():\n    pass\n");
    assert!(p.definitions.iter().any(|d| d.name == "handler"), "{p:?}");
}
