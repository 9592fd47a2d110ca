use zatlas::model::Language;
use zatlas::parse::{parse, DefKind, ExportItem, ImportKind, ImportedNames, ParsedFile};
fn rs(src: &str) -> ParsedFile {
    parse(Language::Rust, src)
}

fn specs(p: &ParsedFile) -> Vec<&str> {
    p.imports.iter().map(|i| i.specifier.as_str()).collect()
}

#[test]
fn a_simple_use_is_recorded_with_its_full_path() {
    let p = rs("use crate::auth::session;");
    assert_eq!(specs(&p), ["crate::auth::session"]);
    assert_eq!(p.imports[0].kind, ImportKind::Static);
}

#[test]
fn a_use_list_expands_into_one_import_per_leaf() {
    let p = rs("use crate::a::{b, c, d};");
    assert_eq!(specs(&p), ["crate::a::b", "crate::a::c", "crate::a::d"]);
}

#[test]
fn nested_use_lists_expand_correctly() {
    let p = rs("use crate::{a::{x, y}, b::z};");
    let mut got = specs(&p);
    got.sort_unstable();
    assert_eq!(got, ["crate::a::x", "crate::a::y", "crate::b::z"]);
}

#[test]
fn an_aliased_use_keeps_the_source_path() {
    let p = rs("use crate::very::long::Name as Short;");
    assert_eq!(specs(&p), ["crate::very::long::Name"]);
}

#[test]
fn a_glob_use_is_a_namespace_import() {
    let p = rs("use crate::prelude::*;");
    assert_eq!(specs(&p), ["crate::prelude"]);
    assert_eq!(p.imports[0].names, ImportedNames::Namespace);
}

#[test]
fn self_and_super_paths_are_preserved_for_the_resolver() {
    let p = rs("use super::sibling::Thing;\nuse self::child::Other;");
    let mut got = specs(&p);
    got.sort_unstable();
    assert_eq!(got, ["self::child::Other", "super::sibling::Thing"]);
}

#[test]
fn pub_use_is_a_re_export_not_just_an_import() {
    let p = rs("pub use crate::inner::Thing;");
    assert_eq!(p.imports[0].kind, ImportKind::ReExport);
    assert_eq!(p.exports.len(), 1);
    assert_eq!(p.exports[0].name, "Thing");
    assert_eq!(p.exports[0].from.as_deref(), Some("crate::inner::Thing"));
}

#[test]
fn a_pub_use_alias_is_exported_under_the_alias() {
    let p = rs("pub use crate::inner::Thing as Renamed;");
    assert_eq!(p.exports[0].name, "Renamed");
}

#[test]
fn mod_declarations_are_the_file_edges() {
    let p = rs("mod a;\npub mod b;");
    assert_eq!(specs(&p), ["a", "b"]);
    assert!(p.imports.iter().all(|i| i.kind == ImportKind::ModDecl));
}

#[test]
fn an_inline_mod_declares_no_file_dependency_but_its_items_still_count() {
    let p = rs("mod inline { pub fn helper() {} pub struct S; }");
    assert!(
        p.imports.is_empty(),
        "an inline module lives in this file, so it is not an edge"
    );
    let names: Vec<&str> = p.definitions.iter().map(|d| d.name.as_str()).collect();
    assert!(names.contains(&"helper"), "got {names:?}");
    assert!(names.contains(&"S"), "got {names:?}");
}

#[test]
fn a_path_attribute_overrides_where_the_module_lives() {
    let p = rs("#[path = \"actually/here.rs\"]\nmod weird;");
    assert_eq!(specs(&p), ["weird\u{1}actually/here.rs"]);
}

#[test]
fn a_cfg_attr_before_a_mod_does_not_confuse_the_path_lookup() {
    let p = rs("#[cfg(test)]\nmod tests;");
    assert_eq!(specs(&p), ["tests"]);
}

#[test]
fn a_use_inside_an_inline_module_records_that_scope() {
    let p = rs("#[cfg(test)]\nmod tests {\n    use super::*;\n}");
    assert_eq!(p.imports.len(), 1);
    assert_eq!(p.imports[0].specifier, "super");
    assert_eq!(p.imports[0].scope.as_deref(), Some("tests"));
}

#[test]
fn nested_inline_modules_accumulate_their_scope() {
    let p = rs("mod a {\n  mod b {\n    use super::super::Thing;\n  }\n}");
    assert_eq!(p.imports[0].scope.as_deref(), Some("a::b"));
}

#[test]
fn a_file_level_use_has_no_scope() {
    let p = rs("use crate::a::B;");
    assert_eq!(p.imports[0].scope, None);
}

#[test]
fn public_items_are_exports_and_private_ones_are_not() {
    let p = rs("pub fn a() {}\nfn b() {}\npub struct C;\nstruct D;");
    let mut names: Vec<&str> = p.exports.iter().map(|e| e.name.as_str()).collect();
    names.sort_unstable();
    assert_eq!(names, ["C", "a"]);
}

#[test]
fn methods_inside_an_impl_block_are_definitions() {
    let p = rs("pub struct S;\nimpl S {\n    pub fn go() {}\n    fn hidden() {}\n}");
    let names: Vec<&str> = p.definitions.iter().map(|d| d.name.as_str()).collect();
    assert!(names.contains(&"go"), "got {names:?}");
    assert!(names.contains(&"hidden"), "got {names:?}");
}

#[test]
fn a_trait_impl_still_records_its_methods() {
    let p = rs("impl Display for S {\n    fn fmt(&self) {}\n}");
    assert!(p.definitions.iter().any(|d| d.name == "fmt"), "{p:?}");
}

#[test]
fn every_item_kind_is_classified() {
    let p = rs(r#"
pub fn f() {}
pub struct S;
pub enum E { A }
pub trait T {}
pub type A = u8;
pub const C: u8 = 1;
impl S {}
"#);
    let kinds: Vec<DefKind> = p.definitions.iter().map(|d| d.kind).collect();
    for expected in [
        DefKind::Function,
        DefKind::Struct,
        DefKind::Enum,
        DefKind::Trait,
        DefKind::TypeAlias,
        DefKind::Const,
        DefKind::Impl,
    ] {
        assert!(
            kinds.contains(&expected),
            "missing {expected:?} in {kinds:?}"
        );
    }
}

#[test]
fn external_crate_paths_are_recorded_verbatim_for_the_resolver_to_classify() {
    let p = rs("use serde::Serialize;\nuse std::collections::HashMap;");
    let mut got = specs(&p);
    got.sort_unstable();
    assert_eq!(got, ["serde::Serialize", "std::collections::HashMap"]);
}
