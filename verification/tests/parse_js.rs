use zatlas::model::Language;
use zatlas::parse::{parse, DefKind, ExportItem, ImportKind, ImportedNames, ParsedFile};
fn ts(src: &str) -> ParsedFile {
    parse(Language::TypeScript, src)
}

fn specs(p: &ParsedFile) -> Vec<&str> {
    p.imports.iter().map(|i| i.specifier.as_str()).collect()
}

#[test]
fn reads_every_import_form() {
    let p = ts(r#"
import a from "./a";
import { b, c } from "./bc";
import * as ns from "./ns";
import "./side-effect";
import type { T } from "./types";
"#);
    assert_eq!(
        specs(&p),
        ["./a", "./bc", "./ns", "./side-effect", "./types"]
    );
    assert_eq!(p.imports[0].names, ImportedNames::Default);
    assert_eq!(
        p.imports[1].names,
        ImportedNames::Named(vec!["b".into(), "c".into()])
    );
    assert_eq!(p.imports[2].names, ImportedNames::Namespace);
    assert_eq!(p.imports[3].names, ImportedNames::SideEffect);
    assert!(p.imports[4].type_only);
}

#[test]
fn an_aliased_import_records_the_name_in_the_source_module() {
    let p = ts(r#"import { a as b } from "./x";"#);
    assert_eq!(p.imports[0].names, ImportedNames::Named(vec!["a".into()]));
}

#[test]
fn a_re_export_is_both_an_export_and_an_import() {
    let p = ts(r#"export { a, b } from "./ab";"#);
    assert_eq!(specs(&p), ["./ab"]);
    assert_eq!(p.imports[0].kind, ImportKind::ReExport);
    assert_eq!(p.exports.len(), 2);
    assert_eq!(p.exports[0].from.as_deref(), Some("./ab"));
}

#[test]
fn a_star_re_export_is_recorded_so_the_chain_can_be_followed() {
    let p = ts(r#"export * from "./everything";"#);
    assert_eq!(p.imports[0].kind, ImportKind::ReExport);
    assert_eq!(p.imports[0].names, ImportedNames::Namespace);
    assert!(p.exports.iter().any(|e| e.name == "*"));
}

#[test]
fn an_aliased_re_export_records_the_outward_facing_name() {
    let p = ts(r#"export { internal as public } from "./x";"#);
    assert_eq!(p.exports[0].name, "public");
    assert_eq!(p.exports[0].from.as_deref(), Some("./x"));
}

#[test]
fn local_exports_are_found_in_every_declaration_form() {
    let p = ts(r#"
export const a = 1;
export function b() {}
export class C {}
export interface I {}
export type T = string;
export enum E { X }
const hidden = 2;
export { hidden };
"#);
    let mut names: Vec<&str> = p.exports.iter().map(|e| e.name.as_str()).collect();
    names.sort_unstable();
    assert_eq!(names, ["C", "E", "I", "T", "a", "b", "hidden"]);
}

#[test]
fn export_default_is_recorded_under_that_name() {
    let p = ts("export default function main() {}");
    assert!(p.exports.iter().any(|e| e.name == "default"));
}

#[test]
fn an_arrow_function_assigned_to_a_const_counts_as_a_function() {
    let p = ts("export const go = () => {};");
    assert_eq!(p.definitions[0].kind, DefKind::Function);
}

#[test]
fn dynamic_import_and_require_are_found_at_any_depth() {
    let p = ts(r#"
async function load() {
  if (cond) {
const m = await import("./lazy");
const n = require("./legacy");
return [m, n];
  }
}
"#);
    assert_eq!(specs(&p), ["./lazy", "./legacy"]);
    assert_eq!(p.imports[0].kind, ImportKind::Dynamic);
    assert_eq!(p.imports[1].kind, ImportKind::Require);
}

#[test]
fn a_computed_dynamic_import_yields_no_false_specifier() {
    let p = ts(r#"const m = await import(`./locales/${lang}`);"#);
    assert!(p.imports.is_empty());
}

#[test]
fn tsx_parses_with_the_tsx_grammar() {
    let p = parse(
        Language::Tsx,
        r#"import React from "react";
export const V = () => <div className="x">hi</div>;"#,
    );
    assert_eq!(p.imports[0].specifier, "react");
    assert!(p.is_clean(), "TSX should parse cleanly, got {p:?}");
}

#[test]
fn a_barrel_records_each_forwarded_module_separately() {
    let p = ts(r#"
export { a } from "./a";
export { b } from "./b";
export * from "./c";
"#);
    assert_eq!(specs(&p), ["./a", "./b", "./c"]);

    assert_eq!(p.reexport_specifiers(), ["./a", "./b", "./c"]);
}

#[test]
fn a_file_that_does_not_parse_reports_damage_rather_than_pretending() {
    let p = ts("import { from './broken");
    assert!(!p.is_clean());
}
