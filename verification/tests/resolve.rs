use zatlas::model::{FileId, Language, UnresolvedReason};
use zatlas::parse::{ExportItem, ImportedNames, ParsedFile};
use zatlas::resolve::go::{self, GoProject};
use zatlas::resolve::javascript::jsonc;
use zatlas::resolve::javascript::{
    audit_aliases, build_project, candidate_paths, collect_aliases, join_rel, resolve_specifier,
    JsProject, PathAlias,
};
use zatlas::resolve::python::{self, PythonProject};
use zatlas::resolve::rust::{
    self as rustres, is_crate_root, lookup_entry, module_dir, normalise_crate_name, path_attr_base,
    read_manifest, resolve_specifier_scoped, walk_module_tree, CrateInfo, RustProject,
};
use zatlas::resolve::{follow_reexport, traceable_symbols, FileIndex, MAX_REEXPORT_DEPTH};
use std::collections::HashMap;

fn file_with(exports: Vec<ExportItem>) -> ParsedFile {
    let mut p = ParsedFile::empty();
    p.exports = exports;
    p
}

fn ex(name: &str, from: Option<&str>) -> ExportItem {
    ExportItem { name: name.into(), from: from.map(|s| s.to_string()), line: 1 }
}

#[test]
fn a_symbol_defined_locally_resolves_to_that_file() {
    let mut parsed = HashMap::new();
    parsed.insert(0u32, file_with(vec![ex("x", None)]));
    let got = follow_reexport(FileId(0), "x", &parsed, &|_, _| None);
    assert_eq!(got, Some(FileId(0)));
}

#[test]
fn a_barrel_resolves_to_the_file_that_actually_defines_the_symbol() {
    let mut parsed = HashMap::new();
    parsed.insert(0u32, file_with(vec![ex("x", Some("./real"))]));
    parsed.insert(1u32, file_with(vec![ex("x", None)]));
    let got = follow_reexport(FileId(0), "x", &parsed, &|_, spec: &str| (spec == "./real").then_some(FileId(1)));
    assert_eq!(got, Some(FileId(1)));
}

#[test]
fn a_chain_of_barrels_is_followed_to_the_end() {
    let mut parsed = HashMap::new();
    parsed.insert(0u32, file_with(vec![ex("x", Some("b"))]));
    parsed.insert(1u32, file_with(vec![ex("x", Some("c"))]));
    parsed.insert(2u32, file_with(vec![ex("x", None)]));
    let got = follow_reexport(FileId(0), "x", &parsed, &|_, spec: &str| match spec {
        "b" => Some(FileId(1)),
        "c" => Some(FileId(2)),
        _ => None,
    });
    assert_eq!(got, Some(FileId(2)));
}

#[test]
fn a_star_re_export_is_followed_when_no_named_forward_matches() {
    let mut parsed = HashMap::new();
    parsed.insert(0u32, file_with(vec![ex("*", Some("./all"))]));
    parsed.insert(1u32, file_with(vec![ex("buried", None)]));
    let got = follow_reexport(FileId(0), "buried", &parsed, &|_, _| Some(FileId(1)));
    assert_eq!(got, Some(FileId(1)));
}

#[test]
fn a_cycle_between_barrels_terminates_instead_of_looping() {
    let mut parsed = HashMap::new();
    parsed.insert(0u32, file_with(vec![ex("x", Some("b"))]));
    parsed.insert(1u32, file_with(vec![ex("x", Some("a"))]));
    let got = follow_reexport(FileId(0), "x", &parsed, &|_, spec: &str| match spec {
        "b" => Some(FileId(1)),
        "a" => Some(FileId(0)),
        _ => None,
    });
    assert_eq!(got, None, "a barrel cycle must not hang the scan");
}

#[test]
fn a_chain_longer_than_the_cap_gives_up_rather_than_running_forever() {
    let mut parsed = HashMap::new();
    for i in 0..(MAX_REEXPORT_DEPTH as u32 + 5) {
        parsed.insert(i, file_with(vec![ex("x", Some("next"))]));
    }
    let got = follow_reexport(FileId(0), "x", &parsed, &|from: FileId, _| Some(FileId(from.0 + 1)));
    assert_eq!(got, None);
}

#[test]
fn a_namespace_import_cannot_be_traced_through_a_barrel() {
    assert!(traceable_symbols(&ImportedNames::Namespace).is_none());
    assert!(traceable_symbols(&ImportedNames::SideEffect).is_none());
    assert_eq!(traceable_symbols(&ImportedNames::Named(vec!["a".into()])), Some(&["a".to_string()][..]));
}

#[test]
fn a_case_mismatch_resolves_but_is_reported_as_one() {
    let idx = FileIndex::new(vec!["src/foo.ts".into()], vec![Language::TypeScript]);
    assert_eq!(idx.id_case_insensitive("src/foo.ts"), Some((FileId(0), true)));
    assert_eq!(idx.id_case_insensitive("src/Foo.ts"), Some((FileId(0), false)));
    assert_eq!(idx.id_case_insensitive("src/nope.ts"), None);
    assert_eq!(idx.id("src/Foo.ts"), None);
}

#[test]
fn the_index_round_trips_paths_and_ids() {
    let idx = FileIndex::new(vec!["a.ts".into(), "b/c.ts".into()], vec![Language::TypeScript, Language::TypeScript]);
    assert_eq!(idx.id("b/c.ts"), Some(FileId(1)));
    assert_eq!(idx.path(FileId(1)), Some("b/c.ts"));
    assert_eq!(idx.id("nope.ts"), None);
    assert!(idx.contains("a.ts"));
}

#[test]
fn a_path_listed_twice_maps_to_its_last_position() {
    let idx = FileIndex::new(vec!["a.ts".into(), "a.ts".into()], vec![Language::TypeScript, Language::TypeScript]);
    assert_eq!(idx.id("a.ts"), Some(FileId(1)));
    assert_eq!(idx.len(), 2);
    assert!(!idx.is_empty());
}

// JavaScript and TypeScript

fn index(paths: &[&str]) -> FileIndex {
    let paths: Vec<String> = paths.iter().map(|s| s.to_string()).collect();
    let langs = vec![Language::TypeScript; paths.len()];
    FileIndex::new(paths, langs)
}

fn resolve(from: &str, spec: &str, idx: &FileIndex) -> Result<FileId, UnresolvedReason> {
    resolve_specifier(from, spec, idx, &JsProject::default())
}

fn alias(prefix: &str, wildcard: bool, targets: &[&str]) -> PathAlias {
    PathAlias {
        prefix: prefix.into(),
        suffix: String::new(),
        has_wildcard: wildcard,
        targets: targets.iter().map(|s| s.to_string()).collect(),
        source: "tsconfig.json".into(),
        pattern: String::new(),
    }
}

#[test]
fn join_rel_normalises_dot_and_dotdot() {
    assert_eq!(join_rel("src/ui", "./a"), "src/ui/a");
    assert_eq!(join_rel("src/ui", "../domain/b"), "src/domain/b");
    assert_eq!(join_rel("src/a/b", "../../c"), "src/c");
    assert_eq!(join_rel("", "./a"), "a");
    assert_eq!(join_rel("src", "../../escape"), "escape");
}

#[test]
fn a_relative_import_resolves_with_the_extension_added() {
    let idx = index(&["src/a.ts", "src/b.ts"]);
    assert_eq!(resolve("src/a.ts", "./b", &idx), Ok(FileId(1)));
}

#[test]
fn a_relative_import_walks_up_directories() {
    let idx = index(&["src/ui/a.ts", "src/domain/b.ts"]);
    assert_eq!(resolve("src/ui/a.ts", "../domain/b", &idx), Ok(FileId(1)));
}

#[test]
fn a_directory_import_resolves_to_its_index_file() {
    let idx = index(&["src/a.ts", "src/thing/index.ts"]);
    assert_eq!(resolve("src/a.ts", "./thing", &idx), Ok(FileId(1)));
}

#[test]
fn ts_wins_over_js_when_both_exist() {
    let idx = index(&["src/a.ts", "src/b.js", "src/b.ts"]);
    assert_eq!(resolve("src/a.ts", "./b", &idx), Ok(FileId(2)));
}

#[test]
fn an_explicit_extension_is_honoured() {
    let idx = index(&["src/a.ts", "src/b.ts"]);
    assert_eq!(resolve("src/a.ts", "./b.ts", &idx), Ok(FileId(1)));
}

#[test]
fn a_missing_relative_file_reports_no_such_file_not_external() {
    let idx = index(&["src/a.ts"]);
    assert_eq!(resolve("src/a.ts", "./gone", &idx), Err(UnresolvedReason::NoSuchFile("./gone".into())));
}

#[test]
fn candidate_paths_expands_aliases_the_same_way_resolution_does() {
    let mut project = JsProject::default();
    let mut a = alias("@/", true, &["src/*"]);
    a.pattern = "@/*".into();
    project.aliases = vec![a];
    assert_eq!(candidate_paths("src/lib/ipc.ts", "@/bindings/Thing", &project), ["src/bindings/Thing"]);
    assert_eq!(candidate_paths("src/lib/ipc.ts", "./local", &JsProject::default()), ["src/lib/local"]);
}

#[test]
fn a_stylesheet_import_is_an_asset_not_a_broken_import() {
    let idx = index(&["src/main.tsx"]);
    assert_eq!(resolve("src/main.tsx", "./index.css", &idx), Err(UnresolvedReason::Asset("css".into())));
}

#[test]
fn asset_detection_covers_the_usual_bundler_imports() {
    for (spec, ext) in [
        ("./logo.svg", "svg"),
        ("./data.json", "json"),
        ("~/styles/app.scss", "scss"),
        ("./shader.glsl", "glsl"),
        ("./font.woff2", "woff2"),
    ] {
        let idx = index(&["src/a.ts"]);
        assert_eq!(resolve("src/a.ts", spec, &idx), Err(UnresolvedReason::Asset(ext.into())), "{spec} should be an asset");
    }
}

#[test]
fn a_bundler_query_suffix_does_not_hide_the_asset_extension() {
    let idx = index(&["src/a.ts"]);
    assert_eq!(
        resolve("src/a.ts", "./worker.js?worker", &idx),
        Err(UnresolvedReason::NoSuchFile("./worker.js?worker".into())),
        "js is source, not an asset, even with a suffix"
    );
    assert_eq!(resolve("src/a.ts", "./icon.svg?raw", &idx), Err(UnresolvedReason::Asset("svg".into())));
}

#[test]
fn an_upper_case_asset_extension_is_still_an_asset() {
    let idx = index(&["src/a.ts"]);
    assert_eq!(resolve("src/a.ts", "./Logo.PNG#frag", &idx), Err(UnresolvedReason::Asset("png".into())));
}

#[test]
fn a_real_source_file_is_never_mistaken_for_an_asset() {
    let idx = index(&["src/a.ts", "src/b.ts"]);
    assert_eq!(resolve("src/a.ts", "./b", &idx), Ok(FileId(1)));
}

#[test]
fn a_bare_specifier_is_external_with_the_package_name_extracted() {
    let idx = index(&["src/a.ts"]);
    assert_eq!(resolve("src/a.ts", "react", &idx), Err(UnresolvedReason::External("react".into())));
    assert_eq!(resolve("src/a.ts", "lodash/debounce", &idx), Err(UnresolvedReason::External("lodash".into())));
}

#[test]
fn a_scoped_package_keeps_both_of_its_segments() {
    let idx = index(&["src/a.ts"]);
    assert_eq!(
        resolve("src/a.ts", "@tanstack/react-virtual", &idx),
        Err(UnresolvedReason::External("@tanstack/react-virtual".into()))
    );
    assert_eq!(resolve("src/a.ts", "@scope/pkg/deep/path", &idx), Err(UnresolvedReason::External("@scope/pkg".into())));
}

#[test]
fn a_paths_alias_resolves_through_its_wildcard() {
    let idx = index(&["src/a.ts", "src/lib/util.ts"]);
    let mut project = JsProject::default();
    project.aliases = vec![alias("@/", true, &["src/*"])];
    assert_eq!(resolve_specifier("src/a.ts", "@/lib/util", &idx, &project), Ok(FileId(1)));
}

#[test]
fn an_alias_that_matches_but_points_nowhere_is_reported_as_such() {
    let idx = index(&["src/a.ts"]);
    let mut project = JsProject::default();
    project.aliases = vec![alias("@/", true, &["src/*"])];
    assert_eq!(
        resolve_specifier("src/a.ts", "@/missing", &idx, &project),
        Err(UnresolvedReason::UnmatchedAlias("@/missing".into()))
    );
}

#[test]
fn a_non_wildcard_alias_matches_exactly() {
    let idx = index(&["src/a.ts", "src/config.ts"]);
    let mut project = JsProject::default();
    project.aliases = vec![alias("~config", false, &["src/config"])];
    assert_eq!(resolve_specifier("src/a.ts", "~config", &idx, &project), Ok(FileId(1)));
}

#[test]
fn base_url_makes_a_bare_path_importable() {
    let idx = index(&["src/a.ts", "src/lib/x.ts"]);
    let mut project = JsProject::default();
    project.base_urls = vec!["src".into()];
    assert_eq!(resolve_specifier("src/a.ts", "lib/x", &idx, &project), Ok(FileId(1)));
}

#[test]
fn a_workspace_package_resolves_across_the_monorepo() {
    let idx = index(&["apps/web/a.ts", "packages/ui/index.ts", "packages/ui/button.ts"]);
    let mut project = JsProject::default();
    project.workspace_packages = vec![("@app/ui".to_string(), "packages/ui".to_string())];
    assert_eq!(resolve_specifier("apps/web/a.ts", "@app/ui", &idx, &project), Ok(FileId(1)));
    assert_eq!(resolve_specifier("apps/web/a.ts", "@app/ui/button", &idx, &project), Ok(FileId(2)));
}

#[test]
fn a_longer_alias_prefix_wins_over_a_shorter_one() {
    let idx = index(&["src/a.ts", "src/ui/x.ts", "other/x.ts"]);
    let mut project = JsProject::default();
    project.aliases = vec![alias("@app/", true, &["other/*"]), alias("@app/ui/", true, &["src/ui/*"])];
    project.aliases.sort_by_key(|a| std::cmp::Reverse(a.prefix.len()));
    assert_eq!(resolve_specifier("src/a.ts", "@app/ui/x", &idx, &project), Ok(FileId(1)));
}

#[test]
fn jsonc_comments_and_trailing_commas_do_not_break_tsconfig_reading() {
    let raw = r#"{
  // the compiler options
  "compilerOptions": {
    "baseUrl": ".", /* inline */
    "paths": {
      "@/*": ["src/*"],
    }
  }
}"#;
    let src = jsonc::strip_comments(raw);
    assert_eq!(jsonc::string_field(&src, "baseUrl", 0).as_deref(), Some("."));
    let mut aliases = Vec::new();
    collect_aliases(&src, "", "tsconfig.json", &mut aliases);
    assert_eq!(aliases.len(), 1);
    assert_eq!(aliases[0].prefix, "@/");
    assert_eq!(aliases[0].targets, ["src/*"]);
}

#[test]
fn a_url_inside_a_string_is_not_mistaken_for_a_comment() {
    let src = jsonc::strip_comments(r#"{"homepage": "https://example.com/x"}"#);
    assert!(src.contains("https://example.com/x"), "got: {src}");
}

#[test]
fn multiple_alias_targets_are_tried_in_order() {
    let idx = index(&["src/a.ts", "fallback/x.ts"]);
    let mut project = JsProject::default();
    project.aliases = vec![alias("@/", true, &["primary/*", "fallback/*"])];
    assert_eq!(resolve_specifier("src/a.ts", "@/x", &idx, &project), Ok(FileId(1)));
}

#[test]
fn jsonc_keys_arrays_and_fields_are_found_by_byte_offset() {
    let src = r#"{"name": "pkg", "list": ["a", "", "b"]}"#;
    assert_eq!(jsonc::find_key(src, "name"), Some(7));
    assert_eq!(jsonc::find_key(src, "absent"), None);
    assert_eq!(jsonc::string_field(src, "name", 0).as_deref(), Some("pkg"));
    assert_eq!(jsonc::string_field(src, "name", 8), None);
    let at = jsonc::find_key(src, "list").unwrap();
    assert_eq!(jsonc::string_array(src, at), ["a", "b"]);
    assert_eq!(jsonc::strip_comments("a /* x */b // y\nc"), "a b \nc");
}

fn configs(tsconfig: &str) -> Vec<(String, String)> {
    vec![("tsconfig.json".to_string(), tsconfig.to_string())]
}

fn audit(files: &[&str], tsconfig: &str, specifiers: &[&str], on_disk: bool) -> Vec<zatlas::model::AliasAudit> {
    let idx = index(files);
    let project = build_project(&configs(tsconfig));
    let specs: Vec<String> = specifiers.iter().map(|s| s.to_string()).collect();
    let disk = vec![on_disk; project.aliases.len()];
    audit_aliases(&project, &idx, &specs, &disk)
}

#[test]
fn an_alias_pointing_at_nothing_is_reported_as_broken() {
    let found = audit(
        &["src/real.ts"],
        r#"{"compilerOptions":{"baseUrl":".","paths":{"@gone/*":["src/gone/*"]}}}"#,
        &["@gone/thing"],
        false,
    );
    assert_eq!(found.len(), 1);
    assert_eq!(found[0].pattern, "@gone/*");
    assert!(!found[0].resolves);
    assert_eq!(found[0].used_by, 1);
    assert_eq!(found[0].source, "tsconfig.json");
}

#[test]
fn an_alias_whose_target_is_in_the_scan_is_not_reported() {
    let found = audit(&["src/a.ts"], r#"{"compilerOptions":{"baseUrl":".","paths":{"@app/*":["src/*"]}}}"#, &["@app/a"], false);
    assert!(found.is_empty());
}

#[test]
fn an_alias_pointing_at_a_gitignored_directory_is_not_called_broken() {
    let found = audit(&["src/a.ts"], r#"{"compilerOptions":{"baseUrl":".","paths":{"@gen/*":["generated/*"]}}}"#, &["@gen/api"], true);
    assert!(found.is_empty(), "{found:?}");
}

#[test]
fn an_alias_nothing_imports_is_reported_as_unused_but_resolving() {
    let found = audit(&["src/a.ts"], r#"{"compilerOptions":{"baseUrl":".","paths":{"@app/*":["src/*"]}}}"#, &["./relative"], false);
    assert_eq!(found.len(), 1);
    assert!(found[0].resolves, "it works, it is just unused");
    assert_eq!(found[0].used_by, 0);
}

#[test]
fn usage_is_counted_through_the_wildcard_not_by_exact_match() {
    let found = audit(&[], r#"{"compilerOptions":{"baseUrl":".","paths":{"@x/*":["nowhere/*"]}}}"#, &["@x/one", "@x/two", "other"], false);
    assert_eq!(found[0].used_by, 2);
}

#[test]
fn a_repository_with_no_tsconfig_audits_nothing() {
    let idx = index(&["src/a.ts"]);
    let project = build_project(&[]);
    assert!(audit_aliases(&project, &idx, &[], &[]).is_empty());
}

#[test]
fn build_project_reads_base_urls_aliases_and_workspace_packages() {
    let cfgs = vec![
        ("web/tsconfig.json".to_string(), r#"{"compilerOptions":{"baseUrl":"src","paths":{"@/*":["*"],"@ui/*":["ui/*"]}}}"#.to_string()),
        ("packages/ui/package.json".to_string(), r#"{"name": "@app/ui"}"#.to_string()),
        ("package.json".to_string(), r#"{"name": "root"}"#.to_string()),
    ];
    let p = build_project(&cfgs);
    assert_eq!(p.base_urls, ["web/src"]);
    assert_eq!(p.aliases.len(), 2);
    assert_eq!(p.aliases[0].prefix, "@ui/");
    assert_eq!(p.aliases[0].targets, ["web/src/ui/*"]);
    assert_eq!(p.aliases[1].prefix, "@/");
    assert_eq!(p.workspace_packages, [("@app/ui".to_string(), "packages/ui".to_string())]);
}

// Python

fn py_index(paths: &[&str]) -> FileIndex {
    let paths: Vec<String> = paths.iter().map(|s| s.to_string()).collect();
    let langs = vec![Language::Python; paths.len()];
    FileIndex::new(paths, langs)
}

fn py_project(files: &[&str]) -> PythonProject {
    let owned: Vec<String> = files.iter().map(|s| s.to_string()).collect();
    python::build_project(&owned)
}

#[test]
fn an_absolute_import_resolves_from_the_repository_root() {
    let files = ["app/__init__.py", "app/thing.py", "main.py"];
    let idx = py_index(&files);
    let p = py_project(&files);
    let got = python::resolve_specifier("main.py", "app.thing", &[], &idx, &p);
    assert_eq!(got, Ok(idx.id("app/thing.py").unwrap()));
}

#[test]
fn a_src_layout_is_resolved_too() {
    let files = ["src/app/__init__.py", "src/app/thing.py", "src/main.py"];
    let idx = py_index(&files);
    let p = py_project(&files);
    let got = python::resolve_specifier("src/main.py", "app.thing", &[], &idx, &p);
    assert_eq!(got, Ok(idx.id("src/app/thing.py").unwrap()));
}

#[test]
fn importing_a_package_lands_on_its_init_file() {
    let files = ["app/__init__.py", "main.py"];
    let idx = py_index(&files);
    let p = py_project(&files);
    let got = python::resolve_specifier("main.py", "app", &[], &idx, &p);
    assert_eq!(got, Ok(idx.id("app/__init__.py").unwrap()));
}

#[test]
fn a_single_dot_import_stays_in_the_current_package() {
    let files = ["pkg/__init__.py", "pkg/a.py", "pkg/b.py"];
    let idx = py_index(&files);
    let p = py_project(&files);
    let got = python::resolve_specifier("pkg/a.py", ".b", &[], &idx, &p);
    assert_eq!(got, Ok(idx.id("pkg/b.py").unwrap()));
}

#[test]
fn each_extra_dot_climbs_one_package() {
    let files = ["pkg/__init__.py", "pkg/sub/__init__.py", "pkg/sub/a.py", "pkg/top.py"];
    let idx = py_index(&files);
    let p = py_project(&files);
    let got = python::resolve_specifier("pkg/sub/a.py", "..top", &[], &idx, &p);
    assert_eq!(got, Ok(idx.id("pkg/top.py").unwrap()));
}

#[test]
fn from_dot_import_name_resolves_the_named_submodule() {
    let files = ["pkg/__init__.py", "pkg/a.py", "pkg/sibling.py"];
    let idx = py_index(&files);
    let p = py_project(&files);
    let got = python::resolve_specifier("pkg/a.py", ".", &["sibling".into()], &idx, &p);
    assert_eq!(got, Ok(idx.id("pkg/sibling.py").unwrap()));
}

#[test]
fn from_package_import_submodule_resolves_to_the_submodule() {
    let files = ["app/__init__.py", "app/deep/__init__.py", "main.py"];
    let idx = py_index(&files);
    let p = py_project(&files);
    let got = python::resolve_specifier("main.py", "app", &["deep".into()], &idx, &p);
    assert_eq!(got, Ok(idx.id("app/deep/__init__.py").unwrap()));
}

#[test]
fn from_package_import_a_symbol_lands_on_the_package_itself() {
    let files = ["app/__init__.py", "main.py"];
    let idx = py_index(&files);
    let p = py_project(&files);
    let got = python::resolve_specifier("main.py", "app", &["SomeClass".into()], &idx, &p);
    assert_eq!(got, Ok(idx.id("app/__init__.py").unwrap()));
}

#[test]
fn the_standard_library_is_external_not_broken() {
    let files = ["main.py"];
    let idx = py_index(&files);
    let p = py_project(&files);
    assert_eq!(python::resolve_specifier("main.py", "os.path", &[], &idx, &p), Err(UnresolvedReason::External("os".into())));
    assert_eq!(python::resolve_specifier("main.py", "numpy", &[], &idx, &p), Err(UnresolvedReason::External("numpy".into())));
}

#[test]
fn a_relative_import_pointing_nowhere_is_a_real_failure() {
    let files = ["pkg/__init__.py", "pkg/a.py"];
    let idx = py_index(&files);
    let p = py_project(&files);
    assert_eq!(python::resolve_specifier("pkg/a.py", ".gone", &[], &idx, &p), Err(UnresolvedReason::NoSuchFile(".gone".into())));
}

#[test]
fn a_stub_file_resolves_when_there_is_no_source() {
    let files = ["typings/thing.pyi", "main.py"];
    let idx = py_index(&files);
    let mut p = py_project(&files);
    p.roots.push("typings".into());
    p.roots.sort_by_key(|r| std::cmp::Reverse(r.len()));
    let got = python::resolve_specifier("main.py", "thing", &[], &idx, &p);
    assert_eq!(got, Ok(idx.id("typings/thing.pyi").unwrap()));
}

#[test]
fn python_roots_are_longest_first_and_packages_listed_once() {
    let p = py_project(&["src/app/__init__.py", "lib/x.py", "a/b/__init__.py", "a/b/__init__.py"]);
    assert_eq!(p.roots, ["lib", "src", "a", ""]);
    assert_eq!(p.packages, ["a/b", "src/app"]);
    let d = PythonProject::default();
    assert!(d.roots.is_empty());
}

// Go

fn go_index(paths: &[&str]) -> FileIndex {
    let owned: Vec<String> = paths.iter().map(|s| s.to_string()).collect();
    let langs = vec![Language::Go; owned.len()];
    FileIndex::new(owned, langs)
}

fn go_project(modules: &[(&str, &str)]) -> GoProject {
    let mut p = GoProject { modules: modules.iter().map(|(m, d)| (m.to_string(), d.to_string())).collect() };
    p.modules.sort_by_key(|m| std::cmp::Reverse(m.0.len()));
    p
}

#[test]
fn an_internal_package_resolves_through_the_module_path() {
    let idx = go_index(&["main.go", "pkg/thing/thing.go"]);
    let p = go_project(&[("github.com/user/repo", "")]);
    let got = go::resolve_specifier("main.go", "github.com/user/repo/pkg/thing", &idx, &p);
    assert_eq!(got, Ok(idx.id("pkg/thing/thing.go").unwrap()));
}

#[test]
fn the_module_root_itself_resolves() {
    let idx = go_index(&["main.go"]);
    let p = go_project(&[("github.com/user/repo", "")]);
    let got = go::resolve_specifier("main.go", "github.com/user/repo", &idx, &p);
    assert_eq!(got, Ok(idx.id("main.go").unwrap()));
}

#[test]
fn the_standard_library_is_external() {
    let idx = go_index(&["main.go"]);
    let p = go_project(&[("github.com/user/repo", "")]);
    assert_eq!(go::resolve_specifier("main.go", "fmt", &idx, &p), Err(UnresolvedReason::External("fmt".into())));
}

#[test]
fn a_third_party_package_is_external() {
    let idx = go_index(&["main.go"]);
    let p = go_project(&[("github.com/user/repo", "")]);
    assert_eq!(
        go::resolve_specifier("main.go", "github.com/lib/pq", &idx, &p),
        Err(UnresolvedReason::External("github.com/lib/pq".into()))
    );
}

#[test]
fn a_missing_package_inside_our_own_module_is_a_real_failure() {
    let idx = go_index(&["main.go"]);
    let p = go_project(&[("github.com/user/repo", "")]);
    assert_eq!(
        go::resolve_specifier("main.go", "github.com/user/repo/gone", &idx, &p),
        Err(UnresolvedReason::NoSuchFile("github.com/user/repo/gone".into()))
    );
}

#[test]
fn a_nested_module_wins_over_its_parent() {
    let idx = go_index(&["main.go", "tools/sub/a.go"]);
    let p = go_project(&[("github.com/user/repo", ""), ("github.com/user/repo/tools", "tools")]);
    let got = go::resolve_specifier("main.go", "github.com/user/repo/tools/sub", &idx, &p);
    assert_eq!(got, Ok(idx.id("tools/sub/a.go").unwrap()));
}

#[test]
fn a_package_target_is_stable_and_prefers_non_test_files() {
    let idx = go_index(&["pkg/a_test.go", "pkg/b.go", "pkg/c.go"]);
    let p = go_project(&[("m", "")]);
    let first = go::resolve_specifier("main.go", "m/pkg", &idx, &p);
    assert_eq!(first, Ok(idx.id("pkg/b.go").unwrap()));
    assert_eq!(first, go::resolve_specifier("main.go", "m/pkg", &idx, &p));
}

#[test]
fn a_relative_import_resolves_against_the_importing_file() {
    let idx = go_index(&["cmd/main.go", "cmd/helper/h.go"]);
    let p = GoProject::default();
    let got = go::resolve_specifier("cmd/main.go", "./helper", &idx, &p);
    assert_eq!(got, Ok(idx.id("cmd/helper/h.go").unwrap()));
}

#[test]
fn a_go_mod_file_yields_its_module_path() {
    let p = go::build_project(&[("go.mod".to_string(), "module github.com/user/repo\n\ngo 1.22\n".to_string())]);
    assert_eq!(p.modules, [("github.com/user/repo".to_string(), String::new())]);
}

#[test]
fn go_modules_are_sorted_longest_first_and_quotes_are_dropped() {
    let p = go::build_project(&[
        ("go.mod".to_string(), "module a\n".to_string()),
        ("tools/go.mod".to_string(), "  module \"a/tools\"  \r\n".to_string()),
        ("x/notes.txt".to_string(), "module ignored\n".to_string()),
        ("empty/go.mod".to_string(), "go 1.22\n".to_string()),
    ]);
    assert_eq!(p.modules, [("a/tools".to_string(), "tools".to_string()), ("a".to_string(), String::new())]);
    assert_eq!(go::declared_module("module \"\"\n"), None);
}

#[test]
fn package_dirs_counts_go_files_per_directory() {
    let idx = go_index(&["a/x.go", "b/y.go", "a/z.go", "a/readme.md"]);
    assert_eq!(go::package_dirs(&idx), [("a".to_string(), 2), ("b".to_string(), 1)]);
}

// Rust

fn rs_index(paths: &[&str]) -> FileIndex {
    let paths: Vec<String> = paths.iter().map(|s| s.to_string()).collect();
    let langs = vec![Language::Rust; paths.len()];
    FileIndex::new(paths, langs)
}

fn rs_project(crate_name: &str, root: &str, mods: &[(&str, &[&str])]) -> RustProject {
    let parsed: Vec<(String, Vec<String>)> = mods
        .iter()
        .map(|(file, decls)| (file.to_string(), decls.iter().map(|s| s.to_string()).collect()))
        .collect();
    let mut all: Vec<String> = mods.iter().map(|(f, _)| f.to_string()).collect();
    all.push(root.to_string());
    all.sort();
    all.dedup();
    let idx = rs_index(&all.iter().map(|s| s.as_str()).collect::<Vec<_>>());
    let krate = CrateInfo { name: crate_name.into(), dir: String::new(), roots: vec![root.into()] };
    let mut p = RustProject::default();
    p.crates = vec![krate.clone()];
    walk_module_tree(&krate, root, &idx, &parsed, &mut p.module_to_file, &mut p.file_to_module);
    p
}

#[test]
fn module_dir_follows_rusts_one_rule() {
    assert_eq!(module_dir("src/lib.rs"), "src");
    assert_eq!(module_dir("src/main.rs"), "src");
    assert_eq!(module_dir("src/a/mod.rs"), "src/a");
    assert_eq!(module_dir("src/a.rs"), "src/a");
    assert_eq!(module_dir("src/a/b.rs"), "src/a/b");
}

#[test]
fn the_module_tree_is_built_from_mod_declarations_not_the_file_tree() {
    let p = rs_project("mycrate", "src/lib.rs", &[("src/lib.rs", &["auth"]), ("src/auth.rs", &["session"])]);
    assert_eq!(lookup_entry(&p.module_to_file, "mycrate").unwrap(), "src/lib.rs");
    assert_eq!(lookup_entry(&p.module_to_file, "mycrate::auth").unwrap(), "src/auth.rs");
}

#[test]
fn a_file_never_reached_by_a_mod_declaration_is_not_in_the_module_tree() {
    let p = rs_project("mycrate", "src/lib.rs", &[("src/lib.rs", &["a"]), ("src/a.rs", &[]), ("src/orphan.rs", &[])]);
    assert!(lookup_entry(&p.file_to_module, "src/a.rs").is_some());
    assert!(lookup_entry(&p.file_to_module, "src/orphan.rs").is_none());
}

fn walk(parsed: Vec<(String, Vec<String>)>, files: &[&str]) -> (Vec<(String, String)>, Vec<(String, String)>) {
    let idx = rs_index(files);
    let krate = CrateInfo { name: "k".into(), dir: String::new(), roots: vec!["src/lib.rs".into()] };
    let mut m = Vec::new();
    let mut f = Vec::new();
    walk_module_tree(&krate, "src/lib.rs", &idx, &parsed, &mut m, &mut f);
    (m, f)
}

#[test]
fn both_the_flat_and_mod_rs_layouts_resolve() {
    let parsed = vec![("src/lib.rs".to_string(), vec!["flat".to_string(), "nested".to_string()])];
    let (m, _) = walk(parsed, &["src/lib.rs", "src/flat.rs", "src/nested/mod.rs"]);
    assert_eq!(lookup_entry(&m, "k::flat").unwrap(), "src/flat.rs");
    assert_eq!(lookup_entry(&m, "k::nested").unwrap(), "src/nested/mod.rs");
}

#[test]
fn a_crate_path_resolves_to_the_module_that_owns_the_item() {
    let p = rs_project(
        "mycrate",
        "src/lib.rs",
        &[("src/lib.rs", &["auth"]), ("src/auth.rs", &["session"]), ("src/auth/session.rs", &[])],
    );
    let idx = rs_index(&["src/auth.rs", "src/auth/session.rs", "src/lib.rs"]);
    let got = rustres::resolve_specifier("src/lib.rs", "crate::auth::session::Thing", false, &idx, &p);
    assert_eq!(got, Ok(idx.id("src/auth/session.rs").unwrap()));
}

#[test]
fn super_climbs_one_module_not_one_directory() {
    let p = rs_project(
        "k",
        "src/lib.rs",
        &[("src/lib.rs", &["a"]), ("src/a.rs", &["b", "c"]), ("src/a/b.rs", &[]), ("src/a/c.rs", &[])],
    );
    let idx = rs_index(&["src/a.rs", "src/a/b.rs", "src/a/c.rs", "src/lib.rs"]);
    let got = rustres::resolve_specifier("src/a/b.rs", "super::c::Thing", false, &idx, &p);
    assert_eq!(got, Ok(idx.id("src/a/c.rs").unwrap()));
}

#[test]
fn repeated_super_climbs_repeatedly() {
    let p = rs_project(
        "k",
        "src/lib.rs",
        &[("src/lib.rs", &["a", "top"]), ("src/a.rs", &["b"]), ("src/a/b.rs", &[]), ("src/top.rs", &[])],
    );
    let idx = rs_index(&["src/a.rs", "src/a/b.rs", "src/lib.rs", "src/top.rs"]);
    let got = rustres::resolve_specifier("src/a/b.rs", "super::super::top::T", false, &idx, &p);
    assert_eq!(got, Ok(idx.id("src/top.rs").unwrap()));
}

#[test]
fn self_resolves_within_the_current_module() {
    let p = rs_project("k", "src/lib.rs", &[("src/lib.rs", &["a"]), ("src/a.rs", &["child"]), ("src/a/child.rs", &[])]);
    let idx = rs_index(&["src/a.rs", "src/a/child.rs", "src/lib.rs"]);
    let got = rustres::resolve_specifier("src/a.rs", "self::child::Thing", false, &idx, &p);
    assert_eq!(got, Ok(idx.id("src/a/child.rs").unwrap()));
}

#[test]
fn a_path_attribute_sends_the_module_somewhere_else_entirely() {
    let parsed = vec![("src/lib.rs".to_string(), vec!["weird\u{1}actually/here.rs".to_string()])];
    let (m, _) = walk(parsed, &["src/lib.rs", "src/actually/here.rs"]);
    assert_eq!(lookup_entry(&m, "k::weird").unwrap(), "src/actually/here.rs");
}

#[test]
fn super_inside_an_inline_test_module_lands_on_the_file_itself() {
    let p = rs_project("k", "src/lib.rs", &[("src/lib.rs", &[])]);
    let idx = rs_index(&["src/lib.rs"]);
    let got = resolve_specifier_scoped("src/lib.rs", "super", false, Some("tests"), &idx, &p);
    assert_eq!(got, Ok(idx.id("src/lib.rs").unwrap()));
}

#[test]
fn super_from_a_nested_inline_module_climbs_only_within_the_file() {
    let p = rs_project("k", "src/lib.rs", &[("src/lib.rs", &[])]);
    let idx = rs_index(&["src/lib.rs"]);
    let got = resolve_specifier_scoped("src/lib.rs", "super::super", false, Some("a::b"), &idx, &p);
    assert_eq!(got, Ok(idx.id("src/lib.rs").unwrap()));
}

#[test]
fn an_integration_test_file_is_a_crate_root() {
    assert!(is_crate_root("crates/k/tests/robustness.rs"));
    assert!(is_crate_root("benches/bench.rs"));
    assert!(is_crate_root("examples/demo.rs"));
    assert!(!is_crate_root("src/a.rs"));
    assert_eq!(module_dir("crates/k/tests/robustness.rs"), "crates/k/tests");
}

#[test]
fn a_mod_inside_an_inline_module_looks_in_that_subdirectory() {
    let idx = rs_index(&["tests/robustness.rs", "tests/attacks/jpeg.rs"]);
    let p = RustProject::default();
    let got = resolve_specifier_scoped("tests/robustness.rs", "jpeg", true, Some("attacks"), &idx, &p);
    assert_eq!(got, Ok(idx.id("tests/attacks/jpeg.rs").unwrap()));
}

#[test]
fn a_mod_inside_a_nested_inline_module_descends_twice() {
    let idx = rs_index(&["src/lib.rs", "src/a/b/c.rs"]);
    let p = RustProject::default();
    let got = resolve_specifier_scoped("src/lib.rs", "c", true, Some("a::b"), &idx, &p);
    assert_eq!(got, Ok(idx.id("src/a/b/c.rs").unwrap()));
}

#[test]
fn a_file_outside_every_module_tree_says_so_rather_than_blaming_its_imports() {
    let p = rs_project("k", "src/lib.rs", &[("src/lib.rs", &[])]);
    let idx = rs_index(&["src/lib.rs", "src/stray.rs"]);
    assert_eq!(
        rustres::resolve_specifier("src/stray.rs", "crate::Thing", false, &idx, &p),
        Err(UnresolvedReason::FileNotInModuleTree)
    );
    assert_eq!(
        rustres::resolve_specifier("src/stray.rs", "super::Thing", false, &idx, &p),
        Err(UnresolvedReason::FileNotInModuleTree)
    );
    assert_eq!(
        rustres::resolve_specifier("src/stray.rs", "serde::Serialize", false, &idx, &p),
        Err(UnresolvedReason::External("serde".into()))
    );
}

#[test]
fn an_external_crate_is_reported_as_external_not_as_a_broken_path() {
    let p = rs_project("k", "src/lib.rs", &[("src/lib.rs", &[])]);
    let idx = rs_index(&["src/lib.rs"]);
    assert_eq!(
        rustres::resolve_specifier("src/lib.rs", "serde::Serialize", false, &idx, &p),
        Err(UnresolvedReason::External("serde".into()))
    );
    assert_eq!(
        rustres::resolve_specifier("src/lib.rs", "std::collections::HashMap", false, &idx, &p),
        Err(UnresolvedReason::External("std".into()))
    );
}

#[test]
fn an_integration_test_file_is_registered_as_its_own_crate_root() {
    let files = ["Cargo.toml", "src/lib.rs", "tests/qa.rs"];
    let idx = rs_index(&files);
    let manifests = vec![("Cargo.toml".to_string(), "[package]\nname = \"demo\"\n".to_string())];
    let p = rustres::build_project(&idx, &manifests, &Vec::new());
    assert!(lookup_entry(&p.file_to_module, "tests/qa.rs").is_some(), "the test file must be in the module tree: {:?}", p.file_to_module);
    let got = resolve_specifier_scoped("tests/qa.rs", "super", false, Some("image_tests"), &idx, &p);
    assert_eq!(got, Ok(idx.id("tests/qa.rs").unwrap()));
    assert_eq!(p.crates.len(), 2);
    assert_eq!(p.crates[0].name, "demo");
    assert_eq!(p.crates[1].name, "demo_qa");
}

#[test]
fn a_hyphenated_crate_name_is_matched_by_its_underscored_identifier() {
    assert_eq!(normalise_crate_name("zatlas-core"), "zatlas_core");
    let mut p = rs_project("zatlas_core", "src/lib.rs", &[("src/lib.rs", &["model"]), ("src/model.rs", &[])]);
    p.crates[0].name = "zatlas_core".into();
    let idx = rs_index(&["src/lib.rs", "src/model.rs"]);
    let got = rustres::resolve_specifier("src/lib.rs", "zatlas_core::model::FileId", false, &idx, &p);
    assert_eq!(got, Ok(idx.id("src/model.rs").unwrap()));
}

#[test]
fn a_mod_declaration_resolves_to_the_child_file() {
    let idx = rs_index(&["src/lib.rs", "src/child.rs"]);
    let p = RustProject::default();
    let got = rustres::resolve_specifier("src/lib.rs", "child", true, &idx, &p);
    assert_eq!(got, Ok(idx.id("src/child.rs").unwrap()));
}

#[test]
fn a_mod_declaration_with_no_file_reports_no_such_file() {
    let idx = rs_index(&["src/lib.rs"]);
    let p = RustProject::default();
    assert_eq!(
        rustres::resolve_specifier("src/lib.rs", "missing", true, &idx, &p),
        Err(UnresolvedReason::NoSuchFile("mod missing".into()))
    );
}

#[test]
fn a_manifest_yields_its_package_name_bins_and_dependencies() {
    let (name, _members, bins, deps) = read_manifest(
        r#"
[package]
name = "my-crate"
version = "0.1.0"

[[bin]]
name = "tool"
path = "src/tool.rs"

[dependencies]
serde = { version = "1" }
tokio = "1"
"#,
    );
    assert_eq!(name.as_deref(), Some("my-crate"));
    assert_eq!(bins, ["src/tool.rs"]);
    assert!(deps.contains(&"serde".to_string()));
    assert!(deps.contains(&"tokio".to_string()));
}

#[test]
fn workspace_members_come_from_the_inline_array() {
    let (name, members, _, _) = read_manifest("[workspace]\nmembers = [\"crates/a\", 'crates/b', ]\n");
    assert_eq!(name, None);
    assert_eq!(members, ["crates/a", "crates/b"]);
}

#[test]
fn a_path_attribute_resolves_against_the_files_own_directory() {
    assert_eq!(path_attr_base("src/scan/windows.rs", None), "src/scan");
    assert_eq!(module_dir("src/scan/windows.rs"), "src/scan/windows");
    let idx = rs_index(&["src/scan/windows.rs", "src/scan/windows_wlanapi.rs"]);
    let p = RustProject::default();
    let got = rustres::resolve_specifier("src/scan/windows.rs", "imp\u{1}windows_wlanapi.rs", true, &idx, &p);
    assert_eq!(got, Ok(idx.id("src/scan/windows_wlanapi.rs").unwrap()));
}

#[test]
fn a_cycle_created_by_path_attributes_does_not_hang_the_walk() {
    let parsed = vec![
        ("src/lib.rs".to_string(), vec!["a\u{1}a.rs".to_string()]),
        ("src/a.rs".to_string(), vec!["back\u{1}../lib.rs".to_string()]),
    ];
    let (m, _) = walk(parsed, &["src/lib.rs", "src/a.rs"]);
    assert!(lookup_entry(&m, "k::a").is_some());
}
