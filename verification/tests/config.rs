use zatlas::config::{cache_db_path, cache_dir, toml_array, toml_string, Layer, LayerRule, ZatlasConfig};
use zatlas::lsp::{LspMode, LspSettings};

fn strings(v: &[&str]) -> Vec<String> {
    v.iter().map(|s| s.to_string()).collect()
}

fn layer(name: &str, paths: &[&str], rules: &[&str]) -> Layer {
    Layer { name: name.to_string(), paths: strings(paths), rules: strings(rules) }
}

/// The configuration the documented sample describes: TOML binds the rules
/// written after the last `[[layers]]` header to that layer.
fn sample() -> ZatlasConfig {
    ZatlasConfig {
        includes: strings(&["src/**", "crates/**"]),
        exclude: strings(&["**/generated/**", "**/*.test.ts"]),
        entrypoints: strings(&["src/main.tsx", "crates/api/src/main.rs"]),
        layers: vec![
            layer("ui", &["src/ui/**"], &[]),
            layer("domain", &["src/domain/**"], &[]),
            layer("data", &["src/data/**"], &["ui -> domain", "domain -> data"]),
        ],
        rules: Vec::new(),
        lsp: LspSettings::default(),
    }
}

fn with_layers(names: &[&str], root_rules: &[&str], last_rules: &[&str]) -> ZatlasConfig {
    let mut layers: Vec<Layer> = names.iter().map(|n| layer(n, &[], &[])).collect();
    if let Some(last) = layers.last_mut() {
        last.rules = strings(last_rules);
    }
    ZatlasConfig { layers, rules: strings(root_rules), ..ZatlasConfig::default() }
}

fn rule(from: &str, to: &str) -> LayerRule {
    LayerRule { from: from.into(), to: to.into() }
}

fn parsed(text: &str) -> toml::Table {
    toml::from_str::<toml::Table>(text).expect("the written document parses")
}

fn list(t: &toml::Table, key: &str) -> Vec<String> {
    match t.get(key) {
        Some(v) => v
            .as_array()
            .expect("an array")
            .iter()
            .map(|x| x.as_str().expect("a string").to_string())
            .collect(),
        None => Vec::new(),
    }
}

#[test]
fn rules_parse_into_directed_pairs() {
    let rules = sample().layer_rules();
    assert_eq!(rules.len(), 2);
    assert_eq!(rules[0], rule("ui", "domain"));
    assert_eq!(rules[1], rule("domain", "data"));
}

#[test]
fn whitespace_around_the_arrow_does_not_matter() {
    let cfg = with_layers(&["a", "b"], &[], &["a->b"]);
    assert_eq!(cfg.layer_rules(), [rule("a", "b")]);
}

#[test]
fn a_rule_naming_an_undeclared_layer_is_dropped_and_reported() {
    let cfg = with_layers(&["ui"], &[], &["ui -> domian", "ui -> ui"]);
    assert_eq!(cfg.layer_rules(), [rule("ui", "ui")]);
    assert_eq!(cfg.invalid_rules(), ["ui -> domian"]);
}

#[test]
fn rules_are_accepted_at_the_document_root_too() {
    let cfg = with_layers(&["ui", "domain"], &["ui -> domain"], &[]);
    assert_eq!(cfg.layer_rules(), [rule("ui", "domain")]);
}

#[test]
fn rules_written_after_the_layers_blocks_still_apply() {
    let cfg = sample();
    assert!(cfg.rules.is_empty(), "the root key really is empty here");
    assert_eq!(cfg.layers[2].rules.len(), 2, "TOML bound them to the last layer");
    assert_eq!(cfg.layer_rules().len(), 2, "and they still take effect");
}

#[test]
fn rules_split_across_both_positions_are_merged() {
    let cfg = with_layers(&["ui", "domain"], &["ui -> domain"], &["domain -> ui"]);
    assert_eq!(cfg.layer_rules().len(), 2);
}

#[test]
fn a_rule_without_an_arrow_is_reported_as_invalid() {
    let cfg = with_layers(&["ui"], &[], &["ui domain"]);
    assert!(cfg.layer_rules().is_empty());
    assert_eq!(cfg.invalid_rules(), ["ui domain"]);
}

#[test]
fn lsp_is_off_unless_the_repository_opts_in() {
    assert_eq!(sample().lsp.mode, LspMode::Off);
    assert_eq!(ZatlasConfig::default().lsp.mode, LspMode::Off);
}

#[test]
fn the_cache_lives_inside_the_scanned_repository() {
    let root = "/tmp/repo";
    assert_eq!(cache_dir(root), "/tmp/repo/.zatlas");
    assert_eq!(cache_db_path(root), "/tmp/repo/.zatlas/cache.sqlite");
}

#[test]
fn a_generated_config_parses_back_to_the_same_thing() {
    let before = sample();
    let round = parsed(&before.to_toml());
    let layers = round.get("layers").and_then(|v| v.as_array()).expect("layers are written");
    assert_eq!(layers.len(), before.layers.len());
    assert_eq!(list(&round, "include"), before.includes);
    assert_eq!(list(&round, "exclude"), before.exclude);
    assert_eq!(list(&round, "entrypoints"), before.entrypoints);
    assert_eq!(list(&round, "rules"), before.all_rule_strings());
    for (written, l) in layers.iter().zip(&before.layers) {
        let t = written.as_table().expect("a table");
        assert_eq!(t.get("name").and_then(|v| v.as_str()), Some(l.name.as_str()));
        assert_eq!(list(t, "paths"), l.paths);
    }
}

#[test]
fn rules_are_written_before_the_layer_blocks() {
    let text = sample().to_toml();
    let rules_at = text.find("rules =").expect("rules are written");
    let layers_at = text.find("[[layers]]").expect("layers are written");
    assert!(rules_at < layers_at, "got:\n{text}");

    let back = parsed(&text);
    assert_eq!(list(&back, "rules").len(), 2);
}

#[test]
fn an_empty_config_writes_a_document_that_still_parses() {
    let text = ZatlasConfig::default().to_toml();
    assert!(parsed(&text).is_empty());
}

#[test]
fn a_quote_in_a_glob_is_escaped_rather_than_breaking_the_file() {
    let cfg = ZatlasConfig { includes: vec!["src/we\"ird/**".into()], ..Default::default() };
    let back = parsed(&cfg.to_toml());
    assert_eq!(list(&back, "include"), ["src/we\"ird/**"]);
}

#[test]
fn a_backslash_in_a_glob_survives_the_round_trip() {
    let cfg = ZatlasConfig { exclude: vec!["gen\\\\out/**".into()], ..Default::default() };
    let back = parsed(&cfg.to_toml());
    assert_eq!(list(&back, "exclude"), ["gen\\\\out/**"]);
}

#[test]
fn the_lsp_section_is_only_written_when_it_differs_from_the_default() {
    assert!(!ZatlasConfig::default().to_toml().contains("[lsp]"));
    let cfg = ZatlasConfig {
        lsp: LspSettings { mode: LspMode::Repair, ..Default::default() },
        ..Default::default()
    };
    let text = cfg.to_toml();
    assert!(text.contains("[lsp]"));
    let back = parsed(&text);
    let lsp = back.get("lsp").and_then(|v| v.as_table()).expect("an lsp table");
    assert_eq!(lsp.get("mode").and_then(|v| v.as_str()), Some("repair"));
}

#[test]
fn a_string_escapes_the_characters_toml_reserves() {
    assert_eq!(toml_string("plain"), "\"plain\"");
    assert_eq!(toml_string("a\"b\\c\nd\re\tf"), "\"a\\\"b\\\\c\\nd\\re\\tf\"");
    assert_eq!(toml_array(&strings(&[])), "[]");
    assert_eq!(toml_array(&strings(&["x", "y"])), "[\"x\", \"y\"]");
}

#[test]
fn the_document_is_written_exactly() {
    let cfg = ZatlasConfig {
        includes: strings(&["src/**"]),
        layers: vec![layer("ui", &["src/ui/**"], &["ui -> ui"])],
        lsp: LspSettings { mode: LspMode::Verify, servers: strings(&["rust-analyzer"]), ..Default::default() },
        ..Default::default()
    };
    let expected = "# Written by ZAtlas. Safe to edit by hand.\n\
# https://github.com/TheHolyOneZ/ZAtlas\n\n\
# Globs limiting the scan. Empty means everything the walk finds.\n\
include = [\"src/**\"]\n\n\
# Allowed dependency directions. Anything else between two declared\n\
# layers is a violation.\n\
rules = [\"ui -> ui\"]\n\n\
[[layers]]\nname = \"ui\"\npaths = [\"src/ui/**\"]\n\n\
[lsp]\nmode = \"verify\"\nservers = [\"rust-analyzer\"]\n";
    assert_eq!(cfg.to_toml(), expected);
}

#[test]
fn all_rule_strings_lists_the_root_rules_first() {
    let cfg = with_layers(&["a", "b"], &["a -> b"], &["b -> a", "nonsense"]);
    assert_eq!(cfg.all_rule_strings(), ["a -> b", "b -> a", "nonsense"]);
    assert_eq!(cfg.invalid_rules(), ["nonsense"]);
}

#[test]
fn a_rule_with_spaces_inside_the_arrow_is_normalised_before_it_is_judged() {
    let cfg = with_layers(&["a", "b"], &["  a   ->b  "], &[]);
    assert_eq!(cfg.layer_rules(), [rule("a", "b")]);
    assert!(cfg.invalid_rules().is_empty());
    assert_eq!(ZatlasConfig::FILE_NAME, "zatlas.toml");
}
