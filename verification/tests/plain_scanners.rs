use keepsorted::block::{sort, SortStrategy};
use keepsorted::cargo_toml::process_lines_cargo_toml;
use keepsorted::default::process_lines_default;
use keepsorted::{process_text, Strategy};

#[test]
fn plain_default_scanner_sorts_a_block() {
    let lines = vec!["# Keep sorted.", "b", "a", "", "z", "y"];
    let out = process_lines_default(lines);
    assert_eq!(out, vec!["# Keep sorted.", "a", "b", "", "z", "y"]);
}

#[test]
fn plain_default_scanner_needs_the_strict_trigger() {
    // the plain trigger is case-sensitive and requires the period
    let lines = vec!["# keep sorted", "b", "a"];
    let out = process_lines_default(lines);
    assert_eq!(out, vec!["# keep sorted", "b", "a"]);
}

#[test]
fn plain_cargo_scanner_sorts_dependency_tables() {
    let lines = vec![
        "[dependencies]",
        "b = \"2\"",
        "a = \"1\"",
        "[lib]",
        "name = \"x\"",
    ];
    let out = process_lines_cargo_toml(lines);
    assert_eq!(
        out,
        vec![
            "[dependencies]",
            "a = \"1\"",
            "b = \"2\"",
            "[lib]",
            "name = \"x\"",
        ]
    );
}

#[test]
fn block_sort_cargo_strategy_uses_the_raw_line() {
    let mut input = vec!["b = \"2\"", "# note", "a = \"1\""];
    let expected = vec!["# note", "a = \"1\"", "b = \"2\""];
    sort(&mut input, SortStrategy::CargoToml);
    assert_eq!(input, expected);
}

#[test]
fn empty_text_stays_empty() {
    assert_eq!(process_text(Strategy::Generic, ""), "");
}
