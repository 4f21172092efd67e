use keepsorted::{process_lines, Strategy};

// Feed a text through the dependency-table dialect and join the result.
fn process_cargo(text: &str) -> String {
    let mut lines: Vec<String> = Vec::new();
    for line in text.lines() {
        let mut owned = String::from(line);
        owned.push('\n');
        lines.push(owned);
    }
    let mut processed = process_lines(Strategy::CargoToml, lines);
    if let Some(last) = processed.last_mut() {
        last.truncate(last.trim_end_matches('\n').len());
    }
    processed.concat()
}

fn check_cargo(input: &str, expected: &str) {
    let result = process_cargo(input);
    assert!(
        result == expected,
        "Expected: {}\nActual: {}",
        expected,
        result
    );
}

#[test]
fn cargo_toml_simple() {
    check_cargo(
        r#"
[dependencies]
b = "2"
a = "1"
        "#,
        r#"
[dependencies]
a = "1"
b = "2"
        "#,
    );
}

#[test]
fn cargo_toml_list_with_item_comment() {
    check_cargo(
        r#"
[dependencies]
c = "3"
b = "2"
# Some comment related to line below.
a = "1"
        "#,
        r#"
[dependencies]
# Some comment related to line below.
a = "1"
b = "2"
c = "3"
        "#,
    );
}

#[test]
fn cargo_toml_list_with_inline_comment() {
    check_cargo(
        r#"
[dependencies]
c = "3"
b = "2"
a = "1"  # Some in-line comment.
        "#,
        r#"
[dependencies]
a = "1"  # Some in-line comment.
b = "2"
c = "3"
        "#,
    );
}

#[test]
fn cargo_toml_two_scopes() {
    check_cargo(
        r#"
[dependencies]
b = "2"
a = "1"
[lib]
name = "some_name"
path = "src/lib.rs"
        "#,
        r#"
[dependencies]
a = "1"
b = "2"
[lib]
name = "some_name"
path = "src/lib.rs"
        "#,
    );
}

#[test]
fn cargo_toml_block_with_newline_inside() {
    check_cargo(
        r#"
[dependencies]
b = "2"
a = "1"

y = "4"
x = "3"
        "#,
        r#"
[dependencies]
a = "1"
b = "2"

y = "4"
x = "3"
        "#,
    );
}

#[test]
fn cargo_toml_two_blocks() {
    check_cargo(
        r#"
[dependencies]
b = "2"
a = "1"

[dev-dependencies]
y = "4"
x = "3"
        "#,
        r#"
[dependencies]
a = "1"
b = "2"

[dev-dependencies]
x = "3"
y = "4"
        "#,
    );
}

#[test]
fn cargo_toml_nested_list() {
    check_cargo(
        r#"
[dependencies]
b = { workspace = true, default-features = false, features = [
    "z",
    "y",
    "x",
] }
a = "1"
        "#,
        r#"
[dependencies]
a = "1"
b = { workspace = true, default-features = false, features = [
    "z",
    "y",
    "x",
] }
        "#,
    );
}
