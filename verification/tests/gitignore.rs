use keepsorted::{process_lines, Strategy};

// Feed a text through the path-ownership dialect and join the result.
fn process_paths(text: &str) -> String {
    let mut lines: Vec<String> = Vec::new();
    for line in text.lines() {
        let mut owned = String::from(line);
        owned.push('\n');
        lines.push(owned);
    }
    let mut processed = process_lines(Strategy::Gitignore, lines);
    if let Some(last) = processed.last_mut() {
        last.truncate(last.trim_end_matches('\n').len());
    }
    processed.concat()
}

fn check_paths(input: &str, expected: &str) {
    let result = process_paths(input);
    assert!(
        result == expected,
        "Expected: {}\nActual: {}",
        expected,
        result
    );
}

#[test]
fn gitignore_1() {
    check_paths(
        r#"

/b
/a

# [Bazel]
/b
/a

# [Rust]
/b
/a
        "#,
        r#"

/a
/b

# [Bazel]
/a
/b

# [Rust]
/a
/b
        "#,
    );
}

#[test]
fn gitignore_ignore_file() {
    check_paths(
        r#"
# keepsorted:ignore-file

/b
/a

# [Bazel]
/b
/a

# [Rust]
/b
/a
        "#,
        r#"
# keepsorted:ignore-file

/b
/a

# [Bazel]
/b
/a

# [Rust]
/b
/a
        "#,
    );
}

#[test]
fn gitignore_ignore_block_after_header_comment() {
    check_paths(
        r#"

/b
/a

# [Bazel]
# keepsorted:ignore-block
/b
/a

# [Rust]
/b
/a
        "#,
        r#"

/a
/b

# [Bazel]
# keepsorted:ignore-block
/b
/a

# [Rust]
/a
/b
        "#,
    );
}
