use keepsorted::{process_lines, Strategy};

// Ownership tables go through the same path-ownership dialect.
fn process_owners(text: &str) -> String {
    let mut lines: Vec<String> = Vec::new();
    for line in text.lines() {
        let mut owned = String::from(line);
        owned.push('\n');
        lines.push(owned);
    }
    let mut processed = process_lines(Strategy::Gitignore, lines);
    if let Some(last) = processed.last_mut() {
        last.truncate(last.trim_end_matches('\n').len());
    }
    processed.concat()
}

fn check_owners(input: &str, expected: &str) {
    let result = process_owners(input);
    assert!(
        result == expected,
        "Expected: {}\nActual: {}",
        expected,
        result
    );
}

#[test]
fn codeowners_simple_block() {
    check_owners(
        r#"
/.d/                 @company/teams/a
/.c/                 @company/teams/b
/.b/workflows        @company/teams/c @company/teams/d
/.a/CODEOWNERS       @company/teams/e
        "#,
        r#"
/.a/CODEOWNERS       @company/teams/e
/.b/workflows        @company/teams/c @company/teams/d
/.c/                 @company/teams/b
/.d/                 @company/teams/a
        "#,
    );
}

#[test]
fn codeowners_two_blocks() {
    check_owners(
        r#"
/.d/                 @company/teams/a
/.c/                 @company/teams/b

/.b/workflows        @company/teams/c @company/teams/d
/.a/CODEOWNERS       @company/teams/e
        "#,
        r#"
/.c/                 @company/teams/b
/.d/                 @company/teams/a

/.a/CODEOWNERS       @company/teams/e
/.b/workflows        @company/teams/c @company/teams/d
        "#,
    );
}

#[test]
fn codeowners_ignore_file() {
    check_owners(
        r#"
# keepsorted: ignore file
/.d/                 @company/teams/a
/.c/                 @company/teams/b

/.b/workflows        @company/teams/c @company/teams/d
/.a/CODEOWNERS       @company/teams/e
        "#,
        r#"
# keepsorted: ignore file
/.d/                 @company/teams/a
/.c/                 @company/teams/b

/.b/workflows        @company/teams/c @company/teams/d
/.a/CODEOWNERS       @company/teams/e
        "#,
    );
}

#[test]
fn codeowners_ignore_block() {
    check_owners(
        r#"
# keepsorted: ignore block
/.d/                 @company/teams/a
/.c/                 @company/teams/b

/.b/workflows        @company/teams/c @company/teams/d
/.a/CODEOWNERS       @company/teams/e
        "#,
        r#"
# keepsorted: ignore block
/.d/                 @company/teams/a
/.c/                 @company/teams/b

/.a/CODEOWNERS       @company/teams/e
/.b/workflows        @company/teams/c @company/teams/d
        "#,
    );
}

#[test]
fn codeowners_1() {
    check_owners(
        r#"

# [Misc]
/b
/a

# [Bazel]
/b
/a

# [Rust Lang]
/b
/a
        "#,
        r#"

# [Misc]
/a
/b

# [Bazel]
/a
/b

# [Rust Lang]
/a
/b
        "#,
    );
}
