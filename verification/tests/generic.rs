use keepsorted::{process_lines, Strategy};

// Feed a text through the generic dialect line by line and join the result.
fn process_input_generic(strategy: Strategy, text: &str) -> String {
    let mut lines: Vec<String> = Vec::new();
    for line in text.lines() {
        let mut owned = String::from(line);
        owned.push('\n');
        lines.push(owned);
    }
    let mut processed = process_lines(strategy, lines);
    if let Some(last) = processed.last_mut() {
        last.truncate(last.trim_end_matches('\n').len());
    }
    processed.concat()
}

fn check_generic(input: &str, expected: &str) {
    let result = process_input_generic(Strategy::Generic, input);
    assert!(
        result == expected,
        "Expected: {}\nActual: {}",
        expected,
        result
    );
}

#[test]
fn generic_simple_block() {
    check_generic(
        r#"
# Keep sorted.
b
a
        "#,
        r#"
# Keep sorted.
a
b
        "#,
    );
}

#[test]
fn generic_blocks_with_newline() {
    check_generic(
        r#"
# Keep sorted.
y
x

b
a
        "#,
        r#"
# Keep sorted.
x
y

b
a
        "#,
    );
}

#[test]
fn generic_several_blocks() {
    check_generic(
        r#"
# Keep sorted.
y
x

# Keep sorted.
b
a
        "#,
        r#"
# Keep sorted.
x
y

# Keep sorted.
a
b
        "#,
    );
}

#[test]
fn generic_block_with_multi_line_comment() {
    check_generic(
        r#"
# Keep sorted.
y
# Some multi-line comment
# for the line below.
x
b
a
        "#,
        r#"
# Keep sorted.
a
b
# Some multi-line comment
# for the line below.
x
y
        "#,
    );
}

#[test]
fn generic_block_with_trailing_comment() {
    check_generic(
        r#"
# Keep sorted.
b
a
# Some multi-line comment
# trailing comment.
        "#,
        r#"
# Keep sorted.
a
b
# Some multi-line comment
# trailing comment.
        "#,
    );
}

#[test]
fn generic_block_with_inline_comment() {
    check_generic(
        r#"
# Keep sorted.
y
x  # Some in-line comment.
b
a
        "#,
        r#"
# Keep sorted.
a
b
x  # Some in-line comment.
y
        "#,
    );
}

#[test]
fn generic_ignore_file() {
    check_generic(
        r#"
    keepsorted:ignore-file
# Keep sorted.
1b
1a

# Keep sorted.
2b
2a

# Keep sorted.
3b
3a
        "#,
        r#"
    keepsorted:ignore-file
# Keep sorted.
1b
1a

# Keep sorted.
2b
2a

# Keep sorted.
3b
3a
        "#,
    );
}

#[test]
fn generic_ignore_block_inside() {
    check_generic(
        r#"
# Keep sorted.
1b
1a

# Keep sorted.
    keepsorted:ignore-block
2b
2a

# Keep sorted.
3b
3a
        "#,
        r#"
# Keep sorted.
1a
1b

# Keep sorted.
    keepsorted:ignore-block
2b
2a

# Keep sorted.
3a
3b
        "#,
    );
}

#[test]
fn generic_ignore_block_before() {
    check_generic(
        r#"
# Keep sorted.
1b
1a

    keepsorted:ignore-block
# Keep sorted.
2b
2a

# Keep sorted.
3b
3a
        "#,
        r#"
# Keep sorted.
1a
1b

    keepsorted:ignore-block
# Keep sorted.
2b
2a

# Keep sorted.
3a
3b
        "#,
    );
}
